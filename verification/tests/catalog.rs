use bufdb::config::InstanceConfig;
use bufdb::config::SchemaConfig;
use bufdb::config::TableConfig;
use bufdb::error::ErrorKind;
use bufdb::instance::Instance;

#[test]
fn test_init() {
    let config = InstanceConfig::new(String::from("BUF_TEST"));
    let mut instance = Instance::new(config).unwrap();

    let config = SchemaConfig::new(false, false);
    let schema = instance.open_schema("S_TEST", config).unwrap();

    {
        let config = TableConfig::new(false, false);
        let mut kv = schema.create_kv_table(&mut instance, "T_KV", config).unwrap();

        kv.put("K_I32", 1i32).unwrap();
        kv.put("K_STR", "HELLO").unwrap();

        schema.close_kv_table(&mut instance, kv).unwrap();
    }

    {
        let kv = schema
            .open_kv_table(&mut instance, "T_KV", TableConfig::new(false, false))
            .unwrap();

        let val: i32 = kv.get_or_default("K_I32").unwrap();
        assert_eq!(val, 1i32);

        let text: String = kv.get_or_default("K_STR").unwrap();
        assert_eq!(text, "HELLO");

        assert_eq!(false, kv.contains_key("K_MISS").unwrap());

        schema.close_kv_table(&mut instance, kv).unwrap();
    }
}

#[test]
fn test_schema_config_rejected() {
    let mut instance = Instance::new(InstanceConfig::new(String::from("DB"))).unwrap();
    let e = instance.open_schema("S", SchemaConfig::new(true, true)).unwrap_err();
    assert!(matches!(e.inner, ErrorKind::Configuration));
}

#[test]
fn test_table_config_rejected() {
    let mut instance = Instance::new(InstanceConfig::new(String::from("DB"))).unwrap();
    let schema = instance.open_schema("S", SchemaConfig::new(false, false)).unwrap();

    let e = schema
        .create_kv_table(&mut instance, "T", TableConfig::new(true, true))
        .unwrap_err();
    assert!(matches!(e.inner, ErrorKind::Configuration));

    let e = schema
        .open_kv_table(&mut instance, "T", TableConfig::new(true, true))
        .unwrap_err();
    assert!(matches!(e.inner, ErrorKind::Configuration));
}

#[test]
fn test_create_duplicate() {
    let mut instance = Instance::new(InstanceConfig::new(String::from("DB"))).unwrap();
    let schema = instance.open_schema("S", SchemaConfig::new(false, false)).unwrap();

    let kv = schema
        .create_kv_table(&mut instance, "T", TableConfig::new(false, false))
        .unwrap();
    schema.close_kv_table(&mut instance, kv).unwrap();

    let e = schema
        .create_kv_table(&mut instance, "T", TableConfig::new(false, false))
        .unwrap_err();
    assert!(matches!(e.inner, ErrorKind::CreateDuplicate));
}

#[test]
fn test_open_missing_table() {
    let mut instance = Instance::new(InstanceConfig::new(String::from("DB"))).unwrap();
    let schema = instance.open_schema("S", SchemaConfig::new(false, false)).unwrap();

    let e = schema
        .open_kv_table(&mut instance, "T_NONE", TableConfig::new(false, false))
        .unwrap_err();
    assert!(matches!(e.inner, ErrorKind::NotFound));
}

#[test]
fn test_reopen_differing_readonly() {
    let mut instance = Instance::new(InstanceConfig::new(String::from("DB"))).unwrap();
    let schema = instance.open_schema("S", SchemaConfig::new(false, false)).unwrap();

    let kv = schema
        .create_kv_table(&mut instance, "T", TableConfig::new(false, false))
        .unwrap();
    schema.close_kv_table(&mut instance, kv).unwrap();

    let e = schema
        .open_kv_table(&mut instance, "T", TableConfig::new(true, false))
        .unwrap_err();
    assert!(matches!(e.inner, ErrorKind::Configuration));
}

#[test]
fn test_drop_schema_while_held() {
    let mut instance = Instance::new(InstanceConfig::new(String::from("DB"))).unwrap();
    let schema = instance.open_schema("S_HELD", SchemaConfig::new(false, false)).unwrap();

    let e = instance.drop_schema("S_HELD").unwrap_err();
    assert!(matches!(e.inner, ErrorKind::CloseUsing));

    instance.close_schema(schema);
    let dropped = instance.drop_schema("S_HELD").unwrap();
    assert!(dropped);
    assert!(!instance.drop_schema("S_HELD").unwrap());
}

#[test]
fn test_meta_already_closed() {
    let mut schema = bufdb::schema::SchemaImpl::new("S", SchemaConfig::new(false, false)).unwrap();
    schema.meta.close();
    let e = schema.meta.contains("T").unwrap_err();
    assert!(matches!(e.inner, ErrorKind::AlreadyClosed));
}

#[test]
fn test_maintain_evicts_idle_tables() {
    let config = InstanceConfig::new(String::from("DB"));
    let mut instance = Instance::new(config).unwrap();
    let sconfig = SchemaConfig::new(false, false).set_max_idle_time(Some(1));
    let schema = instance.open_schema("S", sconfig).unwrap();
    let kv = schema
        .create_kv_table(&mut instance, "T", TableConfig::new(false, false))
        .unwrap();
    schema.close_kv_table(&mut instance, kv).unwrap();

    let far_future = bufdb::cache::now() + 3_600_000;
    instance.maintain(far_future);

    // The idle table handle is gone from the cache, but the definition
    // remains, so the table can still be opened.
    let kv = schema
        .open_kv_table(&mut instance, "T", TableConfig::new(false, false))
        .unwrap();
    schema.close_kv_table(&mut instance, kv).unwrap();
}

#[test]
fn test_meta_document_round_trip() {
    let mut schema = bufdb::schema::SchemaImpl::new("S", SchemaConfig::new(false, false)).unwrap();
    let kv = schema.create_kv_table("T_DOC", TableConfig::new(false, false)).unwrap();

    // The stored definition document is valid JSON carrying the table name.
    let doc = schema.meta.get("T_DOC").unwrap().unwrap();
    assert_eq!(
        "{\"name\":\"T_DOC\",\"comment\":null,\"fields\":[],\"key_fields\":[],\"indexes\":[]}",
        doc
    );
    let parsed = bufdb_app_parse(&doc);
    assert_eq!("T_DOC", parsed);
    drop(kv);

    // Any definition document round-trips through the meta store.
    let full = "{\"name\":\"T_FULL\",\"comment\":\"c\",\"fields\":[],\"key_fields\":[],\"indexes\":[]}";
    schema.meta.put("T_FULL", full).unwrap();
    assert_eq!(Some(String::from(full)), schema.meta.get("T_FULL").unwrap());
    schema.meta.delete("T_FULL").unwrap();
    assert_eq!(None, schema.meta.get("T_FULL").unwrap());
}

fn bufdb_app_parse(doc: &str) -> String {
    let value: serde_json::Value = serde_json::from_str(doc).unwrap();
    value["name"].as_str().unwrap().to_owned()
}

#[test]
fn test_get_or_else() {
    let mut instance = Instance::new(InstanceConfig::new(String::from("DB"))).unwrap();
    let schema = instance.open_schema("S", SchemaConfig::new(false, false)).unwrap();
    let mut kv = schema
        .create_kv_table(&mut instance, "T", TableConfig::new(false, false))
        .unwrap();
    kv.put("K", 5i32).unwrap();
    assert_eq!(5i32, kv.get_or_else("K", || 7i32).unwrap());
    assert_eq!(7i32, kv.get_or_else("K_MISS", || 7i32).unwrap());
    assert_eq!(3i32, kv.get_or("K_MISS", 3i32).unwrap());
    schema.close_kv_table(&mut instance, kv).unwrap();
}
