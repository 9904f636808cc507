//! Schemas: a catalog of table definitions over a meta store, with a cache
//! of open table handles.
//!
//! The meta store maps each table name to its persisted definition.  A
//! schema rejects a configuration that is both temporary and readonly,
//! rejects creating a table whose name is already defined, and rejects
//! opening an undefined one.

use vstd::prelude::*;
use crate::cache::CachePool;
use crate::config::SchemaConfig;
use crate::config::TableConfig;
use crate::database::PrimaryDatabase;
use crate::database::ValueKeyCreator;
use crate::error::Error;
use crate::error::ErrorKind;
use crate::io::str_enc_some;
use crate::io::to_entry;
use crate::table::KVTable;
use crate::table::TableImpl;

verus! {

/// The per-schema store of table definitions, keyed by table name.
#[derive(Debug)]
pub struct MetaStorage {
    pub db: PrimaryDatabase<ValueKeyCreator>,
    pub closed: bool,
}

impl MetaStorage {
    /// The store is sorted and consistent, and carries no index listeners.
    pub open spec fn wf(&self) -> bool {
        self.db.wf() && self.db.listeners@.len() == 0
    }

    /// Whether a definition of this name is stored in an open meta store.
    pub open spec fn spec_defined(&self, name: Seq<char>) -> bool {
        !self.closed && self.db.database.has_key(str_enc_some(name))
    }

    /// Whether a table of this name is defined.
    pub fn contains(&self, name: &str) -> (r: Result<bool, Error>)
        requires
            self.wf(),
            name@.len() * 16 + 16 <= usize::MAX,
        ensures
            self.closed ==> (r matches Err(e) && e.inner is AlreadyClosed),
            !self.closed ==> (r matches Ok(b) && b == self.spec_defined(name@)),
    {
        if self.closed {
            return Err(Error { inner: ErrorKind::AlreadyClosed });
        }
        let nref: &str = name;
        proof {
            crate::io::lemma_encode_utf8_len(name@);
        }
        let key = match to_entry(&nref) {
            Ok(k) => k,
            Err(e) => {
                return Err(e);
            },
        };
        match self.db.get(&key) {
            Ok(Some(_)) => Ok(true),
            Ok(None) => Ok(false),
            Err(e) => Err(e),
        }
    }

    /// Stores a definition document under its table's name, replacing any
    /// prior document; every other name's record is untouched.
    pub fn put(&mut self, name: &str, document: &str) -> (r: Result<(), Error>)
        requires
            old(self).wf(),
            name@.len() * 16 + 16 <= usize::MAX,
            document@.len() * 16 + 16 <= usize::MAX,
        ensures
            final(self).wf(),
            final(self).closed == old(self).closed,
            old(self).closed ==> (r matches Err(e) && e.inner is AlreadyClosed && *final(self)
                == *old(self)),
            (!old(self).closed ==> {
                &&& r is Ok
                &&& final(self).spec_defined(name@)
                &&& final(self).db.database.spec_get(str_enc_some(name@)) == Some(str_enc_some(
                    document@))
                &&& forall|k2: Seq<u8>|
                    k2 != str_enc_some(name@) ==> final(self).db.database.spec_get(k2)
                        == #[trigger] old(self).db.database.spec_get(k2)
            }),
    {
        if self.closed {
            return Err(Error { inner: ErrorKind::AlreadyClosed });
        }
        let nref: &str = name;
        let dref: &str = document;
        proof {
            crate::io::lemma_encode_utf8_len(name@);
            crate::io::lemma_encode_utf8_len(document@);
        }
        let key = match to_entry(&nref) {
            Ok(k) => k,
            Err(e) => {
                return Err(e);
            },
        };
        let data = match to_entry(&dref) {
            Ok(d) => d,
            Err(e) => {
                return Err(e);
            },
        };
        let ghost pre = self.db.database;
        match self.db.put(&key, &data) {
            Ok(_) => {
                proof {
                    let post = self.db.database;
                    let i: int = if pre.has_key(key@) {
                        choose|i: int|
                            crate::store::put_replaced(pre.entries@, post.entries@, true, key@,
                                data@, i)
                    } else {
                        choose|i: int|
                            crate::store::put_inserted(pre.entries@, post.entries@, true, key@,
                                data@, i)
                    };
                    crate::store::lemma_put_spec_get(&pre, &post, key@, data@, i);
                    assert forall|k2: Seq<u8>|
                        k2 != str_enc_some(name@) implies post.spec_get(k2)
                        == #[trigger] pre.spec_get(k2) by {
                        crate::entry::lemma_lex_cmp_eq(k2, key@);
                        crate::entry::lemma_lex_cmp_eq(key@, k2);
                        crate::store::lemma_put_frame(&pre, &post, key@, data@, i, k2);
                    }
                }
                Ok(())
            },
            Err(e) => {
                proof {
                    assert(false);
                }
                Err(e)
            },
        }
    }

    /// Reads back the definition document stored under a table name: nothing
    /// when the name is undefined, the document when the stored bytes decode
    /// (they always do for what `put` wrote; see `lemma_str_enc_round_trip`),
    /// an error exactly otherwise.
    pub fn get(&self, name: &str) -> (r: Result<Option<String>, Error>)
        requires
            self.wf(),
            name@.len() * 16 + 16 <= usize::MAX,
        ensures
            self.closed ==> (r matches Err(e) && e.inner is AlreadyClosed),
            (!self.closed ==> {
                &&& (self.db.database.spec_get(str_enc_some(name@)) is None ==> (r matches Ok(o)
                    && o is None))
                &&& (self.db.database.spec_get(str_enc_some(name@)) matches Some(vb) ==> {
                    &&& (<String as crate::io::Inputable>::dec_some(vb) ==> (r matches Ok(o)
                        && o matches Some(d) && <String as crate::io::Inputable>::dec_matches(
                        vb, d)))
                    &&& (!<String as crate::io::Inputable>::dec_some(vb) ==> r is Err)
                })
            }),
    {
        if self.closed {
            return Err(Error { inner: ErrorKind::AlreadyClosed });
        }
        let nref: &str = name;
        proof {
            crate::io::lemma_encode_utf8_len(name@);
        }
        let key = match to_entry(&nref) {
            Ok(k) => k,
            Err(e) => {
                return Err(e);
            },
        };
        match self.db.get(&key) {
            Ok(Some(value)) => {
                match <String as crate::io::Inputable>::from_entry(&value) {
                    Ok(d) => Ok(Some(d)),
                    Err(e) => Err(e),
                }
            },
            Ok(None) => Ok(None),
            Err(e) => Err(e),
        }
    }

    /// Removes the definition stored under a table name; other names keep
    /// their records and an absent name is a no-op.
    pub fn delete(&mut self, name: &str) -> (r: Result<(), Error>)
        requires
            old(self).wf(),
            name@.len() * 16 + 16 <= usize::MAX,
        ensures
            final(self).wf(),
            final(self).closed == old(self).closed,
            old(self).closed ==> (r matches Err(e) && e.inner is AlreadyClosed && *final(self)
                == *old(self)),
            (!old(self).closed ==> {
                &&& r is Ok
                &&& !final(self).spec_defined(name@)
                &&& forall|k2: Seq<u8>|
                    k2 != str_enc_some(name@) ==> final(self).db.database.spec_get(k2)
                        == #[trigger] old(self).db.database.spec_get(k2)
            }),
    {
        if self.closed {
            return Err(Error { inner: ErrorKind::AlreadyClosed });
        }
        let nref: &str = name;
        proof {
            crate::io::lemma_encode_utf8_len(name@);
        }
        let key = match to_entry(&nref) {
            Ok(k) => k,
            Err(e) => {
                return Err(e);
            },
        };
        let ghost pre = self.db.database;
        match self.db.delete(&key) {
            Ok(_) => {
                proof {
                    let post = self.db.database;
                    if pre.has_key(key@) {
                        let i = choose|i: int|
                            {
                                &&& 0 <= i < pre.entries@.len()
                                &&& crate::store::key_cmp(true, pre.key_at(i), key@)
                                    == core::cmp::Ordering::Equal
                                &&& #[trigger] post.entries@ == pre.entries@.remove(i)
                            };
                        assert(!post.has_key(key@)) by {
                            if post.has_key(key@) {
                                let j = choose|j: int|
                                    0 <= j < post.entries@.len() && crate::store::key_cmp(true,
                                        post.key_at(j), key@) == core::cmp::Ordering::Equal;
                                let j2: int = if j < i {
                                    j
                                } else {
                                    j + 1
                                };
                                assert(post.entries@[j] == pre.entries@[j2]);
                                crate::store::lemma_has_key_unique(&pre, key@, j2, i);
                            }
                        }
                        assert forall|k2: Seq<u8>|
                            k2 != str_enc_some(name@) implies post.spec_get(k2)
                            == #[trigger] pre.spec_get(k2) by {
                            crate::entry::lemma_lex_cmp_eq(k2, key@);
                            crate::entry::lemma_lex_cmp_eq(key@, k2);
                            crate::store::lemma_remove_frame(&pre, &post, key@, i, k2);
                        }
                    } else {
                        crate::store::lemma_spec_get_same_entries(&pre, &post, key@);
                        assert forall|k2: Seq<u8>|
                            k2 != str_enc_some(name@) implies post.spec_get(k2)
                            == #[trigger] pre.spec_get(k2) by {
                            crate::store::lemma_spec_get_same_entries(&pre, &post, k2);
                        }
                    }
                }
                Ok(())
            },
            Err(e) => {
                proof {
                    assert(false);
                }
                Err(e)
            },
        }
    }

    /// Closes the meta store; later operations refuse.
    pub fn close(&mut self)
        requires
            old(self).wf(),
        ensures
            final(self).wf(),
            final(self).closed,
    {
        self.closed = true;
    }
}


/// The definition document of a bare key-value table: a JSON object holding
/// the name and empty field, key and index lists.
pub open spec fn spec_bare_document(name: Seq<char>) -> Seq<char> {
    "{\"name\":\""@ + name
        + "\",\"comment\":null,\"fields\":[],\"key_fields\":[],\"indexes\":[]}"@
}

/// Renders the definition document of a bare key-value table.
pub fn bare_table_document(name: &str) -> (r: String)
    ensures
        r@ == spec_bare_document(name@),
        r@.len() == name@.len() + 67,
{
    let mut out = <String as vstd::string::StringExecFns>::from_str("{\"name\":\"");
    <String as vstd::string::StringExecFns>::append(&mut out, name);
    <String as vstd::string::StringExecFns>::append(&mut out,
        "\",\"comment\":null,\"fields\":[],\"key_fields\":[],\"indexes\":[]}");
    proof {
        reveal_strlit("{\"name\":\"");
        reveal_strlit("\",\"comment\":null,\"fields\":[],\"key_fields\":[],\"indexes\":[]}");
    }
    out
}

/// A schema: its name, its settings, its meta store and its cached table
/// handles.
#[derive(Debug)]
pub struct SchemaImpl {
    pub name: String,
    pub config: SchemaConfig,
    pub meta: MetaStorage,
    pub tables: CachePool<TableImpl>,
    pub holds: u64,
}

impl SchemaImpl {
    /// Meta store and table cache are consistent, and every cached table is.
    pub open spec fn wf(&self) -> bool {
        &&& self.meta.wf()
        &&& self.tables.wf()
        &&& forall|i: int|
            0 <= i < self.tables.entries@.len() ==> (#[trigger] self.tables.entries@[
                i]).item.wf()
    }

    /// Opens a schema: a fresh meta store and an empty table cache.
    pub fn new(name: &str, config: SchemaConfig) -> (r: Result<SchemaImpl, Error>)
        ensures
            (r matches Ok(s) ==> {
                &&& s.wf()
                &&& s.name@ == name@
                &&& s.config == config
                &&& s.holds == 0
                &&& !s.meta.closed
                &&& s.meta.db.database.entries@.len() == 0
                &&& s.tables.entries@.len() == 0
            }),
            r is Ok,
    {
        let meta_db: PrimaryDatabase<ValueKeyCreator> = PrimaryDatabase::new("SYS_META",
            config.readonly, config.temporary);
        Ok(SchemaImpl {
            name: name.to_owned(),
            config,
            meta: MetaStorage { db: meta_db, closed: false },
            tables: CachePool::new(),
            holds: 0,
        })
    }

    /// The schema's name.
    pub fn name(&self) -> (r: &String)
        ensures
            r == &self.name,
    {
        &self.name
    }

    /// The schema's settings.
    pub fn config(&self) -> (r: &SchemaConfig)
        ensures
            r == &self.config,
    {
        &self.config
    }

    /// Defines and opens a new key-value table, persisting its definition
    /// document.  A configuration that is both temporary and readonly, a
    /// closed meta store, or a name already defined is refused, leaving the
    /// schema untouched.
    pub fn create_kv_table(&mut self, name: &str, config: TableConfig) -> (r: Result<
        KVTable,
        Error,
    >)
        requires
            old(self).wf(),
            name@.len() * 16 + 2048 <= usize::MAX,
        ensures
            final(self).wf(),
            final(self).name == old(self).name,
            final(self).config == old(self).config,
            final(self).holds == old(self).holds,
            config.temporary && config.readonly ==> (r matches Err(e) && e.inner
                is Configuration && *final(self) == *old(self)),
            (!(config.temporary && config.readonly) && old(self).meta.closed ==> (
            r matches Err(e) && e.inner is AlreadyClosed && *final(self) == *old(self))),
            (!(config.temporary && config.readonly) && old(self).meta.spec_defined(name@) ==> (
            r matches Err(e) && e.inner is CreateDuplicate && *final(self) == *old(self))),
            (!(config.temporary && config.readonly) && !old(self).meta.closed && !old(
                self).meta.spec_defined(name@) ==> (r matches Ok(kv) && {
                &&& kv.wf()
                &&& kv.table.name@ == name@
                &&& kv.table.config == config
                &&& kv.table.db.database.entries@.len() == 0
                &&& final(self).meta.spec_defined(name@)
                &&& final(self).meta.db.database.spec_get(str_enc_some(name@)) == Some(
                    str_enc_some(spec_bare_document(name@)))
                &&& forall|k2: Seq<u8>|
                    k2 != str_enc_some(name@) ==> final(self).meta.db.database.spec_get(k2)
                        == #[trigger] old(self).meta.db.database.spec_get(k2)
                &&& final(self).tables == old(self).tables
            })),
    {
        if config.temporary() && config.readonly() {
            return Err(Error { inner: ErrorKind::Configuration });
        }
        let defined = match self.meta.contains(name) {
            Ok(b) => b,
            Err(e) => {
                return Err(e);
            },
        };
        if defined {
            return Err(Error { inner: ErrorKind::CreateDuplicate });
        }
        let table = match TableImpl::new(name, config) {
            Ok(t) => t,
            Err(e) => {
                return Err(e);
            },
        };
        let document = bare_table_document(name);
        match self.meta.put(name, document.as_str()) {
            Ok(_) => {},
            Err(e) => {
                return Err(e);
            },
        }
        Ok(KVTable { table })
    }

    /// Opens a defined key-value table, handing out the cached handle when
    /// one is pooled.  A configuration that is both temporary and readonly,
    /// a closed meta store, an undefined name, or a cached handle with
    /// different settings is refused, leaving the schema untouched.
    pub fn open_kv_table(&mut self, name: &str, config: TableConfig) -> (r: Result<
        KVTable,
        Error,
    >)
        requires
            old(self).wf(),
            name@.len() * 16 + 16 <= usize::MAX,
        ensures
            final(self).wf(),
            final(self).name == old(self).name,
            final(self).config == old(self).config,
            final(self).holds == old(self).holds,
            final(self).meta == old(self).meta,
            config.temporary && config.readonly ==> (r matches Err(e) && e.inner
                is Configuration && *final(self) == *old(self)),
            (!(config.temporary && config.readonly) && old(self).meta.closed ==> (
            r matches Err(e) && e.inner is AlreadyClosed && *final(self) == *old(self))),
            (!(config.temporary && config.readonly) && !old(self).meta.closed && !old(
                self).meta.spec_defined(name@) ==> (r matches Err(e) && e.inner is NotFound
                && *final(self) == *old(self))),
            (!(config.temporary && config.readonly) && !old(self).meta.closed && old(
                self).meta.spec_defined(name@) && (old(self).tables.spec_item(name@)
                matches Some(e) && (e.item.config.readonly != config.readonly
                || e.item.config.temporary != config.temporary)) ==> (r matches Err(err)
                && err.inner is Configuration && *final(self) == *old(self))),
            (!(config.temporary && config.readonly) && !old(self).meta.closed && old(
                self).meta.spec_defined(name@) && (old(self).tables.spec_item(name@)
                matches Some(e) ==> (e.item.config.readonly == config.readonly
                && e.item.config.temporary == config.temporary)) ==> r is Ok),
            (r matches Ok(kv) ==> {
                &&& kv.wf()
                &&& kv.table.config == config
                &&& (crate::cache::has_name(old(self).tables.entries@, name@)
                    ==> (old(self).tables.spec_item(name@) matches Some(entry) && kv.table
                    == entry.item))
                &&& !crate::cache::has_name(final(self).tables.entries@, name@)
                &&& forall|n2: Seq<char>|
                    n2 != name@ ==> #[trigger] final(self).tables.spec_item(n2) == old(
                        self).tables.spec_item(n2)
            }),
    {
        if config.temporary() && config.readonly() {
            return Err(Error { inner: ErrorKind::Configuration });
        }
        let defined = match self.meta.contains(name) {
            Ok(b) => b,
            Err(e) => {
                return Err(e);
            },
        };
        if !defined {
            return Err(Error { inner: ErrorKind::NotFound });
        }
        let mismatch = match self.tables.peek(name) {
            Some(t) => t.config.readonly != config.readonly || t.config.temporary
                != config.temporary,
            None => false,
        };
        if mismatch {
            return Err(Error { inner: ErrorKind::Configuration });
        }
        let cached = self.tables.remove(name);
        match cached {
            Some(table) => {
                proof {
                    let i = choose|i: int|
                        {
                            &&& 0 <= i < old(self).tables.entries@.len()
                            &&& old(self).tables.entries@[i].name@ == name@
                            &&& table == old(self).tables.entries@[i].item
                            &&& self.tables.entries@ == old(self).tables.entries@.remove(i)
                        };
                    crate::cache::lemma_pool_item(&old(self).tables, name@, i);
                    assert forall|q: int|
                        0 <= q < self.tables.entries@.len() implies (
                    #[trigger] self.tables.entries@[q]).item.wf() by {
                        if q < i {
                            assert(self.tables.entries@[q] == old(self).tables.entries@[q]);
                        } else {
                            assert(self.tables.entries@[q] == old(self).tables.entries@[q + 1]);
                        }
                    }
                    assert forall|n2: Seq<char>|
                        n2 != name@ implies #[trigger] self.tables.spec_item(n2) == old(
                        self).tables.spec_item(n2) by {
                        crate::cache::lemma_pool_remove_frame(&old(self).tables, &self.tables,
                            name@, i, n2);
                    }
                }
                Ok(KVTable { table })
            },
            None => {
                let table = match TableImpl::new(name, config) {
                    Ok(t) => t,
                    Err(e) => {
                        return Err(e);
                    },
                };
                Ok(KVTable { table })
            },
        }
    }

    /// Closes a table handle: a temporary table's definition is deleted and
    /// its handle discarded; any other handle goes back into the cache under
    /// its name.  Other tables are untouched either way.
    pub fn close(&mut self, kv: KVTable) -> (r: Result<(), Error>)
        requires
            old(self).wf(),
            kv.wf(),
            kv.table.name@.len() * 16 + 16 <= usize::MAX,
        ensures
            final(self).wf(),
            final(self).name == old(self).name,
            final(self).config == old(self).config,
            final(self).holds == old(self).holds,
            r is Ok,
            (kv.table.config.temporary ==> {
                &&& !final(self).meta.spec_defined(kv.table.name@)
                &&& !crate::cache::has_name(final(self).tables.entries@, kv.table.name@)
            }),
            (!kv.table.config.temporary ==> {
                &&& final(self).meta == old(self).meta
                &&& (final(self).tables.spec_item(kv.table.name@) matches Some(e) && e.item
                    == kv.table)
            }),
            forall|n2: Seq<char>|
                n2 != kv.table.name@ ==> #[trigger] final(self).tables.spec_item(n2) == old(
                    self).tables.spec_item(n2),
    {
        if kv.table.config.temporary {
            let nm = kv.table.name.clone();
            match self.meta.delete(nm.as_str()) {
                Ok(_) => {},
                Err(_) => {},
            }
            let ghost mid_tables = self.tables;
            let removed = self.tables.remove(nm.as_str());
            proof {
                match removed {
                    Some(_) => {
                        let i = choose|i: int|
                            {
                                &&& 0 <= i < mid_tables.entries@.len()
                                &&& mid_tables.entries@[i].name@ == nm@
                                &&& self.tables.entries@ == mid_tables.entries@.remove(i)
                            };
                        assert forall|q: int|
                            0 <= q < self.tables.entries@.len() implies (
                        #[trigger] self.tables.entries@[q]).item.wf() by {
                            if q < i {
                                assert(self.tables.entries@[q] == mid_tables.entries@[q]);
                            } else {
                                assert(self.tables.entries@[q] == mid_tables.entries@[q + 1]);
                            }
                        }
                        assert forall|n2: Seq<char>|
                            n2 != nm@ implies #[trigger] self.tables.spec_item(n2)
                            == mid_tables.spec_item(n2) by {
                            crate::cache::lemma_pool_remove_frame(&mid_tables, &self.tables,
                                nm@, i, n2);
                        }
                    },
                    None => {},
                }
            }
            Ok(())
        } else {
            let KVTable { table } = kv;
            let ghost tval = table;
            let nm = table.name.clone();
            let t_now = crate::cache::now();
            let ghost pre = self.tables;
            self.tables.put(nm.as_str(), table, t_now);
            proof {
                lemma_pool_put_items_wf(&pre, &self.tables, nm@, tval, t_now);
                if crate::cache::has_name(pre.entries@, nm@) {
                    let i = choose|i: int|
                        {
                            &&& 0 <= i < pre.entries@.len()
                            &&& pre.entries@[i].name@ == nm@
                            &&& self.tables.entries@ =~= pre.entries@.update(
                                i,
                                crate::cache::PoolEntry {
                                    name: pre.entries@[i].name,
                                    last_access: t_now,
                                    item: tval,
                                },
                            )
                        };
                    crate::cache::lemma_pool_item(&self.tables, nm@, i);
                    assert forall|n2: Seq<char>|
                        n2 != nm@ implies #[trigger] self.tables.spec_item(n2)
                        == pre.spec_item(n2) by {
                        crate::cache::lemma_pool_put_frame(&pre, &self.tables, nm@, n2);
                    }
                } else {
                    assert(self.tables.entries@.last().name@ == nm@);
                    crate::cache::lemma_pool_item(&self.tables, nm@,
                        self.tables.entries@.len() - 1);
                    assert forall|n2: Seq<char>|
                        n2 != nm@ implies #[trigger] self.tables.spec_item(n2)
                        == pre.spec_item(n2) by {
                        crate::cache::lemma_pool_put_frame(&pre, &self.tables, nm@, n2);
                    }
                }
            }
            Ok(())
        }
    }

    /// The periodic pass: evicts idle table handles by the schema's own
    /// cache policy.
    pub fn maintain(&mut self, now: i64)
        requires
            old(self).wf(),
        ensures
            final(self).wf(),
            final(self).name == old(self).name,
            final(self).config == old(self).config,
            final(self).holds == old(self).holds,
            final(self).meta == old(self).meta,
            crate::cache::cleanup_effect(old(self).tables.entries@, final(self).tables.entries@,
                old(self).config.max_cache, old(self).config.min_live_time,
                old(self).config.max_idle_time, now),
    {
        let ghost pre = self.tables;
        self.tables.cleanup(&self.config, now);
        proof {
            assert forall|q: int|
                0 <= q < self.tables.entries@.len() implies (#[trigger] self.tables.entries@[
                q]).item.wf() by {
                assert(crate::cache::in_seq(pre.entries@, self.tables.entries@[q]));
                let t = choose|t: int|
                    0 <= t < pre.entries@.len() && pre.entries@[t] == self.tables.entries@[q];
                assert(pre.entries@[t].item.wf());
            }
        }
    }
}

/// After pooling a consistent table, every pooled table is still consistent.
proof fn lemma_pool_put_items_wf(pre: &CachePool<TableImpl>, post: &CachePool<TableImpl>,
    n: Seq<char>, item: TableImpl, now: i64)
    requires
        pre.wf(),
        item.wf(),
        forall|i: int| 0 <= i < pre.entries@.len() ==> (#[trigger] pre.entries@[i]).item.wf(),
        (crate::cache::has_name(pre.entries@, n) ==> exists|i: int|
            {
                &&& 0 <= i < pre.entries@.len()
                &&& pre.entries@[i].name@ == n
                &&& post.entries@ =~= pre.entries@.update(
                    i,
                    crate::cache::PoolEntry {
                        name: pre.entries@[i].name,
                        last_access: now,
                        item,
                    },
                )
            }),
        (!crate::cache::has_name(pre.entries@, n) ==> {
            &&& post.entries@.len() == pre.entries@.len() + 1
            &&& post.entries@.take(pre.entries@.len() as int) == pre.entries@
            &&& post.entries@.last().item == item
        }),
    ensures
        forall|q: int| 0 <= q < post.entries@.len() ==> (#[trigger] post.entries@[q]).item.wf(),
{
    assert forall|q: int|
        0 <= q < post.entries@.len() implies (#[trigger] post.entries@[q]).item.wf() by {
        if crate::cache::has_name(pre.entries@, n) {
            let i = choose|i: int|
                {
                    &&& 0 <= i < pre.entries@.len()
                    &&& pre.entries@[i].name@ == n
                    &&& post.entries@ =~= pre.entries@.update(
                        i,
                        crate::cache::PoolEntry {
                            name: pre.entries@[i].name,
                            last_access: now,
                            item,
                        },
                    )
                };
            if q == i {
                assert(post.entries@[q].item == item);
            } else {
                assert(post.entries@[q] == pre.entries@[q]);
            }
        } else {
            if q < pre.entries@.len() {
                assert(post.entries@[q] == post.entries@.take(pre.entries@.len() as int)[q]);
                assert(post.entries@[q] == pre.entries@[q]);
            } else {
                assert(post.entries@[q] == post.entries@.last());
                assert(post.entries@[q].item == item);
            }
        }
    }
}

} // verus!
