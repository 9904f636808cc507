//! Tables: the catalog-level handle over a primary database, and the typed
//! key-value view on top.

use vstd::prelude::*;
use crate::config::TableConfig;
use crate::database::PrimaryDatabase;
use crate::database::ValueKeyCreator;
use crate::error::Error;
use crate::io::Inputable;
use crate::io::Outputable;
use crate::io::str_enc_some;
use crate::io::to_entry;
use crate::store::put_replaced;
use crate::store::put_inserted;

verus! {

/// A cached table handle: its name, its settings and its primary database.
#[derive(Debug)]
pub struct TableImpl {
    pub name: String,
    pub config: TableConfig,
    pub db: PrimaryDatabase<ValueKeyCreator>,
}

impl TableImpl {
    /// The underlying database is sorted and consistent; a key-value table
    /// registers no index listeners, so its writes cannot fail through one.
    pub open spec fn wf(&self) -> bool {
        self.db.wf() && self.db.listeners@.len() == 0
    }

    /// Opens a table's database under its name and settings.
    pub fn new(name: &str, config: TableConfig) -> (r: Result<TableImpl, Error>)
        ensures
            (r matches Ok(t) ==> {
                &&& t.wf()
                &&& t.name@ == name@
                &&& t.config == config
                &&& t.db.database.entries@.len() == 0
            }),
            r is Ok,
    {
        let db = PrimaryDatabase::new(name, config.readonly, config.temporary);
        Ok(TableImpl { name: name.to_owned(), config, db })
    }

    /// The table's settings.
    pub fn config(&self) -> (r: &TableConfig)
        ensures
            r == &self.config,
    {
        &self.config
    }
}

/// A typed key-value view over a table: string keys, codec-encoded values.
/// The view owns its table handle; closing it hands the handle back to its
/// schema's cache.
#[derive(Debug)]
pub struct KVTable {
    pub table: TableImpl,
}

impl KVTable {
    /// The view is over a consistent table.
    pub open spec fn wf(&self) -> bool {
        self.table.wf()
    }

    /// The table's name.
    pub fn name(&self) -> (r: &String)
        ensures
            r == &self.table.name,
    {
        &self.table.name
    }

    /// The table's settings.
    pub fn config(&self) -> (r: &TableConfig)
        ensures
            r == &self.table.config,
    {
        &self.table.config
    }

    /// Stores a typed value under a string key; every other key keeps its
    /// value.
    pub fn put<V: Outputable>(&mut self, key: &str, value: V) -> (r: Result<(), Error>)
        requires
            old(self).wf(),
            key@.len() * 16 + 16 <= usize::MAX,
            4 * value.enc().len() + 9 <= usize::MAX,
        ensures
            final(self).wf(),
            r is Ok,
            final(self).table.db.database.spec_get(str_enc_some(key@)) == Some(value.enc()),
            forall|k2: Seq<u8>|
                k2 != str_enc_some(key@) ==> final(self).table.db.database.spec_get(k2)
                    == #[trigger] old(self).table.db.database.spec_get(k2),
    {
        let kref: &str = key;
        proof {
            crate::io::lemma_encode_utf8_len(key@);
        }
        let k = match to_entry(&kref) {
            Ok(k) => k,
            Err(e) => {
                return Err(e);
            },
        };
        let v = match to_entry(&value) {
            Ok(v) => v,
            Err(e) => {
                return Err(e);
            },
        };
        let ghost pre = self.table.db.database;
        match self.table.db.put(&k, &v) {
            Ok(_) => {
                proof {
                    let post = self.table.db.database;
                    let i: int = if pre.has_key(k@) {
                        choose|i: int| put_replaced(pre.entries@, post.entries@, true, k@, v@, i)
                    } else {
                        choose|i: int| put_inserted(pre.entries@, post.entries@, true, k@, v@, i)
                    };
                    crate::store::lemma_put_spec_get(&pre, &post, k@, v@, i);
                    assert forall|k2: Seq<u8>|
                        k2 != str_enc_some(key@) implies post.spec_get(k2)
                        == #[trigger] pre.spec_get(k2) by {
                        crate::entry::lemma_lex_cmp_eq(k2, k@);
                        crate::entry::lemma_lex_cmp_eq(k@, k2);
                        crate::store::lemma_put_frame(&pre, &post, k@, v@, i, k2);
                    }
                }
                Ok(())
            },
            Err(e) => {
                proof {
                    assert(false);
                }
                Err(e)
            },
        }
    }

    /// Reads the typed value stored under a string key: nothing when the key
    /// is absent, the decoded value when the stored bytes decode, an error
    /// exactly when they do not.
    pub fn get<V: Inputable>(&self, key: &str) -> (r: Result<Option<V>, Error>)
        requires
            self.wf(),
            key@.len() * 16 + 16 <= usize::MAX,
        ensures
            (self.table.db.database.spec_get(str_enc_some(key@)) is None ==> (r matches Ok(o)
                && o is None)),
            (self.table.db.database.spec_get(str_enc_some(key@)) matches Some(bytes) ==> {
                &&& (V::dec_some(bytes) ==> (r matches Ok(o) && o matches Some(v)
                    && V::dec_matches(bytes, v)))
                &&& (!V::dec_some(bytes) ==> r is Err)
            }),
    {
        let kref: &str = key;
        proof {
            crate::io::lemma_encode_utf8_len(key@);
        }
        let k = match to_entry(&kref) {
            Ok(k) => k,
            Err(e) => {
                return Err(e);
            },
        };
        let data = match self.table.db.get(&k) {
            Ok(o) => o,
            Err(e) => {
                return Err(e);
            },
        };
        match data {
            Some(d) => {
                match V::from_entry(&d) {
                    Ok(v) => Ok(Some(v)),
                    Err(e) => Err(e),
                }
            },
            None => Ok(None),
        }
    }

    /// Reads the value under a key, or hands back `default` when absent.
    pub fn get_or<V: Inputable>(&self, key: &str, default: V) -> (r: Result<V, Error>)
        requires
            self.wf(),
            key@.len() * 16 + 16 <= usize::MAX,
        ensures
            (self.table.db.database.spec_get(str_enc_some(key@)) is None ==> (r matches Ok(v)
                && v == default)),
            (self.table.db.database.spec_get(str_enc_some(key@)) matches Some(bytes) ==> {
                &&& (V::dec_some(bytes) ==> (r matches Ok(v) && V::dec_matches(bytes, v)))
                &&& (!V::dec_some(bytes) ==> r is Err)
            }),
    {
        match self.get(key) {
            Ok(Some(v)) => Ok(v),
            Ok(None) => Ok(default),
            Err(e) => Err(e),
        }
    }


    /// Reads the value under a key, or computes one when absent.
    pub fn get_or_else<V: Inputable, F: FnOnce() -> V>(&self, key: &str, f: F) -> (r: Result<
        V,
        Error,
    >)
        requires
            self.wf(),
            key@.len() * 16 + 16 <= usize::MAX,
            call_requires(f, ()),
        ensures
            (self.table.db.database.spec_get(str_enc_some(key@)) is None ==> (r matches Ok(v)
                && call_ensures(f, (), v))),
            (self.table.db.database.spec_get(str_enc_some(key@)) matches Some(bytes) ==> {
                &&& (V::dec_some(bytes) ==> (r matches Ok(v) && V::dec_matches(bytes, v)))
                &&& (!V::dec_some(bytes) ==> r is Err)
            }),
    {
        match self.get(key) {
            Ok(Some(v)) => Ok(v),
            Ok(None) => Ok(f()),
            Err(e) => Err(e),
        }
    }

    /// Reads the value under a key, or the type's default when absent.
    pub fn get_or_default<V: Inputable + Default>(&self, key: &str) -> (r: Result<V, Error>)
        requires
            self.wf(),
            key@.len() * 16 + 16 <= usize::MAX,
        ensures
            (self.table.db.database.spec_get(str_enc_some(key@)) is None ==> r is Ok),
            (self.table.db.database.spec_get(str_enc_some(key@)) matches Some(bytes) ==> {
                &&& (V::dec_some(bytes) ==> (r matches Ok(v) && V::dec_matches(bytes, v)))
                &&& (!V::dec_some(bytes) ==> r is Err)
            }),
    {
        match self.get(key) {
            Ok(Some(v)) => Ok(v),
            Ok(None) => Ok(V::default()),
            Err(e) => Err(e),
        }
    }

    /// Whether any value is stored under the key.
    pub fn contains_key(&self, key: &str) -> (r: Result<bool, Error>)
        requires
            self.wf(),
            key@.len() * 16 + 16 <= usize::MAX,
        ensures
            r matches Ok(b) && b == self.table.db.database.has_key(str_enc_some(key@)),
    {
        let kref: &str = key;
        proof {
            crate::io::lemma_encode_utf8_len(key@);
        }
        let k = match to_entry(&kref) {
            Ok(k) => k,
            Err(e) => {
                return Err(e);
            },
        };
        match self.table.db.get(&k) {
            Ok(Some(_)) => Ok(true),
            Ok(None) => Ok(false),
            Err(e) => Err(e),
        }
    }
}

} // verus!
