//! The instance: a cache of schemas, their lifecycle, and the periodic
//! maintenance pass.
//!
//! Opening a schema validates its configuration: temporary and readonly
//! together are refused.  Dropping a schema still held by a caller is
//! refused with `CloseUsing`; handles are counted as they are opened and
//! closed.

use vstd::prelude::*;
use crate::cache::CachePool;
use crate::cache::has_name;
use crate::config::InstanceConfig;
use crate::config::SchemaConfig;
use crate::config::TableConfig;
use crate::error::Error;
use crate::error::ErrorKind;
use crate::schema::SchemaImpl;
use crate::table::KVTable;

verus! {

/// The instance state: its settings and its cached schemas.
#[derive(Debug)]
pub struct InstImpl {
    pub config: InstanceConfig,
    pub schemas: CachePool<SchemaImpl>,
}

impl InstImpl {
    /// The cache is consistent, every cached schema is, and each is pooled
    /// under its own name.
    pub open spec fn wf(&self) -> bool {
        &&& self.schemas.wf()
        &&& forall|i: int|
            0 <= i < self.schemas.entries@.len() ==> (#[trigger] self.schemas.entries@[
                i]).item.wf() && self.schemas.entries@[i].item.name@ == self.schemas.entries@[
                i].name@
    }
}

/// A handle to an open schema, counted against `drop_schema`.
#[derive(Debug)]
pub struct Schema {
    pub name: String,
}

impl Schema {
    /// The schema's name.
    pub fn name(&self) -> (r: &String)
        ensures
            r == &self.name,
    {
        &self.name
    }
}

/// An embeddable database instance.
#[derive(Debug)]
pub struct Instance {
    pub inst: InstImpl,
}

impl Instance {
    /// The instance's caches are consistent.
    pub open spec fn wf(&self) -> bool {
        self.inst.wf()
    }

    /// Creates an instance with the given settings.
    pub fn new(config: InstanceConfig) -> (r: Result<Instance, Error>)
        ensures
            (r matches Ok(inst) ==> {
                &&& inst.wf()
                &&& inst.inst.config == config
                &&& inst.inst.schemas.entries@.len() == 0
            }),
            r is Ok,
    {
        Ok(Instance { inst: InstImpl { config, schemas: CachePool::new() } })
    }

    /// The instance's settings.
    pub fn config(&self) -> (r: &InstanceConfig)
        ensures
            r == &self.inst.config,
    {
        &self.inst.config
    }

    /// Takes a schema out of the cache for exclusive use.
    fn take_schema(&mut self, name: &str) -> (r: Option<SchemaImpl>)
        requires
            old(self).wf(),
        ensures
            final(self).wf(),
            final(self).inst.config == old(self).inst.config,
            (r matches Some(s) ==> s.wf() && s.name@ == name@ && (old(
                self).inst.schemas.spec_item(name@) matches Some(e) && e.item == s)),
            r is None ==> !has_name(old(self).inst.schemas.entries@, name@) && *final(self)
                == *old(self),
            (r is Some ==> has_name(old(self).inst.schemas.entries@, name@) && final(
                self).inst.schemas.entries@.len() == old(self).inst.schemas.entries@.len() - 1),
            !has_name(final(self).inst.schemas.entries@, name@),
            forall|n2: Seq<char>|
                n2 != name@ ==> #[trigger] final(self).inst.schemas.spec_item(n2) == old(
                    self).inst.schemas.spec_item(n2) && has_name(
                    final(self).inst.schemas.entries@, n2) == has_name(
                    old(self).inst.schemas.entries@, n2),
    {
        let removed = self.inst.schemas.remove(name);
        match removed {
            Some(s) => {
                proof {
                    let i = choose|i: int|
                        {
                            &&& 0 <= i < old(self).inst.schemas.entries@.len()
                            &&& old(self).inst.schemas.entries@[i].name@ == name@
                            &&& s == old(self).inst.schemas.entries@[i].item
                            &&& self.inst.schemas.entries@ == old(
                                self).inst.schemas.entries@.remove(i)
                        };
                    assert(old(self).inst.schemas.entries@[i].item.wf());
                    assert(old(self).inst.schemas.entries@[i].item.name@ == name@);
                    crate::cache::lemma_pool_item(&old(self).inst.schemas, name@, i);
                    assert forall|n2: Seq<char>|
                        n2 != name@ implies #[trigger] self.inst.schemas.spec_item(n2) == old(
                        self).inst.schemas.spec_item(n2) && has_name(self.inst.schemas.entries@,
                        n2) == has_name(old(self).inst.schemas.entries@, n2) by {
                        crate::cache::lemma_pool_remove_frame(&old(self).inst.schemas,
                            &self.inst.schemas, name@, i, n2);
                    }
                    assert forall|q: int|
                        0 <= q < self.inst.schemas.entries@.len() implies (
                    #[trigger] self.inst.schemas.entries@[q]).item.wf() && self.inst.schemas
                        .entries@[q].item.name@ == self.inst.schemas.entries@[q].name@ by {
                        if q < i {
                            assert(self.inst.schemas.entries@[q] == old(
                                self).inst.schemas.entries@[q]);
                        } else {
                            assert(self.inst.schemas.entries@[q] == old(
                                self).inst.schemas.entries@[q + 1]);
                        }
                    }
                }
                Some(s)
            },
            None => None,
        }
    }

    /// Puts a schema back into the cache under its own name.
    fn restore_schema(&mut self, s: SchemaImpl)
        requires
            old(self).wf(),
            s.wf(),
        ensures
            final(self).wf(),
            final(self).inst.config == old(self).inst.config,
            has_name(final(self).inst.schemas.entries@, s.name@),
            (final(self).inst.schemas.spec_item(s.name@) matches Some(e) && e.item == s),
            has_name(old(self).inst.schemas.entries@, s.name@) ==> final(
                self).inst.schemas.entries@.len() == old(self).inst.schemas.entries@.len(),
            !has_name(old(self).inst.schemas.entries@, s.name@) ==> final(
                self).inst.schemas.entries@.len() == old(self).inst.schemas.entries@.len() + 1,
            forall|n2: Seq<char>|
                n2 != s.name@ ==> #[trigger] final(self).inst.schemas.spec_item(n2) == old(
                    self).inst.schemas.spec_item(n2) && has_name(
                    final(self).inst.schemas.entries@, n2) == has_name(
                    old(self).inst.schemas.entries@, n2),
    {
        let ghost sval = s;
        let nm = s.name.clone();
        let t_now = crate::cache::now();
        let ghost pre = self.inst.schemas;
        self.inst.schemas.put(nm.as_str(), s, t_now);
        proof {
            assert forall|q: int|
                0 <= q < self.inst.schemas.entries@.len() implies (
            #[trigger] self.inst.schemas.entries@[q]).item.wf() && self.inst.schemas.entries@[
                q].item.name@ == self.inst.schemas.entries@[q].name@ by {
                if has_name(pre.entries@, nm@) {
                    let i = choose|i: int|
                        {
                            &&& 0 <= i < pre.entries@.len()
                            &&& pre.entries@[i].name@ == nm@
                            &&& self.inst.schemas.entries@ =~= pre.entries@.update(
                                i,
                                crate::cache::PoolEntry {
                                    name: pre.entries@[i].name,
                                    last_access: t_now,
                                    item: sval,
                                },
                            )
                        };
                    if q == i {
                        assert(self.inst.schemas.entries@[q].item == sval);
                    } else {
                        assert(self.inst.schemas.entries@[q] == pre.entries@[q]);
                    }
                } else {
                    if q < pre.entries@.len() {
                        assert(self.inst.schemas.entries@[q] == self.inst.schemas.entries@.take(
                            pre.entries@.len() as int)[q]);
                        assert(self.inst.schemas.entries@[q] == pre.entries@[q]);
                    } else {
                        assert(self.inst.schemas.entries@[q] == self.inst.schemas.entries@
                            .last());
                        assert(self.inst.schemas.entries@[q].item == sval);
                    }
                }
            }
            if has_name(pre.entries@, nm@) {
                let i = choose|i: int|
                    {
                        &&& 0 <= i < pre.entries@.len()
                        &&& pre.entries@[i].name@ == nm@
                        &&& self.inst.schemas.entries@ =~= pre.entries@.update(
                            i,
                            crate::cache::PoolEntry {
                                name: pre.entries@[i].name,
                                last_access: t_now,
                                item: sval,
                            },
                        )
                    };
                assert(self.inst.schemas.entries@[i].name@ == sval.name@);
                crate::cache::lemma_pool_item(&self.inst.schemas, nm@, i);
                assert forall|n2: Seq<char>|
                    n2 != sval.name@ implies #[trigger] self.inst.schemas.spec_item(n2) == old(
                    self).inst.schemas.spec_item(n2) && has_name(self.inst.schemas.entries@,
                    n2) == has_name(old(self).inst.schemas.entries@, n2) by {
                    crate::cache::lemma_pool_put_frame(&pre, &self.inst.schemas, nm@, n2);
                }
            } else {
                assert(self.inst.schemas.entries@.last().name@ == sval.name@);
                crate::cache::lemma_pool_item(&self.inst.schemas, nm@,
                    self.inst.schemas.entries@.len() - 1);
                assert forall|n2: Seq<char>|
                    n2 != sval.name@ implies #[trigger] self.inst.schemas.spec_item(n2) == old(
                    self).inst.schemas.spec_item(n2) && has_name(self.inst.schemas.entries@,
                    n2) == has_name(old(self).inst.schemas.entries@, n2) by {
                    crate::cache::lemma_pool_put_frame(&pre, &self.inst.schemas, nm@, n2);
                }
            }
        }
    }

    /// Opens a schema, from the cache or freshly constructed, and counts the
    /// handle.  A configuration both temporary and readonly is refused; so is
    /// a cached schema whose flags differ from the requested ones.  Both
    /// rejections leave the instance untouched.
    pub fn open_schema(&mut self, name: &str, config: SchemaConfig) -> (r: Result<Schema, Error>)
        requires
            old(self).wf(),
        ensures
            final(self).wf(),
            config.temporary && config.readonly ==> (r matches Err(e) && e.inner
                is Configuration && *final(self) == *old(self)),
            (!(config.temporary && config.readonly) && (old(self).inst.schemas.spec_item(name@)
                matches Some(e) && (e.item.config.readonly != config.readonly
                || e.item.config.temporary != config.temporary)) ==> (r matches Err(err)
                && err.inner is Configuration && *final(self) == *old(self))),
            (!(config.temporary && config.readonly) && (old(self).inst.schemas.spec_item(name@)
                matches Some(e) ==> (e.item.config.readonly == config.readonly
                && e.item.config.temporary == config.temporary)) ==> r is Ok),
            (r matches Ok(s) ==> {
                &&& s.name@ == name@
                &&& !(config.temporary && config.readonly)
                &&& has_name(final(self).inst.schemas.entries@, name@)
            }),
    {
        if config.temporary() && config.readonly() {
            return Err(Error { inner: ErrorKind::Configuration });
        }
        let cached = match self.inst.schemas.peek(name) {
            Some(s) => Some((s.config.readonly, s.config.temporary)),
            None => None,
        };
        match cached {
            Some((ro, tmp)) => {
                if ro != config.readonly || tmp != config.temporary {
                    return Err(Error { inner: ErrorKind::Configuration });
                }
                let mut schema = match self.take_schema(name) {
                    Some(s) => s,
                    None => {
                        proof {
                            assert(false);
                        }
                        return Err(Error { inner: ErrorKind::NotFound });
                    },
                };
                if schema.holds < u64::MAX {
                    schema.holds = schema.holds + 1;
                }
                self.restore_schema(schema);
                Ok(Schema { name: name.to_owned() })
            },
            None => {
                let mut schema = match SchemaImpl::new(name, config) {
                    Ok(s) => s,
                    Err(e) => {
                        return Err(e);
                    },
                };
                schema.holds = 1;
                self.restore_schema(schema);
                Ok(Schema { name: name.to_owned() })
            },
        }
    }

    /// Opens a handle to a schema already in the cache.
    pub fn open_exist_schema(&mut self, name: &str) -> (r: Option<Schema>)
        requires
            old(self).wf(),
        ensures
            final(self).wf(),
            (r matches Some(s) ==> s.name@ == name@),
            r is None ==> !has_name(old(self).inst.schemas.entries@, name@),
    {
        match self.take_schema(name) {
            Some(mut schema) => {
                if schema.holds < u64::MAX {
                    schema.holds = schema.holds + 1;
                }
                self.restore_schema(schema);
                Some(Schema { name: name.to_owned() })
            },
            None => None,
        }
    }

    /// Closes a schema handle, releasing its count: the pooled schema's
    /// handle count drops by one and nothing else about it changes.
    pub fn close_schema(&mut self, schema: Schema)
        requires
            old(self).wf(),
        ensures
            final(self).wf(),
            !has_name(old(self).inst.schemas.entries@, schema.name@) ==> *final(self) == *old(
                self),
            (old(self).inst.schemas.spec_item(schema.name@) is Some ==> (final(
                self).inst.schemas.spec_item(schema.name@) matches Some(e2) && e2.item == (
            SchemaImpl {
                holds: if old(self).inst.schemas.spec_item(schema.name@).unwrap().item.holds
                    > 0 {
                    (old(self).inst.schemas.spec_item(schema.name@).unwrap().item.holds
                        - 1) as u64
                } else {
                    0
                },
                ..old(self).inst.schemas.spec_item(schema.name@).unwrap().item
            }))),
            forall|n2: Seq<char>|
                n2 != schema.name@ ==> #[trigger] final(self).inst.schemas.spec_item(n2) == old(
                    self).inst.schemas.spec_item(n2) && has_name(
                    final(self).inst.schemas.entries@, n2) == has_name(
                    old(self).inst.schemas.entries@, n2),
    {
        match self.take_schema(schema.name.as_str()) {
            Some(mut s) => {
                if s.holds > 0 {
                    s.holds = s.holds - 1;
                }
                self.restore_schema(s);
            },
            None => {},
        }
    }

    /// Drops a schema: refused with `CloseUsing` while any handle is held,
    /// the schema staying pooled untouched; otherwise the schema leaves the
    /// cache and the result reports whether it existed.
    pub fn drop_schema(&mut self, name: &str) -> (r: Result<bool, Error>)
        requires
            old(self).wf(),
        ensures
            final(self).wf(),
            !has_name(old(self).inst.schemas.entries@, name@) ==> (r matches Ok(b) && !b
                && *final(self) == *old(self)),
            (old(self).inst.schemas.spec_item(name@) matches Some(e) && e.item.holds > 0 ==> (
            r matches Err(err) && err.inner is CloseUsing && (final(self).inst.schemas.spec_item(
                name@) matches Some(e2) && e2.item == old(self).inst.schemas.spec_item(
                name@).unwrap().item))),
            (old(self).inst.schemas.spec_item(name@) matches Some(e) && e.item.holds == 0 ==> (
            r matches Ok(b) && b)),
            (r matches Ok(b) ==> {
                &&& b == has_name(old(self).inst.schemas.entries@, name@)
                &&& !has_name(final(self).inst.schemas.entries@, name@)
            }),
            forall|n2: Seq<char>|
                n2 != name@ ==> #[trigger] final(self).inst.schemas.spec_item(n2) == old(
                    self).inst.schemas.spec_item(n2) && has_name(
                    final(self).inst.schemas.entries@, n2) == has_name(
                    old(self).inst.schemas.entries@, n2),
    {
        match self.take_schema(name) {
            Some(schema) => {
                if schema.holds > 0 {
                    self.restore_schema(schema);
                    return Err(Error { inner: ErrorKind::CloseUsing });
                }
                Ok(true)
            },
            None => Ok(false),
        }
    }

    /// The periodic pass: evicts idle schemas by the instance's policy, then
    /// lets each surviving schema evict its idle tables.  The schemas kept
    /// are exactly the cleanup policy's choice; the second phase only
    /// maintains them in place.
    pub fn maintain(&mut self, now: i64)
        requires
            old(self).wf(),
        ensures
            final(self).wf(),
            exists|mid: Seq<crate::cache::PoolEntry<SchemaImpl>>|
                {
                    &&& #[trigger] crate::cache::cleanup_effect(old(self).inst.schemas.entries@,
                        mid, old(self).inst.config.max_cache,
                        old(self).inst.config.min_live_time,
                        old(self).inst.config.max_idle_time, now)
                    &&& final(self).inst.schemas.entries@.len() == mid.len()
                    &&& forall|n: Seq<char>| has_name(final(self).inst.schemas.entries@, n)
                        == has_name(mid, n)
                },
    {
        let ghost pre = self.inst.schemas;
        self.inst.schemas.cleanup(&self.inst.config, now);
        let ghost mid = self.inst.schemas.entries@;
        proof {
            assert forall|q: int|
                0 <= q < self.inst.schemas.entries@.len() implies (
            #[trigger] self.inst.schemas.entries@[q]).item.wf() && self.inst.schemas.entries@[
                q].item.name@ == self.inst.schemas.entries@[q].name@ by {
                assert(crate::cache::in_seq(pre.entries@, self.inst.schemas.entries@[q]));
                let t = choose|t: int|
                    0 <= t < pre.entries@.len() && pre.entries@[t] == self.inst.schemas.entries@[
                        q];
                assert(pre.entries@[t].item.wf());
                assert(pre.entries@[t].item.name@ == pre.entries@[t].name@);
            }
        }
        let mut names: Vec<String> = Vec::new();
        let n = self.inst.schemas.entries.len();
        let mut i: usize = 0;
        while i < n
            invariant
                i <= n == self.inst.schemas.entries@.len(),
                self.wf(),
                self.inst.schemas.entries@ == mid,
            decreases n - i,
        {
            names.push(self.inst.schemas.entries[i].name.clone());
            i = i + 1;
        }
        let count = names.len();
        let mut j: usize = 0;
        while j < count
            invariant
                j <= count == names@.len(),
                self.wf(),
                self.inst.schemas.entries@.len() == mid.len(),
                forall|n2: Seq<char>| has_name(self.inst.schemas.entries@, n2) == has_name(
                    mid, n2),
            decreases count - j,
        {
            let nm = &names[j];
            let ghost before_pool = self.inst.schemas;
            match self.take_schema(nm.as_str()) {
                Some(mut schema) => {
                    let ghost sname = schema.name@;
                    let ghost after_take = self.inst.schemas;
                    schema.maintain(now);
                    self.restore_schema(schema);
                    proof {
                        assert forall|n2: Seq<char>|
                            has_name(self.inst.schemas.entries@, n2) == has_name(mid, n2) by {
                            if n2 == sname {
                                assert(has_name(self.inst.schemas.entries@, n2));
                                assert(has_name(before_pool.entries@, n2));
                            } else {
                                assert(after_take.spec_item(n2) == before_pool.spec_item(n2)
                                    && has_name(after_take.entries@, n2) == has_name(
                                    before_pool.entries@, n2));
                                assert(self.inst.schemas.spec_item(n2) == after_take.spec_item(
                                    n2) && has_name(self.inst.schemas.entries@, n2) == has_name(
                                    after_take.entries@, n2));
                            }
                        }
                    }
                },
                None => {},
            }
            j = j + 1;
        }
        proof {
            assert(crate::cache::cleanup_effect(old(self).inst.schemas.entries@, mid,
                old(self).inst.config.max_cache, old(self).inst.config.min_live_time,
                old(self).inst.config.max_idle_time, now));
        }
    }
}

impl Schema {
    /// Defines and opens a new key-value table in this schema.
    pub fn create_kv_table(&self, inst: &mut Instance, name: &str, config: TableConfig) -> (r:
        Result<KVTable, Error>)
        requires
            old(inst).wf(),
            name@.len() * 16 + 2048 <= usize::MAX,
        ensures
            final(inst).wf(),
            config.temporary && config.readonly ==> (r matches Err(e) && e.inner
                is Configuration),
            (r matches Ok(kv) ==> kv.wf() && kv.table.name@ == name@ && kv.table.config
                == config),
    {
        if config.temporary() && config.readonly() {
            return Err(Error { inner: ErrorKind::Configuration });
        }
        let mut schema = match inst.take_schema(self.name.as_str()) {
            Some(s) => s,
            None => {
                return Err(Error { inner: ErrorKind::NotFound });
            },
        };
        let r = schema.create_kv_table(name, config);
        inst.restore_schema(schema);
        r
    }

    /// Opens a defined key-value table in this schema.
    pub fn open_kv_table(&self, inst: &mut Instance, name: &str, config: TableConfig) -> (r:
        Result<KVTable, Error>)
        requires
            old(inst).wf(),
            name@.len() * 16 + 16 <= usize::MAX,
        ensures
            final(inst).wf(),
            config.temporary && config.readonly ==> (r matches Err(e) && e.inner
                is Configuration),
            (r matches Ok(kv) ==> kv.wf() && kv.table.config == config),
    {
        if config.temporary() && config.readonly() {
            return Err(Error { inner: ErrorKind::Configuration });
        }
        let mut schema = match inst.take_schema(self.name.as_str()) {
            Some(s) => s,
            None => {
                return Err(Error { inner: ErrorKind::NotFound });
            },
        };
        let r = schema.open_kv_table(name, config);
        inst.restore_schema(schema);
        r
    }

    /// Closes a table handle back into this schema's cache.
    pub fn close_kv_table(&self, inst: &mut Instance, kv: KVTable) -> (r: Result<(), Error>)
        requires
            old(inst).wf(),
            kv.wf(),
            kv.table.name@.len() * 16 + 16 <= usize::MAX,
        ensures
            final(inst).wf(),
    {
        let mut schema = match inst.take_schema(self.name.as_str()) {
            Some(s) => s,
            None => {
                return Err(Error { inner: ErrorKind::NotFound });
            },
        };
        let r = schema.close(kv);
        inst.restore_schema(schema);
        r
    }
}

} // verus!
