//! Cursors over the primary store and over a secondary index.
//!
//! A cursor walks its store's sorted entries by position.  A secondary
//! cursor walks the index store and re-resolves each index entry's stored
//! primary key against the primary store; a missing primary record surfaces
//! as a read error, the index being out of step.

use vstd::prelude::*;
use core::cmp::Ordering;
use crate::database::prefix_of;
use crate::entry::BufferEntry;
use crate::error::Error;
use crate::error::ErrorKind;
use crate::error::PhantomError;
use crate::store::Store;
use crate::store::key_cmp;
use crate::suffix::lemma_suffix_round_trip;
use crate::suffix::spec_suffix_val;
use crate::suffix::suffix_enc;

verus! {

/// An ordered iterator over the primary store: `pos` is the next entry to
/// yield.
#[derive(Debug)]
pub struct PKCursor<'a> {
    pub db: &'a Store,
    pub pos: usize,
}

impl<'a> PKCursor<'a> {
    /// The cursor points into its sorted store.
    pub open spec fn wf(&self) -> bool {
        &&& self.db.wf()
        &&& self.db.unique
        &&& self.pos <= self.db.entries@.len()
    }

    /// A cursor positioned at the first record.
    pub fn new(db: &'a Store) -> (r: PKCursor<'a>)
        requires
            db.wf(),
            db.unique,
        ensures
            r.wf(),
            r.db == db,
            r.pos == 0,
    {
        PKCursor { db, pos: 0 }
    }

    /// Seeks to `key` and reads its record: the value when the first record
    /// at or after `key` is exactly `key`, nothing otherwise.  The examined
    /// record is consumed either way.
    pub fn search(&mut self, key: &BufferEntry) -> (r: Result<Option<BufferEntry>, Error>)
        requires
            old(self).wf(),
            key.wf(),
        ensures
            final(self).wf(),
            final(self).db == old(self).db,
            r is Ok,
            (r matches Ok(o) ==> {
                &&& (o matches Some(v) ==> v.wf() && old(self).db.spec_get(key@) == Some(v@))
                &&& (o is None ==> !old(self).db.has_key(key@))
            }),
    {
        let p = match self.db.seek_pos(key) {
            Ok(p) => p,
            Err(e) => {
                return Err(e);
            },
        };
        if p < self.db.entries.len() {
            self.pos = p + 1;
            let pair = self.db.pair_at(p);
            let c = crate::entry::compare(&pair.0, key);
            if matches!(c, Ordering::Equal) {
                let v = pair.1.duplicate();
                proof {
                    assert(self.db.has_key(key@));
                    let i = choose|i: int|
                        0 <= i < self.db.entries@.len() && key_cmp(self.db.unique,
                            self.db.key_at(i), key@) == Ordering::Equal;
                    crate::store::lemma_has_key_unique(self.db, key@, i, p as int);
                }
                return Ok(Some(v));
            }
            proof {
                crate::store::lemma_absent(self.db, key@, p as int);
            }
            return Ok(None);
        }
        self.pos = p;
        proof {
            crate::store::lemma_absent(self.db, key@, p as int);
        }
        Ok(None)
    }

    /// Seeks to `key` and yields the first record at or after it.
    pub fn search_range(&mut self, key: &BufferEntry) -> (r: Result<
        Option<(BufferEntry, BufferEntry)>,
        Error,
    >)
        requires
            old(self).wf(),
            key.wf(),
        ensures
            final(self).wf(),
            final(self).db == old(self).db,
            r is Ok,
            (r matches Ok(o) ==> {
                &&& (o matches Some(pair) ==> exists|p: int|
                    {
                        &&& 0 <= p < old(self).db.entries@.len()
                        &&& #[trigger] key_cmp(true, old(self).db.key_at(p), key@)
                            != Ordering::Less
                        &&& (forall|q: int| 0 <= q < p ==> key_cmp(true, old(self).db.key_at(q),
                            key@) == Ordering::Less)
                        &&& pair.0@ == old(self).db.key_at(p)
                        &&& pair.1@ == old(self).db.val_at(p)
                        &&& final(self).pos == p + 1
                    })
                &&& (o is None ==> forall|q: int|
                    0 <= q < old(self).db.entries@.len() ==> key_cmp(true,
                        old(self).db.key_at(q), key@) == Ordering::Less)
            }),
    {
        let p = match self.db.seek_pos(key) {
            Ok(p) => p,
            Err(e) => {
                return Err(e);
            },
        };
        self.pos = p;
        self.next()
    }

    /// Yields the record at the cursor and advances.
    pub fn next(&mut self) -> (r: Result<Option<(BufferEntry, BufferEntry)>, Error>)
        requires
            old(self).wf(),
        ensures
            final(self).wf(),
            final(self).db == old(self).db,
            r is Ok,
            (r matches Ok(o) ==> {
                &&& (old(self).pos < old(self).db.entries@.len() ==> (o matches Some(pair) && {
                    &&& pair.0.wf() && pair.1.wf()
                    &&& pair.0@ == old(self).db.key_at(old(self).pos as int)
                    &&& pair.1@ == old(self).db.val_at(old(self).pos as int)
                    &&& final(self).pos == old(self).pos + 1
                }))
                &&& (old(self).pos >= old(self).db.entries@.len() ==> (o is None && final(
                    self).pos == old(self).pos))
            }),
    {
        if self.pos < self.db.entries.len() {
            let pair = self.db.pair_at(self.pos);
            let k = pair.0.duplicate();
            let v = pair.1.duplicate();
            self.pos = self.pos + 1;
            Ok(Some((k, v)))
        } else {
            Ok(None)
        }
    }

    /// Primary keys are unique: there is never a duplicate to step to.
    pub fn next_dup(&mut self) -> (r: Result<Option<(BufferEntry, BufferEntry)>, Error>)
        ensures
            r matches Ok(o) && o is None,
            *final(self) == *old(self),
    {
        Ok(None)
    }

    /// Advances by exactly `count` records and yields the one reached.
    pub fn skip(&mut self, count: usize) -> (r: Result<Option<(BufferEntry, BufferEntry)>, Error>)
        requires
            old(self).wf(),
            count >= 1,
        ensures
            final(self).wf(),
            final(self).db == old(self).db,
            r is Ok,
            (r matches Ok(o) ==> {
                &&& (old(self).pos + count <= old(self).db.entries@.len() ==> (o matches Some(
                    pair) && {
                    &&& pair.0@ == old(self).db.key_at(old(self).pos + count - 1)
                    &&& pair.1@ == old(self).db.val_at(old(self).pos + count - 1)
                    &&& final(self).pos == old(self).pos + count
                }))
                &&& (old(self).pos + count > old(self).db.entries@.len() ==> o is None)
            }),
    {
        let n = self.db.entries.len();
        if count <= n - self.pos {
            let target = self.pos + count - 1;
            let pair = self.db.pair_at(target);
            let k = pair.0.duplicate();
            let v = pair.1.duplicate();
            self.pos = target + 1;
            Ok(Some((k, v)))
        } else {
            self.pos = n;
            Ok(None)
        }
    }
}


/// The key a secondary search seeks to: the key itself on a unique index,
/// the key with the sentinel ordinal on a non-unique one.
pub open spec fn search_target(unique: bool, k: Seq<u8>) -> Seq<u8> {
    if unique {
        k
    } else {
        k + suffix_enc(0)
    }
}

/// When the entry at the seek position does not rekey to `k` (or the store
/// is exhausted), no entry anywhere rekeys to `k`.
proof fn lemma_search_absent(idb: &Store, k: Seq<u8>, p: int)
    requires
        idb.wf(),
        !idb.unique ==> forall|i: int|
            0 <= i < idb.entries@.len() ==> spec_suffix_val(#[trigger] idb.key_at(i)) >= 1,
        0 <= p <= idb.entries@.len(),
        forall|q: int| 0 <= q < p ==> key_cmp(idb.unique, idb.key_at(q), search_target(
            idb.unique, k)) == core::cmp::Ordering::Less,
        p < idb.entries@.len() ==> key_cmp(idb.unique, idb.key_at(p), search_target(idb.unique,
            k)) != core::cmp::Ordering::Less,
        p < idb.entries@.len() ==> (if idb.unique {
            idb.key_at(p) != k
        } else {
            prefix_of(idb.key_at(p)) != k
        }),
    ensures
        forall|j: int|
            0 <= j < idb.entries@.len() ==> (if idb.unique {
                #[trigger] idb.key_at(j) != k
            } else {
                prefix_of(#[trigger] idb.key_at(j)) != k
            }),
{
    let target = search_target(idb.unique, k);
    if !idb.unique {
        lemma_suffix_round_trip(k, 0);
    }
    assert forall|j: int|
        0 <= j < idb.entries@.len() implies (if idb.unique {
        #[trigger] idb.key_at(j) != k
    } else {
        prefix_of(#[trigger] idb.key_at(j)) != k
    }) by {
        if idb.unique {
            if idb.key_at(j) == k {
                crate::store::lemma_key_cmp_refl(true, k);
                assert(key_cmp(true, idb.key_at(j), target) == core::cmp::Ordering::Equal);
                assert(j >= p);
                assert(j != p);
                assert(key_cmp(true, idb.key_at(p), idb.key_at(j))
                    == core::cmp::Ordering::Less);
                crate::entry::lemma_lex_cmp_eq(idb.key_at(j), k);
                assert(key_cmp(true, idb.key_at(p), k) == core::cmp::Ordering::Less);
                assert(false);
            }
        } else {
            if prefix_of(idb.key_at(j)) == k {
                crate::entry::lemma_lex_cmp_eq(prefix_of(idb.key_at(j)), prefix_of(target));
                assert(key_cmp(false, idb.key_at(j), target) != core::cmp::Ordering::Less);
                assert(j >= p);
                assert(j != p);
                assert(key_cmp(false, idb.key_at(p), idb.key_at(j))
                    == core::cmp::Ordering::Less);
                crate::entry::lemma_lex_cmp_eq(prefix_of(idb.key_at(p)),
                    prefix_of(idb.key_at(j)));
                crate::entry::lemma_lex_cmp_eq(prefix_of(idb.key_at(p)), prefix_of(target));
                assert(false);
            }
        }
    }
}

/// The first entry of a duplicate group carries the group's highest ordinal.
proof fn lemma_search_head(idb: &Store, k: Seq<u8>, p: int)
    requires
        idb.wf(),
        !idb.unique,
        forall|i: int|
            0 <= i < idb.entries@.len() ==> spec_suffix_val(#[trigger] idb.key_at(i)) >= 1,
        0 <= p < idb.entries@.len(),
        forall|q: int| 0 <= q < p ==> key_cmp(false, idb.key_at(q), search_target(false, k))
            == core::cmp::Ordering::Less,
        prefix_of(idb.key_at(p)) == k,
    ensures
        forall|j: int|
            prefix_of(#[trigger] idb.key_at(j)) == k && 0 <= j < idb.entries@.len()
                ==> spec_suffix_val(idb.key_at(j)) <= spec_suffix_val(idb.key_at(p)),
{
    let target = search_target(false, k);
    lemma_suffix_round_trip(k, 0);
    assert forall|j: int|
        prefix_of(#[trigger] idb.key_at(j)) == k && 0 <= j < idb.entries@.len() implies
        spec_suffix_val(idb.key_at(j)) <= spec_suffix_val(idb.key_at(p)) by {
        crate::entry::lemma_lex_cmp_eq(prefix_of(idb.key_at(j)), prefix_of(target));
        assert(key_cmp(false, idb.key_at(j), target) != core::cmp::Ordering::Less);
        assert(j >= p);
        if j > p {
            assert(key_cmp(false, idb.key_at(p), idb.key_at(j)) == core::cmp::Ordering::Less);
            crate::entry::lemma_lex_cmp_eq(prefix_of(idb.key_at(p)), prefix_of(idb.key_at(j)));
        }
    }
}

/// One step of a secondary cursor: the index key as handed back to the
/// caller, the primary key the index entry stores, and the primary record's
/// value.
#[derive(Debug)]
pub struct SRecord {
    pub skey: BufferEntry,
    pub pkey: BufferEntry,
    pub data: BufferEntry,
}

/// An ordered iterator over a secondary index that re-resolves primary
/// records.
#[derive(Debug)]
pub struct IDXCursor<'a> {
    pub primary: &'a Store,
    pub idb: &'a Store,
    pub pos: usize,
}

impl<'a> IDXCursor<'a> {
    /// Both stores sorted; the position points into the index; a non-unique
    /// index holds only allocated ordinals, which start at one.
    pub open spec fn wf(&self) -> bool {
        &&& self.primary.wf()
        &&& self.primary.unique
        &&& self.idb.wf()
        &&& self.pos <= self.idb.entries@.len()
        &&& (!self.idb.unique ==> forall|i: int|
            0 <= i < self.idb.entries@.len() ==> spec_suffix_val(
                #[trigger] self.idb.key_at(i)) >= 1)
    }

    /// The caller-visible key of index entry `i`: for a non-unique index the
    /// ordinal suffix is stripped.
    pub open spec fn rekey_spec(&self, i: int) -> Seq<u8> {
        if self.idb.unique {
            self.idb.key_at(i)
        } else {
            prefix_of(self.idb.key_at(i))
        }
    }

    /// A cursor positioned at the first index entry.
    pub fn new(primary: &'a Store, idb: &'a Store) -> (r: IDXCursor<'a>)
        requires
            primary.wf(),
            primary.unique,
            idb.wf(),
            !idb.unique ==> forall|i: int|
                0 <= i < idb.entries@.len() ==> spec_suffix_val(#[trigger] idb.key_at(i)) >= 1,
        ensures
            r.wf(),
            r.primary == primary,
            r.idb == idb,
            r.pos == 0,
    {
        IDXCursor { primary, idb, pos: 0 }
    }

    /// Re-resolves a stored primary key to its record; a missing record is
    /// the index being out of step with the primary.
    fn fetch(&self, pkey: &BufferEntry) -> (r: Result<BufferEntry, Error>)
        requires
            self.wf(),
            pkey.wf(),
        ensures
            (r matches Ok(v) ==> v.wf() && self.primary.spec_get(pkey@) == Some(v@)),
            (r matches Err(e) ==> self.primary.spec_get(pkey@) is None && e.inner is DBRead),
    {
        match self.primary.get(pkey) {
            Ok(Some(v)) => Ok(v),
            Ok(None) => Err(Error {
                inner: ErrorKind::DBRead(PhantomError::from_str("Index mismatch")),
            }),
            Err(e) => Err(Error {
                inner: ErrorKind::DBRead(PhantomError::from_str("Index mismatch")),
            }),
        }
    }

    /// Yields the index entry at the cursor, re-resolved, and advances.
    pub fn s_next(&mut self) -> (r: Result<Option<SRecord>, Error>)
        requires
            old(self).wf(),
        ensures
            final(self).wf(),
            final(self).primary == old(self).primary,
            final(self).idb == old(self).idb,
            (r matches Ok(o) ==> {
                &&& (old(self).pos < old(self).idb.entries@.len() ==> (o matches Some(rec) && {
                    &&& rec.skey.wf() && rec.pkey.wf() && rec.data.wf()
                    &&& rec.skey@ == old(self).rekey_spec(old(self).pos as int)
                    &&& rec.pkey@ == old(self).idb.val_at(old(self).pos as int)
                    &&& old(self).primary.spec_get(rec.pkey@) == Some(rec.data@)
                    &&& final(self).pos == old(self).pos + 1
                }))
                &&& (old(self).pos >= old(self).idb.entries@.len() ==> (o is None && final(
                    self).pos == old(self).pos))
            }),
            (r matches Err(e) ==> e.inner is DBRead && old(self).pos < old(
                self).idb.entries@.len() && old(self).primary.spec_get(
                old(self).idb.val_at(old(self).pos as int)) is None),
    {
        if self.pos >= self.idb.entries.len() {
            return Ok(None);
        }
        let pair = self.idb.pair_at(self.pos);
        let skey = self.rekey(&pair.0);
        let pkey = pair.1.duplicate();
        let data = match self.fetch(&pkey) {
            Ok(v) => v,
            Err(e) => {
                return Err(e);
            },
        };
        self.pos = self.pos + 1;
        Ok(Some(SRecord { skey, pkey, data }))
    }

    /// Strips the ordinal suffix from a non-unique index key.
    fn rekey(&self, skey: &BufferEntry) -> (r: BufferEntry)
        requires
            self.wf(),
            skey.wf(),
            !self.idb.unique ==> crate::suffix::suffix_valid(skey@),
        ensures
            r.wf(),
            self.idb.unique ==> r@ == skey@,
            !self.idb.unique ==> r@ == prefix_of(skey@),
    {
        if self.idb.unique {
            skey.duplicate()
        } else {
            let n = crate::suffix::size_of_suffix(skey);
            let mut out = skey.duplicate();
            let len = out.len();
            out.set_len(len - n);
            proof {
                assert(out@ =~= prefix_of(skey@));
            }
            out
        }
    }

    /// Steps to the next entry of the same duplicate group: yields it when
    /// its prefix matches the entry the cursor last yielded, consuming it
    /// either way.  A unique index has no duplicates.
    pub fn s_next_dup(&mut self) -> (r: Result<Option<SRecord>, Error>)
        requires
            old(self).wf(),
            old(self).pos >= 1,
        ensures
            final(self).wf(),
            final(self).primary == old(self).primary,
            final(self).idb == old(self).idb,
            old(self).idb.unique ==> (r matches Ok(o) && o is None && final(self).pos == old(
                self).pos),

            (!old(self).idb.unique ==> (r matches Ok(o) ==> {
                &&& (o matches Some(rec) ==> {
                    &&& old(self).pos < old(self).idb.entries@.len()
                    &&& prefix_of(old(self).idb.key_at(old(self).pos as int)) == prefix_of(
                        old(self).idb.key_at(old(self).pos - 1))
                    &&& rec.skey@ == prefix_of(old(self).idb.key_at(old(self).pos as int))
                    &&& rec.pkey@ == old(self).idb.val_at(old(self).pos as int)
                    &&& old(self).primary.spec_get(rec.pkey@) == Some(rec.data@)
                    &&& final(self).pos == old(self).pos + 1
                })
                &&& (o is None ==> (old(self).pos >= old(self).idb.entries@.len() && final(
                    self).pos == old(self).pos) || (old(self).pos < old(
                    self).idb.entries@.len() && prefix_of(old(self).idb.key_at(
                    old(self).pos as int)) != prefix_of(old(self).idb.key_at(old(self).pos - 1))
                    && final(self).pos == old(self).pos + 1))
            })),
    {
        if self.idb.unique {
            return Ok(None);
        }
        if self.pos >= self.idb.entries.len() {
            return Ok(None);
        }
        let prev = self.idb.pair_at(self.pos - 1);
        let cur = self.idb.pair_at(self.pos);
        let prev_key = self.rekey(&prev.0);
        let cur_key = self.rekey(&cur.0);
        self.pos = self.pos + 1;
        let same = crate::entry::compare_bytes(prev_key.slice(), cur_key.slice());
        proof {
            crate::entry::lemma_lex_cmp_eq(prefix_of(old(self).idb.key_at(old(self).pos - 1)),
                prefix_of(old(self).idb.key_at(old(self).pos as int)));
        }
        if !matches!(same, Ordering::Equal) {
            return Ok(None);
        }
        let pkey = cur.1.duplicate();
        let data = match self.fetch(&pkey) {
            Ok(v) => v,
            Err(e) => {
                return Err(e);
            },
        };
        Ok(Some(SRecord { skey: cur_key, pkey, data }))
    }

    /// Seeks to the head of `key`'s group (or to `key` itself on a unique
    /// index) and yields its first entry when it matches `key`: for a
    /// non-unique index the hit is the group's highest-ordinal entry.
    /// Nothing is yielded exactly when no entry rekeys to `key`; a read
    /// error means the matched entry's primary record is missing.  The
    /// examined entry is consumed either way.
    pub fn s_search(&mut self, key: &BufferEntry) -> (r: Result<Option<SRecord>, Error>)
        requires
            old(self).wf(),
            key.wf(),
            key.len + 5 <= usize::MAX,
        ensures
            final(self).wf(),
            final(self).primary == old(self).primary,
            final(self).idb == old(self).idb,
            (r matches Ok(o) ==> {
                &&& (o matches Some(rec) ==> exists|p: int|
                    {
                        &&& 0 <= p < old(self).idb.entries@.len()
                        &&& #[trigger] old(self).rekey_spec(p) == key@
                        &&& (forall|q: int|
                            0 <= q < p ==> key_cmp(old(self).idb.unique, old(self).idb.key_at(
                                q), search_target(old(self).idb.unique, key@))
                                == Ordering::Less)
                        &&& (!old(self).idb.unique ==> forall|j: int|
                            prefix_of(#[trigger] old(self).idb.key_at(j)) == key@ && 0 <= j
                                < old(self).idb.entries@.len() ==> spec_suffix_val(
                                old(self).idb.key_at(j)) <= spec_suffix_val(
                                old(self).idb.key_at(p)))
                        &&& rec.skey@ == key@
                        &&& rec.pkey@ == old(self).idb.val_at(p)
                        &&& old(self).primary.spec_get(rec.pkey@) == Some(rec.data@)
                        &&& final(self).pos == p + 1
                    })
                &&& (o is None ==> forall|j: int|
                    0 <= j < old(self).idb.entries@.len() ==> #[trigger] old(self).rekey_spec(j)
                        != key@)
            }),
            (r matches Err(e) ==> e.inner is DBRead),
    {
        let target: BufferEntry = if self.idb.unique {
            key.duplicate()
        } else {
            let kd = key.duplicate();
            proof {
                assert(kd.len - kd.off == kd@.len());
                assert(key.len - key.off == key@.len());
            }
            match crate::suffix::append_suffix(kd, 0) {
                Ok(t) => t,
                Err(e) => {
                    proof {
                        assert(false);
                    }
                    return Err(e);
                },
            }
        };
        proof {
            if !self.idb.unique {
                lemma_suffix_round_trip(key@, 0);
            }
            assert(target@ == search_target(self.idb.unique, key@));
        }
        let p = match self.idb.seek_pos(&target) {
            Ok(p) => p,
            Err(e) => {
                proof {
                    assert(false);
                }
                return Err(e);
            },
        };
        if p >= self.idb.entries.len() {
            self.pos = p;
            proof {
                lemma_search_absent(self.idb, key@, p as int);
            }
            return Ok(None);
        }
        self.pos = p + 1;
        let pair = self.idb.pair_at(p);
        let found = self.rekey(&pair.0);
        let same = crate::entry::compare_bytes(found.slice(), key.slice());
        proof {
            crate::entry::lemma_lex_cmp_eq(old(self).rekey_spec(p as int), key@);
        }
        if !matches!(same, Ordering::Equal) {
            proof {
                lemma_search_absent(self.idb, key@, p as int);
            }
            return Ok(None);
        }
        proof {
            if !self.idb.unique {
                lemma_search_head(self.idb, key@, p as int);
            }
        }
        let pkey = pair.1.duplicate();
        let data = match self.fetch(&pkey) {
            Ok(v) => v,
            Err(e) => {
                return Err(e);
            },
        };
        Ok(Some(SRecord { skey: found, pkey, data }))
    }

    /// Seeks to `key`'s position and yields the first entry at or after the
    /// seek point, re-resolved; nothing exactly when no entry follows.
    pub fn s_search_range(&mut self, key: &BufferEntry) -> (r: Result<Option<SRecord>, Error>)
        requires
            old(self).wf(),
            key.wf(),
            key.len + 5 <= usize::MAX,
        ensures
            final(self).wf(),
            final(self).primary == old(self).primary,
            final(self).idb == old(self).idb,
            (r matches Ok(o) ==> {
                &&& (o matches Some(rec) ==> exists|p: int|
                    {
                        &&& 0 <= p < old(self).idb.entries@.len()
                        &&& #[trigger] key_cmp(old(self).idb.unique, old(self).idb.key_at(p),
                            search_target(old(self).idb.unique, key@)) != Ordering::Less
                        &&& (forall|q: int|
                            0 <= q < p ==> key_cmp(old(self).idb.unique, old(self).idb.key_at(
                                q), search_target(old(self).idb.unique, key@))
                                == Ordering::Less)
                        &&& rec.skey@ == old(self).rekey_spec(p)
                        &&& rec.pkey@ == old(self).idb.val_at(p)
                        &&& old(self).primary.spec_get(rec.pkey@) == Some(rec.data@)
                        &&& final(self).pos == p + 1
                    })
                &&& (o is None ==> forall|q: int|
                    0 <= q < old(self).idb.entries@.len() ==> key_cmp(old(self).idb.unique,
                        #[trigger] old(self).idb.key_at(q), search_target(old(self).idb.unique,
                            key@)) == Ordering::Less)
            }),
            (r matches Err(e) ==> e.inner is DBRead),
    {
        let target: BufferEntry = if self.idb.unique {
            key.duplicate()
        } else {
            let kd = key.duplicate();
            proof {
                assert(kd.len - kd.off == kd@.len());
                assert(key.len - key.off == key@.len());
            }
            match crate::suffix::append_suffix(kd, 0) {
                Ok(t) => t,
                Err(e) => {
                    proof {
                        assert(false);
                    }
                    return Err(e);
                },
            }
        };
        proof {
            if !self.idb.unique {
                lemma_suffix_round_trip(key@, 0);
            }
            assert(target@ == search_target(self.idb.unique, key@));
        }
        let p = match self.idb.seek_pos(&target) {
            Ok(p) => p,
            Err(e) => {
                proof {
                    assert(false);
                }
                return Err(e);
            },
        };
        self.pos = p;
        self.s_next()
    }

    /// Advances by exactly `count` index entries and yields the one reached,
    /// re-resolved.
    pub fn s_skip(&mut self, count: usize) -> (r: Result<Option<SRecord>, Error>)
        requires
            old(self).wf(),
            count >= 1,
        ensures
            final(self).wf(),
            final(self).primary == old(self).primary,
            final(self).idb == old(self).idb,
            (r matches Ok(o) ==> {
                &&& (old(self).pos + count <= old(self).idb.entries@.len() ==> (o matches Some(
                    rec) && {
                    &&& rec.skey@ == old(self).rekey_spec(old(self).pos + count - 1)
                    &&& rec.pkey@ == old(self).idb.val_at(old(self).pos + count - 1)
                    &&& old(self).primary.spec_get(rec.pkey@) == Some(rec.data@)
                    &&& final(self).pos == old(self).pos + count
                }))
                &&& (old(self).pos + count > old(self).idb.entries@.len() ==> o is None)
            }),
    {
        let n = self.idb.entries.len();
        if count <= n - self.pos {
            let target = self.pos + count - 1;
            self.pos = target;
            self.s_next()
        } else {
            self.pos = n;
            Ok(None)
        }
    }
}

/// The primary cursor yields records in ascending key order: of any two
/// positions it can step through, the earlier one's key sorts below the
/// later one's.
pub proof fn lemma_pk_cursor_order(c: &PKCursor, i: int, j: int)
    requires
        c.wf(),
        0 <= i < j < c.db.entries@.len(),
    ensures
        key_cmp(true, c.db.key_at(i), c.db.key_at(j)) == Ordering::Less,
{
}

/// The secondary cursor yields index entries in ascending index-key order:
/// prefixes in byte order and, within a duplicate group, higher ordinals
/// first.
pub proof fn lemma_idx_cursor_order(c: &IDXCursor, i: int, j: int)
    requires
        c.wf(),
        0 <= i < j < c.idb.entries@.len(),
    ensures
        key_cmp(c.idb.unique, c.idb.key_at(i), c.idb.key_at(j)) == Ordering::Less,
{
}

impl<G: crate::database::KeyCreator> crate::database::PrimaryDatabase<G> {
    /// Opens an ordered cursor over the primary records.
    pub fn open_cursor<'a>(&'a self) -> (r: Result<PKCursor<'a>, Error>)
        requires
            self.wf(),
        ensures
            r matches Ok(c) && c.wf() && c.db == &self.database && c.pos == 0,
    {
        Ok(PKCursor::new(&self.database))
    }

    /// Opens an ordered cursor over the index at `index`, bound to the
    /// primary for re-resolution.
    pub fn open_idx_cursor<'a>(&'a self, index: usize) -> (r: Result<IDXCursor<'a>, Error>)
        requires
            self.wf(),
            index < self.listeners@.len(),
        ensures
            r matches Ok(c) && c.wf() && c.primary == &self.database && c.idb == &self.listeners@[
                index as int].idb && c.pos == 0,
    {
        Ok(IDXCursor::new(&self.database, &self.listeners[index].idb))
    }
}

} // verus!
