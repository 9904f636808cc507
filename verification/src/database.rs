//! The primary database and its index listeners.
//!
//! A primary database owns a sorted store of user records and a set of
//! listeners, one per secondary index.  Every completed primary write first
//! retracts the old record from each index, then stores the record, then
//! announces the new record to each index.  A non-unique index disambiguates
//! duplicate extracted keys with a monotonically allocated ordinal suffix.

use vstd::prelude::*;
use core::cmp::Ordering;
use crate::entry::BufferEntry;
use crate::error::Error;
use crate::error::ErrorKind;
use crate::error::PhantomError;
use crate::store::Store;
use crate::store::key_cmp;
use crate::store::put_replaced;
use crate::store::put_inserted;
use crate::suffix::append_suffix;
use crate::suffix::reset_suffix;
use crate::suffix::spec_suffix_size;
use crate::suffix::spec_suffix_val;
use crate::suffix::suffix_enc;
use crate::suffix::lemma_suffix_round_trip;
use crate::suffix::unwrap_suffix;

verus! {

/// A user-supplied function that derives an index key from a primary record.
/// `None` means the record does not take part in this index.
pub trait KeyCreator {
    /// The derived key, as a function of the record alone.
    spec fn create_spec(&self, k: Seq<u8>, v: Seq<u8>) -> Option<Seq<u8>>;

    /// On which records the derivation succeeds.
    spec fn create_ok(&self, k: Seq<u8>, v: Seq<u8>) -> bool;

    /// Derives the index key of a record.
    fn create_key(&self, key: &BufferEntry, data: &BufferEntry) -> (r: Result<
        Option<BufferEntry>,
        Error,
    >)
        requires
            key.wf(),
            data.wf(),
        ensures
            r is Ok <==> self.create_ok(key@, data@),
            (r matches Ok(o) ==> {
                &&& (o matches Some(e) ==> e.wf() && (self.create_spec(key@, data@) matches Some(
                    s) && e@ == s))
                &&& (o is None ==> self.create_spec(key@, data@) is None)
            }),
    ;
}

/// A key creator that indexes every record by its stored value.
#[derive(Debug, Clone, Copy)]
pub struct ValueKeyCreator;

impl KeyCreator for ValueKeyCreator {
    open spec fn create_spec(&self, k: Seq<u8>, v: Seq<u8>) -> Option<Seq<u8>> {
        Some(v)
    }

    open spec fn create_ok(&self, k: Seq<u8>, v: Seq<u8>) -> bool {
        true
    }

    fn create_key(&self, key: &BufferEntry, data: &BufferEntry) -> (r: Result<
        Option<BufferEntry>,
        Error,
    >) {
        Ok(Some(data.duplicate()))
    }
}

/// The prefix of a suffixed index key.
pub open spec fn prefix_of(k: Seq<u8>) -> Seq<u8> {
    k.take(k.len() - spec_suffix_size(k))
}

/// Index entry `i` belongs to the duplicate group of `sk`.
pub open spec fn in_group(idb: &Store, i: int, sk: Seq<u8>) -> bool {
    0 <= i < idb.entries@.len() && prefix_of(idb.key_at(i)) == sk
}

/// What announcing the record `(k, v)` does to a non-unique index holding
/// `pre`: a fresh ordinal above the group of `sk` is allocated and the key
/// `sk` plus its encoding now maps to `k`.
pub open spec fn idx_put_effect(pre: &Store, post: &Store, sk: Seq<u8>, k: Seq<u8>) -> bool {
    exists|ord: u32, p: int|
        {
            &&& 1 <= ord
            &&& #[trigger] put_inserted(pre.entries@, post.entries@, false, sk + suffix_enc(ord),
                k, p)
            &&& (forall|j: int| in_group(pre, j, sk) ==> spec_suffix_val(pre.key_at(j)) < ord)
            &&& (ord == 1 || exists|j: int|
                in_group(pre, j, sk) && spec_suffix_val(pre.key_at(j)) == ord - 1)
        }
}

/// What retracting the record `(k, v)` does to a non-unique index: the
/// highest-ordinal group entry of `sk` that stores `k` is removed; if no
/// group entry stores `k`, nothing changes.
pub open spec fn idx_delete_effect(pre: &Store, post: &Store, sk: Seq<u8>, k: Seq<u8>) -> bool {
    ||| (post.entries@ == pre.entries@ && forall|j: int|
        in_group(pre, j, sk) ==> pre.val_at(j) != k)
    ||| (exists|i: int|
        {
            &&& in_group(pre, i, sk)
            &&& pre.val_at(i) == k
            &&& #[trigger] post.entries@ == pre.entries@.remove(i)
            &&& forall|j: int|
                in_group(pre, j, sk) && spec_suffix_val(pre.key_at(j)) > spec_suffix_val(
                    pre.key_at(i)) ==> pre.val_at(j) != k
        })
}


/// A fresh ordinal can be allocated in `sk`'s group: the suffixed key fits
/// the machine and no group member has exhausted the ordinal range.
pub open spec fn can_allocate(idb: &Store, sk: Seq<u8>) -> bool {
    &&& sk.len() + 5 <= usize::MAX
    &&& forall|j: int|
        #[trigger] in_group(idb, j, sk) ==> spec_suffix_val(idb.key_at(j)) < u32::MAX
}

/// The retraction of record `(k, vold)` from one listener cannot fail.
pub open spec fn delete_succeeds<G: KeyCreator>(l: &IndexListener<G>, k: Seq<u8>,
    vold: Option<Seq<u8>>) -> bool {
    match vold {
        None => true,
        Some(vo) => l.creator.create_ok(k, vo) && (l.creator.create_spec(k, vo) matches Some(sk)
            ==> (l.idb.unique || sk.len() + 5 <= usize::MAX)),
    }
}

/// The whole retract-then-announce pass for record `(k, v)` over prior value
/// `vold` cannot fail on this listener.
pub open spec fn refresh_succeeds<G: KeyCreator>(l: &IndexListener<G>, k: Seq<u8>,
    vold: Option<Seq<u8>>, v: Seq<u8>) -> bool {
    &&& l.creator.create_ok(k, v)
    &&& (match vold {
        Some(vo) => vo != v ==> delete_succeeds(l, k, vold),
        None => true,
    })
    &&& (l.creator.create_spec(k, v) matches Some(sk) ==> (l.idb.unique || can_allocate(&l.idb,
        sk)))
}

/// A partially completed refresh, as interrupted writes leave it: the
/// retraction may or may not have run, then the announcement may or may not
/// have run.
pub open spec fn listener_partial_refresh<G: KeyCreator>(creator: G, unique: bool, pre: &Store,
    post: &Store, k: Seq<u8>, vold: Option<Seq<u8>>, v: Seq<u8>) -> bool {
    exists|mid: Store|
        {
            &&& mid.unique == pre.unique
            &&& (mid.entries@ == pre.entries@ || (vold matches Some(vo) && vo != v
                && listener_delete_effect(creator, unique, pre, &mid, k, vo)))
            &&& (post.entries@ == mid.entries@ || #[trigger] listener_put_effect(creator,
                unique, &mid, post, k, v))
        }
}

/// A retraction either leaves the index alone or removes one entry.
proof fn lemma_delete_effect_shape<G: KeyCreator>(creator: G, unique: bool, pre: &Store,
    post: &Store, k: Seq<u8>, vo: Seq<u8>)
    requires
        listener_delete_effect(creator, unique, pre, post, k, vo),
    ensures
        post.entries@ == pre.entries@ || exists|i: int|
            0 <= i < pre.entries@.len() && post.entries@ == #[trigger] pre.entries@.remove(i),
{
    match creator.create_spec(k, vo) {
        None => {},
        Some(sk) => {
            if unique {
                if post.entries@ != pre.entries@ {
                    let i = choose|i: int|
                        {
                            &&& 0 <= i < pre.entries@.len()
                            &&& key_cmp(true, pre.key_at(i), sk) == Ordering::Equal
                            &&& #[trigger] post.entries@ == pre.entries@.remove(i)
                        };
                    assert(post.entries@ == pre.entries@.remove(i));
                }
            } else {
                if post.entries@ != pre.entries@ {
                    let i = choose|i: int|
                        {
                            &&& in_group(pre, i, sk)
                            &&& pre.val_at(i) == k
                            &&& #[trigger] post.entries@ == pre.entries@.remove(i)
                        };
                    assert(post.entries@ == pre.entries@.remove(i));
                }
            }
        },
    }
}

/// Removing entries cannot spoil a group's ordinal headroom.
proof fn lemma_removal_preserves_alloc(pre: &Store, post: &Store, sk: Seq<u8>)
    requires
        post.entries@ == pre.entries@ || exists|i: int|
            0 <= i < pre.entries@.len() && post.entries@ == #[trigger] pre.entries@.remove(i),
        can_allocate(pre, sk),
    ensures
        can_allocate(post, sk),
{
    if post.entries@ == pre.entries@ {
        assert forall|j: int| #[trigger] in_group(post, j, sk) implies spec_suffix_val(
            post.key_at(j)) < u32::MAX by {
            assert(in_group(pre, j, sk));
        }
    } else {
        let i = choose|i: int|
            0 <= i < pre.entries@.len() && post.entries@ == #[trigger] pre.entries@.remove(i);
        assert forall|j: int| #[trigger] in_group(post, j, sk) implies spec_suffix_val(
            post.key_at(j)) < u32::MAX by {
            let j2: int = if j < i {
                j
            } else {
                j + 1
            };
            assert(post.entries@[j] == pre.entries@[j2]);
            assert(in_group(pre, j2, sk));
        }
    }
}

/// The per-index side-effect handler: an index store and the user's key
/// creator.
#[derive(Debug)]
pub struct IndexListener<G: KeyCreator> {
    pub idb: Store,
    pub creator: G,
}

impl<G: KeyCreator> IndexListener<G> {
    /// The index store is sorted; a non-unique index holds only allocated
    /// ordinals, which start at one.
    pub open spec fn wf(&self) -> bool {
        &&& self.idb.wf()
        &&& (!self.idb.unique ==> forall|i: int|
            0 <= i < self.idb.entries@.len() ==> spec_suffix_val(
                #[trigger] self.idb.key_at(i)) >= 1)
    }

    /// Builds a listener over an index store.
    pub fn new(idb: Store, creator: G) -> (r: IndexListener<G>)
        requires
            idb.wf(),
            !idb.unique ==> forall|i: int|
                0 <= i < idb.entries@.len() ==> spec_suffix_val(#[trigger] idb.key_at(i)) >= 1,
        ensures
            r.wf(),
            r.idb == idb,
            r.creator == creator,
    {
        IndexListener { idb, creator }
    }

    /// Announces a stored record to the index.
    pub fn put(&mut self, key: &BufferEntry, data: &BufferEntry) -> (r: Result<(), Error>)
        requires
            old(self).wf(),
            key.wf(),
            data.wf(),
        ensures
            final(self).wf(),
            final(self).creator == old(self).creator,
            final(self).idb.unique == old(self).idb.unique,
            final(self).idb.name == old(self).idb.name,
            !old(self).creator.create_ok(key@, data@) ==> r is Err && final(self).idb.entries@
                == old(self).idb.entries@,
            (old(self).creator.create_spec(key@, data@) is None && old(self).creator.create_ok(
                key@, data@) ==> r is Ok && final(self).idb.entries@ == old(self).idb.entries@),
            (r is Ok <==> (old(self).creator.create_ok(key@, data@) && (old(
                self).creator.create_spec(key@, data@) matches Some(sk) ==> (
            old(self).idb.unique || can_allocate(&old(self).idb, sk))))),
            r is Err ==> final(self).idb.entries@ == old(self).idb.entries@,
            (r is Ok ==> (old(self).creator.create_spec(key@, data@) matches Some(sk) ==> {
                &&& (old(self).idb.unique ==> {
                    ||| (exists|i: int|
                        put_replaced(old(self).idb.entries@, final(self).idb.entries@, true, sk,
                            key@, i))
                    ||| (!old(self).idb.has_key(sk) && exists|p: int|
                        put_inserted(old(self).idb.entries@, final(self).idb.entries@, true, sk,
                            key@, p))
                })
                &&& (!old(self).idb.unique ==> idx_put_effect(&old(self).idb, &final(self).idb,
                    sk, key@))
            })),
    {
        let sk = match self.creator.create_key(key, data) {
            Ok(Some(sk)) => sk,
            Ok(None) => {
                return Ok(());
            },
            Err(e) => {
                return Err(e);
            },
        };
        if self.idb.unique {
            match self.idb.put(&sk, key) {
                Ok(_) => Ok(()),
                Err(e) => {
                    proof {
                        assert(false);
                    }
                    Err(e)
                },
            }
        } else {
            self.put_idx(sk, key)
        }
    }

    /// Announces a record to a non-unique index: probes the head of the
    /// duplicate group for the highest allocated ordinal and stores the
    /// suffixed key one above it.
    #[verifier::rlimit(100)]
    #[verifier::spinoff_prover]
    fn put_idx(&mut self, sk: BufferEntry, key: &BufferEntry) -> (r: Result<(), Error>)
        requires
            old(self).wf(),
            !old(self).idb.unique,
            sk.wf(),
            key.wf(),
        ensures
            final(self).wf(),
            final(self).creator == old(self).creator,
            final(self).idb.unique == old(self).idb.unique,
            final(self).idb.name == old(self).idb.name,
            r is Ok <==> can_allocate(&old(self).idb, sk@),
            (r is Ok ==> idx_put_effect(&old(self).idb, &final(self).idb, sk@, key@)),
            (r is Err ==> final(self).idb.entries@ == old(self).idb.entries@),
    {
        let skc = sk.duplicate();
        if skc.len() > usize::MAX - 5 {
            return Err(Error {
                inner: ErrorKind::DBWrite(PhantomError::from_str("index key too long")),
            });
        }
        let probe = match append_suffix(skc, 0) {
            Ok(p) => p,
            Err(e) => {
                return Err(e);
            },
        };
        proof {
            lemma_suffix_round_trip(sk@, 0);
        }
        let p = match self.idb.seek_pos(&probe) {
            Ok(p) => p,
            Err(e) => {
                return Err(e);
            },
        };
        let n = match self.idb.count() {
            Ok(n) => n,
            Err(e) => {
                return Err(e);
            },
        };
        let mut ord: u32 = 1;
        let ghost idb0 = self.idb;
        if p < n {
            let pair = self.idb.pair_at(p);
            let (head, head_ord) = match unwrap_suffix(&pair.0) {
                Ok(x) => x,
                Err(e) => {
                    return Err(e);
                },
            };
            let same = crate::entry::compare_bytes(head.slice(), sk.slice());
            proof {
                crate::entry::lemma_lex_cmp_eq(prefix_of(idb0.key_at(p as int)), sk@);
            }
            if matches!(same, Ordering::Equal) {
                if head_ord == u32::MAX {
                    proof {
                        assert(in_group(&idb0, p as int, sk@));
                    }
                    return Err(Error {
                        inner: ErrorKind::DBWrite(PhantomError::from_str("ordinal exhausted")),
                    });
                }
                ord = head_ord + 1;
            }
        }
        proof {
            assert(probe@ == sk@ + suffix_enc(0));
            lemma_group_bounded(&idb0, sk@, p as int, ord);
        }
        let skey = match reset_suffix(probe, ord) {
            Ok(k) => k,
            Err(e) => {
                return Err(e);
            },
        };
        proof {
            lemma_suffix_round_trip(sk@, ord);
            assert(skey@ == sk@ + suffix_enc(ord));
        }
        let ghost pre = self.idb;
        let res = self.idb.put(&skey, key);
        match res {
            Ok(pos) => {
                proof {
                    assert(pre == idb0);
                    assert(pre == old(self).idb);
                    assert(pre.unique == false);
                    lemma_suffix_round_trip(sk@, ord);
                    assert(!pre.has_key(skey@)) by {
                        if pre.has_key(skey@) {
                            let i = choose|i: int|
                                0 <= i < pre.entries@.len() && key_cmp(pre.unique, pre.key_at(i),
                                    skey@) == Ordering::Equal;
                            crate::entry::lemma_lex_cmp_eq(prefix_of(pre.key_at(i)),
                                prefix_of(skey@));
                            assert(in_group(&pre, i, sk@));
                            assert(spec_suffix_val(pre.key_at(i)) < ord);
                        }
                    }
                    let pi = pos as int;
                    assert(put_inserted(pre.entries@, self.idb.entries@, pre.unique, skey@,
                        key@, pi));
                    assert(put_inserted(pre.entries@, self.idb.entries@, false, skey@, key@,
                        pi));
                    assert(idx_put_effect(&pre, &self.idb, sk@, key@)) by {
                        assert(put_inserted(pre.entries@, self.idb.entries@, false, sk@
                            + suffix_enc(ord), key@, pi));
                    }
                    assert forall|q: int| 0 <= q < self.idb.entries@.len() implies
                        spec_suffix_val(#[trigger] self.idb.key_at(q)) >= 1 by {
                        if q < pi {
                            assert(self.idb.entries@[q] == pre.entries@[q]);
                            assert(spec_suffix_val(old(self).idb.key_at(q)) >= 1);
                        } else if q == pi {
                            assert(self.idb.key_at(q) == skey@);
                        } else {
                            assert(self.idb.entries@[q] == pre.entries@[q - 1]);
                            assert(spec_suffix_val(old(self).idb.key_at(q - 1)) >= 1);
                        }
                    }
                    assert(can_allocate(&old(self).idb, sk@)) by {
                        assert forall|j: int| #[trigger] in_group(&idb0, j, sk@) implies
                            spec_suffix_val(idb0.key_at(j)) < u32::MAX by {
                            assert(spec_suffix_val(idb0.key_at(j)) < ord);
                        }
                    }
                }
                Ok(())
            },
            Err(e) => Err(e),
        }
    }

    /// Retracts a record from the index.
    pub fn delete(&mut self, key: &BufferEntry, data: &BufferEntry) -> (r: Result<(), Error>)
        requires
            old(self).wf(),
            key.wf(),
            data.wf(),
        ensures
            final(self).wf(),
            final(self).creator == old(self).creator,
            final(self).idb.unique == old(self).idb.unique,
            final(self).idb.name == old(self).idb.name,
            !old(self).creator.create_ok(key@, data@) ==> r is Err && final(self).idb.entries@
                == old(self).idb.entries@,
            (old(self).creator.create_spec(key@, data@) is None && old(self).creator.create_ok(
                key@, data@) ==> r is Ok && final(self).idb.entries@ == old(self).idb.entries@),
            (r is Ok <==> (old(self).creator.create_ok(key@, data@) && (old(
                self).creator.create_spec(key@, data@) matches Some(sk) ==> (
            old(self).idb.unique || sk.len() + 5 <= usize::MAX)))),
            r is Err ==> final(self).idb.entries@ == old(self).idb.entries@,
            (r is Ok ==> (old(self).creator.create_spec(key@, data@) matches Some(sk) ==> {
                &&& (old(self).idb.unique ==> {
                    &&& (!old(self).idb.has_key(sk) ==> final(self).idb.entries@ == old(
                        self).idb.entries@)
                    &&& (old(self).idb.has_key(sk) ==> exists|i: int|
                        {
                            &&& 0 <= i < old(self).idb.entries@.len()
                            &&& key_cmp(true, old(self).idb.key_at(i), sk) == Ordering::Equal
                            &&& final(self).idb.entries@ == old(self).idb.entries@.remove(i)
                        })
                })
                &&& (!old(self).idb.unique ==> idx_delete_effect(&old(self).idb,
                    &final(self).idb, sk, key@))
            })),
    {
        let sk = match self.creator.create_key(key, data) {
            Ok(Some(sk)) => sk,
            Ok(None) => {
                return Ok(());
            },
            Err(e) => {
                return Err(e);
            },
        };
        if self.idb.unique {
            match self.idb.delete(&sk) {
                Ok(_) => Ok(()),
                Err(e) => {
                    proof {
                        assert(false);
                    }
                    Err(e)
                },
            }
        } else {
            self.delete_idx(sk, key)
        }
    }

    /// Retracts a record from a non-unique index: walks the duplicate group
    /// from its head and removes the entry whose stored primary key matches.
    #[verifier::rlimit(100)]
    #[verifier::spinoff_prover]
    fn delete_idx(&mut self, sk: BufferEntry, key: &BufferEntry) -> (r: Result<(), Error>)
        requires
            old(self).wf(),
            !old(self).idb.unique,
            sk.wf(),
            key.wf(),
        ensures
            final(self).wf(),
            final(self).creator == old(self).creator,
            final(self).idb.unique == old(self).idb.unique,
            final(self).idb.name == old(self).idb.name,
            r is Ok <==> sk@.len() + 5 <= usize::MAX,
            (r is Ok ==> idx_delete_effect(&old(self).idb, &final(self).idb, sk@, key@)),
            (r is Err ==> final(self).idb.entries@ == old(self).idb.entries@),
    {
        let skc = sk.duplicate();
        if skc.len() > usize::MAX - 5 {
            return Err(Error {
                inner: ErrorKind::DBRead(PhantomError::from_str("index key too long")),
            });
        }
        proof {
            assert(sk@.len() + 5 <= usize::MAX);
        }
        let probe = match append_suffix(skc, 0) {
            Ok(p) => p,
            Err(e) => {
                return Err(e);
            },
        };
        proof {
            lemma_suffix_round_trip(sk@, 0);
        }
        let start = match self.idb.seek_pos(&probe) {
            Ok(p) => p,
            Err(e) => {
                return Err(e);
            },
        };
        let ghost idb0 = self.idb;
        let n = match self.idb.count() {
            Ok(n) => n,
            Err(e) => {
                return Err(e);
            },
        };
        let mut i: usize = start;
        while i < n
            invariant
                self.idb == idb0,
                idb0 == old(self).idb,
                self.creator == old(self).creator,
                sk@.len() + 5 <= usize::MAX,
                self.wf(),
                forall|i2: int| 0 <= i2 < idb0.entries@.len() ==> spec_suffix_val(
                    #[trigger] idb0.key_at(i2)) >= 1,
                probe@ == sk@ + suffix_enc(0),
                !self.idb.unique,
                sk.wf(),
                key.wf(),
                start <= i <= n == idb0.entries@.len(),
                forall|q: int|
                    start <= q < i && in_group(&idb0, q, sk@) ==> idb0.val_at(q) != key@,
                forall|q: int| 0 <= q < start ==> key_cmp(false, idb0.key_at(q), sk@
                    + suffix_enc(0)) == Ordering::Less,
                start < n ==> key_cmp(false, idb0.key_at(start as int), sk@ + suffix_enc(0))
                    != Ordering::Less,
            decreases n - i,
        {
            let pair = self.idb.pair_at(i);
            let (head, head_ord) = match unwrap_suffix(&pair.0) {
                Ok(x) => x,
                Err(e) => {
                    return Err(e);
                },
            };
            let same = crate::entry::compare_bytes(head.slice(), sk.slice());
            if !matches!(same, Ordering::Equal) {
                proof {
                    crate::entry::lemma_lex_cmp_eq(prefix_of(idb0.key_at(i as int)), sk@);
                    lemma_group_in_range(&idb0, sk@, start as int, i as int);
                }
                return Ok(());
            }
            proof {
                crate::entry::lemma_lex_cmp_eq(prefix_of(idb0.key_at(i as int)), sk@);
            }
            if pair.1 == *key {
                let found = pair.0.duplicate();
                let ghost fi = i as int;
                let res = self.idb.remove_key(&found);
                match res {
                    Ok(got) => {
                        proof {
                            assert(idb0.unique == false);
                            assert(key_cmp(idb0.unique, idb0.key_at(fi), found@)
                                == Ordering::Equal) by {
                                crate::entry::lemma_lex_cmp_eq(prefix_of(idb0.key_at(fi)),
                                    prefix_of(found@));
                            }
                            assert(idb0.has_key(found@));
                            assert(got is Some);
                            let di = got.unwrap() as int;
                            assert(key_cmp(false, idb0.key_at(di), idb0.key_at(fi))
                                == Ordering::Equal);
                            assert(self.idb.entries@ == idb0.entries@.remove(di));
                            assert(exists|i: int|
                                {
                                    &&& 0 <= i < idb0.entries@.len()
                                    &&& key_cmp(false, idb0.key_at(i), idb0.key_at(fi))
                                        == Ordering::Equal
                                    &&& #[trigger] self.idb.entries@ == idb0.entries@.remove(i)
                                });
                            lemma_delete_found(&idb0, &self.idb, sk@, key@, fi, start as int);
                            assert forall|q: int| 0 <= q < self.idb.entries@.len() implies
                                spec_suffix_val(#[trigger] self.idb.key_at(q)) >= 1 by {
                                if q < di {
                                    assert(self.idb.entries@[q] == idb0.entries@[q]);
                                    assert(spec_suffix_val(idb0.key_at(q)) >= 1);
                                } else {
                                    assert(self.idb.entries@[q] == idb0.entries@[q + 1]);
                                    assert(spec_suffix_val(idb0.key_at(q + 1)) >= 1);
                                }
                            }
                        }
                        return Ok(());
                    },
                    Err(e) => {
                        return Err(e);
                    },
                }
            }
            i = i + 1;
        }
        proof {
            lemma_group_in_range(&idb0, sk@, start as int, n as int);
        }
        Ok(())
    }
}


/// What a retraction does to one listener's index, as a function of the
/// record: nothing when the record is not indexed, the unique or non-unique
/// removal otherwise.
pub open spec fn listener_delete_effect<G: KeyCreator>(creator: G, unique: bool, pre: &Store,
    post: &Store, k: Seq<u8>, v: Seq<u8>) -> bool {
    match creator.create_spec(k, v) {
        None => post.entries@ == pre.entries@,
        Some(sk) => {
            if unique {
                ||| (!pre.has_key(sk) && post.entries@ == pre.entries@)
                ||| (exists|i: int|
                    {
                        &&& 0 <= i < pre.entries@.len()
                        &&& key_cmp(true, pre.key_at(i), sk) == Ordering::Equal
                        &&& #[trigger] post.entries@ == pre.entries@.remove(i)
                    })
            } else {
                idx_delete_effect(pre, post, sk, k)
            }
        },
    }
}

/// What an announcement does to one listener's index, as a function of the
/// record.
pub open spec fn listener_put_effect<G: KeyCreator>(creator: G, unique: bool, pre: &Store,
    post: &Store, k: Seq<u8>, v: Seq<u8>) -> bool {
    match creator.create_spec(k, v) {
        None => post.entries@ == pre.entries@,
        Some(sk) => {
            if unique {
                ||| (exists|i: int|
                    put_replaced(pre.entries@, post.entries@, true, sk, k, i))
                ||| (!pre.has_key(sk) && exists|p: int|
                    put_inserted(pre.entries@, post.entries@, true, sk, k, p))
            } else {
                idx_put_effect(pre, post, sk, k)
            }
        },
    }
}

/// The retract-then-announce composition a completed primary write performs
/// on one index: the retraction runs only when a prior value existed and
/// differed.
pub open spec fn listener_refresh_effect<G: KeyCreator>(creator: G, unique: bool, pre: &Store,
    post: &Store, k: Seq<u8>, vold: Option<Seq<u8>>, v: Seq<u8>) -> bool {
    exists|mid: Store|
        {
            &&& mid.unique == pre.unique
            &&& (match vold {
                Some(vo) => {
                    if vo != v {
                        listener_delete_effect(creator, unique, pre, &mid, k, vo)
                    } else {
                        mid == *pre
                    }
                },
                None => mid == *pre,
            })
            &&& #[trigger] listener_put_effect(creator, unique, &mid, post, k, v)
        }
}

/// The main user data store with its registered index listeners.
#[derive(Debug)]
pub struct PrimaryDatabase<G: KeyCreator> {
    pub database: Store,
    pub listeners: Vec<IndexListener<G>>,
}

impl<G: KeyCreator> PrimaryDatabase<G> {
    /// The primary store is sorted over plain keys; every listener's index is
    /// sorted and holds allocated ordinals only.
    pub open spec fn wf(&self) -> bool {
        &&& self.database.wf()
        &&& self.database.unique
        &&& forall|i: int| 0 <= i < self.listeners@.len() ==> (#[trigger] self.listeners@[i]).wf()
    }

    /// Opens a primary database with no listeners.
    pub fn new(name: &str, readonly: bool, temporary: bool) -> (r: PrimaryDatabase<G>)
        ensures
            r.wf(),
            r.database.entries@.len() == 0,
            r.database.name@ == name@,
            r.database.readonly == readonly,
            r.database.temporary == temporary,
            r.listeners@.len() == 0,
    {
        PrimaryDatabase {
            database: Store::new(name, readonly, temporary, true),
            listeners: Vec::new(),
        }
    }

    /// How many records the primary holds.
    pub fn count(&self) -> (r: Result<usize, Error>)
        ensures
            r matches Ok(n) && n == self.database.entries@.len(),
    {
        self.database.count()
    }

    /// Reads the record stored under `key`.
    pub fn get(&self, key: &BufferEntry) -> (r: Result<Option<BufferEntry>, Error>)
        requires
            self.wf(),
            key.wf(),
        ensures
            r is Ok,
            (r matches Ok(o) ==> {
                &&& (o matches Some(v) ==> v.wf() && self.database.spec_get(key@) == Some(v@))
                &&& (o is None ==> self.database.spec_get(key@) is None)
            }),
    {
        self.database.get(key)
    }

    /// Stores a record: retracts the prior record from every index when the
    /// value changes, writes the record, then announces it to every index.
    pub fn put(&mut self, key: &BufferEntry, data: &BufferEntry) -> (r: Result<(), Error>)
        requires
            old(self).wf(),
            key.wf(),
            data.wf(),
        ensures
            final(self).wf(),
            final(self).database.unique,
            final(self).database.name == old(self).database.name,
            final(self).listeners@.len() == old(self).listeners@.len(),
            old(self).listeners@.len() == 0 ==> r is Ok,
            forall|li: int|
                0 <= li < old(self).listeners@.len() ==> (#[trigger] final(self).listeners@[
                    li]).creator == old(self).listeners@[li].creator && final(self).listeners@[
                    li].idb.unique == old(self).listeners@[li].idb.unique,
            (r is Ok ==> {
                &&& (old(self).database.has_key(key@) ==> exists|i: int|
                    put_replaced(old(self).database.entries@, final(self).database.entries@,
                        true, key@, data@, i))
                &&& (!old(self).database.has_key(key@) ==> exists|i: int|
                    put_inserted(old(self).database.entries@, final(self).database.entries@,
                        true, key@, data@, i))
                &&& forall|li: int|
                    0 <= li < old(self).listeners@.len() ==> #[trigger] listener_refresh_effect(
                        old(self).listeners@[li].creator, old(self).listeners@[li].idb.unique,
                        &old(self).listeners@[li].idb, &final(self).listeners@[li].idb, key@,
                        old(self).database.spec_get(key@), data@)
            }),
            (forall|li: int|
                0 <= li < old(self).listeners@.len() ==> refresh_succeeds(
                    &old(self).listeners@[li], key@, old(self).database.spec_get(key@),
                    data@)) ==> r is Ok,
            (r is Err ==> {
                &&& {
                    ||| final(self).database.entries@ == old(self).database.entries@
                    ||| (old(self).database.has_key(key@) && exists|i: int|
                        put_replaced(old(self).database.entries@, final(self).database.entries@,
                            true, key@, data@, i))
                    ||| (!old(self).database.has_key(key@) && exists|i: int|
                        put_inserted(old(self).database.entries@, final(self).database.entries@,
                            true, key@, data@, i))
                }
                &&& forall|li: int|
                    0 <= li < old(self).listeners@.len()
                        ==> #[trigger] listener_partial_refresh(
                        old(self).listeners@[li].creator, old(self).listeners@[li].idb.unique,
                        &old(self).listeners@[li].idb, &final(self).listeners@[li].idb, key@,
                        old(self).database.spec_get(key@), data@)
            }),
    {
        let ghost pre_listeners = self.listeners@;
        let prior = match self.database.get(key) {
            Ok(o) => o,
            Err(e) => {
                proof {
                    assert(false);
                }
                return Err(e);
            },
        };
        let n = self.listeners.len();
        if n > 0 {
            match &prior {
                Some(vold) => {
                    if !(*vold == *data) {
                        let mut i: usize = 0;
                        while i < n
                            invariant
                                old(self).wf(),
                                self.database == old(self).database,
                                i <= n == self.listeners@.len(),
                                self.listeners@.len() == pre_listeners.len(),
                                pre_listeners == old(self).listeners@,
                                key.wf(),
                                vold.wf(),
                                data.wf(),
                                vold@ != data@,
                                old(self).database.spec_get(key@) == Some(vold@),
                                forall|j: int| 0 <= j < self.listeners@.len()
                                    ==> (#[trigger] self.listeners@[j]).wf(),
                                forall|j: int|
                                    0 <= j < self.listeners@.len() ==> (
                                    #[trigger] self.listeners@[j]).creator == pre_listeners[
                                        j].creator && self.listeners@[j].idb.unique
                                        == pre_listeners[j].idb.unique
                                        && self.listeners@[j].idb.name == pre_listeners[
                                        j].idb.name,
                                forall|j: int|
                                    i <= j < self.listeners@.len() ==> #[trigger] self.listeners@[
                                        j] == pre_listeners[j],
                                forall|j: int|
                                    0 <= j < i ==> #[trigger] listener_delete_effect(
                                        pre_listeners[j].creator, pre_listeners[j].idb.unique,
                                        &pre_listeners[j].idb, &self.listeners@[j].idb, key@,
                                        vold@),
                            decreases n - i,
                        {
                            let ghost ls0 = self.listeners@;
                            let l = &mut self.listeners[i];
                            let res = l.delete(key, vold);
                            match res {
                                Ok(_) => {},
                                Err(e) => {
                                    proof {
                                        assert(forall|j: int|
                                            0 <= j < ls0.len() && j != i
                                                ==> #[trigger] self.listeners@[j] == ls0[j]);
                                        assert(self.listeners@[i as int].idb.entries@ == ls0[
                                            i as int].idb.entries@);
                                        assert(ls0[i as int] == pre_listeners[i as int]);
                                        assert(!(pre_listeners[i as int].creator.create_ok(
                                            key@, vold@) && (pre_listeners[
                                            i as int].creator.create_spec(key@, vold@)
                                            matches Some(sk) ==> (pre_listeners[
                                            i as int].idb.unique || sk.len() + 5
                                            <= usize::MAX))));
                                        lemma_put_delete_phase_err(pre_listeners,
                                            self.listeners@, key@, vold@, data@, i as int);
                                    }
                                    return Err(e);
                                },
                            }
                            i = i + 1;
                        }
                    }
                },
                None => {},
            }
        }
        let ghost mids = self.listeners@;
        proof {
            match &prior {
                Some(v) => {
                    assert(old(self).database.spec_get(key@) == Some(v@));
                },
                None => {
                    assert(old(self).database.spec_get(key@) is None);
                },
            }
        }
        let _pos = match self.database.put(key, data) {
            Ok(pos) => pos,
            Err(e) => {
                return Err(e);
            },
        };
        let ghost db1 = self.database;
        let mut i: usize = 0;
        while i < n
            invariant
                old(self).wf(),
                pre_listeners == old(self).listeners@,
                i <= n == self.listeners@.len(),
                self.listeners@.len() == mids.len(),
                mids.len() == old(self).listeners@.len(),
                self.database == db1,
                db1.wf(),
                db1.unique,
                db1.name == old(self).database.name,
                old(self).database.has_key(key@) ==> put_replaced(old(self).database.entries@,
                    db1.entries@, true, key@, data@, _pos as int),
                !old(self).database.has_key(key@) ==> put_inserted(old(self).database.entries@,
                    db1.entries@, true, key@, data@, _pos as int),
                (match old(self).database.spec_get(key@) {
                    Some(vo) => {
                        if vo != data@ {
                            forall|j: int|
                                0 <= j < mids.len() ==> #[trigger] listener_delete_effect(
                                    old(self).listeners@[j].creator,
                                    old(self).listeners@[j].idb.unique,
                                    &old(self).listeners@[j].idb, &mids[j].idb, key@, vo)
                        } else {
                            forall|j: int| 0 <= j < mids.len() ==> #[trigger] mids[j] == old(
                                self).listeners@[j]
                        }
                    },
                    None => forall|j: int| 0 <= j < mids.len() ==> #[trigger] mids[j] == old(
                        self).listeners@[j],
                }),
                forall|j: int|
                    0 <= j < mids.len() ==> (#[trigger] mids[j]).creator == old(
                        self).listeners@[j].creator && mids[j].idb.unique == old(
                        self).listeners@[j].idb.unique,
                key.wf(),
                data.wf(),
                forall|j: int| 0 <= j < mids.len() ==> (#[trigger] mids[j]).wf(),
                forall|j: int| 0 <= j < self.listeners@.len()
                    ==> (#[trigger] self.listeners@[j]).wf(),
                forall|j: int|
                    0 <= j < self.listeners@.len() ==> (#[trigger] self.listeners@[j]).creator
                        == mids[j].creator && self.listeners@[j].idb.unique == mids[
                        j].idb.unique,
                forall|j: int|
                    i <= j < self.listeners@.len() ==> #[trigger] self.listeners@[j] == mids[j],
                forall|j: int|
                    0 <= j < i ==> #[trigger] listener_put_effect(mids[j].creator,
                        mids[j].idb.unique, &mids[j].idb, &self.listeners@[j].idb, key@, data@),
            decreases n - i,
        {
            let ghost ls0 = self.listeners@;
            let l = &mut self.listeners[i];
            let res = l.put(key, data);
            match res {
                Ok(_) => {},
                Err(e) => {
                    proof {
                        assert(forall|j: int|
                            0 <= j < ls0.len() && j != i ==> #[trigger] self.listeners@[j]
                                == ls0[j]);
                        assert(self.listeners@[i as int].idb.entries@ == ls0[
                            i as int].idb.entries@);
                        assert(ls0[i as int] == mids[i as int]);
                        assert(!(mids[i as int].creator.create_ok(key@, data@) && (mids[
                            i as int].creator.create_spec(key@, data@) matches Some(sk) ==> (
                        mids[i as int].idb.unique || can_allocate(&mids[i as int].idb, sk)))));
                        lemma_put_announce_phase_err(pre_listeners, mids, self.listeners@,
                            key@, old(self).database.spec_get(key@), data@, i as int);
                        if old(self).database.has_key(key@) {
                            assert(put_replaced(old(self).database.entries@,
                                self.database.entries@, true, key@, data@, _pos as int));
                        } else {
                            assert(put_inserted(old(self).database.entries@,
                                self.database.entries@, true, key@, data@, _pos as int));
                        }
                    }
                    return Err(e);
                },
            }
            i = i + 1;
        }
        proof {
            lemma_refresh_composition(pre_listeners, mids, self.listeners@, key@,
                old(self).database.spec_get(key@), data@);
        }
        Ok(())
    }
}

impl<G: KeyCreator> PrimaryDatabase<G> {
    /// Deletes the record stored under `key`, retracting it from every index
    /// first, and reports whether one existed.
    pub fn delete_exist(&mut self, key: &BufferEntry) -> (r: Result<bool, Error>)
        requires
            old(self).wf(),
            key.wf(),
        ensures
            final(self).wf(),
            final(self).database.unique,
            final(self).database.name == old(self).database.name,
            final(self).listeners@.len() == old(self).listeners@.len(),
            old(self).listeners@.len() == 0 ==> r is Ok,
            (r matches Ok(found) ==> {
                &&& found == old(self).database.has_key(key@)
                &&& (!found ==> final(self).database.entries@ == old(self).database.entries@
                    && final(self).listeners@ == old(self).listeners@)
                &&& (found ==> exists|i: int|
                    {
                        &&& 0 <= i < old(self).database.entries@.len()
                        &&& key_cmp(true, old(self).database.key_at(i), key@) == Ordering::Equal
                        &&& #[trigger] final(self).database.entries@ == old(
                            self).database.entries@.remove(i)
                    })
                &&& (found ==> forall|li: int|
                    0 <= li < old(self).listeners@.len() ==> #[trigger] listener_delete_effect(
                        old(self).listeners@[li].creator, old(self).listeners@[li].idb.unique,
                        &old(self).listeners@[li].idb, &final(self).listeners@[li].idb, key@,
                        old(self).database.spec_get(key@).unwrap()))
            }),
            (forall|li: int|
                0 <= li < old(self).listeners@.len() ==> delete_succeeds(
                    &old(self).listeners@[li], key@, old(self).database.spec_get(key@)))
                ==> r is Ok,
            (r is Err ==> {
                &&& final(self).database.entries@ == old(self).database.entries@
                &&& old(self).database.spec_get(key@) is Some
                &&& forall|li: int|
                    0 <= li < old(self).listeners@.len() ==> (final(self).listeners@[
                        li].idb.entries@ == old(self).listeners@[li].idb.entries@
                        || #[trigger] listener_delete_effect(old(self).listeners@[li].creator,
                        old(self).listeners@[li].idb.unique, &old(self).listeners@[li].idb,
                        &final(self).listeners@[li].idb, key@, old(self).database.spec_get(
                            key@).unwrap()))
            }),
    {
        let ghost pre_listeners = self.listeners@;
        let prior = match self.database.get(key) {
            Ok(o) => o,
            Err(e) => {
                proof {
                    assert(false);
                }
                return Err(e);
            },
        };
        let vold = match prior {
            Some(v) => v,
            None => {
                return Ok(false);
            },
        };
        let n = self.listeners.len();
        let mut i: usize = 0;
        while i < n
            invariant
                old(self).wf(),
                self.database == old(self).database,
                i <= n == self.listeners@.len(),
                self.listeners@.len() == pre_listeners.len(),
                pre_listeners == old(self).listeners@,
                key.wf(),
                vold.wf(),
                old(self).database.spec_get(key@) == Some(vold@),
                forall|j: int| 0 <= j < self.listeners@.len()
                    ==> (#[trigger] self.listeners@[j]).wf(),
                forall|j: int|
                    0 <= j < self.listeners@.len() ==> (#[trigger] self.listeners@[j]).creator
                        == pre_listeners[j].creator && self.listeners@[j].idb.unique
                        == pre_listeners[j].idb.unique,
                forall|j: int|
                    i <= j < self.listeners@.len() ==> #[trigger] self.listeners@[j]
                        == pre_listeners[j],
                forall|j: int|
                    0 <= j < i ==> #[trigger] listener_delete_effect(pre_listeners[j].creator,
                        pre_listeners[j].idb.unique, &pre_listeners[j].idb,
                        &self.listeners@[j].idb, key@, vold@),
            decreases n - i,
        {
            let ghost ls0 = self.listeners@;
            let l = &mut self.listeners[i];
            let res = l.delete(key, &vold);
            match res {
                Ok(_) => {},
                Err(e) => {
                    proof {
                        assert(forall|j: int|
                            0 <= j < ls0.len() && j != i ==> #[trigger] self.listeners@[j]
                                == ls0[j]);
                        assert(self.listeners@[i as int].idb.entries@ == ls0[
                            i as int].idb.entries@);
                        assert(ls0[i as int] == pre_listeners[i as int]);
                        assert(!delete_succeeds(&pre_listeners[i as int], key@, Some(vold@)));
                    }
                    return Err(e);
                },
            }
            i = i + 1;
        }
        proof {
            assert(old(self).database.spec_get(key@) == Some(vold@));
        }
        match self.database.remove_key(key) {
            Ok(_) => Ok(true),
            Err(e) => {
                proof {
                    assert(false);
                }
                Err(e)
            },
        }
    }

    /// Deletes the record stored under `key`; an absent key is a no-op.
    pub fn delete(&mut self, key: &BufferEntry) -> (r: Result<(), Error>)
        requires
            old(self).wf(),
            key.wf(),
        ensures
            final(self).wf(),
            final(self).database.unique,
            final(self).database.name == old(self).database.name,
            final(self).listeners@.len() == old(self).listeners@.len(),
            old(self).listeners@.len() == 0 ==> r is Ok,
            (r is Ok ==> {
                &&& (!old(self).database.has_key(key@) ==> final(self).database.entries@ == old(
                    self).database.entries@ && final(self).listeners@ == old(self).listeners@)
                &&& (old(self).database.has_key(key@) ==> exists|i: int|
                    {
                        &&& 0 <= i < old(self).database.entries@.len()
                        &&& key_cmp(true, old(self).database.key_at(i), key@) == Ordering::Equal
                        &&& #[trigger] final(self).database.entries@ == old(
                            self).database.entries@.remove(i)
                    })
                &&& (old(self).database.has_key(key@) ==> forall|li: int|
                    0 <= li < old(self).listeners@.len() ==> #[trigger] listener_delete_effect(
                        old(self).listeners@[li].creator, old(self).listeners@[li].idb.unique,
                        &old(self).listeners@[li].idb, &final(self).listeners@[li].idb, key@,
                        old(self).database.spec_get(key@).unwrap()))
            }),
    {
        match self.delete_exist(key) {
            Ok(_) => Ok(()),
            Err(e) => Err(e),
        }
    }

    /// Registers a new index: opens its store, backfills it from the current
    /// records, and publishes the listener.
    pub fn create_secondary(&mut self, name: &str, unique: bool, creator: G) -> (r: Result<
        (),
        Error,
    >)
        requires
            old(self).wf(),
        ensures
            final(self).wf(),
            final(self).database == old(self).database,
            (r is Ok ==> {
                &&& final(self).listeners@.len() == old(self).listeners@.len() + 1
                &&& final(self).listeners@.take(old(self).listeners@.len() as int) == old(
                    self).listeners@
                &&& final(self).listeners@.last().creator == creator
                &&& final(self).listeners@.last().idb.unique == unique
                &&& final(self).listeners@.last().idb.name@ == name@
                &&& forall|j: int|
                    0 <= j < old(self).database.entries@.len() ==> registered(
                        &final(self).listeners@.last(), #[trigger] old(self).database.key_at(
                            j), old(self).database.val_at(j))
                &&& (!unique ==> final(self).listeners@.last().idb.entries@.len()
                    == indexed_count(old(self).database.entries@, creator))
            }),
            (r is Err ==> final(self).listeners@ == old(self).listeners@),
            (old(self).database.entries@.len() < u32::MAX && (forall|j: int|
                0 <= j < old(self).database.entries@.len() ==> creator.create_ok(
                    #[trigger] old(self).database.key_at(j), old(self).database.val_at(j)) && (
                creator.create_spec(old(self).database.key_at(j), old(self).database.val_at(j))
                    matches Some(sk) ==> sk.len() + 5 <= usize::MAX))) ==> r is Ok,
    {
        let idb = Store::new(name, self.database.readonly, self.database.temporary, unique);
        let mut listener = IndexListener::new(idb, creator);
        let n = self.database.entries.len();
        let mut i: usize = 0;
        proof {
            assert(self.database.entries@.take(0) =~= Seq::<(BufferEntry, BufferEntry)>::empty());
        }
        while i < n
            invariant
                self == old(self),
                self.wf(),
                i <= n == self.database.entries@.len(),
                listener.wf(),
                listener.creator == creator,
                listener.idb.unique == unique,
                listener.idb.name@ == name@,
                unique || forall|q: int|
                    0 <= q < listener.idb.entries@.len() ==> spec_suffix_val(
                        #[trigger] listener.idb.key_at(q)) <= i,
                !unique ==> listener.idb.entries@.len() == indexed_count(
                    self.database.entries@.take(i as int), creator),
                forall|j: int|
                    0 <= j < i ==> registered(&listener, #[trigger] self.database.key_at(j),
                        self.database.val_at(j)),
            decreases n - i,
        {
            let pair = self.database.pair_at(i);
            let ghost lpre = listener;
            let res = listener.put(&pair.0, &pair.1);
            match res {
                Ok(_) => {},
                Err(e) => {
                    proof {
                        assert(!(lpre.creator.create_ok(self.database.key_at(i as int),
                            self.database.val_at(i as int)) && (lpre.creator.create_spec(
                            self.database.key_at(i as int), self.database.val_at(i as int))
                            matches Some(sk) ==> (lpre.idb.unique || can_allocate(&lpre.idb,
                            sk)))));
                        if old(self).database.entries@.len() < u32::MAX && (forall|j: int|
                            0 <= j < old(self).database.entries@.len()
                                ==> creator.create_ok(#[trigger] old(self).database.key_at(j),
                                old(self).database.val_at(j)) && (creator.create_spec(
                                old(self).database.key_at(j), old(self).database.val_at(j))
                                matches Some(sk) ==> sk.len() + 5 <= usize::MAX)) {
                            assert(creator.create_ok(old(self).database.key_at(i as int),
                                old(self).database.val_at(i as int)));
                            match lpre.creator.create_spec(self.database.key_at(i as int),
                                self.database.val_at(i as int)) {
                                None => {},
                                Some(sk) => {
                                    if !lpre.idb.unique {
                                        assert(can_allocate(&lpre.idb, sk)) by {
                                            assert(sk.len() + 5 <= usize::MAX);
                                            assert forall|j: int|
                                                #[trigger] in_group(&lpre.idb, j, sk) implies
                                                spec_suffix_val(lpre.idb.key_at(j)) < u32::MAX
                                            by {
                                                assert(spec_suffix_val(lpre.idb.key_at(j))
                                                    <= i);
                                            }
                                        }
                                    }
                                },
                            }
                            assert(false);
                        }
                    }
                    return Err(e);
                },
            }
            proof {
                let ki = self.database.key_at(i as int);
                let vi = self.database.val_at(i as int);
                lemma_registered_after_put(&lpre, &listener, ki, vi, ki, vi);
                assert forall|j: int|
                    0 <= j < i + 1 implies registered(&listener,
                    #[trigger] self.database.key_at(j), self.database.val_at(j)) by {
                    if j < i {
                        lemma_registered_after_put(&lpre, &listener, ki, vi,
                            self.database.key_at(j), self.database.val_at(j));
                    }
                }
                if !unique {
                    assert(self.database.entries@.take(i + 1).drop_last() =~= self.database
                        .entries@.take(i as int));
                    assert(self.database.entries@.take(i + 1).last() == self.database.entries@[
                        i as int]);
                    match lpre.creator.create_spec(ki, vi) {
                        None => {
                            assert(listener.idb.entries@ == lpre.idb.entries@);
                            assert forall|q: int|
                                0 <= q < listener.idb.entries@.len() implies spec_suffix_val(
                                #[trigger] listener.idb.key_at(q)) <= i + 1 by {
                                assert(spec_suffix_val(lpre.idb.key_at(q)) <= i);
                            }
                        },
                        Some(sk) => {
                            let (ord, pp) = choose|ord: u32, pp: int|
                                {
                                    &&& 1 <= ord
                                    &&& #[trigger] put_inserted(lpre.idb.entries@,
                                        listener.idb.entries@, false, sk + suffix_enc(ord), ki,
                                        pp)
                                    &&& (forall|j: int|
                                        in_group(&lpre.idb, j, sk) ==> spec_suffix_val(
                                            lpre.idb.key_at(j)) < ord)
                                    &&& (ord == 1 || exists|j: int|
                                        in_group(&lpre.idb, j, sk) && spec_suffix_val(
                                            lpre.idb.key_at(j)) == ord - 1)
                                };
                            assert(ord <= i + 1) by {
                                if ord != 1 {
                                    let j = choose|j: int|
                                        in_group(&lpre.idb, j, sk) && spec_suffix_val(
                                            lpre.idb.key_at(j)) == ord - 1;
                                    assert(spec_suffix_val(lpre.idb.key_at(j)) <= i);
                                }
                            }
                            lemma_suffix_round_trip(sk, ord);
                            assert forall|q: int|
                                0 <= q < listener.idb.entries@.len() implies spec_suffix_val(
                                #[trigger] listener.idb.key_at(q)) <= i + 1 by {
                                if q < pp {
                                    assert(listener.idb.entries@[q] == lpre.idb.entries@[q]);
                                    assert(spec_suffix_val(lpre.idb.key_at(q)) <= i);
                                } else if q == pp {
                                    assert(listener.idb.key_at(q) == sk + suffix_enc(ord));
                                } else {
                                    assert(listener.idb.entries@[q] == lpre.idb.entries@[q
                                        - 1]);
                                    assert(spec_suffix_val(lpre.idb.key_at(q - 1)) <= i);
                                }
                            }
                        },
                    }
                }
            }
            i = i + 1;
        }
        let ghost before = self.listeners@;
        proof {
            assert(self.database.entries@.take(n as int) =~= self.database.entries@);
        }
        self.listeners.push(listener);
        proof {
            assert(self.listeners@.take(before.len() as int) =~= before);
        }
        Ok(())
    }

    /// How many entries the index at `index` holds.
    pub fn secondary_count(&self, index: usize) -> (r: Result<usize, Error>)
        requires
            index < self.listeners@.len(),
        ensures
            r matches Ok(n) && n == self.listeners@[index as int].idb.entries@.len(),
    {
        self.listeners[index].idb.count()
    }

    /// Reads the primary key stored under an index key equal to `key`.
    pub fn secondary_get(&self, index: usize, key: &BufferEntry) -> (r: Result<
        Option<BufferEntry>,
        Error,
    >)
        requires
            self.wf(),
            index < self.listeners@.len(),
            key.wf(),
        ensures
            (r matches Ok(o) ==> {
                &&& (o matches Some(v) ==> v.wf() && self.listeners@[index as int].idb.spec_get(
                    key@) == Some(v@))
                &&& (o is None ==> self.listeners@[index as int].idb.spec_get(key@) is None)
            }),
    {
        self.listeners[index].idb.get(key)
    }
}


/// When the retract phase stops at listener `fi`: the processed prefix shows
/// its retraction, the rest is untouched, and the stopped listener refutes
/// the success condition.
proof fn lemma_put_delete_phase_err<G: KeyCreator>(pre: Seq<IndexListener<G>>,
    cur: Seq<IndexListener<G>>, k: Seq<u8>, vo: Seq<u8>, v: Seq<u8>, fi: int)
    requires
        pre.len() == cur.len(),
        0 <= fi < pre.len(),
        vo != v,
        forall|j: int|
            0 <= j < cur.len() ==> (#[trigger] cur[j]).creator == pre[j].creator && cur[
                j].idb.unique == pre[j].idb.unique,
        forall|j: int| fi < j < cur.len() ==> #[trigger] cur[j] == pre[j],
        forall|j: int|
            0 <= j < fi ==> #[trigger] listener_delete_effect(pre[j].creator,
                pre[j].idb.unique, &pre[j].idb, &cur[j].idb, k, vo),
        cur[fi].idb.entries@ == pre[fi].idb.entries@,
        !(pre[fi].creator.create_ok(k, vo) && (pre[fi].creator.create_spec(k, vo) matches Some(
            sk) ==> (pre[fi].idb.unique || sk.len() + 5 <= usize::MAX))),
    ensures
        forall|li: int|
            0 <= li < pre.len() ==> #[trigger] listener_partial_refresh(pre[li].creator,
                pre[li].idb.unique, &pre[li].idb, &cur[li].idb, k, Some(vo), v),
        !(forall|li: int|
            0 <= li < pre.len() ==> #[trigger] refresh_succeeds(&pre[li], k, Some(vo), v)),
{
    assert forall|li: int|
        0 <= li < pre.len() implies #[trigger] listener_partial_refresh(pre[li].creator,
        pre[li].idb.unique, &pre[li].idb, &cur[li].idb, k, Some(vo), v) by {
        let mid = cur[li].idb;
        let b = listener_put_effect(pre[li].creator, pre[li].idb.unique, &mid, &cur[li].idb, k,
            v);
        if li < fi {
            assert(listener_delete_effect(pre[li].creator, pre[li].idb.unique, &pre[li].idb,
                &mid, k, vo));
            assert(cur[li].idb.entries@ == mid.entries@);
        } else {
            assert(mid.entries@ == pre[li].idb.entries@);
            assert(cur[li].idb.entries@ == mid.entries@);
        }
        assert(mid.unique == pre[li].idb.unique);
    }
    assert(!refresh_succeeds(&pre[fi], k, Some(vo), v));
}

/// When the announce phase stops at listener `fi`: the processed prefix
/// shows the full refresh, the rest shows the retraction alone, and the
/// stopped listener refutes the success condition.
proof fn lemma_put_announce_phase_err<G: KeyCreator>(pre: Seq<IndexListener<G>>,
    mids: Seq<IndexListener<G>>, cur: Seq<IndexListener<G>>, k: Seq<u8>, vold: Option<Seq<u8>>,
    v: Seq<u8>, fi: int)
    requires
        pre.len() == mids.len() == cur.len(),
        0 <= fi < pre.len(),
        forall|j: int|
            0 <= j < pre.len() ==> (#[trigger] mids[j]).creator == pre[j].creator && mids[
                j].idb.unique == pre[j].idb.unique,
        forall|j: int|
            0 <= j < cur.len() ==> (#[trigger] cur[j]).creator == mids[j].creator && cur[
                j].idb.unique == mids[j].idb.unique,
        (match vold {
            Some(vo) => {
                if vo != v {
                    forall|j: int|
                        0 <= j < pre.len() ==> #[trigger] listener_delete_effect(pre[j].creator,
                            pre[j].idb.unique, &pre[j].idb, &mids[j].idb, k, vo)
                } else {
                    forall|j: int| 0 <= j < pre.len() ==> #[trigger] mids[j] == pre[j]
                }
            },
            None => forall|j: int| 0 <= j < pre.len() ==> #[trigger] mids[j] == pre[j],
        }),
        forall|j: int| fi < j < cur.len() ==> #[trigger] cur[j] == mids[j],
        forall|j: int|
            0 <= j < fi ==> #[trigger] listener_put_effect(mids[j].creator,
                mids[j].idb.unique, &mids[j].idb, &cur[j].idb, k, v),
        cur[fi].idb.entries@ == mids[fi].idb.entries@,
        !(mids[fi].creator.create_ok(k, v) && (mids[fi].creator.create_spec(k, v) matches Some(
            sk) ==> (mids[fi].idb.unique || can_allocate(&mids[fi].idb, sk)))),
    ensures
        forall|li: int|
            0 <= li < pre.len() ==> #[trigger] listener_partial_refresh(pre[li].creator,
                pre[li].idb.unique, &pre[li].idb, &cur[li].idb, k, vold, v),
        !(forall|li: int|
            0 <= li < pre.len() ==> #[trigger] refresh_succeeds(&pre[li], k, vold, v)),
{
    assert forall|li: int|
        0 <= li < pre.len() implies #[trigger] listener_partial_refresh(pre[li].creator,
        pre[li].idb.unique, &pre[li].idb, &cur[li].idb, k, vold, v) by {
        let mid = mids[li].idb;
        let b = listener_put_effect(pre[li].creator, pre[li].idb.unique, &mid, &cur[li].idb, k,
            v);
        assert(mid.unique == pre[li].idb.unique);
        match vold {
            Some(vo) => {
                if vo != v {
                    assert(listener_delete_effect(pre[li].creator, pre[li].idb.unique,
                        &pre[li].idb, &mid, k, vo));
                } else {
                    assert(mid.entries@ == pre[li].idb.entries@);
                }
            },
            None => {
                assert(mid.entries@ == pre[li].idb.entries@);
            },
        }
        if li < fi {
            assert(listener_put_effect(mids[li].creator, mids[li].idb.unique, &mids[li].idb,
                &cur[li].idb, k, v));
            assert(listener_put_effect(pre[li].creator, pre[li].idb.unique, &mid, &cur[li].idb,
                k, v));
        } else {
            assert(cur[li].idb.entries@ == mid.entries@);
        }
    }
    assert(!refresh_succeeds(&pre[fi], k, vold, v)) by {
        if refresh_succeeds(&pre[fi], k, vold, v) {
            assert(pre[fi].creator.create_ok(k, v));
            match pre[fi].creator.create_spec(k, v) {
                None => {},
                Some(sk) => {
                    if !pre[fi].idb.unique {
                        assert(can_allocate(&pre[fi].idb, sk));
                        match vold {
                            Some(vo) => {
                                if vo != v {
                                    assert(listener_delete_effect(pre[fi].creator,
                                        pre[fi].idb.unique, &pre[fi].idb, &mids[fi].idb, k,
                                        vo));
                                    lemma_delete_effect_shape(pre[fi].creator,
                                        pre[fi].idb.unique, &pre[fi].idb, &mids[fi].idb, k,
                                        vo);
                                    lemma_removal_preserves_alloc(&pre[fi].idb, &mids[fi].idb,
                                        sk);
                                } else {
                                    assert(mids[fi] == pre[fi]);
                                    lemma_removal_preserves_alloc(&pre[fi].idb, &mids[fi].idb,
                                        sk);
                                }
                            },
                            None => {
                                assert(mids[fi] == pre[fi]);
                                lemma_removal_preserves_alloc(&pre[fi].idb, &mids[fi].idb, sk);
                            },
                        }
                    }
                },
            }
        }
    }
}

/// Chains the retract and announce phases into the refresh effect each index
/// shows after a completed write.
proof fn lemma_refresh_composition<G: KeyCreator>(pre: Seq<IndexListener<G>>,
    mids: Seq<IndexListener<G>>, post: Seq<IndexListener<G>>, k: Seq<u8>, vold: Option<Seq<u8>>,
    v: Seq<u8>)
    requires
        pre.len() == mids.len() == post.len(),
        forall|j: int|
            0 <= j < pre.len() ==> (#[trigger] mids[j]).creator == pre[j].creator && mids[
                j].idb.unique == pre[j].idb.unique,
        forall|j: int|
            0 <= j < pre.len() ==> (#[trigger] post[j]).creator == mids[j].creator && post[
                j].idb.unique == mids[j].idb.unique,
        (match vold {
            Some(vo) => {
                if vo != v {
                    forall|j: int|
                        0 <= j < pre.len() ==> #[trigger] listener_delete_effect(pre[j].creator,
                            pre[j].idb.unique, &pre[j].idb, &mids[j].idb, k, vo)
                } else {
                    forall|j: int| 0 <= j < pre.len() ==> #[trigger] mids[j] == pre[j]
                }
            },
            None => forall|j: int| 0 <= j < pre.len() ==> #[trigger] mids[j] == pre[j],
        }),
        forall|j: int|
            0 <= j < pre.len() ==> #[trigger] listener_put_effect(mids[j].creator,
                mids[j].idb.unique, &mids[j].idb, &post[j].idb, k, v),
    ensures
        forall|li: int|
            0 <= li < pre.len() ==> #[trigger] listener_refresh_effect(pre[li].creator,
                pre[li].idb.unique, &pre[li].idb, &post[li].idb, k, vold, v),
{
    assert forall|li: int|
        0 <= li < pre.len() implies #[trigger] listener_refresh_effect(pre[li].creator,
        pre[li].idb.unique, &pre[li].idb, &post[li].idb, k, vold, v) by {
        let m = mids[li].idb;
        assert(mids[li].creator == pre[li].creator);
        assert(mids[li].idb.unique == pre[li].idb.unique);
        assert(listener_put_effect(mids[li].creator, mids[li].idb.unique, &mids[li].idb,
            &post[li].idb, k, v));
        assert(listener_put_effect(pre[li].creator, pre[li].idb.unique, &m, &post[li].idb, k,
            v));
        match vold {
            Some(vo) => {
                if vo != v {
                    assert(listener_delete_effect(pre[li].creator, pre[li].idb.unique,
                        &pre[li].idb, &mids[li].idb, k, vo));
                    assert(listener_delete_effect(pre[li].creator, pre[li].idb.unique,
                        &pre[li].idb, &m, k, vo));
                } else {
                    assert(m == pre[li].idb);
                }
            },
            None => {
                assert(m == pre[li].idb);
            },
        }
    }
}


/// Index consistency, announce direction: once a record is announced to a
/// non-unique index, its duplicate group holds an entry storing the record's
/// primary key.
pub proof fn lemma_index_put_registers(pre: &Store, post: &Store, sk: Seq<u8>, k: Seq<u8>)
    requires
        idx_put_effect(pre, post, sk, k),
    ensures
        exists|i: int| in_group(post, i, sk) && post.val_at(i) == k,
{
    let (ord, p) = choose|ord: u32, p: int|
        {
            &&& 1 <= ord
            &&& #[trigger] put_inserted(pre.entries@, post.entries@, false, sk + suffix_enc(ord),
                k, p)
            &&& (forall|j: int| in_group(pre, j, sk) ==> spec_suffix_val(pre.key_at(j)) < ord)
            &&& (ord == 1 || exists|j: int|
                in_group(pre, j, sk) && spec_suffix_val(pre.key_at(j)) == ord - 1)
        };
    lemma_suffix_round_trip(sk, ord);
    assert(post.key_at(p) == sk + suffix_enc(ord));
    assert(prefix_of(post.key_at(p)) == sk);
    assert(in_group(post, p, sk) && post.val_at(p) == k);
}

/// Index consistency, retract direction: when the group stored the record's
/// primary key at most once, retracting the record leaves no group entry
/// storing it.
pub proof fn lemma_index_delete_unregisters(pre: &Store, post: &Store, sk: Seq<u8>, k: Seq<u8>)
    requires
        idx_delete_effect(pre, post, sk, k),
        forall|i: int, j: int|
            in_group(pre, i, sk) && in_group(pre, j, sk) && pre.val_at(i) == k && pre.val_at(j)
                == k ==> i == j,
    ensures
        forall|i: int| in_group(post, i, sk) ==> post.val_at(i) != k,
{
    if post.entries@ == pre.entries@ && (forall|j: int|
        in_group(pre, j, sk) ==> pre.val_at(j) != k) {
        assert forall|i: int| in_group(post, i, sk) implies post.val_at(i) != k by {
            assert(prefix_of(post.key_at(i)) == sk);
            assert(post.key_at(i) == pre.key_at(i));
            assert(in_group(pre, i, sk));
            assert(pre.val_at(i) != k);
            assert(post.val_at(i) == pre.val_at(i));
        }
    } else {
        let di = choose|di: int|
            {
                &&& in_group(pre, di, sk)
                &&& pre.val_at(di) == k
                &&& #[trigger] post.entries@ == pre.entries@.remove(di)
                &&& forall|j: int|
                    in_group(pre, j, sk) && spec_suffix_val(pre.key_at(j)) > spec_suffix_val(
                        pre.key_at(di)) ==> pre.val_at(j) != k
            };
        assert forall|i: int| in_group(post, i, sk) implies post.val_at(i) != k by {
            let i2: int = if i < di {
                i
            } else {
                i + 1
            };
            assert(post.entries@[i] == pre.entries@[i2]);
            assert(in_group(pre, i2, sk));
            if pre.val_at(i2) == k {
                assert(i2 == di);
            }
        }
    }
}



/// How many of the store's records the creator indexes.
pub open spec fn indexed_count<G: KeyCreator>(entries: Seq<(BufferEntry, BufferEntry)>,
    creator: G) -> int
    decreases entries.len(),
{
    if entries.len() == 0 {
        0
    } else {
        indexed_count(entries.drop_last(), creator) + (if creator.create_spec(
            entries.last().0@, entries.last().1@) is Some {
            1int
        } else {
            0int
        })
    }
}

/// A record registered in one listener's index, as the backfill guarantees
/// it: a unique index holds the extracted key; a non-unique index holds a
/// group entry storing the record's primary key.
pub open spec fn registered<G: KeyCreator>(l: &IndexListener<G>, k: Seq<u8>, v: Seq<u8>) -> bool {
    match l.creator.create_spec(k, v) {
        None => true,
        Some(sk) => {
            if l.idb.unique {
                l.idb.has_key(sk)
            } else {
                exists|i: int| in_group(&l.idb, i, sk) && l.idb.val_at(i) == k
            }
        },
    }
}

/// Announcing one record to a unique index keeps every key the index already
/// held reachable.
proof fn lemma_unique_put_keeps_key(pre: &Store, post: &Store, sknew: Seq<u8>, knew: Seq<u8>,
    skold: Seq<u8>)
    requires
        pre.unique,
        post.unique,
        (exists|i: int| put_replaced(pre.entries@, post.entries@, true, sknew, knew, i)) || (
        !pre.has_key(sknew) && exists|i: int|
            put_inserted(pre.entries@, post.entries@, true, sknew, knew, i)),
        pre.has_key(skold),
    ensures
        post.has_key(skold),
{
    let w = choose|w: int|
        0 <= w < pre.entries@.len() && key_cmp(true, pre.key_at(w), skold) == Ordering::Equal;
    crate::entry::lemma_lex_cmp_eq(pre.key_at(w), skold);
    if exists|i: int| put_replaced(pre.entries@, post.entries@, true, sknew, knew, i) {
        let i = choose|i: int| put_replaced(pre.entries@, post.entries@, true, sknew, knew, i);
        if i == w {
            crate::entry::lemma_lex_cmp_eq(pre.key_at(i), sknew);
            crate::entry::lemma_lex_cmp_eq(post.key_at(i), skold);
            assert(key_cmp(true, post.key_at(i), skold) == Ordering::Equal);
            assert(post.has_key(skold));
        } else {
            assert(post.entries@[w] == pre.entries@[w]);
            assert(key_cmp(true, post.key_at(w), skold) == Ordering::Equal);
            assert(post.has_key(skold));
        }
    } else {
        let p = choose|p: int| put_inserted(pre.entries@, post.entries@, true, sknew, knew, p);
        let w2: int = if w < p {
            w
        } else {
            w + 1
        };
        assert(post.entries@[w2] == pre.entries@[w]);
        assert(key_cmp(true, post.key_at(w2), skold) == Ordering::Equal);
        assert(post.has_key(skold));
    }
}

/// Announcing one record to a non-unique index keeps every group entry the
/// index already held.
proof fn lemma_idx_put_keeps_entry(pre: &Store, post: &Store, sknew: Seq<u8>, knew: Seq<u8>,
    skold: Seq<u8>, kold: Seq<u8>)
    requires
        idx_put_effect(pre, post, sknew, knew),
        exists|i: int| in_group(pre, i, skold) && pre.val_at(i) == kold,
    ensures
        exists|i: int| in_group(post, i, skold) && post.val_at(i) == kold,
{
    let w = choose|w: int| in_group(pre, w, skold) && pre.val_at(w) == kold;
    let (ord, p) = choose|ord: u32, p: int|
        {
            &&& 1 <= ord
            &&& #[trigger] put_inserted(pre.entries@, post.entries@, false, sknew + suffix_enc(
                ord), knew, p)
            &&& (forall|j: int| in_group(pre, j, sknew) ==> spec_suffix_val(pre.key_at(j)) < ord)
            &&& (ord == 1 || exists|j: int|
                in_group(pre, j, sknew) && spec_suffix_val(pre.key_at(j)) == ord - 1)
        };
    let w2: int = if w < p {
        w
    } else {
        w + 1
    };
    assert(post.entries@[w2] == pre.entries@[w]);
    assert(in_group(post, w2, skold) && post.val_at(w2) == kold);
}



/// Index consistency across a completed write: whatever the indexes held
/// before, each one registers the record the write stored.
pub proof fn lemma_refresh_registers<G: KeyCreator>(lpre: &IndexListener<G>,
    lpost: &IndexListener<G>, k: Seq<u8>, vold: Option<Seq<u8>>, v: Seq<u8>)
    requires
        lpost.creator == lpre.creator,
        lpost.idb.unique == lpre.idb.unique,
        listener_refresh_effect(lpre.creator, lpre.idb.unique, &lpre.idb, &lpost.idb, k, vold,
            v),
    ensures
        registered(lpost, k, v),
{
    let mid = choose|mid: Store|
        {
            &&& mid.unique == lpre.idb.unique
            &&& (match vold {
                Some(vo) => {
                    if vo != v {
                        listener_delete_effect(lpre.creator, lpre.idb.unique, &lpre.idb, &mid,
                            k, vo)
                    } else {
                        mid == lpre.idb
                    }
                },
                None => mid == lpre.idb,
            })
            &&& #[trigger] listener_put_effect(lpre.creator, lpre.idb.unique, &mid, &lpost.idb,
                k, v)
        };
    let lmid = IndexListener { idb: mid, creator: lpre.creator };
    lemma_registered_after_put(&lmid, lpost, k, v, k, v);
}

/// After one announcement, the announced record and every record already
/// registered are registered.
proof fn lemma_registered_after_put<G: KeyCreator>(lpre: &IndexListener<G>,
    lpost: &IndexListener<G>, kput: Seq<u8>, vput: Seq<u8>, k: Seq<u8>, v: Seq<u8>)
    requires
        lpost.creator == lpre.creator,
        lpost.idb.unique == lpre.idb.unique,
        (lpre.creator.create_spec(kput, vput) is None ==> lpost.idb.entries@
            == lpre.idb.entries@),
        (lpre.creator.create_spec(kput, vput) matches Some(sk) ==> {
            &&& (lpre.idb.unique ==> {
                ||| (exists|i: int|
                    put_replaced(lpre.idb.entries@, lpost.idb.entries@, true, sk, kput, i))
                ||| (!lpre.idb.has_key(sk) && exists|p: int|
                    put_inserted(lpre.idb.entries@, lpost.idb.entries@, true, sk, kput, p))
            })
            &&& (!lpre.idb.unique ==> idx_put_effect(&lpre.idb, &lpost.idb, sk, kput))
        }),
        registered(lpre, k, v) || (k == kput && v == vput),
    ensures
        registered(lpost, k, v),
{
    match lpre.creator.create_spec(k, v) {
        None => {},
        Some(skr) => {
            if k == kput && v == vput {
                if lpre.idb.unique {
                    if exists|i: int|
                        put_replaced(lpre.idb.entries@, lpost.idb.entries@, true, skr, kput,
                            i) {
                        let i = choose|i: int|
                            put_replaced(lpre.idb.entries@, lpost.idb.entries@, true, skr,
                                kput, i);
                        crate::store::lemma_key_cmp_refl(true, skr);
                        assert(lpost.idb.key_at(i) == skr);
                        assert(key_cmp(true, lpost.idb.key_at(i), skr) == Ordering::Equal);
                        assert(lpost.idb.has_key(skr));
                    } else {
                        let p = choose|p: int|
                            put_inserted(lpre.idb.entries@, lpost.idb.entries@, true, skr,
                                kput, p);
                        crate::store::lemma_key_cmp_refl(true, skr);
                        assert(lpost.idb.key_at(p) == skr);
                        assert(key_cmp(true, lpost.idb.key_at(p), skr) == Ordering::Equal);
                        assert(lpost.idb.has_key(skr));
                    }
                } else {
                    lemma_index_put_registers(&lpre.idb, &lpost.idb, skr, kput);
                }
            } else {
                match lpre.creator.create_spec(kput, vput) {
                    None => {
                        if lpre.idb.unique {
                            let w = choose|w: int|
                                0 <= w < lpre.idb.entries@.len() && key_cmp(true,
                                    lpre.idb.key_at(w), skr) == Ordering::Equal;
                            assert(lpost.idb.key_at(w) == lpre.idb.key_at(w));
                            assert(lpost.idb.has_key(skr));
                        } else {
                            let w = choose|w: int|
                                in_group(&lpre.idb, w, skr) && lpre.idb.val_at(w) == k;
                            assert(lpost.idb.entries@[w] == lpre.idb.entries@[w]);
                            assert(in_group(&lpost.idb, w, skr) && lpost.idb.val_at(w) == k);
                        }
                    },
                    Some(sknew) => {
                        if lpre.idb.unique {
                            lemma_unique_put_keeps_key(&lpre.idb, &lpost.idb, sknew, kput,
                                skr);
                        } else {
                            lemma_idx_put_keeps_entry(&lpre.idb, &lpost.idb, sknew, kput, skr,
                                k);
                        }
                    },
                }
            }
        },
    }
}

/// Group members all sit at or after the probe's seek position and carry
/// ordinals below the freshly allocated one.
proof fn lemma_group_bounded(idb: &Store, sk: Seq<u8>, p: int, ord: u32)
    requires
        idb.wf(),
        !idb.unique,
        forall|i: int| 0 <= i < idb.entries@.len() ==> spec_suffix_val(
            #[trigger] idb.key_at(i)) >= 1,
        0 <= p <= idb.entries@.len(),
        forall|q: int| 0 <= q < p ==> key_cmp(false, idb.key_at(q), sk + suffix_enc(0))
            == Ordering::Less,
        p < idb.entries@.len() ==> key_cmp(false, idb.key_at(p), sk + suffix_enc(0))
            != Ordering::Less,
        ord >= 1,
        p < idb.entries@.len() && prefix_of(idb.key_at(p)) == sk ==> ord == spec_suffix_val(
            idb.key_at(p)) + 1,
        p < idb.entries@.len() && prefix_of(idb.key_at(p)) != sk ==> ord == 1,
        p == idb.entries@.len() ==> ord == 1,
    ensures
        forall|j: int| in_group(idb, j, sk) ==> spec_suffix_val(idb.key_at(j)) < ord,
        ord == 1 || exists|j: int|
            in_group(idb, j, sk) && spec_suffix_val(idb.key_at(j)) == ord - 1,
{
    lemma_suffix_round_trip(sk, 0);
    assert forall|j: int| in_group(idb, j, sk) implies spec_suffix_val(idb.key_at(j)) < ord by {
        crate::entry::lemma_lex_cmp_eq(prefix_of(idb.key_at(j)), prefix_of(sk + suffix_enc(0)));
        assert(key_cmp(false, idb.key_at(j), sk + suffix_enc(0)) != Ordering::Less);
        assert(j >= p);
        if p < idb.entries@.len() && prefix_of(idb.key_at(p)) == sk {
            if j > p {
                assert(key_cmp(false, idb.key_at(p), idb.key_at(j)) == Ordering::Less);
                crate::entry::lemma_lex_cmp_eq(prefix_of(idb.key_at(p)),
                    prefix_of(idb.key_at(j)));
            }
        } else if p < idb.entries@.len() {
            if j == p {
            } else {
                assert(key_cmp(false, idb.key_at(p), idb.key_at(j)) == Ordering::Less);
                assert(prefix_of(idb.key_at(j)) == sk);
                crate::entry::lemma_lex_cmp_eq(prefix_of(idb.key_at(p)),
                    prefix_of(idb.key_at(j)));
                crate::entry::lemma_lex_cmp_eq(prefix_of(idb.key_at(p)), sk);
                assert(false);
            }
        }
    }
    if ord != 1 {
        let p2 = choose|p2: int|
            0 <= p2 < idb.entries@.len() && p2 == p && prefix_of(idb.key_at(p2)) == sk;
        assert(in_group(idb, p, sk) && spec_suffix_val(idb.key_at(p)) == ord - 1);
    }
}

/// Group members all lie in the scanned range `[start, stop)` once the scan
/// has crossed out of the group or run off the end.
proof fn lemma_group_in_range(idb: &Store, sk: Seq<u8>, start: int, stop: int)
    requires
        idb.wf(),
        !idb.unique,
        forall|i: int| 0 <= i < idb.entries@.len() ==> spec_suffix_val(
            #[trigger] idb.key_at(i)) >= 1,
        0 <= start <= stop <= idb.entries@.len(),
        forall|q: int| 0 <= q < start ==> key_cmp(false, idb.key_at(q), sk + suffix_enc(0))
            == Ordering::Less,
        start < idb.entries@.len() ==> key_cmp(false, idb.key_at(start), sk + suffix_enc(0))
            != Ordering::Less,
        stop < idb.entries@.len() ==> prefix_of(idb.key_at(stop)) != sk,
    ensures
        forall|j: int| in_group(idb, j, sk) ==> start <= j < stop,
{
    lemma_suffix_round_trip(sk, 0);
    let probe = sk + suffix_enc(0);
    if stop < idb.entries@.len() {
        assert(key_cmp(false, idb.key_at(stop), probe) != Ordering::Less) by {
            if start == stop {
            } else {
                assert(key_cmp(false, idb.key_at(start), idb.key_at(stop)) == Ordering::Less);
                crate::store::lemma_key_cmp_not_less(false, idb.key_at(start), probe);
                if key_cmp(false, idb.key_at(start), probe) == Ordering::Greater {
                    crate::store::lemma_key_cmp_antisym(false, probe, idb.key_at(start));
                    crate::store::lemma_key_cmp_trans(false, probe, idb.key_at(start),
                        idb.key_at(stop));
                    crate::store::lemma_key_cmp_antisym(false, idb.key_at(stop), probe);
                } else {
                    crate::store::lemma_key_cmp_trans_eq_left(false, idb.key_at(start), probe,
                        idb.key_at(stop));
                    crate::store::lemma_key_cmp_antisym(false, idb.key_at(stop), probe);
                }
            }
        }
    }
    assert forall|j: int| in_group(idb, j, sk) implies start <= j < stop by {
        crate::entry::lemma_lex_cmp_eq(prefix_of(idb.key_at(j)), prefix_of(probe));
        assert(key_cmp(false, idb.key_at(j), probe) != Ordering::Less);
        assert(j >= start);
        if j >= stop && stop < idb.entries@.len() {
            assert(j > stop) by {
                if j == stop {
                    assert(prefix_of(idb.key_at(stop)) == sk);
                }
            }
            assert(key_cmp(false, idb.key_at(stop), idb.key_at(j)) == Ordering::Less);
            crate::entry::lemma_lex_cmp_eq(prefix_of(idb.key_at(stop)),
                prefix_of(idb.key_at(j)));
            crate::entry::lemma_lex_cmp_eq(prefix_of(idb.key_at(stop)), prefix_of(probe));
            assert(false);
        }
    }
}


/// The entry removed by a successful scan is the group's highest-ordinal
/// match.
proof fn lemma_delete_found(pre: &Store, post: &Store, sk: Seq<u8>, k: Seq<u8>, fi: int,
    start: int)
    requires
        pre.wf(),
        !pre.unique,
        forall|i: int| 0 <= i < pre.entries@.len() ==> spec_suffix_val(
            #[trigger] pre.key_at(i)) >= 1,
        0 <= start <= fi < pre.entries@.len(),
        in_group(pre, fi, sk),
        pre.val_at(fi) == k,
        forall|q: int| start <= q < fi && in_group(pre, q, sk) ==> pre.val_at(q) != k,
        forall|q: int| 0 <= q < start ==> key_cmp(false, pre.key_at(q), sk + suffix_enc(0))
            == Ordering::Less,
        exists|i: int|
            {
                &&& 0 <= i < pre.entries@.len()
                &&& key_cmp(false, pre.key_at(i), pre.key_at(fi)) == Ordering::Equal
                &&& #[trigger] post.entries@ == pre.entries@.remove(i)
            },
    ensures
        idx_delete_effect(pre, post, sk, k),
{
    lemma_suffix_round_trip(sk, 0);
    let i = choose|i: int|
        {
            &&& 0 <= i < pre.entries@.len()
            &&& key_cmp(false, pre.key_at(i), pre.key_at(fi)) == Ordering::Equal
            &&& #[trigger] post.entries@ == pre.entries@.remove(i)
        };
    assert(i == fi) by {
        if i < fi {
            assert(key_cmp(false, pre.key_at(i), pre.key_at(fi)) == Ordering::Less);
        } else if i > fi {
            assert(key_cmp(false, pre.key_at(fi), pre.key_at(i)) == Ordering::Less);
            crate::store::lemma_key_cmp_antisym(false, pre.key_at(fi), pre.key_at(i));
        }
    }
    assert forall|j: int|
        in_group(pre, j, sk) && spec_suffix_val(pre.key_at(j)) > spec_suffix_val(pre.key_at(fi))
        implies pre.val_at(j) != k by {
        crate::entry::lemma_lex_cmp_eq(prefix_of(pre.key_at(j)), prefix_of(sk + suffix_enc(0)));
        assert(key_cmp(false, pre.key_at(j), sk + suffix_enc(0)) != Ordering::Less);
        assert(j >= start);
        if j >= fi {
            crate::entry::lemma_lex_cmp_eq(prefix_of(pre.key_at(fi)), prefix_of(pre.key_at(j)));
            if j > fi {
                assert(key_cmp(false, pre.key_at(fi), pre.key_at(j)) == Ordering::Less);
                assert(false);
            }
        }
    }
}

} // verus!
