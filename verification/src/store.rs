//! An ordered key-value store kept in sorted form.
//!
//! The store holds key-value pairs strictly sorted under its comparator:
//! plain byte order for a primary or unique-index store, the suffix-aware
//! index order for a non-unique index store.  It stands where a sorted
//! engine database would and gives the cursor and index layers exact
//! ordering guarantees to build on.

use vstd::prelude::*;
use core::cmp::Ordering;
use crate::comparator::idx_cmp;
use crate::comparator::IDXComparator;
use crate::comparator::KeyComparator;
use crate::entry::BufferEntry;
use crate::entry::compare;
use crate::entry::lex_cmp;
use crate::entry::lemma_lex_cmp_eq;
use crate::entry::lemma_lex_cmp_antisym;
use crate::entry::lemma_lex_cmp_trans;
use crate::error::Error;
use crate::suffix::suffix_valid;

verus! {

/// The ordering a store sorts by: byte order when keys are unique, the
/// suffix-aware order otherwise.
pub open spec fn key_cmp(unique: bool, a: Seq<u8>, b: Seq<u8>) -> Ordering {
    if unique {
        lex_cmp(a, b)
    } else {
        idx_cmp(a, b)
    }
}

/// Keys a store of this kind accepts: any bytes when unique, a suffixed key
/// otherwise.
pub open spec fn key_valid(unique: bool, a: Seq<u8>) -> bool {
    unique || suffix_valid(a)
}

/// Swapping operands of the store order reverses the answer.
pub proof fn lemma_key_cmp_antisym(unique: bool, a: Seq<u8>, b: Seq<u8>)
    ensures
        key_cmp(unique, a, b) == Ordering::Less <==> key_cmp(unique, b, a) == Ordering::Greater,
{
    if unique {
        lemma_lex_cmp_antisym(a, b);
    } else {
        let pa = a.take(a.len() - crate::suffix::spec_suffix_size(a));
        let pb = b.take(b.len() - crate::suffix::spec_suffix_size(b));
        lemma_lex_cmp_antisym(pa, pb);
        lemma_lex_cmp_eq(pa, pb);
        lemma_lex_cmp_eq(pb, pa);
    }
}


/// After a put over an existing key: position `i` now holds the new pair and
/// everything else is unchanged.
pub open spec fn put_replaced(pre: Seq<(BufferEntry, BufferEntry)>,
    post: Seq<(BufferEntry, BufferEntry)>, unique: bool, k: Seq<u8>, v: Seq<u8>, i: int) -> bool {
    &&& 0 <= i < pre.len()
    &&& key_cmp(unique, pre[i].0@, k) == Ordering::Equal
    &&& post.len() == pre.len()
    &&& post[i].0@ == k
    &&& post[i].1@ == v
    &&& forall|q: int| 0 <= q < pre.len() && q != i ==> post[q] == pre[q]
}

/// After a put of a fresh key: the new pair sits at position `p` and the old
/// pairs keep their order around it.
pub open spec fn put_inserted(pre: Seq<(BufferEntry, BufferEntry)>,
    post: Seq<(BufferEntry, BufferEntry)>, unique: bool, k: Seq<u8>, v: Seq<u8>, p: int) -> bool {
    &&& 0 <= p <= pre.len()
    &&& post.len() == pre.len() + 1
    &&& post[p].0@ == k
    &&& post[p].1@ == v
    &&& forall|q: int| 0 <= q < p ==> post[q] == pre[q]
    &&& forall|q: int| p <= q < pre.len() ==> post[q + 1] == pre[q]
}

/// A sorted key-value store.
#[derive(Debug)]
pub struct Store {
    pub name: String,
    pub readonly: bool,
    pub temporary: bool,
    pub unique: bool,
    pub entries: Vec<(BufferEntry, BufferEntry)>,
}

impl Store {
    /// The key at position `i`.
    pub open spec fn key_at(&self, i: int) -> Seq<u8> {
        self.entries@[i].0@
    }

    /// The value at position `i`.
    pub open spec fn val_at(&self, i: int) -> Seq<u8> {
        self.entries@[i].1@
    }

    /// Every pair well-formed and valid for this store's order; keys strictly
    /// ascending under the order.
    pub open spec fn wf(&self) -> bool {
        &&& forall|i: int|
            0 <= i < self.entries@.len() ==> (#[trigger] self.entries@[i]).0.wf()
                && self.entries@[i].1.wf() && key_valid(self.unique, self.entries@[i].0@)
        &&& forall|i: int, j: int|
            0 <= i < j < self.entries@.len() ==> key_cmp(self.unique, self.key_at(i),
                self.key_at(j)) == Ordering::Less
    }

    /// Some stored key compares equal to `k`.
    pub open spec fn has_key(&self, k: Seq<u8>) -> bool {
        exists|i: int|
            0 <= i < self.entries@.len() && key_cmp(self.unique, self.key_at(i), k)
                == Ordering::Equal
    }

    /// The value stored under a key equal to `k`, if any.
    pub open spec fn spec_get(&self, k: Seq<u8>) -> Option<Seq<u8>> {
        if self.has_key(k) {
            let i = choose|i: int|
                0 <= i < self.entries@.len() && key_cmp(self.unique, self.key_at(i), k)
                    == Ordering::Equal;
            Some(self.val_at(i))
        } else {
            None
        }
    }

    /// An empty store.
    pub fn new(name: &str, readonly: bool, temporary: bool, unique: bool) -> (r: Store)
        ensures
            r.wf(),
            r.entries@.len() == 0,
            r.name@ == name@,
            r.readonly == readonly,
            r.temporary == temporary,
            r.unique == unique,
    {
        Store { name: name.to_owned(), readonly, temporary, unique, entries: Vec::new() }
    }

    /// How many pairs the store holds.
    pub fn count(&self) -> (r: Result<usize, Error>)
        ensures
            r matches Ok(n) && n == self.entries@.len(),
    {
        Ok(self.entries.len())
    }

    /// Whether the store holds nothing.
    pub fn is_empty(&self) -> (r: Result<bool, Error>)
        ensures
            r matches Ok(b) && b == (self.entries@.len() == 0),
    {
        Ok(self.entries.len() == 0)
    }

    /// Compares two keys under this store's order.
    fn cmp_keys(&self, a: &BufferEntry, b: &BufferEntry) -> (r: Result<Ordering, Error>)
        requires
            a.wf(),
            b.wf(),
        ensures
            r is Ok <==> (key_valid(self.unique, a@) && key_valid(self.unique, b@)),
            (r matches Ok(o) ==> o == key_cmp(self.unique, a@, b@)),
    {
        if self.unique {
            Ok(compare(a, b))
        } else {
            let c = IDXComparator;
            c.compare(a, b)
        }
    }

    /// The position of the first key not below `key`: everything before it is
    /// strictly below `key`, and the key there (if any) is not.
    pub fn seek_pos(&self, key: &BufferEntry) -> (r: Result<usize, Error>)
        requires
            self.wf(),
            key.wf(),
        ensures
            r is Ok <==> key_valid(self.unique, key@),
            (r matches Ok(p) ==> {
                &&& p <= self.entries@.len()
                &&& forall|q: int| 0 <= q < p ==> key_cmp(self.unique, self.key_at(q), key@)
                    == Ordering::Less
                &&& p < self.entries@.len() ==> key_cmp(self.unique, self.key_at(p as int), key@)
                    != Ordering::Less
            }),
    {
        if !self.unique && !crate::suffix::check_suffix(key) {
            return Err(Error { inner: crate::error::ErrorKind::OutOfBounds });
        }
        let n = self.entries.len();
        let mut i: usize = 0;
        while i < n
            invariant
                i <= n == self.entries@.len(),
                self.wf(),
                key.wf(),
                key_valid(self.unique, key@),
                forall|q: int| 0 <= q < i ==> key_cmp(self.unique, self.key_at(q), key@)
                    == Ordering::Less,
            decreases n - i,
        {
            let c = match self.cmp_keys(&self.entries[i].0, key) {
                Ok(c) => c,
                Err(e) => {
                    return Err(e);
                },
            };
            if !matches!(c, Ordering::Less) {
                return Ok(i);
            }
            i = i + 1;
        }
        Ok(n)
    }

    /// Reads the value stored under a key equal to `key`.
    pub fn get(&self, key: &BufferEntry) -> (r: Result<Option<BufferEntry>, Error>)
        requires
            self.wf(),
            key.wf(),
        ensures
            r is Ok <==> key_valid(self.unique, key@),
            (r matches Ok(o) ==> {
                &&& (o matches Some(v) ==> v.wf() && self.spec_get(key@) == Some(v@))
                &&& (o is None ==> !self.has_key(key@) && self.spec_get(key@) is None)
            }),
    {
        let p = match self.seek_pos(key) {
            Ok(p) => p,
            Err(e) => {
                return Err(e);
            },
        };
        if p < self.entries.len() {
            let c = match self.cmp_keys(&self.entries[p].0, key) {
                Ok(c) => c,
                Err(e) => {
                    return Err(e);
                },
            };
            if matches!(c, Ordering::Equal) {
                proof {
                    assert(key_cmp(self.unique, self.key_at(p as int), key@) == Ordering::Equal);
                }
                let v = self.entries[p].1.duplicate();
                proof {
                    assert(v@ == self.val_at(p as int));
                    assert(self.has_key(key@));
                    let i = choose|i: int|
                        0 <= i < self.entries@.len() && key_cmp(self.unique, self.key_at(i),
                            key@) == Ordering::Equal;
                    lemma_has_key_unique(self, key@, i, p as int);
                }
                return Ok(Some(v));
            }
        }
        proof {
            lemma_absent(self, key@, p as int);
        }
        Ok(None)
    }

    /// Stores `data` under `key`, replacing the pair whose key compares equal
    /// if there is one, else inserting at the key's sorted position, and
    /// reports where the pair now sits.
    pub fn put(&mut self, key: &BufferEntry, data: &BufferEntry) -> (r: Result<usize, Error>)
        requires
            old(self).wf(),
            key.wf(),
            data.wf(),
        ensures
            final(self).wf(),
            final(self).unique == old(self).unique,
            final(self).name == old(self).name,
            final(self).readonly == old(self).readonly,
            final(self).temporary == old(self).temporary,
            r is Ok <==> key_valid(old(self).unique, key@),
            !key_valid(old(self).unique, key@) ==> final(self).entries@ == old(self).entries@,
            (r matches Ok(pos) ==> {
                &&& (old(self).has_key(key@) ==> put_replaced(old(self).entries@,
                    final(self).entries@, old(self).unique, key@, data@, pos as int))
                &&& (!old(self).has_key(key@) ==> put_inserted(old(self).entries@,
                    final(self).entries@, old(self).unique, key@, data@, pos as int))
            }),
    {
        let p = match self.seek_pos(key) {
            Ok(p) => p,
            Err(e) => {
                return Err(e);
            },
        };
        let pair = (key.duplicate(), data.duplicate());
        if p < self.entries.len() {
            let c = match self.cmp_keys(&self.entries[p].0, key) {
                Ok(c) => c,
                Err(e) => {
                    return Err(e);
                },
            };
            if matches!(c, Ordering::Equal) {
                let ghost entries0 = self.entries@;
                self.entries[p] = pair;
                proof {
                    let pi = p as int;
                    assert(key_cmp(self.unique, entries0[pi].0@, key@) == Ordering::Equal);
                    assert forall|i: int, j: int|
                        0 <= i < j < self.entries@.len() implies key_cmp(self.unique,
                        self.key_at(i), self.key_at(j)) == Ordering::Less by {
                        assert(key_cmp(self.unique, old(self).key_at(i), old(self).key_at(j))
                            == Ordering::Less);
                        if i == pi {
                            lemma_key_cmp_trans_eq_left(self.unique, entries0[pi].0@, key@,
                                entries0[j].0@);
                        } else if j == pi {
                            lemma_key_cmp_trans_eq_right(self.unique, entries0[i].0@,
                                entries0[pi].0@, key@);
                        }
                    }
                    assert(put_replaced(old(self).entries@, self.entries@, old(self).unique,
                        key@, data@, pi));
                    assert(old(self).has_key(key@));
                }
                return Ok(p);
            }
        }
        let ghost entries0 = self.entries@;
        proof {
            lemma_absent(self, key@, p as int);
            if (p as int) < entries0.len() {
                assert(old(self).key_at(p as int) == entries0[p as int].0@);
                assert(key_cmp(self.unique, old(self).key_at(p as int), key@)
                    != Ordering::Less);
                lemma_key_cmp_not_less(self.unique, entries0[p as int].0@, key@);
                lemma_key_cmp_antisym(self.unique, key@, entries0[p as int].0@);
                assert(key_cmp(self.unique, key@, entries0[p as int].0@) == Ordering::Less);
            }
        }
        self.entries.insert(p, pair);
        proof {
            let pi = p as int;
            assert(forall|q: int| 0 <= q < pi ==> #[trigger] self.entries@[q] == entries0[q]);
            assert(forall|q: int|
                pi <= q < entries0.len() ==> #[trigger] self.entries@[q + 1] == entries0[q]);
            assert(self.entries@[pi].0@ == key@);
            assert forall|i: int, j: int|
                0 <= i < j < self.entries@.len() implies key_cmp(self.unique, self.key_at(i),
                self.key_at(j)) == Ordering::Less by {
                if i == pi && j > pi {
                    assert(self.key_at(j) == entries0[j - 1].0@);
                    if j - 1 == pi {
                        assert(key_cmp(self.unique, key@, entries0[pi].0@) == Ordering::Less);
                    } else {
                        assert(key_cmp(self.unique, old(self).key_at(pi), old(self).key_at(
                            j - 1)) == Ordering::Less);
                        assert(key_cmp(self.unique, key@, entries0[pi].0@) == Ordering::Less);
                        lemma_key_cmp_trans(self.unique, key@, entries0[pi].0@,
                            entries0[j - 1].0@);
                    }
                } else if j == pi && i < pi {
                    assert(key_cmp(self.unique, old(self).key_at(i), key@) == Ordering::Less);
                } else if i != pi && j != pi {
                    let i2: int = if i < pi {
                        i
                    } else {
                        i - 1
                    };
                    let j2: int = if j < pi {
                        j
                    } else {
                        j - 1
                    };
                    assert(key_cmp(self.unique, old(self).key_at(i2), old(self).key_at(j2))
                        == Ordering::Less);
                }
            }
            assert(put_inserted(old(self).entries@, self.entries@, old(self).unique, key@,
                data@, pi));
        }
        Ok(p)
    }

    /// Deletes the pair whose key compares equal to `key`, reporting the
    /// position it was removed from.
    pub fn remove_key(&mut self, key: &BufferEntry) -> (r: Result<Option<usize>, Error>)
        requires
            old(self).wf(),
            key.wf(),
        ensures
            final(self).wf(),
            final(self).unique == old(self).unique,
            final(self).name == old(self).name,
            final(self).readonly == old(self).readonly,
            final(self).temporary == old(self).temporary,
            r is Ok <==> key_valid(old(self).unique, key@),
            !key_valid(old(self).unique, key@) ==> final(self).entries@ == old(self).entries@,
            (r matches Ok(o) ==> {
                &&& (o is None ==> !old(self).has_key(key@) && final(self).entries@ == old(
                    self).entries@)
                &&& (o matches Some(i) ==> {
                    &&& 0 <= i < old(self).entries@.len()
                    &&& key_cmp(old(self).unique, old(self).key_at(i as int), key@)
                        == Ordering::Equal
                    &&& final(self).entries@ == old(self).entries@.remove(i as int)
                })
            }),
    {
        let p = match self.seek_pos(key) {
            Ok(p) => p,
            Err(e) => {
                return Err(e);
            },
        };
        if p < self.entries.len() {
            let c = match self.cmp_keys(&self.entries[p].0, key) {
                Ok(c) => c,
                Err(e) => {
                    return Err(e);
                },
            };
            if matches!(c, Ordering::Equal) {
                let ghost entries0 = self.entries@;
                let _ = self.entries.remove(p);
                proof {
                    let pi = p as int;
                    assert(self.entries@ =~= entries0.remove(pi));
                    assert(forall|q: int| 0 <= q < self.entries@.len()
                        ==> #[trigger] self.entries@[q] == (if q < pi {
                        entries0[q]
                    } else {
                        entries0[q + 1]
                    }));
                    assert forall|i: int, j: int|
                        0 <= i < j < self.entries@.len() implies key_cmp(self.unique,
                        self.key_at(i), self.key_at(j)) == Ordering::Less by {
                        let i2: int = if i < pi {
                            i
                        } else {
                            i + 1
                        };
                        let j2: int = if j < pi {
                            j
                        } else {
                            j + 1
                        };
                        assert(key_cmp(self.unique, old(self).key_at(i2), old(self).key_at(j2))
                            == Ordering::Less);
                    }
                }
                return Ok(Some(p));
            }
        }
        proof {
            lemma_absent(self, key@, p as int);
        }
        Ok(None)
    }

    /// Deletes the pair whose key compares equal to `key`, reporting whether
    /// one existed.
    pub fn delete_exist(&mut self, key: &BufferEntry) -> (r: Result<bool, Error>)
        requires
            old(self).wf(),
            key.wf(),
        ensures
            final(self).wf(),
            final(self).unique == old(self).unique,
            final(self).name == old(self).name,
            final(self).readonly == old(self).readonly,
            final(self).temporary == old(self).temporary,
            r is Ok <==> key_valid(old(self).unique, key@),
            !key_valid(old(self).unique, key@) ==> final(self).entries@ == old(self).entries@,
            (r matches Ok(found) ==> {
                &&& (!found ==> !old(self).has_key(key@) && final(self).entries@ == old(
                    self).entries@)
                &&& (found ==> exists|i: int|
                    {
                        &&& 0 <= i < old(self).entries@.len()
                        &&& key_cmp(old(self).unique, old(self).key_at(i), key@)
                            == Ordering::Equal
                        &&& final(self).entries@ == old(self).entries@.remove(i)
                    })
            }),
    {
        match self.remove_key(key) {
            Ok(Some(_)) => Ok(true),
            Ok(None) => Ok(false),
            Err(e) => Err(e),
        }
    }

    /// Deletes the pair whose key compares equal to `key`; absent keys are a
    /// no-op.
    pub fn delete(&mut self, key: &BufferEntry) -> (r: Result<(), Error>)
        requires
            old(self).wf(),
            key.wf(),
        ensures
            final(self).wf(),
            final(self).unique == old(self).unique,
            final(self).name == old(self).name,
            final(self).readonly == old(self).readonly,
            final(self).temporary == old(self).temporary,
            r is Ok <==> key_valid(old(self).unique, key@),
            !key_valid(old(self).unique, key@) ==> final(self).entries@ == old(self).entries@,
            (r is Ok ==> {
                &&& !old(self).has_key(key@) ==> final(self).entries@ == old(self).entries@
                &&& old(self).has_key(key@) ==> exists|i: int|
                    {
                        &&& 0 <= i < old(self).entries@.len()
                        &&& key_cmp(old(self).unique, old(self).key_at(i), key@)
                            == Ordering::Equal
                        &&& final(self).entries@ == old(self).entries@.remove(i)
                    }
            }),
    {
        match self.delete_exist(key) {
            Ok(_) => Ok(()),
            Err(e) => Err(e),
        }
    }

    /// The pair at position `i`, borrowed.
    pub fn pair_at(&self, i: usize) -> (r: &(BufferEntry, BufferEntry))
        requires
            i < self.entries@.len(),
        ensures
            r == &self.entries@[i as int],
    {
        &self.entries[i]
    }
}


/// The store order is transitive.
pub proof fn lemma_key_cmp_trans(unique: bool, a: Seq<u8>, b: Seq<u8>, c: Seq<u8>)
    requires
        key_cmp(unique, a, b) == Ordering::Less,
        key_cmp(unique, b, c) == Ordering::Less,
    ensures
        key_cmp(unique, a, c) == Ordering::Less,
{
    if unique {
        lemma_lex_cmp_trans(a, b, c);
    } else {
        let pa = a.take(a.len() - crate::suffix::spec_suffix_size(a));
        let pb = b.take(b.len() - crate::suffix::spec_suffix_size(b));
        let pc = c.take(c.len() - crate::suffix::spec_suffix_size(c));
        if lex_cmp(pa, pb) == Ordering::Equal {
            lemma_lex_cmp_eq(pa, pb);
        } else if lex_cmp(pb, pc) == Ordering::Equal {
            lemma_lex_cmp_eq(pb, pc);
        } else {
            lemma_lex_cmp_trans(pa, pb, pc);
        }
    }
}

/// When the probe at the lower bound does not compare equal, no stored key
/// equals `k`.
pub proof fn lemma_absent(st: &Store, k: Seq<u8>, p: int)
    requires
        st.wf(),
        0 <= p <= st.entries@.len(),
        forall|q: int| 0 <= q < p ==> key_cmp(st.unique, st.key_at(q), k) == Ordering::Less,
        p < st.entries@.len() ==> key_cmp(st.unique, st.key_at(p), k) != Ordering::Less
            && key_cmp(st.unique, st.key_at(p), k) != Ordering::Equal,
    ensures
        !st.has_key(k),
{
    if st.has_key(k) {
        let i = choose|i: int|
            0 <= i < st.entries@.len() && key_cmp(st.unique, st.key_at(i), k) == Ordering::Equal;
        if i < p {
        } else if i == p {
        } else {
            lemma_key_cmp_trans_eq_right(st.unique, st.key_at(p), st.key_at(i), k);
        }
    }
}

/// Keys equal under the order sort alike on the left.
pub proof fn lemma_key_cmp_trans_eq_left(unique: bool, a: Seq<u8>, b: Seq<u8>, c: Seq<u8>)
    requires
        key_cmp(unique, a, b) == Ordering::Equal,
        key_cmp(unique, a, c) == Ordering::Less,
    ensures
        key_cmp(unique, b, c) == Ordering::Less,
{
    if unique {
        lemma_lex_cmp_eq(a, b);
    } else {
        let pa = a.take(a.len() - crate::suffix::spec_suffix_size(a));
        let pb = b.take(b.len() - crate::suffix::spec_suffix_size(b));
        lemma_lex_cmp_eq(pa, pb);
    }
}

/// Keys equal under the order sort alike on the right.
pub proof fn lemma_key_cmp_trans_eq_right(unique: bool, a: Seq<u8>, b: Seq<u8>, c: Seq<u8>)
    requires
        key_cmp(unique, b, c) == Ordering::Equal,
        key_cmp(unique, a, b) == Ordering::Less,
    ensures
        key_cmp(unique, a, c) == Ordering::Less,
{
    if unique {
        lemma_lex_cmp_eq(b, c);
    } else {
        let pb = b.take(b.len() - crate::suffix::spec_suffix_size(b));
        let pc = c.take(c.len() - crate::suffix::spec_suffix_size(c));
        lemma_lex_cmp_eq(pb, pc);
    }
}

/// At most one stored key compares equal to `k`.
pub proof fn lemma_has_key_unique(st: &Store, k: Seq<u8>, i: int, j: int)
    requires
        st.wf(),
        0 <= i < st.entries@.len(),
        0 <= j < st.entries@.len(),
        key_cmp(st.unique, st.key_at(i), k) == Ordering::Equal,
        key_cmp(st.unique, st.key_at(j), k) == Ordering::Equal,
    ensures
        i == j,
{
    if i < j {
        lemma_key_cmp_trans_eq_left(st.unique, st.key_at(i), k, st.key_at(j));
        lemma_key_cmp_antisym(st.unique, k, st.key_at(j));
    } else if j < i {
        lemma_key_cmp_trans_eq_left(st.unique, st.key_at(j), k, st.key_at(i));
        lemma_key_cmp_antisym(st.unique, k, st.key_at(i));
    }
}

/// After a put of `k` with value `v`, looking `k` up yields `v`.
pub proof fn lemma_put_spec_get(pre: &Store, post: &Store, k: Seq<u8>, v: Seq<u8>, pos: int)
    requires
        post.wf(),
        post.unique == pre.unique,
        put_replaced(pre.entries@, post.entries@, pre.unique, k, v, pos) || put_inserted(
            pre.entries@, post.entries@, pre.unique, k, v, pos),
    ensures
        post.spec_get(k) == Some(v),
{
    lemma_key_cmp_refl(post.unique, k);
    assert(key_cmp(post.unique, post.key_at(pos), k) == Ordering::Equal);
    assert(post.has_key(k));
    let i = choose|i: int|
        0 <= i < post.entries@.len() && key_cmp(post.unique, post.key_at(i), k)
            == Ordering::Equal;
    lemma_has_key_unique(post, k, i, pos);
}

/// Every key compares equal to itself.
pub proof fn lemma_key_cmp_refl(unique: bool, k: Seq<u8>)
    ensures
        key_cmp(unique, k, k) == Ordering::Equal,
{
    if unique {
        lemma_lex_cmp_eq(k, k);
    } else {
        let p = k.take(k.len() - crate::suffix::spec_suffix_size(k));
        lemma_lex_cmp_eq(p, p);
    }
}



/// Equality under the order is symmetric.
pub proof fn lemma_key_cmp_eq_symm(unique: bool, a: Seq<u8>, b: Seq<u8>)
    ensures
        (key_cmp(unique, a, b) == Ordering::Equal) == (key_cmp(unique, b, a) == Ordering::Equal),
{
    if unique {
        lemma_lex_cmp_eq(a, b);
        lemma_lex_cmp_eq(b, a);
    } else {
        let pa = a.take(a.len() - crate::suffix::spec_suffix_size(a));
        let pb = b.take(b.len() - crate::suffix::spec_suffix_size(b));
        lemma_lex_cmp_eq(pa, pb);
        lemma_lex_cmp_eq(pb, pa);
    }
}

/// Equality under the order is transitive.
pub proof fn lemma_key_cmp_eq_trans(unique: bool, a: Seq<u8>, b: Seq<u8>, c: Seq<u8>)
    requires
        key_cmp(unique, a, b) == Ordering::Equal,
        key_cmp(unique, b, c) == Ordering::Equal,
    ensures
        key_cmp(unique, a, c) == Ordering::Equal,
{
    if unique {
        lemma_lex_cmp_eq(a, b);
        lemma_lex_cmp_eq(b, c);
        lemma_lex_cmp_eq(a, c);
    } else {
        let pa = a.take(a.len() - crate::suffix::spec_suffix_size(a));
        let pb = b.take(b.len() - crate::suffix::spec_suffix_size(b));
        let pc = c.take(c.len() - crate::suffix::spec_suffix_size(c));
        lemma_lex_cmp_eq(pa, pb);
        lemma_lex_cmp_eq(pb, pc);
        lemma_lex_cmp_eq(pa, pc);
    }
}

/// A put leaves the value of every other key unchanged.
pub proof fn lemma_put_frame(pre: &Store, post: &Store, k: Seq<u8>, v: Seq<u8>, pos: int,
    k2: Seq<u8>)
    requires
        pre.wf(),
        post.wf(),
        post.unique == pre.unique,
        put_replaced(pre.entries@, post.entries@, pre.unique, k, v, pos) || put_inserted(
            pre.entries@, post.entries@, pre.unique, k, v, pos),
        key_cmp(pre.unique, k2, k) != Ordering::Equal,
        key_cmp(pre.unique, k, k2) != Ordering::Equal,
    ensures
        post.spec_get(k2) == pre.spec_get(k2),
{
    if put_replaced(pre.entries@, post.entries@, pre.unique, k, v, pos) {
        assert forall|i: int|
            0 <= i < pre.entries@.len() implies (key_cmp(pre.unique, pre.key_at(i), k2)
            == Ordering::Equal <==> key_cmp(post.unique, post.key_at(i), k2)
            == Ordering::Equal) by {
            if i == pos {
                if key_cmp(pre.unique, pre.key_at(i), k2) == Ordering::Equal {
                    lemma_key_cmp_eq_symm(pre.unique, pre.key_at(i), k);
                    lemma_key_cmp_eq_trans(pre.unique, k, pre.key_at(i), k2);
                }
                if key_cmp(post.unique, post.key_at(i), k2) == Ordering::Equal {
                    assert(post.key_at(i) == k);
                }
            } else {
                assert(post.entries@[i] == pre.entries@[i]);
            }
        }
        if pre.has_key(k2) {
            let i = choose|i: int|
                0 <= i < pre.entries@.len() && key_cmp(pre.unique, pre.key_at(i), k2)
                    == Ordering::Equal;
            assert(i != pos) by {
                if i == pos {
                    lemma_key_cmp_eq_symm(pre.unique, pre.key_at(i), k);
                    lemma_key_cmp_eq_trans(pre.unique, k, pre.key_at(i), k2);
                }
            }
            assert(key_cmp(post.unique, post.key_at(i), k2) == Ordering::Equal);
            assert(post.has_key(k2));
            let ip = choose|ip: int|
                0 <= ip < post.entries@.len() && key_cmp(post.unique, post.key_at(ip), k2)
                    == Ordering::Equal;
            lemma_has_key_unique(post, k2, ip, i);
            lemma_has_key_unique(pre, k2, i, i);
        } else {
            if post.has_key(k2) {
                let i = choose|i: int|
                    0 <= i < post.entries@.len() && key_cmp(post.unique, post.key_at(i), k2)
                        == Ordering::Equal;
                if i == pos {
                    assert(post.key_at(i) == k);
                } else {
                    assert(pre.has_key(k2));
                }
            }
        }
    } else {
        assert forall|i: int| 0 <= i < post.entries@.len() implies #[trigger] post.entries@[i]
            == (if i < pos {
            pre.entries@[i]
        } else if i == pos {
            post.entries@[pos]
        } else {
            pre.entries@[i - 1]
        }) by {}
        if pre.has_key(k2) {
            let i = choose|i: int|
                0 <= i < pre.entries@.len() && key_cmp(pre.unique, pre.key_at(i), k2)
                    == Ordering::Equal;
            let i2: int = if i < pos {
                i
            } else {
                i + 1
            };
            assert(post.key_at(i2) == pre.key_at(i));
            assert(post.has_key(k2));
            let ip = choose|ip: int|
                0 <= ip < post.entries@.len() && key_cmp(post.unique, post.key_at(ip), k2)
                    == Ordering::Equal;
            lemma_has_key_unique(post, k2, ip, i2);
            lemma_has_key_unique(pre, k2, i, i);
        } else {
            if post.has_key(k2) {
                let i = choose|i: int|
                    0 <= i < post.entries@.len() && key_cmp(post.unique, post.key_at(i), k2)
                        == Ordering::Equal;
                if i == pos {
                    assert(post.key_at(i) == k);
                } else {
                    let i2: int = if i < pos {
                        i
                    } else {
                        i - 1
                    };
                    assert(pre.key_at(i2) == post.key_at(i));
                    assert(pre.has_key(k2));
                }
            }
        }
    }
}

/// A removal leaves the value of every other key unchanged.
pub proof fn lemma_remove_frame(pre: &Store, post: &Store, k: Seq<u8>, pos: int, k2: Seq<u8>)
    requires
        pre.wf(),
        post.wf(),
        post.unique == pre.unique,
        0 <= pos < pre.entries@.len(),
        key_cmp(pre.unique, pre.key_at(pos), k) == Ordering::Equal,
        post.entries@ == pre.entries@.remove(pos),
        key_cmp(pre.unique, k2, k) != Ordering::Equal,
        key_cmp(pre.unique, k, k2) != Ordering::Equal,
    ensures
        post.spec_get(k2) == pre.spec_get(k2),
{
    assert(forall|i: int| 0 <= i < post.entries@.len() ==> #[trigger] post.entries@[i] == (if i
        < pos {
        pre.entries@[i]
    } else {
        pre.entries@[i + 1]
    }));
    if pre.has_key(k2) {
        let i = choose|i: int|
            0 <= i < pre.entries@.len() && key_cmp(pre.unique, pre.key_at(i), k2)
                == Ordering::Equal;
        assert(i != pos) by {
            if i == pos {
                lemma_key_cmp_eq_symm(pre.unique, pre.key_at(i), k);
                lemma_key_cmp_eq_trans(pre.unique, k, pre.key_at(i), k2);
            }
        }
        let i2: int = if i < pos {
            i
        } else {
            i - 1
        };
        assert(post.key_at(i2) == pre.key_at(i));
        assert(post.has_key(k2));
        let ip = choose|ip: int|
            0 <= ip < post.entries@.len() && key_cmp(post.unique, post.key_at(ip), k2)
                == Ordering::Equal;
        lemma_has_key_unique(post, k2, ip, i2);
        lemma_has_key_unique(pre, k2, i, i);
    } else {
        if post.has_key(k2) {
            let i = choose|i: int|
                0 <= i < post.entries@.len() && key_cmp(post.unique, post.key_at(i), k2)
                    == Ordering::Equal;
            let i2: int = if i < pos {
                i
            } else {
                i + 1
            };
            assert(pre.key_at(i2) == post.key_at(i));
            assert(pre.has_key(k2));
        }
    }
}


/// Stores with the same order and entries answer lookups alike.
pub proof fn lemma_spec_get_same_entries(pre: &Store, post: &Store, k: Seq<u8>)
    requires
        pre.wf(),
        post.wf(),
        post.unique == pre.unique,
        post.entries@ == pre.entries@,
    ensures
        post.has_key(k) == pre.has_key(k),
        post.spec_get(k) == pre.spec_get(k),
{
    if pre.has_key(k) {
        let i = choose|i: int|
            0 <= i < pre.entries@.len() && key_cmp(pre.unique, pre.key_at(i), k)
                == Ordering::Equal;
        assert(key_cmp(post.unique, post.key_at(i), k) == Ordering::Equal);
        assert(post.has_key(k));
        let ip = choose|ip: int|
            0 <= ip < post.entries@.len() && key_cmp(post.unique, post.key_at(ip), k)
                == Ordering::Equal;
        lemma_has_key_unique(post, k, ip, i);
        lemma_has_key_unique(pre, k, i, i);
    } else {
        if post.has_key(k) {
            let i = choose|i: int|
                0 <= i < post.entries@.len() && key_cmp(post.unique, post.key_at(i), k)
                    == Ordering::Equal;
            assert(key_cmp(pre.unique, pre.key_at(i), k) == Ordering::Equal);
        }
    }
}

/// The order is a trichotomy: what is not below is equal or above.
pub proof fn lemma_key_cmp_not_less(unique: bool, a: Seq<u8>, b: Seq<u8>)
    ensures
        key_cmp(unique, a, b) == Ordering::Less || key_cmp(unique, a, b) == Ordering::Equal
            || key_cmp(unique, a, b) == Ordering::Greater,
{
}

} // verus!
