//! A named-handle cache pool with wall-clock eviction.
//!
//! The pool maps names to handles, each stamped with its last access time in
//! milliseconds.  `cleanup` applies the tri-criterion eviction policy: a
//! `min_live_time` protects recently used handles from any eviction, a
//! `max_idle_time` evicts handles idle for too long, and a `max_cache` cap
//! then evicts the oldest handles beyond the cap.

use vstd::prelude::*;
use crate::config::CacheConfig;
use crate::entry::str_eq;

verus! {

/// Relies on `chrono::Local::now` for the current wall time in milliseconds.
#[verifier::external_body]
pub fn now() -> (r: i64) {
    chrono::Local::now().timestamp_millis()
}

/// A pooled handle: its name, its last access time, and the handle itself.
#[derive(Debug)]
pub struct PoolEntry<T> {
    pub name: String,
    pub last_access: i64,
    pub item: T,
}

/// `e` occurs among `s`.
pub open spec fn in_seq<T>(s: Seq<PoolEntry<T>>, e: PoolEntry<T>) -> bool {
    exists|i: int| 0 <= i < s.len() && s[i] == e
}

/// Some entry of `s` is named `n`.
pub open spec fn has_name<T>(s: Seq<PoolEntry<T>>, n: Seq<char>) -> bool {
    exists|i: int| 0 <= i < s.len() && s[i].name@ == n
}

/// Entries of `s` have pairwise distinct names.
pub open spec fn distinct_names<T>(s: Seq<PoolEntry<T>>) -> bool {
    forall|i: int, j: int| 0 <= i < j < s.len() ==> s[i].name@ != s[j].name@
}

/// An entry old enough to take part in eviction at all: `min_live_time`, when
/// set and nonzero, protects younger entries.
pub open spec fn eligible(last_access: i64, now: i64, min_live: Option<u64>) -> bool {
    match min_live {
        Some(t) => t == 0 || now - last_access > t,
        None => true,
    }
}

/// An entry idle beyond `max_idle_time`, when set and nonzero.
pub open spec fn idle_out(last_access: i64, now: i64, max_idle: Option<u64>) -> bool {
    match max_idle {
        Some(t) => t > 0 && now - last_access > t,
        None => false,
    }
}

/// An entry that survives the first two criteria and faces only the cap.
pub open spec fn capped_survivor(last_access: i64, now: i64, min_live: Option<u64>,
    max_idle: Option<u64>) -> bool {
    eligible(last_access, now, min_live) && !idle_out(last_access, now, max_idle)
}



/// What one cleanup pass at time `now` does to a pool's entries: nothing new
/// appears and nothing is touched; entries protected by `min_live_time`
/// stay; eligible entries idle beyond `max_idle_time` go; without a cap the
/// remaining eligible entries all stay, with a cap exactly the cap's worth
/// (or all, if fewer), evicting oldest first.
pub open spec fn cleanup_effect<T>(pre: Seq<PoolEntry<T>>, post: Seq<PoolEntry<T>>,
    max_cache: Option<usize>, min_live: Option<u64>, max_idle: Option<u64>, now: i64) -> bool {
    &&& forall|q: int| 0 <= q < post.len() ==> in_seq(pre, #[trigger] post[q])
    &&& forall|p: int|
        0 <= p < pre.len() && !eligible(#[trigger] pre[p].last_access, now, min_live)
            ==> in_seq(post, pre[p])
    &&& forall|p: int|
        0 <= p < pre.len() && eligible(#[trigger] pre[p].last_access, now, min_live)
            && idle_out(pre[p].last_access, now, max_idle) ==> !in_seq(post, pre[p])
    &&& (max_cache is None ==> forall|p: int|
        0 <= p < pre.len() && capped_survivor(#[trigger] pre[p].last_access, now, min_live,
            max_idle) ==> in_seq(post, pre[p]))
    &&& (max_cache matches Some(m) ==> {
        let pred = survivor_pred::<T>(now, min_live, max_idle);
        let survivors = count_matching(pre, pred);
        &&& survivors <= m ==> count_matching(post, pred) == survivors
        &&& survivors > m ==> count_matching(post, pred) == m
    })
    &&& forall|p: int, q: int|
        0 <= p < pre.len() && 0 <= q < pre.len() && capped_survivor(
            #[trigger] pre[p].last_access, now, min_live, max_idle) && capped_survivor(
            #[trigger] pre[q].last_access, now, min_live, max_idle) && !in_seq(post, pre[p])
            && in_seq(post, pre[q]) ==> pre[p].last_access <= pre[q].last_access
}

/// The entries that face only the cap, as a predicate for counting.
pub open spec fn survivor_pred<T>(now: i64, min_live: Option<u64>, max_idle: Option<u64>)
    -> spec_fn(PoolEntry<T>) -> bool {
    |e: PoolEntry<T>| capped_survivor(e.last_access, now, min_live, max_idle)
}

/// How many entries of `s` match `pred`.
pub open spec fn count_matching<T>(s: Seq<PoolEntry<T>>, pred: spec_fn(PoolEntry<T>) -> bool)
    -> int
    decreases s.len(),
{
    if s.len() == 0 {
        0
    } else {
        count_matching(s.drop_last(), pred) + if pred(s.last()) {
            1int
        } else {
            0int
        }
    }
}

/// Counting matches distributes over concatenation.
pub proof fn lemma_count_matching_add<T>(a: Seq<PoolEntry<T>>, b: Seq<PoolEntry<T>>,
    pred: spec_fn(PoolEntry<T>) -> bool)
    ensures
        count_matching(a + b, pred) == count_matching(a, pred) + count_matching(b, pred),
    decreases b.len(),
{
    if b.len() == 0 {
        assert(a + b =~= a);
    } else {
        lemma_count_matching_add(a, b.drop_last(), pred);
        assert((a + b).drop_last() =~= a + b.drop_last());
        assert((a + b).last() == b.last());
    }
}

/// A sequence whose entries all match counts its own length.
pub proof fn lemma_count_matching_all<T>(s: Seq<PoolEntry<T>>,
    pred: spec_fn(PoolEntry<T>) -> bool)
    requires
        forall|i: int| 0 <= i < s.len() ==> pred(#[trigger] s[i]),
    ensures
        count_matching(s, pred) == s.len(),
    decreases s.len(),
{
    if s.len() > 0 {
        lemma_count_matching_all(s.drop_last(), pred);
    }
}

/// A sequence with no matching entry counts zero.
pub proof fn lemma_count_matching_none<T>(s: Seq<PoolEntry<T>>,
    pred: spec_fn(PoolEntry<T>) -> bool)
    requires
        forall|i: int| 0 <= i < s.len() ==> !pred(#[trigger] s[i]),
    ensures
        count_matching(s, pred) == 0,
    decreases s.len(),
{
    if s.len() > 0 {
        lemma_count_matching_none(s.drop_last(), pred);
    }
}

/// Removes the oldest entries of `working` until at most `m` remain.
fn evict_oldest<T>(working: &mut Vec<PoolEntry<T>>, m: usize)
    requires
        distinct_names(old(working)@),
    ensures
        distinct_names(final(working)@),
        old(working)@.len() <= m ==> final(working)@ == old(working)@,
        old(working)@.len() > m ==> final(working)@.len() == m,
        forall|q: int| 0 <= q < final(working)@.len() ==> in_seq(old(working)@,
            #[trigger] final(working)@[q]),
        forall|p: int|
            0 <= p < old(working)@.len() && !in_seq(final(working)@, #[trigger] old(
                working)@[p]) ==> forall|q: int|
                0 <= q < final(working)@.len() ==> old(working)@[p].last_access
                    <= #[trigger] final(working)@[q].last_access,
{
    while working.len() > m
        invariant
            distinct_names(working@),
            old(working)@.len() <= m ==> working@ == old(working)@,
            working@.len() >= m || working@ == old(working)@,
            forall|q: int| 0 <= q < working@.len() ==> in_seq(old(working)@,
                #[trigger] working@[q]),
            forall|p: int|
                0 <= p < old(working)@.len() && !in_seq(working@, #[trigger] old(working)@[p])
                    ==> forall|q: int|
                    0 <= q < working@.len() ==> old(working)@[p].last_access
                        <= working@[q].last_access,
        decreases working@.len(),
    {
        let n = working.len();
        let mut mi: usize = 0;
        let mut k: usize = 1;
        while k < n
            invariant
                0 < n == working@.len(),
                mi < k <= n,
                forall|j: int| 0 <= j < k ==> working@[mi as int].last_access
                    <= #[trigger] working@[j].last_access,
            decreases n - k,
        {
            if working[k].last_access < working[mi].last_access {
                mi = k;
            }
            k = k + 1;
        }
        let ghost cur0 = working@;
        let ghost mi_int = mi as int;
        let removed = working.remove(mi);
        proof {
            assert(forall|p: int| 0 <= p < working@.len() ==> #[trigger] working@[p] == (if p
                < mi_int {
                cur0[p]
            } else {
                cur0[p + 1]
            }));
            assert(distinct_names(working@));
            assert(forall|q: int| 0 <= q < working@.len() ==> in_seq(cur0,
                #[trigger] working@[q]));
            assert forall|p: int|
                0 <= p < old(working)@.len() && !in_seq(working@, #[trigger] old(working)@[p])
                    implies forall|q: int|
                    0 <= q < working@.len() ==> old(working)@[p].last_access
                        <= working@[q].last_access by {
                let e = old(working)@[p];
                if in_seq(cur0, e) {
                    let t = choose|t: int| 0 <= t < cur0.len() && cur0[t] == e;
                    if t == mi_int {
                        assert(e == removed);
                        assert(forall|q: int| 0 <= q < working@.len() ==> removed.last_access
                            <= #[trigger] working@[q].last_access);
                    } else {
                        let t2: int = if t < mi_int {
                            t
                        } else {
                            t - 1
                        };
                        assert(working@[t2] == e);
                        assert(in_seq(working@, e));
                    }
                }
            }
        }
    }
}

/// A cache of named handles.
#[derive(Debug)]
pub struct CachePool<T> {
    pub entries: Vec<PoolEntry<T>>,
}

impl<T> CachePool<T> {
    /// Names are unique.
    pub open spec fn wf(&self) -> bool {
        distinct_names(self.entries@)
    }

    /// An empty pool.
    pub fn new() -> (r: CachePool<T>)
        ensures
            r.wf(),
            r.entries@.len() == 0,
    {
        CachePool { entries: Vec::new() }
    }

    /// Whether the pool holds nothing.
    pub fn is_empty(&self) -> (r: bool)
        ensures
            r == (self.entries@.len() == 0),
    {
        self.entries.len() == 0
    }

    /// How many handles the pool holds.
    pub fn len(&self) -> (r: usize)
        ensures
            r == self.entries@.len(),
    {
        self.entries.len()
    }

    /// The position of the entry named `name`, if any.
    fn find(&self, name: &str) -> (r: Option<usize>)
        ensures
            (r matches Some(i) ==> i < self.entries@.len() && self.entries@[i as int].name@
                == name@),
            (r is None ==> !has_name(self.entries@, name@)),
    {
        let n = self.entries.len();
        let mut i: usize = 0;
        while i < n
            invariant
                i <= n == self.entries@.len(),
                forall|j: int| 0 <= j < i ==> self.entries@[j].name@ != name@,
            decreases n - i,
        {
            if str_eq(self.entries[i].name.as_str(), name) {
                return Some(i);
            }
            i = i + 1;
        }
        None
    }

    /// Whether a handle of this name is pooled.
    pub fn contains(&self, name: &str) -> (r: bool)
        ensures
            r == has_name(self.entries@, name@),
    {
        match self.find(name) {
            Some(_) => true,
            None => false,
        }
    }

    /// Fetches the handle of this name, marking it as used at `now`.
    pub fn get(&mut self, name: &str, now: i64) -> (r: Option<&T>)
        requires
            old(self).wf(),
        ensures
            final(self).wf(),
            !has_name(old(self).entries@, name@) ==> r is None && *final(self) == *old(self),
            has_name(old(self).entries@, name@) ==> (r matches Some(t) && exists|i: int|
                {
                    &&& 0 <= i < old(self).entries@.len()
                    &&& old(self).entries@[i].name@ == name@
                    &&& *t == old(self).entries@[i].item
                    &&& final(self).entries@ == old(self).entries@.update(
                        i,
                        PoolEntry {
                            last_access: now,
                            ..old(self).entries@[i]
                        },
                    )
                }),
    {
        match self.find(name) {
            Some(i) => {
                let ghost entries0 = self.entries@;
                let e = &mut self.entries[i];
                e.last_access = now;
                proof {
                    let ghost i_int = i as int;
                    assert(self.entries@ =~= entries0.update(
                        i_int,
                        PoolEntry { last_access: now, ..entries0[i_int] },
                    ));
                    assert(forall|p: int, q: int|
                        0 <= p < q < self.entries@.len() ==> self.entries@[p].name@
                            != self.entries@[q].name@);
                }
                Some(&self.entries[i].item)
            },
            None => None,
        }
    }

    /// Inserts the handle under `name`, stamped as used at `now`; a handle of
    /// the same name is replaced.
    pub fn put(&mut self, name: &str, item: T, now: i64)
        requires
            old(self).wf(),
        ensures
            final(self).wf(),
            has_name(old(self).entries@, name@) ==> exists|i: int|
                {
                    &&& 0 <= i < old(self).entries@.len()
                    &&& old(self).entries@[i].name@ == name@
                    &&& final(self).entries@ =~= old(self).entries@.update(
                        i,
                        PoolEntry { name: old(self).entries@[i].name, last_access: now, item },
                    )
                },
            !has_name(old(self).entries@, name@) ==> {
                &&& final(self).entries@.len() == old(self).entries@.len() + 1
                &&& final(self).entries@.take(old(self).entries@.len() as int) == old(
                    self).entries@
                &&& final(self).entries@.last().name@ == name@
                &&& final(self).entries@.last().last_access == now
                &&& final(self).entries@.last().item == item
            },
    {
        match self.find(name) {
            Some(i) => {
                let ghost entries0 = self.entries@;
                let e = &mut self.entries[i];
                e.last_access = now;
                e.item = item;
                proof {
                    let ghost i_int = i as int;
                    assert(self.entries@ =~= entries0.update(
                        i_int,
                        PoolEntry { name: entries0[i_int].name, last_access: now, item },
                    ));
                    assert(forall|p: int, q: int|
                        0 <= p < q < self.entries@.len() ==> self.entries@[p].name@
                            != self.entries@[q].name@);
                }
            },
            None => {
                let entry = PoolEntry { name: name.to_owned(), last_access: now, item };
                self.entries.push(entry);
                proof {
                    assert(self.entries@.take(old(self).entries@.len() as int) =~= old(
                        self).entries@);
                    assert(forall|p: int, q: int|
                        0 <= p < q < self.entries@.len() ==> self.entries@[p].name@
                            != self.entries@[q].name@);
                }
            },
        }
    }

    /// Removes and returns the handle of this name.
    pub fn remove(&mut self, name: &str) -> (r: Option<T>)
        requires
            old(self).wf(),
        ensures
            final(self).wf(),
            !has_name(final(self).entries@, name@),
            !has_name(old(self).entries@, name@) ==> r is None && *final(self) == *old(self),
            has_name(old(self).entries@, name@) ==> (r matches Some(t) && exists|i: int|
                {
                    &&& 0 <= i < old(self).entries@.len()
                    &&& old(self).entries@[i].name@ == name@
                    &&& t == old(self).entries@[i].item
                    &&& final(self).entries@ == old(self).entries@.remove(i)
                }),
    {
        match self.find(name) {
            Some(i) => {
                let ghost entries0 = self.entries@;
                let e = self.entries.remove(i);
                proof {
                    let ghost i_int = i as int;
                    assert(self.entries@ =~= entries0.remove(i_int));
                    assert(forall|p: int, q: int|
                        0 <= p < q < self.entries@.len() ==> self.entries@[p].name@
                            != self.entries@[q].name@) by {
                        assert(forall|p: int| 0 <= p < self.entries@.len() ==> #[trigger] self
                            .entries@[p] == (if p < i_int {
                            entries0[p]
                        } else {
                            entries0[p + 1]
                        }));
                    }
                    assert(!has_name(self.entries@, name@)) by {
                        assert(forall|p: int| 0 <= p < self.entries@.len() ==> #[trigger] self
                            .entries@[p] == (if p < i_int {
                            entries0[p]
                        } else {
                            entries0[p + 1]
                        }));
                    }
                }
                Some(e.item)
            },
            None => None,
        }
    }


    /// The tri-criterion eviction pass at time `now`.
    ///
    /// Entries younger than `min_live_time` are protected from any eviction;
    /// of the eligible rest, those idle beyond `max_idle_time` are evicted;
    /// if `max_cache` is set and more eligible entries remain, the oldest
    /// ones beyond the cap are evicted, so that exactly the cap's worth of
    /// eligible entries — or all of them, if fewer — stay pooled.
    #[verifier::rlimit(100)]
    #[verifier::spinoff_prover]
    pub fn cleanup<C: CacheConfig>(&mut self, config: &C, now: i64)
        requires
            old(self).wf(),
        ensures
            final(self).wf(),
            cleanup_effect(old(self).entries@, final(self).entries@, config.spec_max_cache(),
                config.spec_min_live_time(), config.spec_max_idle_time(), now),
    {
        let min_live = config.min_live_time();
        let max_idle = config.max_idle_time();
        let max_cache = config.max_cache();
        let ghost pred = survivor_pred::<T>(now, min_live, max_idle);
        let ghost all = old(self).entries@;
        let mut kept: Vec<PoolEntry<T>> = Vec::new();
        let mut working: Vec<PoolEntry<T>> = Vec::new();
        proof {
            assert(all.skip(all.len() as int) =~= Seq::<PoolEntry<T>>::empty());
            assert(count_matching(all.skip(all.len() as int), pred) == 0);
        }
        while self.entries.len() > 0
            invariant
                pred == survivor_pred::<T>(now, min_live, max_idle),
                self.entries@.len() <= all.len(),
                self.entries@ == all.take(self.entries@.len() as int),
                distinct_names(all),
                distinct_names(kept@ + working@),
                forall|q: int| 0 <= q < kept@.len() ==> in_seq(
                    all.skip(self.entries@.len() as int), #[trigger] kept@[q]),
                forall|q: int| 0 <= q < kept@.len() ==> !eligible(
                    #[trigger] kept@[q].last_access, now, min_live),
                forall|q: int| 0 <= q < working@.len() ==> in_seq(
                    all.skip(self.entries@.len() as int), #[trigger] working@[q]),
                forall|q: int| 0 <= q < working@.len() ==> capped_survivor(
                    #[trigger] working@[q].last_access, now, min_live, max_idle),
                forall|i: int|
                    self.entries@.len() <= i < all.len() && !eligible(
                        #[trigger] all[i].last_access, now, min_live) ==> in_seq(kept@, all[i]),
                forall|i: int|
                    self.entries@.len() <= i < all.len() && capped_survivor(
                        #[trigger] all[i].last_access, now, min_live, max_idle) ==> in_seq(
                        working@, all[i]),
                working@.len() == count_matching(all.skip(self.entries@.len() as int), pred),
            decreases self.entries@.len(),
        {
            let ghost j = self.entries@.len() as int;
            let e = match self.entries.pop() {
                Some(e) => e,
                None => {
                    proof {
                        assert(false);
                    }
                    return ;
                },
            };
            proof {
                assert(self.entries@ =~= all.take(j - 1));
                assert(e == all[j - 1]);
                assert(all.skip(j - 1) =~= seq![all[j - 1]] + all.skip(j));
                lemma_count_matching_add(seq![all[j - 1]], all.skip(j), pred);
                assert(count_matching(seq![all[j - 1]], pred) == if pred(all[j - 1]) {
                    1int
                } else {
                    0int
                }) by {
                    assert(seq![all[j - 1]].drop_last() =~= Seq::<PoolEntry<T>>::empty());
                    assert(count_matching(Seq::<PoolEntry<T>>::empty(), pred) == 0);
                }
                assert(forall|q: int|
                    0 <= q < kept@.len() ==> in_seq(all.skip(j - 1), #[trigger] kept@[q]))
                    by {
                    assert(forall|q: int, t: int|
                        0 <= q < kept@.len() && 0 <= t < all.skip(j).len()
                            && #[trigger] all.skip(j)[t] == #[trigger] kept@[q] ==> all.skip(
                            j - 1)[t + 1] == kept@[q]);
                }
                assert(forall|q: int|
                    0 <= q < working@.len() ==> in_seq(all.skip(j - 1), #[trigger] working@[q]))
                    by {
                    assert(forall|q: int, t: int|
                        0 <= q < working@.len() && 0 <= t < all.skip(j).len()
                            && #[trigger] all.skip(j)[t] == #[trigger] working@[q] ==> all.skip(
                            j - 1)[t + 1] == working@[q]);
                }
            }
            let live = match min_live {
                Some(t) => t == 0 || (now as i128) - (e.last_access as i128) > t as i128,
                None => true,
            };
            proof {
                assert(live == eligible(e.last_access, now, min_live));
                assert(survivor_pred::<T>(now, min_live, max_idle)(all[j - 1])
                    == capped_survivor(all[j - 1].last_access, now, min_live, max_idle));
                assert(pred(all[j - 1]) == capped_survivor(all[j - 1].last_access, now,
                    min_live, max_idle));
            }
            if !live {
                proof {
                    let cat = kept@ + working@;
                    assert forall|q: int| 0 <= q < cat.len() implies cat[q].name@ != e.name@ by {
                        let w = cat[q];
                        assert(in_seq(all.skip(j), w));
                        let t = choose|t: int| 0 <= t < all.skip(j).len() && all.skip(j)[t] == w;
                        assert(all[j + t] == w);
                    }
                    assert(distinct_names(kept@.push(e) + working@)) by {
                        let before = kept@ + working@;
                        let after = kept@.push(e) + working@;
                        assert(forall|q: int| 0 <= q < after.len() ==> #[trigger] after[q] == (
                        if q < kept@.len() {
                            before[q]
                        } else if q == kept@.len() {
                            e
                        } else {
                            before[q - 1]
                        }));
                    }
                }
                let ghost kept_old = kept@;
                kept.push(e);
                proof {
                    assert(forall|t: int| 0 <= t < kept_old.len() ==> #[trigger] kept@[t]
                        == kept_old[t]);
                    assert(kept@[kept_old.len() as int] == e);
                    assert(all.skip(j - 1)[0] == e);
                    assert forall|q: int| 0 <= q < kept@.len() implies in_seq(all.skip(j - 1),
                        #[trigger] kept@[q]) by {
                        if q < kept_old.len() {
                            assert(in_seq(all.skip(j - 1), kept_old[q]));
                        } else {
                            assert(in_seq(all.skip(j - 1), e));
                        }
                    }
                    assert forall|i: int|
                        j - 1 <= i < all.len() && !eligible(#[trigger] all[i].last_access, now,
                            min_live) implies in_seq(kept@, all[i]) by {
                        if i == j - 1 {
                            assert(kept@[kept_old.len() as int] == all[i]);
                        } else {
                            let t = choose|t: int|
                                0 <= t < kept_old.len() && kept_old[t] == all[i];
                            assert(kept@[t] == all[i]);
                        }
                    }
                }
                continue ;
            }
            let idles = match max_idle {
                Some(t) => t > 0 && (now as i128) - (e.last_access as i128) > t as i128,
                None => false,
            };
            proof {
                assert(idles == idle_out(e.last_access, now, max_idle));
            }
            if idles {
                continue ;
            }
            proof {
                let cat = kept@ + working@;
                assert forall|q: int| 0 <= q < cat.len() implies cat[q].name@ != e.name@ by {
                    let w = cat[q];
                    assert(in_seq(all.skip(j), w));
                    let t = choose|t: int| 0 <= t < all.skip(j).len() && all.skip(j)[t] == w;
                    assert(all[j + t] == w);
                }
                assert(distinct_names(kept@ + working@.push(e))) by {
                    let before = kept@ + working@;
                    let after = kept@ + working@.push(e);
                    assert(forall|q: int| 0 <= q < after.len() ==> #[trigger] after[q] == (if q
                        < before.len() {
                        before[q]
                    } else {
                        e
                    }));
                }
            }
            let ghost working_old = working@;
            working.push(e);
            proof {
                assert(forall|t: int| 0 <= t < working_old.len() ==> #[trigger] working@[t]
                    == working_old[t]);
                assert(working@[working_old.len() as int] == e);
                assert(all.skip(j - 1)[0] == e);
                assert forall|q: int| 0 <= q < working@.len() implies in_seq(all.skip(j - 1),
                    #[trigger] working@[q]) by {
                    if q < working_old.len() {
                        assert(in_seq(all.skip(j - 1), working_old[q]));
                    } else {
                        assert(in_seq(all.skip(j - 1), e));
                    }
                }
                assert forall|i: int|
                    j - 1 <= i < all.len() && capped_survivor(#[trigger] all[i].last_access,
                        now, min_live, max_idle) implies in_seq(working@, all[i]) by {
                    if i == j - 1 {
                        assert(working@[working_old.len() as int] == all[i]);
                    } else {
                        let t = choose|t: int|
                            0 <= t < working_old.len() && working_old[t] == all[i];
                        assert(working@[t] == all[i]);
                    }
                }
            }
        }
        let ghost working1 = working@;
        proof {
            assert(self.entries@.len() == 0);
            assert(all.skip(0) =~= all);
            assert(all.take(0) =~= Seq::<PoolEntry<T>>::empty());
            assert(forall|i: int|
                0 <= i < all.len() && !eligible(#[trigger] all[i].last_access, now, min_live)
                    ==> in_seq(kept@, all[i]));
            assert(forall|i: int|
                0 <= i < all.len() && capped_survivor(#[trigger] all[i].last_access, now,
                    min_live, max_idle) ==> in_seq(working1, all[i]));
            assert(working1.len() == count_matching(all, pred));
        }
        proof {
            assert(distinct_names(working@)) by {
                let cat = kept@ + working@;
                assert(forall|p: int, q: int|
                    0 <= p < q < working@.len() ==> #[trigger] working@[p].name@
                        != #[trigger] working@[q].name@ || cat[kept@.len() + p].name@ == cat[
                        kept@.len() + q].name@);
            }
        }
        if let Some(m) = max_cache {
            evict_oldest(&mut working, m);
        }
        proof {
            assert(forall|q: int| 0 <= q < working@.len() ==> in_seq(working1,
                #[trigger] working@[q]));
            assert(forall|q: int| 0 <= q < working@.len() ==> capped_survivor(
                #[trigger] working@[q].last_access, now, min_live, max_idle)) by {
                assert(forall|q: int|
                    0 <= q < working@.len() && in_seq(working1, #[trigger] working@[q]) ==> exists|
                        t: int| 0 <= t < working1.len() && working1[t] == working@[q]);
            }
            assert(distinct_names(kept@ + working@)) by {
                let after = kept@ + working@;
                assert forall|p: int, q: int|
                    0 <= p < q < after.len() implies after[p].name@ != after[q].name@ by {
                    if q >= kept@.len() {
                        let wq = working@[q - kept@.len()];
                        let tq = choose|t: int|
                            0 <= t < working1.len() && working1[t] == wq;
                        if p >= kept@.len() {
                            let wp = working@[p - kept@.len()];
                            let tp = choose|t: int|
                                0 <= t < working1.len() && working1[t] == wp;
                            assert((kept@ + working1)[kept@.len() + tp].name@ != (kept@
                                + working1)[kept@.len() + tq].name@ || tp == tq);
                            if tp == tq {
                                assert(distinct_names(working@));
                            }
                        } else {
                            assert((kept@ + working1)[p].name@ != (kept@ + working1)[kept@.len()
                                + tq].name@);
                        }
                    } else {
                        assert((kept@ + working1)[p].name@ != (kept@ + working1)[q].name@);
                    }
                }
            }
        }
        let ghost kept2 = kept@;
        let ghost working2 = working@;
        let mut result = kept;
        result.append(&mut working);
        self.entries = result;
        proof {
            let fin = self.entries@;
            assert(fin =~= kept2 + working2);
            lemma_count_matching_add(kept2, working2, pred);
            lemma_count_matching_none(kept2, pred);
            lemma_count_matching_all(working2, pred);
            assert(count_matching(fin, pred) == working2.len());
            assert forall|q: int| 0 <= q < fin.len() implies in_seq(all, #[trigger] fin[q]) by {
                if q < kept2.len() {
                    assert(in_seq(all, kept2[q]));
                } else {
                    let w = working2[q - kept2.len()];
                    let t = choose|t: int| 0 <= t < working1.len() && working1[t] == w;
                    assert(in_seq(all, working1[t]));
                }
            }
            assert forall|p: int|
                0 <= p < all.len() && !eligible(#[trigger] all[p].last_access, now, min_live)
                implies in_seq(fin, all[p]) by {
                let t = choose|t: int| 0 <= t < kept2.len() && kept2[t] == all[p];
                assert(fin[t] == all[p]);
            }
            assert forall|p: int|
                0 <= p < all.len() && eligible(#[trigger] all[p].last_access, now, min_live)
                    && idle_out(all[p].last_access, now, max_idle) implies !in_seq(fin, all[p])
                by {
                if in_seq(fin, all[p]) {
                    let t = choose|t: int| 0 <= t < fin.len() && fin[t] == all[p];
                    if t < kept2.len() {
                        assert(!eligible(kept2[t].last_access, now, min_live));
                    } else {
                        assert(capped_survivor(working2[t - kept2.len()].last_access, now,
                            min_live, max_idle));
                    }
                }
            }
            if max_cache is None {
                assert forall|p: int|
                    0 <= p < all.len() && capped_survivor(#[trigger] all[p].last_access, now,
                        min_live, max_idle) implies in_seq(fin, all[p]) by {
                    let t = choose|t: int| 0 <= t < working1.len() && working1[t] == all[p];
                    assert(fin[kept2.len() + t] == all[p]);
                }
            }
            assert forall|p: int, q: int|
                0 <= p < all.len() && 0 <= q < all.len() && capped_survivor(
                    #[trigger] all[p].last_access, now, min_live, max_idle) && capped_survivor(
                    #[trigger] all[q].last_access, now, min_live, max_idle) && !in_seq(fin,
                    all[p]) && in_seq(fin, all[q]) implies all[p].last_access
                <= all[q].last_access by {
                assert(in_seq(working1, all[p]));
                let tp = choose|t: int| 0 <= t < working1.len() && working1[t] == all[p];
                assert(!in_seq(working2, all[p])) by {
                    if in_seq(working2, all[p]) {
                        let u = choose|u: int|
                            0 <= u < working2.len() && working2[u] == all[p];
                        assert(fin[kept2.len() + u] == all[p]);
                    }
                }
                let tq = choose|t: int| 0 <= t < fin.len() && fin[t] == all[q];
                if tq < kept2.len() {
                    assert(!eligible(kept2[tq].last_access, now, min_live));
                } else {
                    let wq = working2[tq - kept2.len()];
                    assert(wq == all[q]);
                    assert(in_seq(working2, all[q]));
                    let uq = choose|u: int| 0 <= u < working2.len() && working2[u] == all[q];
                    assert(working1[tp].last_access <= working2[uq].last_access);
                }
            }
            assert(distinct_names(fin)) by {
                assert(forall|p: int, q: int|
                    0 <= p < q < fin.len() ==> #[trigger] fin[p].name@ != #[trigger] fin[
                        q].name@ || (kept2 + working2)[p].name@ == (kept2 + working2)[q].name@);
            }
        }
    }


    /// The pooled handle of this name, if any.
    pub open spec fn spec_item(&self, n: Seq<char>) -> Option<PoolEntry<T>> {
        if has_name(self.entries@, n) {
            let i = choose|i: int| 0 <= i < self.entries@.len() && self.entries@[i].name@ == n;
            Some(self.entries@[i])
        } else {
            None
        }
    }


    /// Reads the handle of this name without marking it as used.
    pub fn peek(&self, name: &str) -> (r: Option<&T>)
        requires
            self.wf(),
        ensures
            r is Some <==> has_name(self.entries@, name@),
            (r matches Some(t) ==> self.spec_item(name@) matches Some(e) && *t == e.item),
    {
        match self.find(name) {
            Some(i) => {
                proof {
                    lemma_pool_item(self, name@, i as int);
                }
                Some(&self.entries[i].item)
            },
            None => None,
        }
    }

    /// Fetches the handle of this name for writing, marking it as used at
    /// `now`.
    pub fn get_mut(&mut self, name: &str, now: i64) -> (r: Option<&mut T>)
        requires
            old(self).wf(),
        ensures
            final(self).wf(),
            !has_name(old(self).entries@, name@) ==> r is None && *final(self) == *old(self),
            has_name(old(self).entries@, name@) ==> (r matches Some(t) && exists|i: int|
                {
                    &&& 0 <= i < old(self).entries@.len()
                    &&& old(self).entries@[i].name@ == name@
                    &&& *t == old(self).entries@[i].item
                    &&& final(self).entries@ == old(self).entries@.update(
                        i,
                        PoolEntry {
                            name: old(self).entries@[i].name,
                            last_access: now,
                            item: *final(t),
                        },
                    )
                }),
    {
        match self.find(name) {
            Some(i) => {
                let ghost entries0 = self.entries@;
                let e = &mut self.entries[i];
                e.last_access = now;
                proof {
                    let ghost i_int = i as int;
                    assert(forall|p: int, q: int|
                        0 <= p < q < entries0.len() ==> entries0.update(
                            i_int,
                            PoolEntry {
                                name: entries0[i_int].name,
                                last_access: now,
                                item: entries0[i_int].item,
                            },
                        )[p].name@ != entries0.update(
                            i_int,
                            PoolEntry {
                                name: entries0[i_int].name,
                                last_access: now,
                                item: entries0[i_int].item,
                            },
                        )[q].name@);
                }
                Some(&mut self.entries[i].item)
            },
            None => None,
        }
    }

    /// A snapshot of the pooled handles.
    pub fn collect(&self) -> (r: Vec<&T>)
        ensures
            r@.len() == self.entries@.len(),
            forall|i: int| 0 <= i < r@.len() ==> r@[i] == &self.entries@[i].item,
    {
        let n = self.entries.len();
        let mut out: Vec<&T> = Vec::new();
        let mut i: usize = 0;
        while i < n
            invariant
                i <= n == self.entries@.len(),
                out@.len() == i,
                forall|j: int| 0 <= j < i ==> out@[j] == &self.entries@[j].item,
            decreases n - i,
        {
            out.push(&self.entries[i].item);
            i = i + 1;
        }
        out
    }
}

/// With distinct names, the entry found at `i` is the pool's entry for its
/// name.
pub proof fn lemma_pool_item<T>(pool: &CachePool<T>, n: Seq<char>, i: int)
    requires
        pool.wf(),
        0 <= i < pool.entries@.len(),
        pool.entries@[i].name@ == n,
    ensures
        pool.spec_item(n) == Some(pool.entries@[i]),
{
    assert(has_name(pool.entries@, n));
    let j = choose|j: int| 0 <= j < pool.entries@.len() && pool.entries@[j].name@ == n;
    if i < j {
        assert(pool.entries@[i].name@ != pool.entries@[j].name@);
    } else if j < i {
        assert(pool.entries@[j].name@ != pool.entries@[i].name@);
    }
}

/// Removing one entry leaves every other name's entry alone.
pub proof fn lemma_pool_remove_frame<T>(pre: &CachePool<T>, post: &CachePool<T>, n: Seq<char>,
    i: int, n2: Seq<char>)
    requires
        pre.wf(),
        0 <= i < pre.entries@.len(),
        pre.entries@[i].name@ == n,
        post.entries@ == pre.entries@.remove(i),
        n2 != n,
    ensures
        post.spec_item(n2) == pre.spec_item(n2),
        has_name(post.entries@, n2) == has_name(pre.entries@, n2),
{
    assert(forall|q: int| 0 <= q < post.entries@.len() ==> #[trigger] post.entries@[q] == (if q
        < i {
        pre.entries@[q]
    } else {
        pre.entries@[q + 1]
    }));
    if has_name(pre.entries@, n2) {
        let j = choose|j: int| 0 <= j < pre.entries@.len() && pre.entries@[j].name@ == n2;
        assert(j != i);
        let j2: int = if j < i {
            j
        } else {
            j - 1
        };
        assert(post.entries@[j2].name@ == n2);
        assert(has_name(post.entries@, n2));
        lemma_pool_item(pre, n2, j);
        assert(post.wf()) by {
            assert(forall|p: int, q: int|
                0 <= p < q < post.entries@.len() ==> post.entries@[p].name@ != post.entries@[
                    q].name@);
        }
        lemma_pool_item(post, n2, j2);
    } else {
        if has_name(post.entries@, n2) {
            let j = choose|j: int| 0 <= j < post.entries@.len() && post.entries@[j].name@ == n2;
            let j2: int = if j < i {
                j
            } else {
                j + 1
            };
            assert(pre.entries@[j2].name@ == n2);
        }
    }
}

/// Inserting or refreshing one entry leaves every other name's entry alone.
pub proof fn lemma_pool_put_frame<T>(pre: &CachePool<T>, post: &CachePool<T>, n: Seq<char>,
    n2: Seq<char>)
    requires
        pre.wf(),
        post.wf(),
        n2 != n,
        (has_name(pre.entries@, n) ==> exists|i: int|
            {
                &&& 0 <= i < pre.entries@.len()
                &&& pre.entries@[i].name@ == n
                &&& post.entries@[i].name@ == n
                &&& #[trigger] post.entries@ =~= pre.entries@.update(i, post.entries@[i])
            }),
        (!has_name(pre.entries@, n) ==> {
            &&& post.entries@.len() == pre.entries@.len() + 1
            &&& post.entries@.take(pre.entries@.len() as int) == pre.entries@
            &&& post.entries@.last().name@ == n
        }),
    ensures
        post.spec_item(n2) == pre.spec_item(n2),
        has_name(post.entries@, n2) == has_name(pre.entries@, n2),
{
    if has_name(pre.entries@, n) {
        let i = choose|i: int|
            {
                &&& 0 <= i < pre.entries@.len()
                &&& pre.entries@[i].name@ == n
                &&& post.entries@[i].name@ == n
                &&& #[trigger] post.entries@ =~= pre.entries@.update(i, post.entries@[i])
            };
        if has_name(pre.entries@, n2) {
            let j = choose|j: int| 0 <= j < pre.entries@.len() && pre.entries@[j].name@ == n2;
            assert(j != i);
            assert(post.entries@[j] == pre.entries@[j]);
            lemma_pool_item(pre, n2, j);
            lemma_pool_item(post, n2, j);
        } else {
            if has_name(post.entries@, n2) {
                let j = choose|j: int|
                    0 <= j < post.entries@.len() && post.entries@[j].name@ == n2;
                assert(j != i);
                assert(pre.entries@[j].name@ == n2);
            }
        }
    } else {
        if has_name(pre.entries@, n2) {
            let j = choose|j: int| 0 <= j < pre.entries@.len() && pre.entries@[j].name@ == n2;
            assert(post.entries@[j] == post.entries@.take(pre.entries@.len() as int)[j]);
            assert(post.entries@[j] == pre.entries@[j]);
            lemma_pool_item(pre, n2, j);
            lemma_pool_item(post, n2, j);
        } else {
            if has_name(post.entries@, n2) {
                let j = choose|j: int|
                    0 <= j < post.entries@.len() && post.entries@[j].name@ == n2;
                if j < pre.entries@.len() {
                    assert(post.entries@[j] == post.entries@.take(
                        pre.entries@.len() as int)[j]);
                    assert(pre.entries@[j].name@ == n2);
                } else {
                    assert(post.entries@[j] == post.entries@.last());
                }
            }
        }
    }
}

} // verus!
