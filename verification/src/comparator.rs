//! Comparators for primary and index keys.
//!
//! A primary store sorts keys by the plain byte order.  An index store strips
//! the ordinal suffix from each key, compares the prefixes, and on a tie
//! compares the decoded ordinals in reverse, so higher ordinals within a
//! duplicate group come first.

use vstd::prelude::*;
use core::cmp::Ordering;
use crate::entry::BufferEntry;
use crate::entry::lex_cmp;
use crate::entry::compare;
use crate::error::Error;
use crate::suffix::spec_suffix_size;
use crate::suffix::spec_suffix_val;
use crate::suffix::suffix_valid;
use crate::suffix::unwrap_suffix;

verus! {

/// A pluggable ordering on keys.  The core's stores document their ordering
/// through this contract; users may supply their own comparator to an engine.
pub trait KeyComparator {
    /// The ordering this comparator decides.
    spec fn cmp_spec(&self, a: Seq<u8>, b: Seq<u8>) -> Ordering;

    /// On which inputs the comparison succeeds.
    spec fn cmp_ok(&self, a: Seq<u8>, b: Seq<u8>) -> bool;

    /// Compares two keys.
    fn compare(&self, key1: &BufferEntry, key2: &BufferEntry) -> (r: Result<Ordering, Error>)
        requires
            key1.wf(),
            key2.wf(),
        ensures
            r is Ok <==> self.cmp_ok(key1@, key2@),
            (r matches Ok(o) ==> o == self.cmp_spec(key1@, key2@)),
    ;
}

/// The index-key ordering: prefixes in byte order; within a duplicate group,
/// higher ordinals first.  Ordinal zero is never allocated to a record: it is
/// the seek sentinel, sorting at the head of its group so that seeking to
/// `prefix + 0` lands on the group's highest ordinal.
pub open spec fn idx_cmp(a: Seq<u8>, b: Seq<u8>) -> Ordering {
    let pa = a.take(a.len() - spec_suffix_size(a));
    let pb = b.take(b.len() - spec_suffix_size(b));
    let c = lex_cmp(pa, pb);
    if c == Ordering::Equal {
        let va = spec_suffix_val(a);
        let vb = spec_suffix_val(b);
        if va == vb {
            Ordering::Equal
        } else if va == 0 {
            Ordering::Less
        } else if vb == 0 {
            Ordering::Greater
        } else if va > vb {
            Ordering::Less
        } else {
            Ordering::Greater
        }
    } else {
        c
    }
}

/// The primary-key comparator: plain byte order.
#[derive(Debug, Clone, Copy)]
pub struct PKComparator;

impl KeyComparator for PKComparator {
    open spec fn cmp_spec(&self, a: Seq<u8>, b: Seq<u8>) -> Ordering {
        lex_cmp(a, b)
    }

    open spec fn cmp_ok(&self, a: Seq<u8>, b: Seq<u8>) -> bool {
        true
    }

    fn compare(&self, key1: &BufferEntry, key2: &BufferEntry) -> (r: Result<Ordering, Error>) {
        Ok(compare(key1, key2))
    }
}

/// The index-key comparator: suffix-aware ordering over suffixed keys.
#[derive(Debug, Clone, Copy)]
pub struct IDXComparator;

impl KeyComparator for IDXComparator {
    open spec fn cmp_spec(&self, a: Seq<u8>, b: Seq<u8>) -> Ordering {
        idx_cmp(a, b)
    }

    open spec fn cmp_ok(&self, a: Seq<u8>, b: Seq<u8>) -> bool {
        suffix_valid(a) && suffix_valid(b)
    }

    fn compare(&self, key1: &BufferEntry, key2: &BufferEntry) -> (r: Result<Ordering, Error>) {
        if !crate::suffix::check_suffix(key1) || !crate::suffix::check_suffix(key2) {
            return Err(Error { inner: crate::error::ErrorKind::OutOfBounds });
        }
        let (p1, v1) = match unwrap_suffix(key1) {
            Ok(x) => x,
            Err(e) => {
                return Err(e);
            },
        };
        let (p2, v2) = match unwrap_suffix(key2) {
            Ok(x) => x,
            Err(e) => {
                return Err(e);
            },
        };
        let c = crate::entry::compare_bytes(p1.slice(), p2.slice());
        let r = match c {
            Ordering::Equal => {
                if v1 == v2 {
                    Ordering::Equal
                } else if v1 == 0 {
                    Ordering::Less
                } else if v2 == 0 {
                    Ordering::Greater
                } else if v1 > v2 {
                    Ordering::Less
                } else {
                    Ordering::Greater
                }
            },
            _ => c,
        };
        Ok(r)
    }
}

} // verus!
