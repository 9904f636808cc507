//! The reversible length-prefixed ordinal suffix of non-unique index keys.
//!
//! An ordinal `v <= 247` is one byte holding `v`.  A larger ordinal stores
//! `w = v - 247` as its non-zero little-endian bytes followed by a tag byte
//! `247 + n`, where `n` is the number of payload bytes: at most five bytes in
//! all for a `u32`.  The suffix is read from the tail of a key, so the key's
//! prefix keeps its byte-level sort order.

use vstd::prelude::*;
use crate::entry::BufferEntry;
use crate::entry::SliceEntry;
use crate::error::Error;
use crate::io::BufferOutput;
use crate::packed_int::le_min;
use crate::packed_int::le_val;
use crate::packed_int::pow256;
use crate::packed_int::lemma_le_min_val;
use crate::packed_int::lemma_le_min_len_at_most;
use crate::packed_int::lemma_le_min_len_at_least;
use crate::packed_int::lemma_le_val_skip_le;
use crate::packed_int::lemma_pow256_values;

verus! {

/// The tag threshold: the largest ordinal held in a single byte.
pub const SIGN_VALUE: u8 = 247;

/// The suffix encoding of an ordinal.
pub open spec fn suffix_enc(v: u32) -> Seq<u8> {
    if v <= 247 {
        seq![v as u8]
    } else {
        let payload = le_min((v - 247) as nat);
        payload + seq![(247 + payload.len()) as u8]
    }
}

/// How many tail bytes the suffix of `s` occupies, read from its last byte.
pub open spec fn spec_suffix_size(s: Seq<u8>) -> int {
    if s.len() == 0 {
        0
    } else if s.last() <= 247 {
        1
    } else {
        s.last() - 247 + 1
    }
}

/// The ordinal the tail of `s` decodes to.
pub open spec fn spec_suffix_val(s: Seq<u8>) -> int {
    let tag = s.last();
    if tag <= 247 {
        tag as int
    } else {
        let n = tag - 247;
        le_val(s.subrange(s.len() - 1 - n, s.len() - 1)) + 247 as int
    }
}

/// The tail of `s` is a decodable `u32` suffix.
pub open spec fn suffix_valid(s: Seq<u8>) -> bool {
    &&& s.len() >= 1
    &&& spec_suffix_size(s) <= s.len()
    &&& spec_suffix_val(s) <= u32::MAX
}

/// Appending an encoded suffix to any prefix yields a key whose suffix
/// decodes back to the ordinal and strips off to the prefix.
pub proof fn lemma_suffix_round_trip(prefix: Seq<u8>, v: u32)
    ensures
        ({
            let s = prefix + suffix_enc(v);
            &&& suffix_valid(s)
            &&& spec_suffix_size(s) == suffix_enc(v).len()
            &&& 1 <= suffix_enc(v).len() <= 5
            &&& spec_suffix_val(s) == v
            &&& s.take(s.len() - spec_suffix_size(s)) == prefix
        }),
{
    lemma_pow256_values();
    let s = prefix + suffix_enc(v);
    if v <= 247 {
        assert(s.last() == v as u8);
        assert(s.take(s.len() - 1) =~= prefix);
    } else {
        let w = (v - 247) as nat;
        let payload = le_min(w);
        lemma_le_min_val(w);
        lemma_le_min_len_at_most(w, 4);
        lemma_le_min_len_at_least(w, 0);
        let n = payload.len() as int;
        assert(s.last() == (247 + n) as u8);
        assert(spec_suffix_size(s) == n + 1);
        assert(s.subrange(s.len() - 1 - n, s.len() - 1) =~= payload);
        assert(s.take(s.len() - (n + 1)) =~= prefix);
    }
}

/// The tabled sizes of the suffix encoding.
pub proof fn lemma_suffix_len(v: u32)
    ensures
        v <= 247 ==> suffix_enc(v).len() == 1,
        247 < v <= 247 + 0xFF ==> suffix_enc(v).len() == 2,
        247 + 0xFF < v <= 247 + 0xFFFF ==> suffix_enc(v).len() == 3,
        247 + 0xFFFF < v <= 247 + 0xFF_FFFF ==> suffix_enc(v).len() == 4,
        247 + 0xFF_FFFF < v ==> suffix_enc(v).len() == 5,
{
    lemma_pow256_values();
    if v > 247 {
        let w = (v - 247) as nat;
        if w <= 0xFF {
            lemma_le_min_len_at_most(w, 1);
            lemma_le_min_len_at_least(w, 0);
        } else if w <= 0xFFFF {
            lemma_le_min_len_at_most(w, 2);
            lemma_le_min_len_at_least(w, 1);
        } else if w <= 0xFF_FFFF {
            lemma_le_min_len_at_most(w, 3);
            lemma_le_min_len_at_least(w, 2);
        } else {
            lemma_le_min_len_at_most(w, 4);
            lemma_le_min_len_at_least(w, 3);
        }
    }
}

/// Replacing the suffix that `append_suffix` wrote leaves the prefix alone:
/// the rewritten key is the prefix plus the new ordinal's encoding.
pub proof fn lemma_reset_round_trip(prefix: Seq<u8>, a: u32, b: u32)
    ensures
        ({
            let s1 = prefix + suffix_enc(a);
            let s2 = s1.take(s1.len() - spec_suffix_size(s1)) + suffix_enc(b);
            &&& s2 == prefix + suffix_enc(b)
            &&& spec_suffix_val(s2) == b
            &&& s2.take(s2.len() - spec_suffix_size(s2)) == prefix
        }),
{
    lemma_suffix_round_trip(prefix, a);
    lemma_suffix_round_trip(prefix, b);
}

/// Writes the suffix encoding of `value` at the writer's position.
fn write_suffix(output: &mut BufferOutput, value: u32) -> (r: Result<usize, Error>)
    requires
        old(output).wf(),
        old(output).pos + 5 <= usize::MAX,
    ensures
        final(output).wf(),
        final(output).off == old(output).off,
        (r matches Ok(n) && {
            &&& n == suffix_enc(value).len()
            &&& 1 <= n <= 5
            &&& final(output).written() == old(output).written() + suffix_enc(value)
        }),
{
    proof {
        lemma_pow256_values();
    }
    if value <= 247 {
        output.write_u8(value as u8);
        proof {
            assert(output.written() =~= old(output).written() + suffix_enc(value));
        }
        Ok(1)
    } else {
        let mut val: u32 = value - 247;
        let ghost w0 = val as nat;
        let ghost written0 = output.written();
        proof {
            lemma_le_min_len_at_most(w0, 4);
            lemma_le_min_len_at_least(w0, 0);
            assert(le_min(w0).take(0) =~= Seq::<u8>::empty());
            assert(written0 + le_min(w0).take(0) =~= written0);
        }
        let mut len: usize = 0;
        while val > 0
            invariant
                output.wf(),
                output.off == old(output).off,
                output.pos == old(output).pos + len,
                old(output).pos + 5 <= usize::MAX,
                1 <= le_min(w0).len() <= 4,
                len + le_min(val as nat).len() == le_min(w0).len(),
                le_min(w0) == le_min(w0).take(len as int) + le_min(val as nat),
                output.written() == written0 + le_min(w0).take(len as int),
                written0 == old(output).written(),
            decreases val,
        {
            let b: u8 = (val % 256) as u8;
            proof {
                assert(le_min(val as nat).len() >= 1);
                assert(len < le_min(w0).len());
                assert(le_min(val as nat)[0] == b);
                assert(le_min(w0)[len as int] == b);
            }
            output.write_u8(b);
            proof {
                assert(le_min((val / 256) as nat) =~= le_min(val as nat).drop_first());
                assert(le_min(w0).take(len + 1) =~= le_min(w0).take(len as int) + seq![b]);
                assert(le_min(w0) =~= le_min(w0).take(len + 1) + le_min((val / 256) as nat));
                assert(output.written() =~= written0 + le_min(w0).take(len + 1));
            }
            val = val / 256;
            len = len + 1;
        }
        proof {
            assert(le_min(0nat) =~= Seq::<u8>::empty());
            assert(le_min(w0).take(len as int) =~= le_min(w0));
        }
        let t: u8 = (247 + len) as u8;
        output.write_u8(t);
        proof {
            assert(suffix_enc(value) =~= le_min(w0) + seq![t]);
            assert(output.written() =~= old(output).written() + suffix_enc(value));
        }
        Ok(len + 1)
    }
}

/// Appends the suffix encoding of `value` to the tail of the entry.
pub fn append_suffix(entry: BufferEntry, value: u32) -> (r: Result<BufferEntry, Error>)
    requires
        entry.wf(),
        entry.len + 5 <= usize::MAX,
    ensures
        (r matches Ok(ok) && {
            &&& ok.wf()
            &&& ok.off == entry.off
            &&& ok@ == entry@ + suffix_enc(value)
        }),
{
    let off = entry.off();
    let pos = entry.len();
    let ghost view0 = entry@;
    let mut output = BufferOutput::new_from_vec(entry.into_vec(), off, pos);
    proof {
        assert(output.written() =~= view0);
    }
    match write_suffix(&mut output, value) {
        Ok(_) => Ok(output.into_entry()),
        Err(e) => Err(e),
    }
}

/// How many tail bytes the entry's suffix occupies; zero for an empty entry.
pub fn size_of_suffix(entry: &BufferEntry) -> (r: usize)
    requires
        entry.wf(),
    ensures
        r == spec_suffix_size(entry@),
{
    if entry.is_empty() {
        0
    } else {
        let sl = entry.slice();
        let n: u8 = *vstd::slice::slice_index_get(sl, entry.size() - 1);
        proof {
            assert(entry@.last() == n);
        }
        if n <= 247 {
            1
        } else {
            (n - 247 + 1) as usize
        }
    }
}

/// Replaces the suffix at the tail of the entry with the encoding of `value`.
pub fn reset_suffix(entry: BufferEntry, value: u32) -> (r: Result<BufferEntry, Error>)
    requires
        entry.wf(),
        spec_suffix_size(entry@) <= entry@.len(),
        entry.len - spec_suffix_size(entry@) + 5 <= usize::MAX,
    ensures
        (r matches Ok(ok) && {
            &&& ok.wf()
            &&& ok@ == entry@.take(entry@.len() - spec_suffix_size(entry@)) + suffix_enc(value)
        }),
{
    let n = size_of_suffix(&entry);
    let off = entry.off();
    let pos = entry.len() - n;
    let ghost view0 = entry@;
    let mut output = BufferOutput::new_from_vec(entry.into_vec(), off, pos);
    proof {
        assert(output.written() =~= view0.take(view0.len() - spec_suffix_size(view0)));
    }
    match write_suffix(&mut output, value) {
        Ok(_) => Ok(output.into_entry()),
        Err(e) => Err(e),
    }
}


/// Whether the tail of the entry is a decodable `u32` suffix.
pub fn check_suffix(entry: &BufferEntry) -> (r: bool)
    requires
        entry.wf(),
    ensures
        r == suffix_valid(entry@),
{
    proof {
        lemma_pow256_values();
    }
    if entry.is_empty() {
        return false;
    }
    let size = entry.size();
    let sl = entry.slice();
    let tag: u8 = *vstd::slice::slice_index_get(sl, size - 1);
    proof {
        assert(entry@.last() == tag);
    }
    if tag <= 247 {
        return true;
    }
    let n: usize = (tag - 247) as usize;
    if n + 1 > size {
        return false;
    }
    let ghost payload = entry@.subrange(size - 1 - n, size - 1);
    proof {
        assert(payload.skip(n as int) =~= Seq::<u8>::empty());
    }
    let mut val: u64 = 0;
    let mut j: usize = 0;
    while j < n
        invariant
            j <= n <= 8,
            n + 1 <= size == entry@.len(),
            sl@ == entry@,
            entry.wf(),
            payload == entry@.subrange(size - 1 - n, size - 1),
            val == le_val(payload.skip((n - j) as int)),
            val < pow256(j as nat),
            pow256(8) == 0x1_0000_0000_0000_0000,
        decreases n - j,
    {
        let idx: usize = size - 2 - j;
        let b: u8 = *vstd::slice::slice_index_get(sl, idx);
        proof {
            let k = (n - j - 1) as int;
            assert(payload.skip(k).drop_first() =~= payload.skip(k + 1));
            assert(payload.skip(k)[0] == payload[k]);
            assert(payload[k] == entry@[idx as int]);
            assert(le_val(payload.skip(k)) == payload[k] + 256 * le_val(payload.skip(k + 1)));
            crate::packed_int::lemma_pow256_mono((j + 1) as nat, 8);
            assert(pow256((j + 1) as nat) == 256 * pow256(j as nat));
        }
        val = val * 256 + (b as u64);
        j = j + 1;
    }
    proof {
        assert(payload.skip(0) =~= payload);
    }
    val <= 0xFFFF_FFFFu64 - 247
}

/// Splits the entry into its key prefix and its decoded tail ordinal.  An
/// entry whose tail is not a decodable `u32` suffix — empty, shorter than
/// its tag claims, or beyond the `u32` range — is rejected.
pub fn unwrap_suffix<'a>(buf: &'a BufferEntry) -> (r: Result<(SliceEntry<'a>, u32), Error>)
    requires
        buf.wf(),
    ensures
        suffix_valid(buf@) ==> (r matches Ok(ok) && {
            &&& ok.0.wf()
            &&& ok.0@ == buf@.take(buf@.len() - spec_suffix_size(buf@))
            &&& ok.1 == spec_suffix_val(buf@)
        }),
        !suffix_valid(buf@) ==> (r matches Err(e) && e.inner is OutOfBounds),
{
    if !check_suffix(buf) {
        return Err(Error { inner: crate::error::ErrorKind::OutOfBounds });
    }
    let size = buf.size();
    let sl = buf.slice();
    let tag: u8 = *vstd::slice::slice_index_get(sl, size - 1);
    proof {
        assert(buf@.last() == tag);
    }
    if tag <= 247 {
        let slice = match buf.left(size - 1) {
            Ok(s) => s,
            Err(e) => {
                return Err(e);
            },
        };
        Ok((slice, tag as u32))
    } else {
        let n: usize = (tag - 247) as usize;
        let ghost payload = buf@.subrange(buf@.len() - 1 - n, buf@.len() - 1);
        proof {
            assert(payload.skip(n as int) =~= Seq::<u8>::empty());
        }
        let mut val: u64 = 0;
        let mut j: usize = 0;
        while j < n
            invariant
                j <= n,
                n + 1 <= size == buf@.len(),
                sl@ == buf@,
                buf.wf(),
                payload == buf@.subrange(size - 1 - n, size - 1),
                le_val(payload) + 247 <= u32::MAX,
                val == le_val(payload.skip((n - j) as int)),
            decreases n - j,
        {
            let idx: usize = size - 2 - j;
            let b: u8 = *vstd::slice::slice_index_get(sl, idx);
            proof {
                let k = (n - j - 1) as int;
                assert(payload.skip(k).drop_first() =~= payload.skip(k + 1));
                assert(payload.skip(k)[0] == payload[k]);
                assert(payload[k] == buf@[idx as int]);
                assert(le_val(payload.skip(k)) == payload[k] + 256 * le_val(payload.skip(k + 1)));
                lemma_le_val_skip_le(payload, k);
            }
            val = val * 256 + (b as u64);
            j = j + 1;
        }
        proof {
            assert(payload.skip(0) =~= payload);
        }
        let ord: u32 = (val as u32) + 247;
        let slice = match buf.left(size - (n + 1)) {
            Ok(s) => s,
            Err(e) => {
                return Err(e);
            },
        };
        Ok((slice, ord))
    }
}

} // verus!
