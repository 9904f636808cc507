//! Variable-length packed signed integers.
//!
//! A value `v` with `|v| <= 119` is stored as its single two's-complement
//! byte.  Otherwise the magnitude beyond the threshold, `m = |v| - 119`, is
//! stored as its little-endian bytes with leading zeros truncated, preceded by
//! a tag byte `119 + n` for positive values and `-119 - n` for negative ones,
//! where `n` is the number of payload bytes: 1 to 5 bytes in all for an `i32`,
//! 1 to 9 for an `i64`.

use vstd::prelude::*;
use crate::error::Error;

verus! {

/// `256^k`.
pub open spec fn pow256(k: nat) -> nat
    decreases k,
{
    if k == 0 {
        1
    } else {
        256 * pow256((k - 1) as nat)
    }
}

/// The little-endian bytes of `m` with leading zeros truncated: empty for 0.
pub open spec fn le_min(m: nat) -> Seq<u8>
    decreases m,
{
    if m == 0 {
        Seq::<u8>::empty()
    } else {
        seq![(m % 256) as u8] + le_min((m / 256) as nat)
    }
}

/// The value of a little-endian byte sequence.
pub open spec fn le_val(s: Seq<u8>) -> nat
    decreases s.len(),
{
    if s.len() == 0 {
        0
    } else {
        (s[0] + 256 * le_val(s.drop_first())) as nat
    }
}

/// The one-byte two's-complement image of a small signed value.
pub open spec fn small_byte(v: int) -> u8 {
    if v >= 0 {
        v as u8
    } else {
        (v + 256) as u8
    }
}

/// The packed encoding of a signed value.
pub open spec fn packed_enc(v: int) -> Seq<u8> {
    if -119 <= v <= 119 {
        seq![small_byte(v)]
    } else if v > 119 {
        let payload = le_min((v - 119) as nat);
        seq![(119 + payload.len()) as u8] + payload
    } else {
        let payload = le_min((-(v + 119)) as nat);
        seq![(137 - payload.len()) as u8] + payload
    }
}

/// How many payload bytes follow the tag byte.
pub open spec fn packed_payload_len(tag: u8) -> int {
    if tag <= 119 {
        0
    } else if tag <= 127 {
        tag - 119
    } else if tag <= 136 {
        137 - tag
    } else {
        0
    }
}

/// The value a packed byte sequence decodes to.
pub open spec fn packed_dec(s: Seq<u8>) -> int {
    let tag = s[0];
    if tag <= 119 {
        tag as int
    } else if tag <= 127 {
        le_val(s.subrange(1, 1 + (tag - 119))) + 119 as int
    } else if tag <= 136 {
        -(le_val(s.subrange(1, 1 + (137 - tag))) as int) - 119
    } else {
        tag - 256
    }
}

/// A packed prefix of `s` decodes without reading past the end and, once
/// decoded, yields a value in `[lo, hi]`.
pub open spec fn packed_valid(s: Seq<u8>, lo: int, hi: int) -> bool {
    &&& s.len() >= 1
    &&& 1 + packed_payload_len(s[0]) <= s.len()
    &&& lo <= packed_dec(s) <= hi
}

/// A little-endian sequence of `k` bytes is worth less than `256^k`.
pub proof fn lemma_le_val_bound(s: Seq<u8>)
    ensures
        le_val(s) < pow256(s.len() as nat),
    decreases s.len(),
{
    if s.len() == 0 {
    } else {
        lemma_le_val_bound(s.drop_first());
    }
}


/// Splitting a little-endian sequence at `j` splits its value by `256^j`.
pub proof fn lemma_le_val_split(s: Seq<u8>, j: int)
    requires
        0 <= j <= s.len(),
    ensures
        le_val(s) == le_val(s.take(j)) + pow256(j as nat) * le_val(s.skip(j)),
    decreases j,
{
    if j == 0 {
        assert(s.skip(0) =~= s);
        assert(s.take(0) =~= Seq::<u8>::empty());
        assert(le_val(s.take(j)) == 0);
        assert(pow256(j as nat) == 1);
        assert(le_val(s) == le_val(s.take(j)) + pow256(j as nat) * le_val(s.skip(j)));
    } else {
        let d = s.drop_first();
        lemma_le_val_split(d, j - 1);
        assert(d.skip(j - 1) =~= s.skip(j));
        assert(d.take(j - 1) =~= s.take(j).drop_first());
        assert(s.take(j)[0] == s[0]);
        assert(s.take(j).len() == j);
        let x = le_val(s.take(j).drop_first()) as int;
        let y = le_val(s.skip(j)) as int;
        let p = pow256((j - 1) as nat) as int;
        assert(le_val(d.take(j - 1)) == x);
        assert(le_val(d.skip(j - 1)) == y);
        assert(le_val(d) == x + p * y);
        assert(le_val(s) == s[0] + 256 * le_val(d));
        assert(le_val(s.take(j)) == s.take(j)[0] + 256 * x);
        assert(256 * (x + p * y) == 256 * x + (256 * p) * y) by (nonlinear_arith);
        assert(pow256(j as nat) == 256 * p);
        assert(pow256(j as nat) * le_val(s.skip(j)) == (256 * p) * y);
        assert(le_val(s) == s[0] + 256 * x + (256 * p) * y);
        assert(le_val(s.take(j)) == s[0] + 256 * x);
        assert(le_val(s) == le_val(s.take(j)) + pow256(j as nat) * le_val(s.skip(j)));
    }
}

/// Dropping leading (low-order) bytes cannot increase the value.
pub proof fn lemma_le_val_skip_le(s: Seq<u8>, j: int)
    requires
        0 <= j <= s.len(),
    ensures
        le_val(s.skip(j)) <= le_val(s),
{
    lemma_le_val_split(s, j);
    lemma_pow256_pos(j as nat);
    let y = le_val(s.skip(j)) as int;
    let p = pow256(j as nat) as int;
    assert(p >= 1 && y >= 0 ==> p * y >= y) by (nonlinear_arith);
}

/// Reading back the truncated little-endian bytes of `m` yields `m`.
pub proof fn lemma_le_min_val(m: nat)
    ensures
        le_val(le_min(m)) == m,
    decreases m,
{
    if m == 0 {
    } else {
        lemma_le_min_val((m / 256) as nat);
        assert(le_min(m).drop_first() =~= le_min((m / 256) as nat));
    }
}

/// A magnitude below `256^k` needs at most `k` truncated bytes.
pub proof fn lemma_le_min_len_at_most(m: nat, k: nat)
    requires
        m < pow256(k),
    ensures
        le_min(m).len() <= k,
    decreases m,
{
    if m == 0 {
    } else {
        assert(k > 0) by {
            if k == 0 {
                assert(pow256(0) == 1);
            }
        }
        assert(m / 256 < pow256((k - 1) as nat)) by {
            assert(pow256(k) == 256 * pow256((k - 1) as nat));
        }
        lemma_le_min_len_at_most((m / 256) as nat, (k - 1) as nat);
    }
}

/// A magnitude of at least `256^k` needs more than `k` truncated bytes.
pub proof fn lemma_le_min_len_at_least(m: nat, k: nat)
    requires
        m >= pow256(k),
    ensures
        le_min(m).len() > k,
    decreases k,
{
    assert(m > 0) by {
        assert(pow256(k) >= 1) by {
            lemma_pow256_pos(k);
        }
    }
    if k == 0 {
    } else {
        assert(pow256(k) == 256 * pow256((k - 1) as nat));
        lemma_le_min_len_at_least((m / 256) as nat, (k - 1) as nat);
    }
}

/// `256^k` is positive.
pub proof fn lemma_pow256_pos(k: nat)
    ensures
        pow256(k) >= 1,
    decreases k,
{
    if k > 0 {
        lemma_pow256_pos((k - 1) as nat);
    }
}

/// `256^k` grows with `k`.
pub proof fn lemma_pow256_mono(a: nat, b: nat)
    requires
        a <= b,
    ensures
        pow256(a) <= pow256(b),
    decreases b,
{
    if a < b {
        lemma_pow256_mono(a, (b - 1) as nat);
        lemma_pow256_pos((b - 1) as nat);
    }
}

/// The concrete values of the small powers of 256 the codec needs.
pub proof fn lemma_pow256_values()
    ensures
        pow256(1) == 0x100,
        pow256(2) == 0x1_0000,
        pow256(3) == 0x100_0000,
        pow256(4) == 0x1_0000_0000,
        pow256(5) == 0x100_0000_0000,
        pow256(6) == 0x1_0000_0000_0000,
        pow256(7) == 0x100_0000_0000_0000,
        pow256(8) == 0x1_0000_0000_0000_0000,
{
    assert(pow256(0) == 1);
    assert(pow256(1) == 0x100);
    assert(pow256(2) == 0x1_0000);
    assert(pow256(3) == 0x100_0000);
    assert(pow256(4) == 0x1_0000_0000);
    assert(pow256(5) == 0x100_0000_0000);
    assert(pow256(6) == 0x1_0000_0000_0000);
    assert(pow256(7) == 0x100_0000_0000_0000);
    assert(pow256(8) == 0x1_0000_0000_0000_0000);
}

/// Decoding inverts encoding: the packed bytes of `v`, followed by anything,
/// decode back to `v`, consuming exactly the packed bytes.
pub proof fn lemma_packed_round_trip(v: int, rest: Seq<u8>)
    requires
        -0x8000_0000_0000_0000 <= v <= 0x7FFF_FFFF_FFFF_FFFF,
    ensures
        packed_enc(v).len() >= 1,
        1 + packed_payload_len((packed_enc(v) + rest)[0]) == packed_enc(v).len(),
        packed_dec(packed_enc(v) + rest) == v,
{
    lemma_pow256_values();
    let s = packed_enc(v) + rest;
    if -119 <= v <= 119 {
        assert(s[0] == small_byte(v));
    } else if v > 119 {
        let m = (v - 119) as nat;
        let payload = le_min(m);
        lemma_le_min_val(m);
        lemma_le_min_len_at_most(m, 8);
        lemma_le_min_len_at_least(m, 0);
        let n = payload.len() as int;
        assert(s[0] == (119 + n) as u8);
        assert(packed_payload_len(s[0]) == n);
        assert(s.subrange(1, 1 + n) =~= payload);
    } else {
        let m = (-(v + 119)) as nat;
        let payload = le_min(m);
        lemma_le_min_val(m);
        lemma_le_min_len_at_most(m, 8);
        lemma_le_min_len_at_least(m, 0);
        let n = payload.len() as int;
        assert(s[0] == (137 - n) as u8);
        assert(packed_payload_len(s[0]) == n);
        assert(s.subrange(1, 1 + n) =~= payload);
    }
}

/// Packed `i32` storage.
#[derive(Debug, Clone, Copy, PartialEq, Eq, Structural)]
pub struct PackedI32(pub i32);

impl PackedI32 {
    pub const MAX_LENGETH: usize = 5;

    /// Writes the packed bytes of the value at `buf[pos..]` and reports how
    /// many bytes they take.
    pub fn write(&self, buf: &mut Vec<u8>, pos: usize) -> (r: Result<usize, Error>)
        requires
            pos + 5 <= old(buf)@.len(),
        ensures
            final(buf)@.len() == old(buf)@.len(),
            (r matches Ok(n) && {
                let enc = packed_enc(self.0 as int);
                &&& n == enc.len()
                &&& 1 <= n <= 5
                &&& final(buf)@ == old(buf)@.take(pos as int) + enc + old(buf)@.skip(
                    pos + enc.len())
            }),
    {
        proof {
            lemma_pow256_values();
        }
        let v = self.0;
        if -119 <= v && v <= 119 {
            let b: u8 = if v >= 0 {
                v as u8
            } else {
                (v + 256) as u8
            };
            buf[pos] = b;
            proof {
                assert(final(buf)@ =~= old(buf)@.take(pos as int) + packed_enc(v as int)
                    + old(buf)@.skip(pos + 1));
            }
            Ok(1)
        } else {
            let negative = v < -119;
            let mut m: u32 = if negative {
                (-(v + 119)) as u32
            } else {
                (v - 119) as u32
            };
            let total: usize = buf.len();
            let ghost m0 = m as nat;
            let ghost buf0 = old(buf)@;
            proof {
                lemma_le_min_len_at_most(m0, 4);
                lemma_le_min_len_at_least(m0, 0);
                assert(le_min(m0).take(0) =~= Seq::<u8>::empty());
                assert(buf0 =~= buf0.take(pos + 1) + le_min(m0).take(0) + buf0.skip(pos + 1));
            }
            let mut len: usize = 0;
            while m != 0
                invariant
                    buf@.len() == total,
                    pos + 5 <= buf@.len() == buf0.len(),
                    1 <= le_min(m0).len() <= 4,
                    len + le_min(m as nat).len() == le_min(m0).len(),
                    le_min(m0) == le_min(m0).take(len as int) + le_min(m as nat),
                    buf@ == buf0.take(pos + 1) + le_min(m0).take(len as int) + buf0.skip(
                        pos + 1 + len),
                decreases m,
            {
                let b: u8 = (m % 256) as u8;
                proof {
                    assert(le_min(m as nat).len() >= 1);
                    assert(len < le_min(m0).len());
                    assert(le_min(m as nat)[0] == b);
                    assert(le_min(m0)[len as int] == b);
                }
                buf[pos + 1 + len] = b;
                proof {
                    assert(le_min((m / 256) as nat) =~= le_min(m as nat).drop_first());
                    assert(le_min(m0).take(len + 1) =~= le_min(m0).take(len as int) + seq![b]);
                    assert(le_min(m0) =~= le_min(m0).take(len + 1) + le_min((m / 256) as nat));
                    assert(buf@ =~= buf0.take(pos + 1) + le_min(m0).take(len + 1) + buf0.skip(
                        pos + 1 + len + 1));
                }
                m = m / 256;
                len = len + 1;
            }
            proof {
                assert(le_min(0nat) =~= Seq::<u8>::empty());
                assert(le_min(m0).take(len as int) =~= le_min(m0));
            }
            let t: u8 = if negative {
                (137 - len) as u8
            } else {
                (119 + len) as u8
            };
            buf[pos] = t;
            proof {
                let enc = packed_enc(v as int);
                assert(enc =~= seq![t] + le_min(m0));
                assert(final(buf)@ =~= buf0.take(pos as int) + enc + buf0.skip(pos + 1 + len));
            }
            Ok(len + 1)
        }
    }

    /// Reads a packed value from the front of `buf`, stores it in `self`, and
    /// reports how many bytes it took.
    pub fn read(&mut self, buf: &[u8]) -> (r: Result<usize, Error>)
        requires
            packed_valid(buf@, i32::MIN as int, i32::MAX as int),
        ensures
            (r matches Ok(n) && {
                &&& n == 1 + packed_payload_len(buf@[0])
                &&& final(self).0 == packed_dec(buf@)
            }),
    {
        proof {
            lemma_pow256_values();
        }
        let tag: u8 = *vstd::slice::slice_index_get(buf, 0);
        if tag <= 119 {
            self.0 = tag as i32;
            return Ok(1);
        }
        if tag >= 137 {
            self.0 = (tag as i32) - 256;
            return Ok(1);
        }
        let negative: bool = tag >= 128;
        let len: usize = if negative {
            (137 - tag) as usize
        } else {
            (tag - 119) as usize
        };
        let ghost payload = buf@.subrange(1, 1 + len);
        proof {
            assert(payload =~= buf@.subrange(1, 1 + packed_payload_len(buf@[0])));
            assert(payload.skip(len as int) =~= Seq::<u8>::empty());
        }
        let mut m: u64 = 0;
        let mut i: usize = len;
        while i >= 1
            invariant
                i <= len <= 9,
                1 + len <= buf@.len(),
                payload == buf@.subrange(1, 1 + len),
                le_val(payload) <= 0x8000_0000_0000_0000,
                m == le_val(payload.skip(i as int)),
                negative == (buf@[0] >= 128),
                len == packed_payload_len(buf@[0]),
                negative ==> packed_dec(buf@) == -(le_val(payload) as int) - 119,
                !negative ==> packed_dec(buf@) == le_val(payload) + 119 as int,
            decreases i,
        {
            let b: u8 = *vstd::slice::slice_index_get(buf, i);
            proof {
                assert(payload.skip(i - 1).drop_first() =~= payload.skip(i as int));
                assert(payload.skip(i - 1)[0] == payload[i - 1]);
                assert(payload[i - 1] == buf@[i as int]);
                assert(le_val(payload.skip(i - 1)) == payload[i - 1] + 256 * le_val(
                    payload.skip(i as int)));
                lemma_le_val_skip_le(payload, i - 1);
            }
            m = m * 256 + (b as u64);
            i = i - 1;
        }
        proof {
            assert(payload.skip(0) =~= payload);
        }
        if negative {
            self.0 = ((-(m as i64)) - 119) as i32;
        } else {
            self.0 = ((m as i64) + 119) as i32;
        }
        Ok(1 + len)
    }
}

impl Default for PackedI32 {
    fn default() -> (r: PackedI32)
        ensures
            r.0 == 0,
    {
        PackedI32(0)
    }
}

impl From<i32> for PackedI32 {
    fn from(value: i32) -> (r: PackedI32) {
        PackedI32(value)
    }
}

impl vstd::std_specs::convert::FromSpecImpl<i32> for PackedI32 {
    open spec fn obeys_from_spec() -> bool {
        true
    }

    open spec fn from_spec(value: i32) -> PackedI32 {
        PackedI32(value)
    }
}

/// Packed `i64` storage.
#[derive(Debug, Clone, Copy, PartialEq, Eq, Structural)]
pub struct PackedI64(pub i64);

impl PackedI64 {
    pub const MAX_LENGETH: usize = 9;

    /// Writes the packed bytes of the value at `buf[pos..]` and reports how
    /// many bytes they take.
    pub fn write(&self, buf: &mut Vec<u8>, pos: usize) -> (r: Result<usize, Error>)
        requires
            pos + 9 <= old(buf)@.len(),
        ensures
            final(buf)@.len() == old(buf)@.len(),
            (r matches Ok(n) && {
                let enc = packed_enc(self.0 as int);
                &&& n == enc.len()
                &&& 1 <= n <= 9
                &&& final(buf)@ == old(buf)@.take(pos as int) + enc + old(buf)@.skip(
                    pos + enc.len())
            }),
    {
        proof {
            lemma_pow256_values();
        }
        let v = self.0;
        if -119 <= v && v <= 119 {
            let b: u8 = if v >= 0 {
                v as u8
            } else {
                (v + 256) as u8
            };
            buf[pos] = b;
            proof {
                assert(final(buf)@ =~= old(buf)@.take(pos as int) + packed_enc(v as int)
                    + old(buf)@.skip(pos + 1));
            }
            Ok(1)
        } else {
            let negative = v < -119;
            let mut m: u64 = if negative {
                (-(v + 119)) as u64
            } else {
                (v - 119) as u64
            };
            let total: usize = buf.len();
            let ghost m0 = m as nat;
            let ghost buf0 = old(buf)@;
            proof {
                lemma_le_min_len_at_most(m0, 8);
                lemma_le_min_len_at_least(m0, 0);
                assert(le_min(m0).take(0) =~= Seq::<u8>::empty());
                assert(buf0 =~= buf0.take(pos + 1) + le_min(m0).take(0) + buf0.skip(pos + 1));
            }
            let mut len: usize = 0;
            while m != 0
                invariant
                    buf@.len() == total,
                    pos + 9 <= buf@.len() == buf0.len(),
                    1 <= le_min(m0).len() <= 8,
                    len + le_min(m as nat).len() == le_min(m0).len(),
                    le_min(m0) == le_min(m0).take(len as int) + le_min(m as nat),
                    buf@ == buf0.take(pos + 1) + le_min(m0).take(len as int) + buf0.skip(
                        pos + 1 + len),
                decreases m,
            {
                let b: u8 = (m % 256) as u8;
                proof {
                    assert(le_min(m as nat).len() >= 1);
                    assert(len < le_min(m0).len());
                    assert(le_min(m as nat)[0] == b);
                    assert(le_min(m0)[len as int] == b);
                }
                buf[pos + 1 + len] = b;
                proof {
                    assert(le_min((m / 256) as nat) =~= le_min(m as nat).drop_first());
                    assert(le_min(m0).take(len + 1) =~= le_min(m0).take(len as int) + seq![b]);
                    assert(le_min(m0) =~= le_min(m0).take(len + 1) + le_min((m / 256) as nat));
                    assert(buf@ =~= buf0.take(pos + 1) + le_min(m0).take(len + 1) + buf0.skip(
                        pos + 1 + len + 1));
                }
                m = m / 256;
                len = len + 1;
            }
            proof {
                assert(le_min(0nat) =~= Seq::<u8>::empty());
                assert(le_min(m0).take(len as int) =~= le_min(m0));
            }
            let t: u8 = if negative {
                (137 - len) as u8
            } else {
                (119 + len) as u8
            };
            buf[pos] = t;
            proof {
                let enc = packed_enc(v as int);
                assert(enc =~= seq![t] + le_min(m0));
                assert(final(buf)@ =~= buf0.take(pos as int) + enc + buf0.skip(pos + 1 + len));
            }
            Ok(len + 1)
        }
    }

    /// Reads a packed value from the front of `buf`, stores it in `self`, and
    /// reports how many bytes it took.
    pub fn read(&mut self, buf: &[u8]) -> (r: Result<usize, Error>)
        requires
            packed_valid(buf@, i64::MIN as int, i64::MAX as int),
        ensures
            (r matches Ok(n) && {
                &&& n == 1 + packed_payload_len(buf@[0])
                &&& final(self).0 == packed_dec(buf@)
            }),
    {
        proof {
            lemma_pow256_values();
        }
        let tag: u8 = *vstd::slice::slice_index_get(buf, 0);
        if tag <= 119 {
            self.0 = tag as i64;
            return Ok(1);
        }
        if tag >= 137 {
            self.0 = (tag as i64) - 256;
            return Ok(1);
        }
        let negative: bool = tag >= 128;
        let len: usize = if negative {
            (137 - tag) as usize
        } else {
            (tag - 119) as usize
        };
        let ghost payload = buf@.subrange(1, 1 + len);
        proof {
            assert(payload =~= buf@.subrange(1, 1 + packed_payload_len(buf@[0])));
            assert(payload.skip(len as int) =~= Seq::<u8>::empty());
        }
        let mut m: u64 = 0;
        let mut i: usize = len;
        while i >= 1
            invariant
                i <= len <= 9,
                1 + len <= buf@.len(),
                payload == buf@.subrange(1, 1 + len),
                le_val(payload) <= 0x8000_0000_0000_0000,
                m == le_val(payload.skip(i as int)),
                negative == (buf@[0] >= 128),
                len == packed_payload_len(buf@[0]),
                negative ==> packed_dec(buf@) == -(le_val(payload) as int) - 119,
                !negative ==> packed_dec(buf@) == le_val(payload) + 119 as int,
            decreases i,
        {
            let b: u8 = *vstd::slice::slice_index_get(buf, i);
            proof {
                assert(payload.skip(i - 1).drop_first() =~= payload.skip(i as int));
                assert(payload.skip(i - 1)[0] == payload[i - 1]);
                assert(payload[i - 1] == buf@[i as int]);
                assert(le_val(payload.skip(i - 1)) == payload[i - 1] + 256 * le_val(
                    payload.skip(i as int)));
                lemma_le_val_skip_le(payload, i - 1);
            }
            m = m * 256 + (b as u64);
            i = i - 1;
        }
        proof {
            assert(payload.skip(0) =~= payload);
        }
        if negative {
            self.0 = -(m as i64) - 119;
        } else {
            self.0 = (m as i64) + 119;
        }
        Ok(1 + len)
    }
}

impl Default for PackedI64 {
    fn default() -> (r: PackedI64)
        ensures
            r.0 == 0,
    {
        PackedI64(0)
    }
}

impl From<i64> for PackedI64 {
    fn from(value: i64) -> (r: PackedI64) {
        PackedI64(value)
    }
}

impl vstd::std_specs::convert::FromSpecImpl<i64> for PackedI64 {
    open spec fn obeys_from_spec() -> bool {
        true
    }

    open spec fn from_spec(value: i64) -> PackedI64 {
        PackedI64(value)
    }
}

} // verus!
