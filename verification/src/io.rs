//! Buffer input and output over a windowed byte buffer.
//!
//! The buffer is laid out as `0 <= off <= pos <= len`, where `off` is the
//! start of the actual data, `pos` the read or write position, and `len` the
//! end.  Readers decode fixed-width big-endian numbers, null-aware strings
//! and packed integers; writers encode them.

use vstd::prelude::*;
use crate::entry::BufferEntry;
use crate::error::Error;
use crate::error::ErrorKind;
use crate::packed_int::PackedI32;
use crate::packed_int::PackedI64;
use crate::packed_int::packed_enc;
use crate::packed_int::packed_dec;
use crate::packed_int::packed_payload_len;
use crate::packed_int::packed_valid;
use crate::packed_int::pow256;

verus! {

/// The value of a big-endian byte sequence.
pub open spec fn be_val(s: Seq<u8>) -> nat
    decreases s.len(),
{
    if s.len() == 0 {
        0
    } else {
        (be_val(s.drop_last()) * 256 + s.last()) as nat
    }
}

/// The `n` big-endian bytes of `v`; `v` must fit.
pub open spec fn be_bytes(v: nat, n: nat) -> Seq<u8>
    decreases n,
{
    if n == 0 {
        Seq::<u8>::empty()
    } else {
        be_bytes((v / 256) as nat, (n - 1) as nat) + seq![(v % 256) as u8]
    }
}

/// A big-endian sequence of `k` bytes is worth less than `256^k`.
pub proof fn lemma_be_val_bound(s: Seq<u8>)
    ensures
        be_val(s) < pow256(s.len() as nat),
    decreases s.len(),
{
    if s.len() == 0 {
    } else {
        lemma_be_val_bound(s.drop_last());
        crate::packed_int::lemma_pow256_pos((s.len() - 1) as nat);
    }
}

/// Reading back the big-endian bytes of `v` yields `v`.
pub proof fn lemma_be_bytes_val(v: nat, n: nat)
    requires
        v < pow256(n),
    ensures
        be_bytes(v, n).len() == n,
        be_val(be_bytes(v, n)) == v,
    decreases n,
{
    if n == 0 {
    } else {
        assert(pow256(n) == 256 * pow256((n - 1) as nat));
        lemma_be_bytes_val((v / 256) as nat, (n - 1) as nat);
        let s = be_bytes(v, n);
        assert(s.drop_last() =~= be_bytes((v / 256) as nat, (n - 1) as nat));
        assert(s.last() == (v % 256) as u8);
    }
}


/// One big-endian byte is the low byte of the value.
pub proof fn lemma_be_bytes_one(m: nat)
    ensures
        be_bytes(m, 1) =~= seq![(m % 256) as u8],
{
    assert(be_bytes((m / 256) as nat, 0) =~= Seq::<u8>::empty());
}


/// The UTF-8 encoding of NUL-free text contains no zero byte.
pub proof fn lemma_encode_utf8_no_nul(chars: Seq<char>)
    requires
        forall|i: int| 0 <= i < chars.len() ==> #[trigger] chars[i] != '\u{0}',
    ensures
        forall|j: int|
            0 <= j < vstd::utf8::encode_utf8(chars).len() ==> #[trigger] vstd::utf8::encode_utf8(
                chars)[j] != 0,
    decreases chars.len(),
{
    if chars.len() == 0 {
    } else {
        assert(forall|i: int|
            0 <= i < chars.drop_first().len() ==> #[trigger] chars.drop_first()[i]
                != '\u{0}');
        lemma_encode_utf8_no_nul(chars.drop_first());
        let c = chars[0] as u32;
        vstd::utf8::char_is_scalar(chars[0]);
        lemma_encode_scalar_bytes(c);
        assert(c != 0) by {
            if c == 0 {
                vstd::utf8::char_u32_cast(chars[0], c);
                assert(chars[0] == 0u32 as char);
            }
        }
        let head = vstd::utf8::encode_scalar(c);
        let tail = vstd::utf8::encode_utf8(chars.drop_first());
        assert forall|j: int|
            0 <= j < vstd::utf8::encode_utf8(chars).len() implies #[trigger] vstd::utf8
            ::encode_utf8(chars)[j] != 0 by {
            if j < head.len() {
                assert(vstd::utf8::encode_utf8(chars)[j] == head[j]);
            } else {
                assert(vstd::utf8::encode_utf8(chars)[j] == tail[j - head.len()]);
            }
        }
    }
}

/// The UTF-8 encoding never contains the sentinel byte.
pub proof fn lemma_encode_utf8_no_sentinel(chars: Seq<char>)
    ensures
        forall|j: int|
            0 <= j < vstd::utf8::encode_utf8(chars).len() ==> #[trigger] vstd::utf8::encode_utf8(
                chars)[j] != 255,
    decreases chars.len(),
{
    if chars.len() == 0 {
    } else {
        lemma_encode_utf8_no_sentinel(chars.drop_first());
        let c = chars[0] as u32;
        vstd::utf8::char_is_scalar(chars[0]);
        lemma_encode_scalar_bytes(c);
        let head = vstd::utf8::encode_scalar(c);
        let tail = vstd::utf8::encode_utf8(chars.drop_first());
        assert forall|j: int|
            0 <= j < vstd::utf8::encode_utf8(chars).len() implies #[trigger] vstd::utf8
            ::encode_utf8(chars)[j] != 255 by {
            if j < head.len() {
                assert(vstd::utf8::encode_utf8(chars)[j] == head[j]);
            } else {
                assert(vstd::utf8::encode_utf8(chars)[j] == tail[j - head.len()]);
            }
        }
    }
}

/// Every byte of a scalar's encoding is below the sentinel, and nonzero for
/// a nonzero scalar.
proof fn lemma_encode_scalar_bytes(c: u32)
    requires
        vstd::utf8::is_scalar(c),
    ensures
        forall|j: int|
            0 <= j < vstd::utf8::encode_scalar(c).len() ==> #[trigger] vstd::utf8::encode_scalar(
                c)[j] != 255,
        c != 0 ==> forall|j: int|
            0 <= j < vstd::utf8::encode_scalar(c).len() ==> #[trigger] vstd::utf8::encode_scalar(
                c)[j] != 0,
{
    if vstd::utf8::has_width_1_encoding(c) {
        assert(c < 0x80 ==> (c & 0x7F) as u8 != 255) by (bit_vector);
        assert(c < 0x80 && c != 0 ==> (c & 0x7F) as u8 != 0) by (bit_vector);
    } else if vstd::utf8::has_width_2_encoding(c) {
        assert((0xC0u8 | ((c >> 6) & 0x1F) as u8) != 0 && (0xC0u8 | ((c >> 6) & 0x1F) as u8)
            != 255) by (bit_vector);
        assert((0x80u8 | (c & 0x3F) as u8) != 0 && (0x80u8 | (c & 0x3F) as u8) != 255)
            by (bit_vector);
    } else if vstd::utf8::has_width_3_encoding(c) {
        assert((0xE0u8 | ((c >> 12) & 0x0F) as u8) != 0 && (0xE0u8 | ((c >> 12) & 0x0F) as u8)
            != 255) by (bit_vector);
        assert((0x80u8 | ((c >> 6) & 0x3F) as u8) != 0 && (0x80u8 | ((c >> 6) & 0x3F) as u8)
            != 255) by (bit_vector);
        assert((0x80u8 | (c & 0x3F) as u8) != 0 && (0x80u8 | (c & 0x3F) as u8) != 255)
            by (bit_vector);
    } else if vstd::utf8::has_width_4_encoding(c) {
        assert((0xF0u8 | ((c >> 18) & 0x7) as u8) != 0 && (0xF0u8 | ((c >> 18) & 0x7) as u8)
            != 255) by (bit_vector);
        assert((0x80u8 | ((c >> 12) & 0x3F) as u8) != 0 && (0x80u8 | ((c >> 12) & 0x3F) as u8)
            != 255) by (bit_vector);
        assert((0x80u8 | ((c >> 6) & 0x3F) as u8) != 0 && (0x80u8 | ((c >> 6) & 0x3F) as u8)
            != 255) by (bit_vector);
        assert((0x80u8 | (c & 0x3F) as u8) != 0 && (0x80u8 | (c & 0x3F) as u8) != 255)
            by (bit_vector);
    }
}

/// `first_nul` is pinned by exhibiting the first zero byte.
pub proof fn lemma_first_nul_exact(s: Seq<u8>, k: int)
    requires
        0 <= k < s.len(),
        s[k] == 0,
        forall|j: int| 0 <= j < k ==> s[j] != 0,
    ensures
        first_nul(s) == k,
{
    lemma_first_nul(s);
    if first_nul(s) < k {
        assert(s[first_nul(s)] == 0);
    } else if first_nul(s) > k {
        assert(s[k] != 0);
    }
}

/// The signed reading of an `n`-byte unsigned value.
pub open spec fn signed_of(u: nat, n: nat) -> int {
    if u < pow256(n) / 2 {
        u as int
    } else {
        u - pow256(n)
    }
}

/// The unsigned image of a signed value in `n` bytes.
pub open spec fn unsigned_of(v: int, n: nat) -> nat {
    if v >= 0 {
        v as nat
    } else {
        (v + pow256(n)) as nat
    }
}

/// The sentinel byte that encodes a null string.
pub open spec fn spec_utf_null() -> u8 {
    255
}

/// Index of the first zero byte in `s`, or `s.len()` if there is none.
pub open spec fn first_nul(s: Seq<u8>) -> int
    decreases s.len(),
{
    if s.len() == 0 {
        0
    } else if s[0] == 0 {
        0
    } else {
        1 + first_nul(s.drop_first())
    }
}

/// `first_nul` points at a zero byte (if any) with no zero before it.
pub proof fn lemma_first_nul(s: Seq<u8>)
    ensures
        0 <= first_nul(s) <= s.len(),
        first_nul(s) < s.len() ==> s[first_nul(s)] == 0,
        forall|i: int| 0 <= i < first_nul(s) ==> s[i] != 0,
    decreases s.len(),
{
    if s.len() == 0 {
    } else if s[0] == 0 {
    } else {
        lemma_first_nul(s.drop_first());
        let d = s.drop_first();
        assert(forall|i: int| 0 < i < s.len() ==> #[trigger] s[i] == d[i - 1]);
    }
}

/// A reader over a borrowed byte buffer.
#[derive(Debug, Clone)]
pub struct BufferInput<'a> {
    pub data: &'a [u8],
    pub off: usize,
    pub len: usize,
    pub pos: usize,
}

impl<'a> BufferInput<'a> {
    /// The window and position lie inside the buffer.
    pub open spec fn wf(&self) -> bool {
        self.off <= self.pos <= self.len <= self.data@.len()
    }

    /// The bytes not yet read.
    pub open spec fn remaining(&self) -> Seq<u8> {
        self.data@.subrange(self.pos as int, self.len as int)
    }

    /// The reader and its source agree on everything but the position.
    pub open spec fn same_source(&self, other: &BufferInput<'a>) -> bool {
        self.data == other.data && self.off == other.off && self.len == other.len
    }

    /// A reader over the whole of `data`.
    pub fn new(data: &'a [u8]) -> (r: BufferInput<'a>)
        ensures
            r.wf(),
            r.off == 0,
            r.pos == 0,
            r.len == data@.len(),
            r.data == data,
    {
        let len = data.len();
        BufferInput { data, off: 0, len, pos: 0 }
    }

    /// A reader over `data[offset..offset + size]`.
    pub fn new_offset(data: &'a [u8], offset: usize, size: usize) -> (r: BufferInput<'a>)
        requires
            offset + size <= data@.len(),
        ensures
            r.wf(),
            r.off == offset,
            r.pos == offset,
            r.len == offset + size,
            r.data == data,
    {
        let n = data.len();
        assert(offset + size <= n);
        BufferInput { data, off: offset, len: offset + size, pos: offset }
    }

    /// Start of the window.
    pub fn off(&self) -> (r: usize)
        ensures
            r == self.off,
    {
        self.off
    }

    /// End of the window.
    pub fn len(&self) -> (r: usize)
        ensures
            r == self.len,
    {
        self.len
    }

    /// Number of bytes in the window.
    pub fn size(&self) -> (r: usize)
        requires
            self.wf(),
        ensures
            r == self.len - self.off,
    {
        self.len - self.off
    }

    /// The current position, counted from the start of the buffer.
    pub fn pos(&self) -> (r: usize)
        ensures
            r == self.pos,
    {
        self.pos
    }

    /// Number of bytes still to read.
    pub fn available(&self) -> (r: usize)
        requires
            self.wf(),
        ensures
            r == self.remaining().len(),
    {
        self.len - self.pos
    }

    /// Whether the end of the window is reached.
    pub fn eof(&self) -> (r: bool)
        requires
            self.wf(),
        ensures
            r == (self.remaining().len() == 0),
    {
        self.pos >= self.len
    }

    /// Reads `n <= 8` big-endian bytes as an unsigned value.
    fn read_be(&mut self, n: usize) -> (r: Result<u64, Error>)
        requires
            old(self).wf(),
            1 <= n <= 8,
        ensures
            final(self).wf(),
            final(self).same_source(old(self)),
            old(self).remaining().len() >= n ==> (r matches Ok(v) && {
                &&& v == be_val(old(self).remaining().take(n as int))
                &&& final(self).pos == old(self).pos + n
            }),
            old(self).remaining().len() < n ==> (r matches Err(e) && e.inner is OutOfBounds
                && final(self).pos == old(self).pos),
    {
        if self.len - self.pos < n {
            return Err(Error { inner: ErrorKind::OutOfBounds });
        }
        let ghost bytes = self.remaining().take(n as int);
        let mut v: u64 = 0;
        let mut i: usize = 0;
        proof {
            crate::packed_int::lemma_pow256_values();
            assert(bytes.take(0) =~= Seq::<u8>::empty());
        }
        while i < n
            invariant
                self == old(self),
                self.wf(),
                i <= n <= 8,
                self.remaining().len() >= n,
                bytes == self.remaining().take(n as int),
                v == be_val(bytes.take(i as int)),
                v < pow256(i as nat),
                pow256(8) == 0x1_0000_0000_0000_0000,
            decreases n - i,
        {
            let b: u8 = *vstd::slice::slice_index_get(self.data, self.pos + i);
            proof {
                assert(bytes.take(i + 1).drop_last() =~= bytes.take(i as int));
                assert(bytes.take(i + 1).last() == bytes[i as int]);
                assert(bytes[i as int] == self.data@[self.pos + i]);
                crate::packed_int::lemma_pow256_mono((i + 1) as nat, 8);
                assert(pow256((i + 1) as nat) == 256 * pow256(i as nat));
            }
            v = v * 256 + (b as u64);
            i = i + 1;
        }
        proof {
            assert(bytes.take(n as int) =~= bytes);
        }
        self.pos = self.pos + n;
        Ok(v)
    }

    /// Reads one byte.
    pub fn read_u8(&mut self) -> (r: Result<u8, Error>)
        requires
            old(self).wf(),
        ensures
            final(self).wf(),
            final(self).same_source(old(self)),
            old(self).remaining().len() >= 1 ==> (r matches Ok(v) && {
                &&& v == old(self).remaining()[0]
                &&& final(self).pos == old(self).pos + 1
            }),
            old(self).remaining().len() < 1 ==> (r matches Err(e) && e.inner is OutOfBounds
                && final(self).pos == old(self).pos),
    {
        match self.read_be(1) {
            Ok(v) => {
                proof {
                    let rem = old(self).remaining();
                    assert(be_val(Seq::<u8>::empty()) == 0);
                    assert(rem.take(1).drop_last() =~= Seq::<u8>::empty());
                    assert(rem.take(1).last() == rem[0]);
                    assert(be_val(rem.take(1)) == rem[0]);
                }
                Ok(v as u8)
            },
            Err(e) => Err(e),
        }
    }

    /// Reads a big-endian `u16`.
    pub fn read_u16(&mut self) -> (r: Result<u16, Error>)
        requires
            old(self).wf(),
        ensures
            final(self).wf(),
            final(self).same_source(old(self)),
            old(self).remaining().len() >= 2 ==> (r matches Ok(v) && {
                &&& v == be_val(old(self).remaining().take(2))
                &&& final(self).pos == old(self).pos + 2
            }),
            old(self).remaining().len() < 2 ==> (r matches Err(e) && e.inner is OutOfBounds
                && final(self).pos == old(self).pos),
    {
        proof {
            crate::packed_int::lemma_pow256_values();
            if old(self).remaining().len() >= 2 {
                lemma_be_val_bound(old(self).remaining().take(2));
                assert(pow256(2) == 0x1_0000);
            }
        }
        match self.read_be(2) {
            Ok(v) => Ok(v as u16),
            Err(e) => Err(e),
        }
    }

    /// Reads a big-endian `u32`.
    pub fn read_u32(&mut self) -> (r: Result<u32, Error>)
        requires
            old(self).wf(),
        ensures
            final(self).wf(),
            final(self).same_source(old(self)),
            old(self).remaining().len() >= 4 ==> (r matches Ok(v) && {
                &&& v == be_val(old(self).remaining().take(4))
                &&& final(self).pos == old(self).pos + 4
            }),
            old(self).remaining().len() < 4 ==> (r matches Err(e) && e.inner is OutOfBounds
                && final(self).pos == old(self).pos),
    {
        proof {
            crate::packed_int::lemma_pow256_values();
            if old(self).remaining().len() >= 4 {
                lemma_be_val_bound(old(self).remaining().take(4));
                assert(pow256(4) == 0x1_0000_0000);
            }
        }
        match self.read_be(4) {
            Ok(v) => Ok(v as u32),
            Err(e) => Err(e),
        }
    }

    /// Reads a big-endian `u64`.
    pub fn read_u64(&mut self) -> (r: Result<u64, Error>)
        requires
            old(self).wf(),
        ensures
            final(self).wf(),
            final(self).same_source(old(self)),
            old(self).remaining().len() >= 8 ==> (r matches Ok(v) && {
                &&& v == be_val(old(self).remaining().take(8))
                &&& final(self).pos == old(self).pos + 8
            }),
            old(self).remaining().len() < 8 ==> (r matches Err(e) && e.inner is OutOfBounds
                && final(self).pos == old(self).pos),
    {
        self.read_be(8)
    }
}

/// Encoding of a present string: its UTF-8 bytes and a zero terminator.
pub open spec fn str_enc_some(chars: Seq<char>) -> Seq<u8> {
    vstd::utf8::encode_utf8(chars) + seq![0u8]
}

/// Encoding of a null string: the single sentinel byte.
pub open spec fn str_enc_none() -> Seq<u8> {
    seq![spec_utf_null()]
}

/// Relies on `String::from_utf8`: it succeeds exactly on valid UTF-8 input
/// and the returned string's UTF-8 bytes are the input bytes.
#[verifier::external_body]
fn string_from_utf8(v: Vec<u8>) -> (r: Result<String, Error>)
    ensures
        r is Ok <==> vstd::utf8::valid_utf8(v@),
        (r matches Ok(st) ==> vstd::utf8::encode_utf8(st@) == v@),
        (r matches Err(e) ==> e.inner is Format),
{
    match String::from_utf8(v) {
        Ok(st) => Ok(st),
        Err(_) => Err(Error { inner: ErrorKind::Format }),
    }
}

impl<'a> BufferInput<'a> {
    /// Reads one byte as a signed value.
    pub fn read_i8(&mut self) -> (r: Result<i8, Error>)
        requires
            old(self).wf(),
        ensures
            final(self).wf(),
            final(self).same_source(old(self)),
            old(self).remaining().len() >= 1 ==> (r matches Ok(v) && {
                &&& v == signed_of(old(self).remaining()[0] as nat, 1)
                &&& final(self).pos == old(self).pos + 1
            }),
            old(self).remaining().len() < 1 ==> (r matches Err(e) && e.inner is OutOfBounds
                && final(self).pos == old(self).pos),
    {
        match self.read_u8() {
            Ok(b) => {
                proof {
                    crate::packed_int::lemma_pow256_values();
                }
                if b <= 127 {
                    Ok(b as i8)
                } else {
                    Ok(((b as i16) - 256) as i8)
                }
            },
            Err(e) => Err(e),
        }
    }

    /// Reads a big-endian signed 16-bit value.
    pub fn read_i16(&mut self) -> (r: Result<i16, Error>)
        requires
            old(self).wf(),
        ensures
            final(self).wf(),
            final(self).same_source(old(self)),
            old(self).remaining().len() >= 2 ==> (r matches Ok(v) && {
                &&& v == signed_of(be_val(old(self).remaining().take(2)), 2)
                &&& final(self).pos == old(self).pos + 2
            }),
            old(self).remaining().len() < 2 ==> (r matches Err(e) && e.inner is OutOfBounds
                && final(self).pos == old(self).pos),
    {
        match self.read_u16() {
            Ok(u) => {
                proof {
                    crate::packed_int::lemma_pow256_values();
                }
                if u <= 32767 {
                    Ok(u as i16)
                } else {
                    Ok(((u as i32) - 65536) as i16)
                }
            },
            Err(e) => Err(e),
        }
    }

    /// Reads a big-endian signed 32-bit value.
    pub fn read_i32(&mut self) -> (r: Result<i32, Error>)
        requires
            old(self).wf(),
        ensures
            final(self).wf(),
            final(self).same_source(old(self)),
            old(self).remaining().len() >= 4 ==> (r matches Ok(v) && {
                &&& v == signed_of(be_val(old(self).remaining().take(4)), 4)
                &&& final(self).pos == old(self).pos + 4
            }),
            old(self).remaining().len() < 4 ==> (r matches Err(e) && e.inner is OutOfBounds
                && final(self).pos == old(self).pos),
    {
        match self.read_u32() {
            Ok(u) => {
                proof {
                    crate::packed_int::lemma_pow256_values();
                }
                if u <= 0x7FFF_FFFF {
                    Ok(u as i32)
                } else {
                    Ok(((u as i64) - 0x1_0000_0000) as i32)
                }
            },
            Err(e) => Err(e),
        }
    }

    /// Reads a big-endian signed 64-bit value.
    pub fn read_i64(&mut self) -> (r: Result<i64, Error>)
        requires
            old(self).wf(),
        ensures
            final(self).wf(),
            final(self).same_source(old(self)),
            old(self).remaining().len() >= 8 ==> (r matches Ok(v) && {
                &&& v == signed_of(be_val(old(self).remaining().take(8)), 8)
                &&& final(self).pos == old(self).pos + 8
            }),
            old(self).remaining().len() < 8 ==> (r matches Err(e) && e.inner is OutOfBounds
                && final(self).pos == old(self).pos),
    {
        match self.read_u64() {
            Ok(u) => {
                proof {
                    crate::packed_int::lemma_pow256_values();
                }
                if u <= 0x7FFF_FFFF_FFFF_FFFF {
                    Ok(u as i64)
                } else {
                    let d: u64 = u64::MAX - u;
                    Ok(-(d as i64) - 1)
                }
            },
            Err(e) => Err(e),
        }
    }

    /// Reads a null-aware string: `0xFF` is a null string, anything else runs
    /// to a zero terminator and must be valid UTF-8.
    pub fn read_string(&mut self) -> (r: Result<Option<String>, Error>)
        requires
            old(self).wf(),
        ensures
            final(self).wf(),
            final(self).same_source(old(self)),
            ({
                let rem = old(self).remaining();
                &&& rem.len() == 0 ==> (r matches Err(e) && e.inner is OutOfBounds
                    && final(self).pos == old(self).pos)
                &&& rem.len() > 0 && rem[0] == spec_utf_null() ==> (r matches Ok(v) && v is None
                    && final(self).pos == old(self).pos + 1)
                &&& rem.len() > 0 && rem[0] != spec_utf_null() ==> {
                    let k = first_nul(rem);
                    &&& k == rem.len() ==> (r matches Err(e) && e.inner is Format
                        && final(self).pos == old(self).pos)
                    &&& k < rem.len() && vstd::utf8::valid_utf8(rem.take(k)) ==> (r matches Ok(v)
                        && v matches Some(st) && vstd::utf8::encode_utf8(st@) == rem.take(k)
                        && final(self).pos == old(self).pos + k + 1)
                    &&& k < rem.len() && !vstd::utf8::valid_utf8(rem.take(k)) ==> (
                        r matches Err(e) && e.inner is Format && final(self).pos == old(self).pos)
                }
            }),
    {
        let ghost rem = self.remaining();
        if self.pos >= self.len {
            return Err(Error { inner: ErrorKind::OutOfBounds });
        }
        let b0: u8 = *vstd::slice::slice_index_get(self.data, self.pos);
        if b0 == 255 {
            self.pos = self.pos + 1;
            return Ok(None);
        }
        let mut k: usize = 0;
        let end: usize = self.len - self.pos;
        proof {
            lemma_first_nul(rem);
        }
        while k < end && *vstd::slice::slice_index_get(self.data, self.pos + k) != 0
            invariant
                self == old(self),
                self.wf(),
                rem == self.remaining(),
                k <= end == rem.len(),
                forall|i: int| 0 <= i < k ==> rem[i] != 0,
                first_nul(rem) >= k,
            decreases end - k,
        {
            proof {
                lemma_first_nul_step(rem, k as int);
            }
            k = k + 1;
        }
        proof {
            lemma_first_nul(rem);
            if k < end {
                assert(rem[k as int] == 0);
                assert(first_nul(rem) == k) by {
                    if first_nul(rem) > k {
                        assert(rem[k as int] != 0);
                    }
                }
            } else {
                assert(first_nul(rem) == rem.len());
            }
        }
        if k == end {
            return Err(Error { inner: ErrorKind::Format });
        }
        let raw: Vec<u8> = vstd::slice::slice_to_vec(
            vstd::slice::slice_subrange(self.data, self.pos, self.pos + k),
        );
        proof {
            assert(raw@ =~= rem.take(k as int));
        }
        match string_from_utf8(raw) {
            Ok(st) => {
                self.pos = self.pos + k + 1;
                Ok(Some(st))
            },
            Err(e) => Err(e),
        }
    }

    /// Reads a packed 32-bit value.
    pub fn read_packed_i32(&mut self) -> (r: Result<i32, Error>)
        requires
            old(self).wf(),
            packed_valid(old(self).remaining(), i32::MIN as int, i32::MAX as int),
        ensures
            final(self).wf(),
            final(self).same_source(old(self)),
            (r matches Ok(v) && {
                &&& v == packed_dec(old(self).remaining())
                &&& final(self).pos == old(self).pos + 1 + packed_payload_len(
                    old(self).remaining()[0])
            }),
    {
        let mut v = PackedI32(0);
        let sub = vstd::slice::slice_subrange(self.data, self.pos, self.len);
        let n = match v.read(sub) {
            Ok(n) => n,
            Err(e) => {
                return Err(e);
            },
        };
        self.pos = self.pos + n;
        Ok(v.0)
    }

    /// Reads a packed 64-bit value.
    pub fn read_packed_i64(&mut self) -> (r: Result<i64, Error>)
        requires
            old(self).wf(),
            packed_valid(old(self).remaining(), i64::MIN as int, i64::MAX as int),
        ensures
            final(self).wf(),
            final(self).same_source(old(self)),
            (r matches Ok(v) && {
                &&& v == packed_dec(old(self).remaining())
                &&& final(self).pos == old(self).pos + 1 + packed_payload_len(
                    old(self).remaining()[0])
            }),
    {
        let mut v = PackedI64(0);
        let sub = vstd::slice::slice_subrange(self.data, self.pos, self.len);
        let n = match v.read(sub) {
            Ok(n) => n,
            Err(e) => {
                return Err(e);
            },
        };
        self.pos = self.pos + n;
        Ok(v.0)
    }
}

/// If the first `k` bytes of `s` are nonzero, the first zero lies beyond `k`.
proof fn lemma_first_nul_step(s: Seq<u8>, k: int)
    requires
        0 <= k < s.len(),
        forall|i: int| 0 <= i <= k ==> s[i] != 0,
    ensures
        first_nul(s) >= k + 1,
    decreases k,
{
    if s.len() == 0 {
    } else {
        if k == 0 {
            lemma_first_nul(s.drop_first());
        } else {
            let d = s.drop_first();
            assert(forall|i: int| 0 <= i <= k - 1 ==> #[trigger] d[i] == s[i + 1]);
            lemma_first_nul_step(d, k - 1);
        }
    }
}


/// A UTF-8 encoding takes at least one byte per character.
pub proof fn lemma_encode_utf8_len_lower(chars: Seq<char>)
    ensures
        vstd::utf8::encode_utf8(chars).len() >= chars.len(),
    decreases chars.len(),
{
    if chars.len() == 0 {
    } else {
        lemma_encode_utf8_len_lower(chars.drop_first());
        assert(vstd::utf8::encode_scalar(chars[0] as u32).len() >= 1);
    }
}

/// A UTF-8 encoding takes at most four bytes per character.
pub proof fn lemma_encode_utf8_len(chars: Seq<char>)
    ensures
        vstd::utf8::encode_utf8(chars).len() <= 4 * chars.len(),
    decreases chars.len(),
{
    if chars.len() == 0 {
    } else {
        lemma_encode_utf8_len(chars.drop_first());
        assert(vstd::utf8::encode_scalar(chars[0] as u32).len() <= 4);
    }
}

/// Stores `b` at `data[pos]`, growing by one when `pos` is at the end.
fn put_at(data: &mut Vec<u8>, pos: usize, b: u8)
    requires
        pos <= old(data)@.len(),
    ensures
        final(data)@ == (if pos == old(data)@.len() {
            old(data)@.push(b)
        } else {
            old(data)@.update(pos as int, b)
        }),
        final(data)@.len() == (if pos == old(data)@.len() {
            old(data)@.len() + 1
        } else {
            old(data)@.len()
        }),
{
    if pos == data.len() {
        data.push(b);
    } else {
        data[pos] = b;
    }
}

/// A writer that appends to an owned byte buffer at its position.
#[derive(Debug, Clone)]
pub struct BufferOutput {
    pub data: Vec<u8>,
    pub off: usize,
    pub pos: usize,
}

impl BufferOutput {
    /// The offset and position lie inside the buffer.
    pub open spec fn wf(&self) -> bool {
        self.off <= self.pos <= self.data@.len()
    }

    /// The bytes written so far, from the offset to the position.
    pub open spec fn written(&self) -> Seq<u8> {
        self.data@.subrange(self.off as int, self.pos as int)
    }

    /// An empty writer.
    pub fn new() -> (r: BufferOutput)
        ensures
            r.wf(),
            r.off == 0,
            r.pos == 0,
            r.written() == Seq::<u8>::empty(),
    {
        let r = BufferOutput { data: Vec::with_capacity(64), off: 0, pos: 0 };
        proof {
            assert(r.written() =~= Seq::<u8>::empty());
        }
        r
    }

    /// A writer whose window starts at `off`; the bytes up to `pos` are
    /// zero-filled.
    pub fn new_offset(off: usize, pos: usize) -> (r: BufferOutput)
        requires
            off <= pos,
        ensures
            r.wf(),
            r.off == off,
            r.pos == pos,
            r.written() =~= Seq::<u8>::new((pos - off) as nat, |i: int| 0u8),
    {
        let mut data: Vec<u8> = Vec::with_capacity(64);
        data.resize(pos, 0);
        let r = BufferOutput { data, off, pos };
        proof {
            assert(r.written() =~= Seq::<u8>::new((pos - off) as nat, |i: int| 0u8));
        }
        r
    }

    /// A writer over an existing buffer, positioned at `pos`.
    pub fn new_from_vec(data: Vec<u8>, off: usize, pos: usize) -> (r: BufferOutput)
        requires
            off <= pos <= data@.len(),
        ensures
            r.wf(),
            r.off == off,
            r.pos == pos,
            r.data@ == data@,
            r.written() == data@.subrange(off as int, pos as int),
    {
        BufferOutput { data, off, pos }
    }

    /// Start of the window.
    pub fn off(&self) -> (r: usize)
        ensures
            r == self.off,
    {
        self.off
    }

    /// The current position.
    pub fn pos(&self) -> (r: usize)
        ensures
            r == self.pos,
    {
        self.pos
    }

    /// Full length of the backing buffer.
    pub fn len(&self) -> (r: usize)
        ensures
            r == self.data@.len(),
    {
        self.data.len()
    }

    /// Number of bytes written so far.
    pub fn size(&self) -> (r: usize)
        requires
            self.wf(),
        ensures
            r == self.written().len(),
    {
        self.pos - self.off
    }

    /// Ensures at least `need_size` bytes of backing store beyond the
    /// position, zero-filling new bytes.
    pub fn require(&mut self, need_size: usize)
        requires
            old(self).wf(),
            old(self).pos + need_size <= usize::MAX,
        ensures
            final(self).wf(),
            final(self).off == old(self).off,
            final(self).pos == old(self).pos,
            final(self).data@.len() >= final(self).pos + need_size,
            final(self).data@.take(old(self).data@.len() as int) == old(self).data@,
            final(self).written() == old(self).written(),
            forall|j: int|
                old(self).data@.len() <= j < final(self).data@.len()
                    ==> #[trigger] final(self).data@[j] == 0,
    {
        if self.data.len() - self.pos < need_size {
            let ghost before = self.data@;
            self.data.resize(self.pos + need_size, 0);
            proof {
                assert(self.data@.take(before.len() as int) =~= before);
                assert(self.data@.subrange(self.off as int, self.pos as int) =~= before.subrange(
                    self.off as int, self.pos as int));
            }
        } else {
            proof {
                assert(self.data@.take(self.data@.len() as int) =~= self.data@);
            }
        }
    }

    /// Appends the bytes of `buf` at the position, overwriting what is there
    /// and growing the buffer as needed.
    pub fn write(&mut self, buf: &[u8])
        requires
            old(self).wf(),
            old(self).pos + buf@.len() <= usize::MAX,
        ensures
            final(self).wf(),
            final(self).off == old(self).off,
            final(self).pos == old(self).pos + buf@.len(),
            final(self).data@.take(final(self).pos as int) == old(self).data@.take(
                old(self).pos as int) + buf@,
            final(self).written() == old(self).written() + buf@,
    {
        let n: usize = buf.len();
        let mut i: usize = 0;
        let ghost data0 = self.data@;
        let ghost pos0 = self.pos;
        proof {
            assert(self.data@.take(self.pos as int) =~= data0.take(pos0 as int) + buf@.take(0));
        }
        while i < n
            invariant
                self.wf(),
                self.off == old(self).off,
                n == buf@.len(),
                i <= n,
                pos0 + n <= usize::MAX,
                self.pos == pos0 + i,
                pos0 == old(self).pos,
                data0 == old(self).data@,
                pos0 <= data0.len(),
                self.data@.take(self.pos as int) == data0.take(pos0 as int) + buf@.take(i as int),
            decreases n - i,
        {
            let b: u8 = *vstd::slice::slice_index_get(buf, i);
            let ghost prev = self.data@;
            let ghost p = self.pos as int;
            put_at(&mut self.data, self.pos, b);
            proof {
                assert(prev.take(p) == data0.take(pos0 as int) + buf@.take(i as int));
                assert(forall|j: int| 0 <= j < p ==> #[trigger] self.data@[j] == prev[j]);
                assert(self.data@[p] == b);
                assert(self.data@.take(p + 1) =~= prev.take(p) + seq![b]);
                assert(buf@.take(i + 1) =~= buf@.take(i as int) + seq![b]);
                assert(self.data@.take(p + 1) =~= data0.take(pos0 as int) + buf@.take(i + 1));
            }
            self.pos = self.pos + 1;
            i = i + 1;
        }
        proof {
            assert(buf@.take(n as int) =~= buf@);
            let whole = data0.take(pos0 as int) + buf@;
            assert(self.data@.take(self.pos as int) == whole);
            assert(forall|j: int| 0 <= j < self.pos ==> #[trigger] self.data@[j]
                == self.data@.take(self.pos as int)[j]);
            assert(self.written() =~= old(self).written() + buf@);
        }
    }

    /// Writes one byte.
    pub fn write_u8(&mut self, v: u8)
        requires
            old(self).wf(),
            old(self).pos + 1 <= usize::MAX,
        ensures
            final(self).wf(),
            final(self).off == old(self).off,
            final(self).pos == old(self).pos + 1,
            final(self).data@.take(final(self).pos as int) == old(self).data@.take(
                old(self).pos as int) + seq![v],
            final(self).written() == old(self).written() + seq![v],
    {
        put_at(&mut self.data, self.pos, v);
        proof {
            assert(self.data@.take(self.pos + 1) =~= old(self).data@.take(old(self).pos as int)
                + seq![v]);
        }
        self.pos = self.pos + 1;
        proof {
            assert(self.written() =~= old(self).written() + seq![v]);
        }
    }
}

impl BufferOutput {
    /// Writes a big-endian `u16`.
    pub fn write_u16(&mut self, v: u16)
        requires
            old(self).wf(),
            old(self).pos + 2 <= usize::MAX,
        ensures
            final(self).wf(),
            final(self).off == old(self).off,
            final(self).pos == old(self).pos + 2,
            final(self).written() == old(self).written() + be_bytes(v as nat, 2),
    {
        let b0: u8 = (v % 256) as u8;
        let v1: u16 = v / 256;
        let b1: u8 = (v1 % 256) as u8;
        self.write_u8(b1);
        self.write_u8(b0);
        proof {
            lemma_be_bytes_one(v1 as nat);
            assert(be_bytes(v1 as nat, 1) =~= seq![b1]);
            assert(be_bytes(v as nat, 2) =~= seq![b1, b0]);
            assert(self.written() =~= old(self).written() + be_bytes(v as nat, 2));
        }
    }

    /// Writes a big-endian `u32`.
    pub fn write_u32(&mut self, v: u32)
        requires
            old(self).wf(),
            old(self).pos + 4 <= usize::MAX,
        ensures
            final(self).wf(),
            final(self).off == old(self).off,
            final(self).pos == old(self).pos + 4,
            final(self).written() == old(self).written() + be_bytes(v as nat, 4),
    {
        let b0: u8 = (v % 256) as u8;
        let v1: u32 = v / 256;
        let b1: u8 = (v1 % 256) as u8;
        let v2: u32 = v1 / 256;
        let b2: u8 = (v2 % 256) as u8;
        let v3: u32 = v2 / 256;
        let b3: u8 = (v3 % 256) as u8;
        self.write_u8(b3);
        self.write_u8(b2);
        self.write_u8(b1);
        self.write_u8(b0);
        proof {
            lemma_be_bytes_one(v3 as nat);
            assert(be_bytes(v3 as nat, 1) =~= seq![b3]);
            assert(be_bytes(v2 as nat, 2) =~= seq![b3, b2]);
            assert(be_bytes(v1 as nat, 3) =~= seq![b3, b2, b1]);
            assert(be_bytes(v as nat, 4) =~= seq![b3, b2, b1, b0]);
            assert(self.written() =~= old(self).written() + be_bytes(v as nat, 4));
        }
    }

    /// Writes a big-endian `u64`.
    pub fn write_u64(&mut self, v: u64)
        requires
            old(self).wf(),
            old(self).pos + 8 <= usize::MAX,
        ensures
            final(self).wf(),
            final(self).off == old(self).off,
            final(self).pos == old(self).pos + 8,
            final(self).written() == old(self).written() + be_bytes(v as nat, 8),
    {
        let b0: u8 = (v % 256) as u8;
        let v1: u64 = v / 256;
        let b1: u8 = (v1 % 256) as u8;
        let v2: u64 = v1 / 256;
        let b2: u8 = (v2 % 256) as u8;
        let v3: u64 = v2 / 256;
        let b3: u8 = (v3 % 256) as u8;
        let v4: u64 = v3 / 256;
        let b4: u8 = (v4 % 256) as u8;
        let v5: u64 = v4 / 256;
        let b5: u8 = (v5 % 256) as u8;
        let v6: u64 = v5 / 256;
        let b6: u8 = (v6 % 256) as u8;
        let v7: u64 = v6 / 256;
        let b7: u8 = (v7 % 256) as u8;
        self.write_u8(b7);
        self.write_u8(b6);
        self.write_u8(b5);
        self.write_u8(b4);
        self.write_u8(b3);
        self.write_u8(b2);
        self.write_u8(b1);
        self.write_u8(b0);
        proof {
            lemma_be_bytes_one(v7 as nat);
            assert(be_bytes(v7 as nat, 1) =~= seq![b7]);
            assert(be_bytes(v6 as nat, 2) =~= seq![b7, b6]);
            assert(be_bytes(v5 as nat, 3) =~= seq![b7, b6, b5]);
            assert(be_bytes(v4 as nat, 4) =~= seq![b7, b6, b5, b4]);
            assert(be_bytes(v3 as nat, 5) =~= seq![b7, b6, b5, b4, b3]);
            assert(be_bytes(v2 as nat, 6) =~= seq![b7, b6, b5, b4, b3, b2]);
            assert(be_bytes(v1 as nat, 7) =~= seq![b7, b6, b5, b4, b3, b2, b1]);
            assert(be_bytes(v as nat, 8) =~= seq![b7, b6, b5, b4, b3, b2, b1, b0]);
            assert(self.written() =~= old(self).written() + be_bytes(v as nat, 8));
        }
    }

    /// Writes a signed byte in two's complement.
    pub fn write_i8(&mut self, v: i8)
        requires
            old(self).wf(),
            old(self).pos + 1 <= usize::MAX,
        ensures
            final(self).wf(),
            final(self).off == old(self).off,
            final(self).pos == old(self).pos + 1,
            final(self).written() == old(self).written() + be_bytes(
                unsigned_of(v as int, 1), 1),
    {
        proof {
            crate::packed_int::lemma_pow256_values();
        }
        let u: u8 = if v >= 0 {
            v as u8
        } else {
            ((v as i16) + 256) as u8
        };
        self.write_u8(u);
        proof {
            lemma_be_bytes_one(unsigned_of(v as int, 1));
            assert(be_bytes(unsigned_of(v as int, 1), 1) =~= seq![u]);
        }
    }

    /// Writes a big-endian signed 16-bit value in two's complement.
    pub fn write_i16(&mut self, v: i16)
        requires
            old(self).wf(),
            old(self).pos + 2 <= usize::MAX,
        ensures
            final(self).wf(),
            final(self).off == old(self).off,
            final(self).pos == old(self).pos + 2,
            final(self).written() == old(self).written() + be_bytes(
                unsigned_of(v as int, 2), 2),
    {
        proof {
            crate::packed_int::lemma_pow256_values();
        }
        let u: u16 = if v >= 0 {
            v as u16
        } else {
            ((v as i32) + 65536) as u16
        };
        self.write_u16(u);
    }

    /// Writes a big-endian signed 32-bit value in two's complement.
    pub fn write_i32(&mut self, v: i32)
        requires
            old(self).wf(),
            old(self).pos + 4 <= usize::MAX,
        ensures
            final(self).wf(),
            final(self).off == old(self).off,
            final(self).pos == old(self).pos + 4,
            final(self).written() == old(self).written() + be_bytes(
                unsigned_of(v as int, 4), 4),
    {
        proof {
            crate::packed_int::lemma_pow256_values();
        }
        let u: u32 = if v >= 0 {
            v as u32
        } else {
            ((v as i64) + 0x1_0000_0000) as u32
        };
        self.write_u32(u);
    }

    /// Writes a big-endian signed 64-bit value in two's complement.
    pub fn write_i64(&mut self, v: i64)
        requires
            old(self).wf(),
            old(self).pos + 8 <= usize::MAX,
        ensures
            final(self).wf(),
            final(self).off == old(self).off,
            final(self).pos == old(self).pos + 8,
            final(self).written() == old(self).written() + be_bytes(
                unsigned_of(v as int, 8), 8),
    {
        proof {
            crate::packed_int::lemma_pow256_values();
        }
        let u: u64 = if v >= 0 {
            v as u64
        } else {
            let d: i64 = -(v + 1);
            u64::MAX - (d as u64)
        };
        self.write_u64(u);
    }

    /// Writes a null-aware string: UTF-8 bytes and a zero terminator for a
    /// present string, the single sentinel byte for a null one.
    pub fn write_str(&mut self, s: Option<&str>)
        requires
            old(self).wf(),
            (s matches Some(t) ==> old(self).pos + t@.len() * 4 + 1 <= usize::MAX),
            old(self).pos + 1 <= usize::MAX,
        ensures
            final(self).wf(),
            final(self).off == old(self).off,
            (s matches Some(t) ==> final(self).written() == old(self).written() + str_enc_some(
                t@)),
            (s is None ==> final(self).written() == old(self).written() + str_enc_none()),
    {
        match s {
            Some(t) => {
                let bytes: &[u8] = t.as_bytes();
                proof {
                    lemma_encode_utf8_len(t@);
                }
                self.write(bytes);
                self.write_u8(0);
                proof {
                    assert(self.written() =~= old(self).written() + str_enc_some(t@));
                }
            },
            None => {
                self.write_u8(255);
                proof {
                    assert(self.written() =~= old(self).written() + str_enc_none());
                }
            },
        }
    }

    /// Writes a null-aware owned string.
    pub fn write_string(&mut self, s: Option<&String>)
        requires
            old(self).wf(),
            (s matches Some(t) ==> old(self).pos + t@.len() * 4 + 1 <= usize::MAX),
            old(self).pos + 1 <= usize::MAX,
        ensures
            final(self).wf(),
            final(self).off == old(self).off,
            (s matches Some(t) ==> final(self).written() == old(self).written() + str_enc_some(
                t@)),
            (s is None ==> final(self).written() == old(self).written() + str_enc_none()),
    {
        match s {
            Some(t) => self.write_str(Some(t.as_str())),
            None => self.write_str(None),
        }
    }

    /// Writes a packed 32-bit value.
    pub fn write_packed_i32(&mut self, v: i32)
        requires
            old(self).wf(),
            old(self).pos + 5 <= usize::MAX,
        ensures
            final(self).wf(),
            final(self).off == old(self).off,
            final(self).pos == old(self).pos + packed_enc(v as int).len(),
            final(self).written() == old(self).written() + packed_enc(v as int),
    {
        self.require(5);
        let ghost d1 = self.data@;
        let ghost p = self.pos as int;
        let val = PackedI32(v);
        let n = match val.write(&mut self.data, self.pos) {
            Ok(n) => n,
            Err(_) => {
                proof {
                    assert(false);
                }
                0
            },
        };
        proof {
            let enc = packed_enc(v as int);
            assert(self.data@.take(p + n) =~= d1.take(p) + enc);
            assert(self.data@.subrange(self.off as int, p + n) =~= d1.subrange(
                self.off as int, p) + enc);
            assert(d1.subrange(self.off as int, p) =~= old(self).written());
        }
        self.pos = self.pos + n;
    }

    /// Writes a packed 64-bit value.
    pub fn write_packed_i64(&mut self, v: i64)
        requires
            old(self).wf(),
            old(self).pos + 9 <= usize::MAX,
        ensures
            final(self).wf(),
            final(self).off == old(self).off,
            final(self).pos == old(self).pos + packed_enc(v as int).len(),
            final(self).written() == old(self).written() + packed_enc(v as int),
    {
        self.require(9);
        let ghost d1 = self.data@;
        let ghost p = self.pos as int;
        let val = PackedI64(v);
        let n = match val.write(&mut self.data, self.pos) {
            Ok(n) => n,
            Err(_) => {
                proof {
                    assert(false);
                }
                0
            },
        };
        proof {
            let enc = packed_enc(v as int);
            assert(self.data@.take(p + n) =~= d1.take(p) + enc);
            assert(self.data@.subrange(self.off as int, p + n) =~= d1.subrange(
                self.off as int, p) + enc);
            assert(d1.subrange(self.off as int, p) =~= old(self).written());
        }
        self.pos = self.pos + n;
    }

    /// Finishes writing: an entry whose logical bytes are what was written.
    pub fn into_entry(self) -> (r: BufferEntry)
        requires
            self.wf(),
        ensures
            r.wf(),
            r.off == self.off,
            r@ == self.written(),
    {
        let off = self.off;
        let size = self.pos - self.off;
        BufferEntry::new(self.data, off, size)
    }
}

/// A value the typed codec can write: its encoding is a function of the
/// value.
pub trait Outputable {
    /// The bytes the value encodes to.
    spec fn enc(&self) -> Seq<u8>;

    /// Writes the value's encoding at the writer's position.
    fn write_to(&self, w: &mut BufferOutput) -> (r: Result<(), Error>)
        requires
            old(w).wf(),
            old(w).pos + 4 * self.enc().len() + 9 <= usize::MAX,
        ensures
            final(w).wf(),
            final(w).off == old(w).off,
            r is Ok,
            final(w).written() == old(w).written() + self.enc(),
    ;
}

/// Encodes a value into a fresh entry.
pub fn to_entry<V: Outputable>(value: &V) -> (r: Result<BufferEntry, Error>)
    requires
        4 * value.enc().len() + 9 <= usize::MAX,
    ensures
        (r matches Ok(e) ==> e.wf() && e@ == value.enc()),
        r is Ok,
{
    let mut w = BufferOutput::new();
    match value.write_to(&mut w) {
        Ok(_) => {},
        Err(e) => {
            return Err(e);
        },
    }
    Ok(w.into_entry())
}

/// A value the typed codec can read back from an entry's leading bytes.
pub trait Inputable: Sized {
    /// Whether the stored bytes decode to a value of this type.
    spec fn dec_some(s: Seq<u8>) -> bool;

    /// Whether `v` is a correct decoding of the stored bytes.
    spec fn dec_matches(s: Seq<u8>, v: Self) -> bool;

    /// Decodes a value from the front of the entry.
    fn from_entry(e: &BufferEntry) -> (r: Result<Self, Error>)
        requires
            e.wf(),
        ensures
            r is Ok <==> Self::dec_some(e@),
            (r matches Ok(v) ==> Self::dec_matches(e@, v)),
    ;
}

impl Outputable for i32 {
    open spec fn enc(&self) -> Seq<u8> {
        be_bytes(unsigned_of(*self as int, 4), 4)
    }

    fn write_to(&self, w: &mut BufferOutput) -> (r: Result<(), Error>) {
        w.write_i32(*self);
        Ok(())
    }
}

impl Inputable for i32 {
    open spec fn dec_some(s: Seq<u8>) -> bool {
        s.len() >= 4
    }

    open spec fn dec_matches(s: Seq<u8>, v: i32) -> bool {
        s.len() >= 4 && v == signed_of(be_val(s.take(4)), 4)
    }

    fn from_entry(e: &BufferEntry) -> (r: Result<i32, Error>) {
        let mut input = BufferInput::new(e.slice());
        proof {
            assert(input.remaining() =~= e@);
        }
        input.read_i32()
    }
}

impl Outputable for i64 {
    open spec fn enc(&self) -> Seq<u8> {
        be_bytes(unsigned_of(*self as int, 8), 8)
    }

    fn write_to(&self, w: &mut BufferOutput) -> (r: Result<(), Error>) {
        w.write_i64(*self);
        Ok(())
    }
}

impl Inputable for i64 {
    open spec fn dec_some(s: Seq<u8>) -> bool {
        s.len() >= 8
    }

    open spec fn dec_matches(s: Seq<u8>, v: i64) -> bool {
        s.len() >= 8 && v == signed_of(be_val(s.take(8)), 8)
    }

    fn from_entry(e: &BufferEntry) -> (r: Result<i64, Error>) {
        let mut input = BufferInput::new(e.slice());
        proof {
            assert(input.remaining() =~= e@);
        }
        input.read_i64()
    }
}

impl<'s> Outputable for &'s str {
    open spec fn enc(&self) -> Seq<u8> {
        str_enc_some(self@)
    }

    fn write_to(&self, w: &mut BufferOutput) -> (r: Result<(), Error>) {
        proof {
            lemma_encode_utf8_len(self@);
            lemma_encode_utf8_len_lower(self@);
        }
        w.write_str(Some(*self));
        Ok(())
    }
}

impl Outputable for String {
    open spec fn enc(&self) -> Seq<u8> {
        str_enc_some(self@)
    }

    fn write_to(&self, w: &mut BufferOutput) -> (r: Result<(), Error>) {
        proof {
            lemma_encode_utf8_len(self@);
            lemma_encode_utf8_len_lower(self@);
        }
        w.write_str(Some(self.as_str()));
        Ok(())
    }
}

impl Inputable for String {
    open spec fn dec_some(s: Seq<u8>) -> bool {
        s.len() >= 1 && (s[0] == spec_utf_null() || {
            let k = first_nul(s);
            k < s.len() && vstd::utf8::valid_utf8(s.take(k))
        })
    }

    open spec fn dec_matches(s: Seq<u8>, v: String) -> bool {
        s.len() >= 1 && {
            if s[0] == spec_utf_null() {
                v@ == Seq::<char>::empty()
            } else {
                vstd::utf8::encode_utf8(v@) == s.take(first_nul(s))
            }
        }
    }

    fn from_entry(e: &BufferEntry) -> (r: Result<String, Error>) {
        let mut input = BufferInput::new(e.slice());
        proof {
            assert(input.remaining() =~= e@);
        }
        let ghost rem = input.remaining();
        let res = input.read_string();
        match res {
            Ok(Some(st)) => {
                proof {
                    lemma_first_nul(rem);
                    assert(rem.len() > 0);
                    assert(rem[0] != spec_utf_null());
                    assert(first_nul(rem) < rem.len());
                    assert(vstd::utf8::encode_utf8(st@) == rem.take(first_nul(rem)));
                    vstd::utf8::encode_utf8_valid_utf8(st@);
                }
                Ok(st)
            },
            Ok(None) => {
                proof {
                    lemma_first_nul(rem);
                    assert(rem.len() > 0 && rem[0] == spec_utf_null());
                }
                Ok(String::new())
            },
            Err(err) => {
                proof {
                    lemma_first_nul(rem);
                    if rem.len() > 0 && rem[0] != spec_utf_null() {
                        let k = first_nul(rem);
                        assert(k == rem.len() || !vstd::utf8::valid_utf8(rem.take(k)));
                    }
                }
                Err(err)
            },
        }
    }
}


/// Round trip of the null-aware string codec: the encoding of NUL-free text
/// decodes, and only back to the same text.
pub proof fn lemma_str_enc_round_trip(chars: Seq<char>)
    requires
        forall|i: int| 0 <= i < chars.len() ==> #[trigger] chars[i] != '\u{0}',
    ensures
        <String as Inputable>::dec_some(str_enc_some(chars)),
        forall|v: String| <String as Inputable>::dec_matches(str_enc_some(chars), v) ==> v@
            == chars,
{
    let enc = vstd::utf8::encode_utf8(chars);
    let s = str_enc_some(chars);
    lemma_encode_utf8_no_nul(chars);
    lemma_encode_utf8_no_sentinel(chars);
    vstd::utf8::encode_utf8_valid_utf8(chars);
    assert(s[enc.len() as int] == 0);
    assert(forall|j: int| 0 <= j < enc.len() ==> #[trigger] s[j] == enc[j]);
    lemma_first_nul_exact(s, enc.len() as int);
    assert(s.take(first_nul(s)) =~= enc);
    if enc.len() == 0 {
        assert(s[0] == 0);
    } else {
        assert(s[0] == enc[0]);
    }
    assert forall|v: String| <String as Inputable>::dec_matches(str_enc_some(chars), v)
        implies v@ == chars by {
        if s[0] == spec_utf_null() {
        } else {
            assert(vstd::utf8::encode_utf8(v@) == enc);
            vstd::utf8::encode_utf8_decode_utf8(v@);
            vstd::utf8::encode_utf8_decode_utf8(chars);
        }
    }
}

/// One typed write, as the codec-composition law quantifies over them.
pub enum TypedValue {
    Byte(u8),
    UShort(u16),
    UInt(u32),
    ULong(u64),
    SByte(i8),
    SShort(i16),
    SInt(i32),
    SLong(i64),
    Text(Option<String>),
    Packed32(i32),
    Packed64(i64),
}

/// A value the composition law covers: text carries no NUL character.
pub open spec fn typed_ok(v: TypedValue) -> bool {
    match v {
        TypedValue::Text(Some(st)) => forall|i: int|
            0 <= i < st@.len() ==> #[trigger] st@[i] != '\u{0}',
        _ => true,
    }
}

/// The bytes one typed write appends.
pub open spec fn typed_enc(v: TypedValue) -> Seq<u8> {
    match v {
        TypedValue::Byte(x) => be_bytes(x as nat, 1),
        TypedValue::UShort(x) => be_bytes(x as nat, 2),
        TypedValue::UInt(x) => be_bytes(x as nat, 4),
        TypedValue::ULong(x) => be_bytes(x as nat, 8),
        TypedValue::SByte(x) => be_bytes(unsigned_of(x as int, 1), 1),
        TypedValue::SShort(x) => be_bytes(unsigned_of(x as int, 2), 2),
        TypedValue::SInt(x) => be_bytes(unsigned_of(x as int, 4), 4),
        TypedValue::SLong(x) => be_bytes(unsigned_of(x as int, 8), 8),
        TypedValue::Text(Some(st)) => str_enc_some(st@),
        TypedValue::Text(None) => str_enc_none(),
        TypedValue::Packed32(x) => packed_enc(x as int),
        TypedValue::Packed64(x) => packed_enc(x as int),
    }
}

/// The bytes a sequence of typed writes appends, in order.
pub open spec fn typed_enc_all(vs: Seq<TypedValue>) -> Seq<u8>
    decreases vs.len(),
{
    if vs.len() == 0 {
        Seq::<u8>::empty()
    } else {
        typed_enc(vs[0]) + typed_enc_all(vs.drop_first())
    }
}

/// Reading the head of `s` with the kind of `v` yields exactly `v`, as each
/// reader's contract states it.
pub open spec fn typed_dec_head(s: Seq<u8>, v: TypedValue) -> bool {
    match v {
        TypedValue::Byte(x) => s.len() >= 1 && x == s[0],
        TypedValue::UShort(x) => s.len() >= 2 && x == be_val(s.take(2)),
        TypedValue::UInt(x) => s.len() >= 4 && x == be_val(s.take(4)),
        TypedValue::ULong(x) => s.len() >= 8 && x == be_val(s.take(8)),
        TypedValue::SByte(x) => s.len() >= 1 && x == signed_of(s[0] as nat, 1),
        TypedValue::SShort(x) => s.len() >= 2 && x == signed_of(be_val(s.take(2)), 2),
        TypedValue::SInt(x) => s.len() >= 4 && x == signed_of(be_val(s.take(4)), 4),
        TypedValue::SLong(x) => s.len() >= 8 && x == signed_of(be_val(s.take(8)), 8),
        TypedValue::Text(Some(st)) => s.len() >= 1 && s[0] != spec_utf_null() && first_nul(s)
            < s.len() && vstd::utf8::encode_utf8(st@) == s.take(first_nul(s)),
        TypedValue::Text(None) => s.len() >= 1 && s[0] == spec_utf_null(),
        TypedValue::Packed32(x) => packed_valid(s, i32::MIN as int, i32::MAX as int) && x
            == packed_dec(s),
        TypedValue::Packed64(x) => packed_valid(s, i64::MIN as int, i64::MAX as int) && x
            == packed_dec(s),
    }
}

/// How many bytes reading the head with the kind of `v` consumes.
pub open spec fn typed_head_len(s: Seq<u8>, v: TypedValue) -> int {
    match v {
        TypedValue::Byte(_) => 1,
        TypedValue::UShort(_) => 2,
        TypedValue::UInt(_) => 4,
        TypedValue::ULong(_) => 8,
        TypedValue::SByte(_) => 1,
        TypedValue::SShort(_) => 2,
        TypedValue::SInt(_) => 4,
        TypedValue::SLong(_) => 8,
        TypedValue::Text(Some(_)) => first_nul(s) + 1,
        TypedValue::Text(None) => 1,
        TypedValue::Packed32(_) => 1 + packed_payload_len(s[0]),
        TypedValue::Packed64(_) => 1 + packed_payload_len(s[0]),
    }
}

/// Reading `vs`'s kinds off the front of `s`, in order, yields exactly the
/// values of `vs`, each read consuming its own encoding.
pub open spec fn typed_dec_all(s: Seq<u8>, vs: Seq<TypedValue>) -> bool
    decreases vs.len(),
{
    if vs.len() == 0 {
        true
    } else {
        &&& typed_dec_head(s, vs[0])
        &&& typed_head_len(s, vs[0]) == typed_enc(vs[0]).len()
        &&& typed_dec_all(s.skip(typed_enc(vs[0]).len() as int), vs.drop_first())
    }
}

/// Reading one value's kind off its own encoding, whatever follows, yields
/// the value and consumes the encoding.
proof fn lemma_typed_head_round_trip(v: TypedValue, rest: Seq<u8>)
    requires
        typed_ok(v),
    ensures
        typed_dec_head(typed_enc(v) + rest, v),
        typed_head_len(typed_enc(v) + rest, v) == typed_enc(v).len(),
    decreases rest.len(),
{
    crate::packed_int::lemma_pow256_values();
    let s = typed_enc(v) + rest;
    match v {
        TypedValue::Byte(x) => {
            lemma_be_bytes_val(x as nat, 1);
            assert(s.take(1) =~= be_bytes(x as nat, 1));
            lemma_be_bytes_one_byte(x as nat);
        },
        TypedValue::UShort(x) => {
            lemma_be_bytes_val(x as nat, 2);
            assert(s.take(2) =~= be_bytes(x as nat, 2));
        },
        TypedValue::UInt(x) => {
            lemma_be_bytes_val(x as nat, 4);
            assert(s.take(4) =~= be_bytes(x as nat, 4));
        },
        TypedValue::ULong(x) => {
            lemma_be_bytes_val(x as nat, 8);
            assert(s.take(8) =~= be_bytes(x as nat, 8));
        },
        TypedValue::SByte(x) => {
            lemma_be_bytes_val(unsigned_of(x as int, 1), 1);
            assert(s.take(1) =~= be_bytes(unsigned_of(x as int, 1), 1));
            lemma_be_bytes_one_byte(unsigned_of(x as int, 1));
        },
        TypedValue::SShort(x) => {
            lemma_be_bytes_val(unsigned_of(x as int, 2), 2);
            assert(s.take(2) =~= be_bytes(unsigned_of(x as int, 2), 2));
        },
        TypedValue::SInt(x) => {
            lemma_be_bytes_val(unsigned_of(x as int, 4), 4);
            assert(s.take(4) =~= be_bytes(unsigned_of(x as int, 4), 4));
        },
        TypedValue::SLong(x) => {
            lemma_be_bytes_val(unsigned_of(x as int, 8), 8);
            assert(s.take(8) =~= be_bytes(unsigned_of(x as int, 8), 8));
        },
        TypedValue::Text(Some(st)) => {
            let enc = vstd::utf8::encode_utf8(st@);
            lemma_encode_utf8_no_nul(st@);
            lemma_encode_utf8_no_sentinel(st@);
            assert(s[enc.len() as int] == 0);
            assert(forall|j: int| 0 <= j < enc.len() ==> #[trigger] s[j] == enc[j]);
            lemma_first_nul_exact(s, enc.len() as int);
            assert(s.take(first_nul(s)) =~= enc);
            if enc.len() == 0 {
                assert(s[0] == 0);
            } else {
                assert(s[0] == enc[0]);
            }
        },
        TypedValue::Text(None) => {
            assert(s[0] == 255);
        },
        TypedValue::Packed32(x) => {
            crate::packed_int::lemma_packed_round_trip(x as int, rest);
            assert(packed_enc(x as int) + rest =~= s);
        },
        TypedValue::Packed64(x) => {
            crate::packed_int::lemma_packed_round_trip(x as int, rest);
            assert(packed_enc(x as int) + rest =~= s);
        },
    }
}

/// A one-byte big-endian sequence holds the value itself.
proof fn lemma_be_bytes_one_byte(m: nat)
    ensures
        be_bytes(m, 1).len() == 1,
        m < 256 ==> be_bytes(m, 1)[0] == m,
{
    assert(be_bytes((m / 256) as nat, 0) =~= Seq::<u8>::empty());
}

/// Codec composition: encoding any sequence of typed writes into one buffer
/// and decoding in the same order reproduces every value, each read
/// consuming exactly its write's bytes.
pub proof fn lemma_codec_composition(vs: Seq<TypedValue>)
    requires
        forall|i: int| 0 <= i < vs.len() ==> typed_ok(#[trigger] vs[i]),
    ensures
        typed_dec_all(typed_enc_all(vs), vs),
    decreases vs.len(),
{
    if vs.len() == 0 {
    } else {
        lemma_typed_head_round_trip(vs[0], typed_enc_all(vs.drop_first()));
        assert(forall|i: int|
            0 <= i < vs.drop_first().len() ==> typed_ok(#[trigger] vs.drop_first()[i]));
        lemma_codec_composition(vs.drop_first());
        assert(typed_enc_all(vs).skip(typed_enc(vs[0]).len() as int) =~= typed_enc_all(
            vs.drop_first()));
    }
}

} // verus!


