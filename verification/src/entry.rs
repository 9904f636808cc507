//! Byte-buffer entries: the unit of key/value interchange.
//!
//! A [`BufferEntry`] owns a byte vector and exposes the window
//! `data[off..len]` as its logical value; a [`SliceEntry`] is the same view
//! over borrowed bytes.  Ordering and equality compare logical byte slices
//! lexicographically.

use vstd::prelude::*;
use vstd::slice::slice_subrange;
use core::cmp::Ordering;

verus! {

/// Lexicographic order on byte sequences: the first differing byte decides;
/// a proper prefix sorts before its extensions.
pub open spec fn lex_cmp(a: Seq<u8>, b: Seq<u8>) -> Ordering
    decreases a.len(),
{
    if a.len() == 0 && b.len() == 0 {
        Ordering::Equal
    } else if a.len() == 0 {
        Ordering::Less
    } else if b.len() == 0 {
        Ordering::Greater
    } else if a[0] < b[0] {
        Ordering::Less
    } else if a[0] > b[0] {
        Ordering::Greater
    } else {
        lex_cmp(a.drop_first(), b.drop_first())
    }
}

/// Two byte sequences compare equal exactly when they are the same sequence.
pub proof fn lemma_lex_cmp_eq(a: Seq<u8>, b: Seq<u8>)
    ensures
        lex_cmp(a, b) == Ordering::Equal <==> a == b,
    decreases a.len(),
{
    if a.len() == 0 && b.len() == 0 {
        assert(a =~= b);
    } else if a.len() == 0 || b.len() == 0 {
    } else if a[0] == b[0] {
        lemma_lex_cmp_eq(a.drop_first(), b.drop_first());
        if lex_cmp(a, b) == Ordering::Equal {
            assert(a.drop_first() == b.drop_first());
            assert(forall|i: int| 0 < i < a.len() ==> #[trigger] a[i] == a.drop_first()[i - 1]);
            assert(forall|i: int| 0 < i < b.len() ==> #[trigger] b[i] == b.drop_first()[i - 1]);
            assert(a =~= b);
        } else {
            if a == b {
                assert(a.drop_first() =~= b.drop_first());
            }
        }
    } else {
        if a == b {
            assert(a[0] == b[0]);
        }
    }
}

/// Swapping the operands of the lexicographic order reverses the answer.
pub proof fn lemma_lex_cmp_antisym(a: Seq<u8>, b: Seq<u8>)
    ensures
        lex_cmp(a, b) == Ordering::Less <==> lex_cmp(b, a) == Ordering::Greater,
    decreases a.len(),
{
    if a.len() == 0 && b.len() == 0 {
    } else if a.len() == 0 || b.len() == 0 {
    } else if a[0] == b[0] {
        lemma_lex_cmp_antisym(a.drop_first(), b.drop_first());
    }
}


/// The lexicographic order is transitive.
pub proof fn lemma_lex_cmp_trans(a: Seq<u8>, b: Seq<u8>, c: Seq<u8>)
    requires
        lex_cmp(a, b) == Ordering::Less,
        lex_cmp(b, c) == Ordering::Less,
    ensures
        lex_cmp(a, c) == Ordering::Less,
    decreases a.len() + b.len() + c.len(),
{
    if a.len() == 0 {
    } else if b.len() == 0 {
    } else if c.len() == 0 {
    } else {
        if a[0] == b[0] && b[0] == c[0] {
            lemma_lex_cmp_trans(a.drop_first(), b.drop_first(), c.drop_first());
        }
    }
}

/// Compares two byte slices in lexicographic order.
pub fn compare_bytes(a: &[u8], b: &[u8]) -> (r: Ordering)
    ensures
        r == lex_cmp(a@, b@),
{
    let a_len: usize = a.len();
    let b_len: usize = b.len();
    let mut i: usize = 0;
    proof {
        assert(a@.skip(0) =~= a@);
        assert(b@.skip(0) =~= b@);
    }
    loop
        invariant
            i <= a_len <= a@.len(),
            i <= b_len <= b@.len(),
            a_len == a@.len(),
            b_len == b@.len(),
            lex_cmp(a@, b@) == lex_cmp(a@.skip(i as int), b@.skip(i as int)),
        decreases a_len - i,
    {
        if i == a_len && i == b_len {
            return Ordering::Equal;
        } else if i == a_len {
            return Ordering::Less;
        } else if i == b_len {
            return Ordering::Greater;
        }
        let x = *vstd::slice::slice_index_get(a, i);
        let y = *vstd::slice::slice_index_get(b, i);
        if x < y {
            return Ordering::Less;
        } else if x > y {
            return Ordering::Greater;
        }
        proof {
            assert(a@.skip(i as int).drop_first() =~= a@.skip(i + 1));
            assert(b@.skip(i as int).drop_first() =~= b@.skip(i + 1));
        }
        i = i + 1;
    }
}

/// A byte buffer with an `(off, len)` window; the logical value is
/// `data[off..len]`.
#[derive(Debug, Clone)]
pub struct BufferEntry {
    pub data: Vec<u8>,
    pub off: usize,
    pub len: usize,
}

impl View for BufferEntry {
    type V = Seq<u8>;

    open spec fn view(&self) -> Seq<u8> {
        self.data@.subrange(self.off as int, self.len as int)
    }
}

impl BufferEntry {
    /// The window must lie inside the backing store.
    pub open spec fn wf(&self) -> bool {
        self.off <= self.len <= self.data@.len()
    }

    /// Builds an entry over `data` whose window starts at `off` and holds
    /// `size` bytes.
    pub fn new(data: Vec<u8>, off: usize, size: usize) -> (r: BufferEntry)
        requires
            off + size <= data@.len(),
        ensures
            r.wf(),
            r@ == data@.subrange(off as int, off + size),
            r.off == off,
            r.data@ == data@,
    {
        let n = data.len();
        assert(off + size <= n);
        let len = off + size;
        BufferEntry { data, off, len }
    }

    /// Builds an entry whose window is the whole of `data`.
    pub fn from_vec(data: Vec<u8>) -> (r: BufferEntry)
        ensures
            r.wf(),
            r@ == data@,
            r.off == 0,
    {
        let len = data.len();
        BufferEntry { data, off: 0, len }
    }

    /// An empty entry.
    pub fn empty() -> (r: BufferEntry)
        ensures
            r.wf(),
            r@ == Seq::<u8>::empty(),
            r.off == 0,
    {
        let r = BufferEntry { data: Vec::new(), off: 0, len: 0 };
        proof {
            assert(r@ =~= Seq::<u8>::empty());
        }
        r
    }

    /// Start of the window in the backing store.
    pub fn off(&self) -> (r: usize)
        ensures
            r == self.off,
    {
        self.off
    }

    /// End of the window in the backing store.
    pub fn len(&self) -> (r: usize)
        ensures
            r == self.len,
    {
        self.len
    }

    /// Number of logical bytes.
    pub fn size(&self) -> (r: usize)
        requires
            self.wf(),
        ensures
            r == self@.len(),
    {
        self.len - self.off
    }

    /// Whether the window is empty.
    pub fn is_empty(&self) -> (r: bool)
        requires
            self.wf(),
        ensures
            r == (self@.len() == 0),
    {
        self.off == self.len
    }

    /// The logical bytes.
    pub fn slice(&self) -> (r: &[u8])
        requires
            self.wf(),
        ensures
            r@ == self@,
    {
        slice_subrange(self.data.as_slice(), self.off, self.len)
    }

    /// Replaces the contents; the window becomes the whole of `data`.
    pub fn set_data(&mut self, data: Vec<u8>)
        ensures
            final(self).wf(),
            final(self)@ == data@,
            final(self).off == 0,
    {
        self.off = 0;
        self.len = data.len();
        self.data = data;
    }

    /// Replaces the contents with an explicit window.
    pub fn set_data_offset(&mut self, data: Vec<u8>, off: usize, size: usize)
        requires
            off + size <= data@.len(),
        ensures
            final(self).wf(),
            final(self)@ == data@.subrange(off as int, off + size),
            final(self).off == off,
    {
        let n = data.len();
        assert(off + size <= n);
        self.off = off;
        self.len = off + size;
        self.data = data;
    }

    /// Takes over another entry's buffer and window.
    pub fn set_buffer(&mut self, buffer: BufferEntry)
        ensures
            *final(self) == buffer,
    {
        self.data = buffer.data;
        self.off = buffer.off;
        self.len = buffer.len;
    }

    /// Moves the window's end to `len`, growing the backing store zero-filled
    /// if needed.
    pub fn set_len(&mut self, len: usize)
        requires
            old(self).wf(),
            len >= old(self).off,
        ensures
            final(self).wf(),
            final(self).off == old(self).off,
            final(self).len == len,
            len <= old(self).data@.len() ==> final(self)@ == old(self).data@.subrange(
                old(self).off as int,
                len as int,
            ),
            len > old(self).data@.len() ==> final(self)@ == old(self).data@.subrange(
                old(self).off as int,
                old(self).data@.len() as int,
            ) + Seq::new((len - old(self).data@.len()) as nat, |i: int| 0u8),
    {
        if len > self.data.len() {
            let ghost data0 = self.data@;
            self.data.resize(len, 0);
            self.len = len;
            proof {
                assert(self@ =~= data0.subrange(self.off as int, data0.len() as int) + Seq::new(
                    (len - data0.len()) as nat,
                    |i: int| 0u8,
                ));
            }
        } else {
            self.len = len;
        }
    }

    /// A borrowed view of the same window.
    pub fn as_slice_entry<'a>(&'a self) -> (r: SliceEntry<'a>)
        requires
            self.wf(),
        ensures
            r.wf(),
            r@ == self@,
            r.off == self.off,
    {
        SliceEntry::new_off(self.data.as_slice(), self.off, self.len - self.off)
    }

    /// The first `n` logical bytes, as a borrowed view.
    pub fn left<'a>(&'a self, n: usize) -> (r: Result<SliceEntry<'a>, crate::error::Error>)
        requires
            self.wf(),
        ensures
            n <= self@.len() ==> (r matches Ok(s) && s.wf() && s@ == self@.take(n as int)
                && s.off == self.off),
            n > self@.len() ==> (r matches Err(e) && e.inner is OutOfBounds),
    {
        if n > self.len - self.off {
            Err(crate::error::Error { inner: crate::error::ErrorKind::OutOfBounds })
        } else {
            let s = SliceEntry::new_off(self.data.as_slice(), self.off, n);
            proof {
                assert(s@ =~= self@.take(n as int));
            }
            Ok(s)
        }
    }


    /// An owning copy with the same logical bytes.
    pub fn duplicate(&self) -> (r: BufferEntry)
        requires
            self.wf(),
        ensures
            r.wf(),
            r@ == self@,
            r.off == 0,
    {
        BufferEntry::from_vec(vstd::slice::slice_to_vec(self.slice()))
    }

    /// Takes the backing vector out of the entry.
    pub fn into_vec(self) -> (r: Vec<u8>)
        ensures
            r@ == self.data@,
    {
        self.data
    }
}

impl PartialEq for BufferEntry {
    /// Logical equality: the windows hold the same bytes.
    fn eq(&self, other: &BufferEntry) -> (r: bool) {
        if !(self.off <= self.len && self.len <= self.data.len()) || !(other.off <= other.len
            && other.len <= other.data.len()) {
            return false;
        }
        let r = matches!(compare_bytes(self.slice(), other.slice()), Ordering::Equal);
        proof {
            lemma_lex_cmp_eq(self@, other@);
        }
        r
    }
}

impl vstd::std_specs::cmp::PartialEqSpecImpl for BufferEntry {
    open spec fn obeys_eq_spec() -> bool {
        true
    }

    open spec fn eq_spec(&self, other: &BufferEntry) -> bool {
        self.wf() && other.wf() && self@ == other@
    }
}

/// A non-owning entry: a borrowed byte slice with the same window semantics.
#[derive(Debug, Clone)]
pub struct SliceEntry<'a> {
    pub data: &'a [u8],
    pub off: usize,
    pub len: usize,
}

impl<'a> View for SliceEntry<'a> {
    type V = Seq<u8>;

    open spec fn view(&self) -> Seq<u8> {
        self.data@.subrange(self.off as int, self.len as int)
    }
}

impl<'a> SliceEntry<'a> {
    /// The window must lie inside the borrowed bytes.
    pub open spec fn wf(&self) -> bool {
        self.off <= self.len <= self.data@.len()
    }

    /// A view of the whole slice.
    pub fn new(data: &'a [u8]) -> (r: SliceEntry<'a>)
        ensures
            r.wf(),
            r@ == data@,
    {
        let len = data.len();
        let r = SliceEntry { data, off: 0, len };
        proof {
            assert(r@ =~= data@);
        }
        r
    }

    /// A view of `data[off..off + size]`.
    pub fn new_off(data: &'a [u8], off: usize, size: usize) -> (r: SliceEntry<'a>)
        requires
            off + size <= data@.len(),
        ensures
            r.wf(),
            r@ == data@.subrange(off as int, off + size),
            r.off == off,
    {
        let n = data.len();
        assert(off + size <= n);
        SliceEntry { data, off, len: off + size }
    }

    /// Start of the window.
    pub fn off(&self) -> (r: usize)
        ensures
            r == self.off,
    {
        self.off
    }

    /// Number of logical bytes.
    pub fn size(&self) -> (r: usize)
        requires
            self.wf(),
        ensures
            r == self@.len(),
    {
        self.len - self.off
    }

    /// Whether the window is empty.
    pub fn is_empty(&self) -> (r: bool)
        requires
            self.wf(),
        ensures
            r == (self@.len() == 0),
    {
        self.off == self.len
    }

    /// The logical bytes.
    pub fn slice(&self) -> (r: &'a [u8])
        requires
            self.wf(),
        ensures
            r@ == self@,
    {
        slice_subrange(self.data, self.off, self.len)
    }

    /// An owning copy of the same logical bytes.
    pub fn to_buffer(&self) -> (r: BufferEntry)
        requires
            self.wf(),
        ensures
            r.wf(),
            r@ == self@,
    {
        BufferEntry::from_vec(vstd::slice::slice_to_vec(self.slice()))
    }
}

impl<'a> PartialEq for SliceEntry<'a> {
    /// Logical equality: the windows hold the same bytes.
    fn eq(&self, other: &SliceEntry<'a>) -> (r: bool) {
        if !(self.off <= self.len && self.len <= self.data.len()) || !(other.off <= other.len
            && other.len <= other.data.len()) {
            return false;
        }
        let r = matches!(compare_bytes(self.slice(), other.slice()), Ordering::Equal);
        proof {
            lemma_lex_cmp_eq(self@, other@);
        }
        r
    }
}

impl<'a> vstd::std_specs::cmp::PartialEqSpecImpl for SliceEntry<'a> {
    open spec fn obeys_eq_spec() -> bool {
        true
    }

    open spec fn eq_spec(&self, other: &SliceEntry<'a>) -> bool {
        self.wf() && other.wf() && self@ == other@
    }
}

/// Lexicographic comparison of two entries' logical bytes.
pub fn compare(key1: &BufferEntry, key2: &BufferEntry) -> (r: Ordering)
    requires
        key1.wf(),
        key2.wf(),
    ensures
        r == lex_cmp(key1@, key2@),
{
    compare_bytes(key1.slice(), key2.slice())
}

/// Whether two string slices hold the same characters, decided by comparing
/// their UTF-8 bytes.
pub fn str_eq(a: &str, b: &str) -> (r: bool)
    ensures
        r == (a@ == b@),
{
    let r = matches!(compare_bytes(a.as_bytes(), b.as_bytes()), Ordering::Equal);
    proof {
        lemma_lex_cmp_eq(vstd::utf8::encode_utf8(a@), vstd::utf8::encode_utf8(b@));
        vstd::utf8::encode_utf8_decode_utf8(a@);
        vstd::utf8::encode_utf8_decode_utf8(b@);
    }
    r
}

} // verus!
