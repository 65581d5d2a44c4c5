//! `ArrayString`: a UTF-8 string kept in a buffer of fixed capacity, and `Drain`,
//! the `char`s removed from one.

use vstd::prelude::*;
use vstd::utf8::*;
use vstd::string::StringSliceAdditionalSpecFns;
use core::marker::PhantomData;
use core::ops::Bound;
use generic_array::ArrayLength;
use crate::capacity::{capacity_of, TypeNum};
use crate::error::{Error, OutOfBounds, Utf8, Utf16};
use crate::utf::{
    char_bytes, char_len, char_starting_at, chars_before_error, decode_char_at, decode_utf16,
    decode_utf16_at, encode_char_at, floor_char_boundary, lemma_ascii_boundaries,
    lemma_boundary, lemma_char_at, lemma_char_bytes, lemma_char_step, lemma_chars_before_error,
    lemma_concat_boundary, lemma_decode_at, lemma_decode_concat, lemma_encode_push,
    lemma_encode_take, lemma_last_char, lemma_push_char, lemma_splice,
    lemma_truncate_at_overflow, lemma_truncate_fits, lemma_truncated, lemma_truncated_concat,
    lemma_truncated_prefix, lossy_chars, somes, str_from_utf8, truncate_len, truncated,
};

verus! {

broadcast use vstd::seq::group_seq_axioms;

/// `typenum::Unsigned::to_u8` on the size type: the number the type stands for, as a `u8`.
/// typenum computes it as 0 for `UTerm` and as `B::to_u8() | U::to_u8() << 1` for `UInt<U, B>`,
/// with a bit giving 0 or 1; in `u8` arithmetic that is `(2 * U + B) % 256`, which is
/// `capacity_of::<S>()`. The shift cannot panic.
#[verifier::external_body]
fn type_capacity<S: ArrayLength<u8> + TypeNum>() -> (r: u8)
    ensures
        r as nat == capacity_of::<S>(),
{
    <S as typenum::Unsigned>::to_u8()
}

/// The space byte, the only byte `trim` removes.
pub const SPACE: u8 = 32;

/// Copies `n` bytes of `buf` from `src` to `dst`; the two ranges may overlap.
fn copy_within(buf: &mut Vec<u8>, src: usize, dst: usize, n: usize)
    requires
        src + n <= old(buf)@.len(),
        dst + n <= old(buf)@.len(),
    ensures
        final(buf)@.len() == old(buf)@.len(),
        final(buf)@.subrange(dst as int, dst + n) == old(buf)@.subrange(src as int, src + n),
        forall|k: int|
            0 <= k < old(buf)@.len() && !(dst <= k < dst + n) ==> #[trigger] final(buf)@[k]
                == old(buf)@[k],
{
    let ghost start = buf@;
    let len = buf.len();
    if dst <= src {
        let mut i: usize = 0;
        while i < n
            invariant
                i <= n,
                src + n <= start.len(),
                dst + n <= start.len(),
                len == start.len(),
                dst <= src,
                buf@.len() == start.len(),
                forall|k: int| 0 <= k < i ==> #[trigger] buf@[dst + k] == start[src + k],
                forall|k: int|
                    0 <= k < start.len() && !(dst <= k < dst + i) ==> #[trigger] buf@[k] == start[k],
            decreases n - i,
        {
            let b = buf[src + i];
            buf[dst + i] = b;
            i += 1;
        }
    } else {
        let mut i: usize = n;
        while i > 0
            invariant
                i <= n,
                src + n <= start.len(),
                dst + n <= start.len(),
                len == start.len(),
                src < dst,
                buf@.len() == start.len(),
                forall|k: int| i <= k < n ==> #[trigger] buf@[dst + k] == start[src + k],
                forall|k: int|
                    0 <= k < start.len() && !(dst + i <= k < dst + n) ==> #[trigger] buf@[k]
                        == start[k],
            decreases i,
        {
            i -= 1;
            let b = buf[src + i];
            buf[dst + i] = b;
        }
    }
    assert forall|j: int| 0 <= j < n implies #[trigger] buf@.subrange(dst as int, dst + n)[j]
        == start.subrange(src as int, src + n)[j] by {
        assert(buf@[dst + j] == start[src + j]);
    }
    assert(buf@.subrange(dst as int, dst + n) =~= start.subrange(src as int, src + n));
}

/// Writes `src` into `buf` at `at`.
fn write_slice(buf: &mut Vec<u8>, at: usize, src: &[u8])
    requires
        at + src@.len() <= old(buf)@.len(),
    ensures
        final(buf)@.len() == old(buf)@.len(),
        final(buf)@.subrange(at as int, at + src@.len()) == src@,
        forall|k: int|
            0 <= k < old(buf)@.len() && !(at <= k < at + src@.len()) ==> #[trigger] final(buf)@[k]
                == old(buf)@[k],
{
    let ghost start = buf@;
    let len = buf.len();
    let n = src.len();
    let mut i: usize = 0;
    while i < n
        invariant
            i <= n,
            n == src@.len(),
            at + n <= start.len(),
            len == start.len(),
            buf@.len() == start.len(),
            forall|k: int| 0 <= k < i ==> #[trigger] buf@[at + k] == src@[k],
            forall|k: int|
                0 <= k < start.len() && !(at <= k < at + i) ==> #[trigger] buf@[k] == start[k],
        decreases n - i,
    {
        buf[at + i] = src[i];
        i += 1;
    }
    assert forall|j: int| 0 <= j < n implies #[trigger] buf@.subrange(at as int, at + n)[j]
        == src@[j] by {
        assert(buf@[at + j] == src@[j]);
    }
    assert(buf@.subrange(at as int, at + n) =~= src@);
}

/// Whether `index` is a `char` boundary of the valid UTF-8 sequence `b`.
fn is_boundary(b: &[u8], index: usize) -> (r: bool)
    requires
        valid_utf8(b@),
    ensures
        r == is_char_boundary(b@, index as int),
{
    proof {
        lemma_boundary(b@, index as int);
    }
    if index == b.len() {
        true
    } else if index > b.len() {
        false
    } else {
        !(0x80 <= b[index] && b[index] <= 0xbf)
    }
}

/// How many bytes of the valid UTF-8 sequence `b` remain when cut to at most `room` bytes
/// without splitting a `char`.
fn truncate_index(b: &[u8], room: usize) -> (k: usize)
    requires
        valid_utf8(b@),
    ensures
        k == truncate_len(b@, room as int),
{
    if room >= b.len() {
        b.len()
    } else {
        let mut k = room;
        while k > 0 && 0x80 <= b[k] && b[k] <= 0xbf
            invariant
                k <= room < b@.len(),
                valid_utf8(b@),
                floor_char_boundary(b@, room as int) == floor_char_boundary(b@, k as int),
            decreases k,
        {
            proof {
                lemma_boundary(b@, k as int);
            }
            k -= 1;
        }
        proof {
            lemma_boundary(b@, k as int);
        }
        k
    }
}

/// Whether the result of a construction is a valid string with the expected bytes, or the expected error.
pub open spec fn outcome_is<SIZE, E>(r: Result<ArrayString<SIZE>, E>, expected: Result<Seq<u8>, E>) -> bool {
    match (r, expected) {
        (Ok(a), Ok(b)) => a.wf() && a@ == b,
        (Err(e), Err(f)) => e == f,
        _ => false,
    }
}

/// Outcome of storing `b` whole in `cap` bytes.
pub open spec fn fit_outcome(b: Seq<u8>, cap: nat) -> Result<Seq<u8>, OutOfBounds> {
    if b.len() <= cap {
        Ok(b)
    } else {
        Err(OutOfBounds)
    }
}

/// Outcome of decoding `bytes` as UTF-8 and storing the result whole in `cap` bytes.
pub open spec fn utf8_outcome(bytes: Seq<u8>, cap: nat) -> Result<Seq<u8>, Error> {
    if !valid_utf8(bytes) {
        Err(Error::Utf8)
    } else if bytes.len() <= cap {
        Ok(bytes)
    } else {
        Err(Error::OutOfBounds)
    }
}

/// The bytes of the string slices `strs`, one after the other.
pub open spec fn concat_strs(strs: Seq<&str>) -> Seq<u8>
    decreases strs.len(),
{
    if strs.len() == 0 {
        Seq::empty()
    } else {
        concat_strs(strs.drop_last()) + strs.last().spec_bytes()
    }
}

/// The concatenation of string slices splits where the list is split, and is valid UTF-8.
pub proof fn lemma_concat_strs_split(strs: Seq<&str>, k: int)
    requires
        0 <= k <= strs.len(),
    ensures
        concat_strs(strs) == concat_strs(strs.take(k)) + concat_strs(strs.skip(k)),
        valid_utf8(concat_strs(strs)),
    decreases strs.len(),
{
    if strs.len() == 0 {
        assert(strs.take(k) =~= strs);
        assert(concat_strs(strs) + concat_strs(strs.skip(k)) =~= concat_strs(strs));
    } else if k == strs.len() {
        lemma_concat_strs_split(strs.drop_last(), 0);
        assert(strs.take(k) =~= strs);
        assert(strs.skip(k) =~= Seq::<&str>::empty());
        assert(concat_strs(strs) + Seq::<u8>::empty() =~= concat_strs(strs));
        encode_utf8_valid_utf8(strs.last()@);
        valid_utf8_concat(concat_strs(strs.drop_last()), strs.last().spec_bytes());
    } else {
        lemma_concat_strs_split(strs.drop_last(), k);
        assert(strs.drop_last().take(k) =~= strs.take(k));
        assert(strs.skip(k).drop_last() =~= strs.drop_last().skip(k));
        assert(strs.skip(k).last() == strs.last());
        assert(concat_strs(strs) =~= concat_strs(strs.take(k)) + concat_strs(strs.skip(k)));
        encode_utf8_valid_utf8(strs.last()@);
        valid_utf8_concat(concat_strs(strs.drop_last()), strs.last().spec_bytes());
    }
}

/// Outcome of decoding `units` as UTF-16 and storing every `char` in `cap` bytes: the first
/// problem met, in order, decides the error.
pub open spec fn utf16_try_outcome(units: Seq<u16>, cap: nat) -> Result<Seq<u8>, Error> {
    let d = decode_utf16(units);
    let good = chars_before_error(d);
    if encode_utf8(good).len() > cap {
        Err(Error::OutOfBounds)
    } else if good.len() < d.len() {
        Err(Error::Utf16)
    } else {
        Ok(encode_utf8(good))
    }
}

/// Outcome of decoding `units` as UTF-16 into `cap` bytes: an error if any unit fails to decode,
/// and otherwise the `char`s that fit, cut at the first that does not.
pub open spec fn utf16_outcome(units: Seq<u16>, cap: nat) -> Result<Seq<u8>, Utf16> {
    let d = decode_utf16(units);
    let good = chars_before_error(d);
    if good.len() < d.len() {
        Err(Utf16)
    } else {
        Ok(truncated(encode_utf8(good), cap as int))
    }
}

#[verifier::external_type_specification]
#[verifier::reject_recursive_types(T)]
pub struct ExBound<T>(Bound<T>);

/// The first byte index a range covers.
pub open spec fn range_start(b: Bound<u8>) -> int {
    match b {
        Bound::Included(t) => t as int,
        Bound::Excluded(t) => if t == u8::MAX { t as int } else { t + 1 },
        Bound::Unbounded => 0,
    }
}

/// The byte index just past a range, for a string of `len` bytes.
pub open spec fn range_end(b: Bound<u8>, len: int) -> int {
    match b {
        Bound::Included(t) => if t == u8::MAX { t as int } else { t + 1 },
        Bound::Excluded(t) => t as int,
        Bound::Unbounded => len,
    }
}

/// `b` without the space bytes it starts with.
pub open spec fn trim_start_spaces(b: Seq<u8>) -> Seq<u8>
    decreases b.len(),
{
    if b.len() > 0 && b[0] == SPACE {
        trim_start_spaces(b.drop_first())
    } else {
        b
    }
}

/// `b` without the space bytes it ends with.
pub open spec fn trim_end_spaces(b: Seq<u8>) -> Seq<u8>
    decreases b.len(),
{
    if b.len() > 0 && b.last() == SPACE {
        trim_end_spaces(b.drop_last())
    } else {
        b
    }
}

/// `b` without the space bytes it starts and ends with.
pub open spec fn trim_spaces(b: Seq<u8>) -> Seq<u8> {
    trim_end_spaces(trim_start_spaces(b))
}

proof fn lemma_trim_start(b: Seq<u8>, st: int)
    requires
        0 <= st <= b.len(),
        forall|j: int| 0 <= j < st ==> b[j] == SPACE,
        st == b.len() || b[st] != SPACE,
    ensures
        trim_start_spaces(b) == b.subrange(st, b.len() as int),
    decreases st,
{
    if st == 0 {
        assert(b.subrange(0, b.len() as int) =~= b);
    } else {
        let t = b.drop_first();
        assert forall|j: int| 0 <= j < st - 1 implies t[j] == SPACE by {
            assert(t[j] == b[j + 1]);
        }
        lemma_trim_start(t, st - 1);
        assert(t.subrange(st - 1, t.len() as int) =~= b.subrange(st, b.len() as int));
    }
}

proof fn lemma_trim_end(b: Seq<u8>, en: int)
    requires
        0 <= en <= b.len(),
        forall|j: int| en <= j < b.len() ==> b[j] == SPACE,
        en == 0 || b[en - 1] != SPACE,
    ensures
        trim_end_spaces(b) == b.subrange(0, en),
    decreases b.len() - en,
{
    if en == b.len() {
        assert(b.subrange(0, en) =~= b);
    } else {
        let t = b.drop_last();
        lemma_trim_end(t, en);
        assert(t.subrange(0, en) =~= b.subrange(0, en));
    }
}

/// The `char`s of `cs` whose entry in `keep` is `true`, in order.
pub open spec fn kept(cs: Seq<char>, keep: Seq<bool>) -> Seq<char>
    decreases cs.len(),
{
    if cs.len() == 0 {
        Seq::empty()
    } else {
        let rest = kept(cs.drop_last(), keep.drop_last());
        if keep.last() {
            rest.push(cs.last())
        } else {
            rest
        }
    }
}

/// A UTF-8 string stored inline in a buffer of `SIZE` bytes.
pub struct ArrayString<SIZE> {
    array: Vec<u8>,
    size: u8,
    cap: u8,
    marker: PhantomData<SIZE>,
}

impl<SIZE> View for ArrayString<SIZE> {
    type V = Seq<u8>;

    /// The bytes of the string.
    closed spec fn view(&self) -> Seq<u8> {
        self.array@.subrange(0, self.used() as int)
    }
}

impl<SIZE> ArrayString<SIZE> {
    /// How many bytes of the buffer the string uses.
    closed spec fn used(&self) -> nat {
        if self.size <= self.array@.len() {
            self.size as nat
        } else {
            self.array@.len()
        }
    }

    /// The string is well formed: its bytes are valid UTF-8 and fit in its capacity.
    pub closed spec fn wf(&self) -> bool {
        &&& self.array@.len() == self.cap as nat
        &&& self.size <= self.cap
        &&& valid_utf8(self@)
    }

    /// How many bytes the string can hold.
    pub closed spec fn capacity(&self) -> nat {
        self.cap as nat
    }

    /// The `char`s of the string.
    pub open spec fn chars(&self) -> Seq<char> {
        decode_utf8(self@)
    }

    /// Facts every well-formed string has.
    pub proof fn lemma_wf(&self)
        requires
            self.wf(),
        ensures
            self@.len() <= self.capacity() <= u8::MAX,
            valid_utf8(self@),
            encode_utf8(self.chars()) == self@,
    {
        decode_utf8_encode_utf8(self@);
    }

    /// An empty string of capacity `cap`.
    fn with_cap(cap: u8) -> (r: Self)
        ensures
            r.wf(),
            r@ == Seq::<u8>::empty(),
            r.capacity() == cap,
    {
        let array = vec![0u8; cap as usize];
        let r = ArrayString { array, size: 0, cap, marker: PhantomData };
        assert(r@ =~= Seq::<u8>::empty());
        r
    }

    /// Returns the length of the string in bytes.
    pub fn len(&self) -> (r: u8)
        requires
            self.wf(),
        ensures
            r as nat == self@.len(),
    {
        self.size
    }

    /// Checks if the string is empty.
    pub fn is_empty(&self) -> (r: bool)
        requires
            self.wf(),
        ensures
            r == (self@.len() == 0),
    {
        self.size == 0
    }

    /// Empties the string.
    pub fn clear(&mut self)
        requires
            old(self).wf(),
        ensures
            final(self).wf(),
            final(self)@ == Seq::<u8>::empty(),
            final(self).capacity() == old(self).capacity(),
    {
        self.size = 0;
        assert(self@ =~= Seq::<u8>::empty());
    }

    /// Extracts a byte slice containing the entire string.
    pub fn as_bytes(&self) -> (r: &[u8])
        requires
            self.wf(),
        ensures
            r@ == self@,
    {
        let (prefix, _) = self.array.as_slice().split_at(self.size as usize);
        prefix
    }

    /// Extracts a string slice containing the entire string.
    pub fn as_str(&self) -> (r: &str)
        requires
            self.wf(),
        ensures
            r.spec_bytes() == self@,
            r@ == self.chars(),
    {
        let bytes = self.as_bytes();
        proof {
            encode_utf8_decode_utf8(self.chars());
            decode_utf8_encode_utf8(self@);
        }
        match str_from_utf8(bytes) {
            Ok(s) => {
                proof {
                    encode_utf8_decode_utf8(s@);
                }
                s
            },
            Err(_) => {
                assert(false);
                ""
            },
        }
    }

    /// Extracts the whole buffer, with every byte past the string set to 0, and the string's length.
    pub fn into_bytes(self) -> (r: (Vec<u8>, u8))
        requires
            self.wf(),
        ensures
            r.0@ == self@ + Seq::new((self.capacity() - self@.len()) as nat, |_i: int| 0u8),
            r.1 as nat == self@.len(),
    {
        let mut array = self.array;
        let mut i = self.size as usize;
        let n = array.len();
        while i < n
            invariant
                self.size <= i <= n,
                n == array@.len(),
                array@.len() == self.cap,
                array@.subrange(0, self.size as int) == self@,
                forall|k: int| self.size <= k < i ==> #[trigger] array@[k] == 0u8,
            decreases n - i,
        {
            array[i] = 0;
            i += 1;
        }
        assert(array@ =~= self@ + Seq::new((self.capacity() - self@.len()) as nat, |_i: int| 0u8));
        (array, self.size)
    }
}

impl<SIZE> ArrayString<SIZE> {
    /// Appends the valid UTF-8 bytes `b`, which fit.
    fn append_bytes(&mut self, b: &[u8])
        requires
            old(self).wf(),
            valid_utf8(b@),
            old(self)@.len() + b@.len() <= old(self).capacity(),
        ensures
            final(self).wf(),
            final(self)@ == old(self)@ + b@,
            final(self).capacity() == old(self).capacity(),
    {
        let ghost before = self@;
        let at = self.size as usize;
        write_slice(&mut self.array, at, b);
        self.size = self.size + b.len() as u8;
        assert(self@ =~= before + b@);
        proof {
            valid_utf8_concat(before, b@);
        }
    }

    /// Pushes a string slice to the end, assuming it fits.
    pub fn push_str_unchecked(&mut self, string: &str)
        requires
            old(self).wf(),
            old(self)@.len() + string.spec_bytes().len() <= old(self).capacity(),
        ensures
            final(self).wf(),
            final(self)@ == old(self)@ + string.spec_bytes(),
            final(self).chars() == old(self).chars() + string@,
            final(self).capacity() == old(self).capacity(),
    {
        let b = string.as_bytes();
        proof {
            encode_utf8_valid_utf8(string@);
        }
        self.append_bytes(b);
        proof {
            lemma_decode_concat(old(self)@, b@);
            encode_utf8_decode_utf8(string@);
        }
    }

    /// Pushes a string slice to the end if the total length stays within the capacity,
    /// otherwise returns an error and leaves the string as it was.
    pub fn try_push_str(&mut self, string: &str) -> (r: Result<(), OutOfBounds>)
        requires
            old(self).wf(),
        ensures
            final(self).wf(),
            final(self).capacity() == old(self).capacity(),
            r is Ok <==> old(self)@.len() + string.spec_bytes().len() <= old(self).capacity(),
            r is Ok ==> final(self)@ == old(self)@ + string.spec_bytes(),
            r is Err ==> *final(self) == *old(self),
    {
        let n = string.as_bytes().len();
        if n <= (self.cap - self.size) as usize {
            self.push_str_unchecked(string);
            Ok(())
        } else {
            Err(OutOfBounds)
        }
    }

    /// Pushes a string slice to the end, cutting it at the last `char` boundary that fits.
    pub fn push_str(&mut self, string: &str)
        requires
            old(self).wf(),
        ensures
            final(self).wf(),
            final(self).capacity() == old(self).capacity(),
            final(self)@ == old(self)@ + truncated(
                string.spec_bytes(),
                old(self).capacity() - old(self)@.len(),
            ),
    {
        let b = string.as_bytes();
        proof {
            encode_utf8_valid_utf8(string@);
        }
        let room = (self.cap - self.size) as usize;
        let k = truncate_index(b, room);
        proof {
            lemma_truncated(b@, room as int);
        }
        let (prefix, _) = b.split_at(k);
        self.append_bytes(prefix);
    }

    /// Pushes a `char` to the end if it fits, otherwise returns an error and leaves the string as it was.
    pub fn try_push(&mut self, character: char) -> (r: Result<(), OutOfBounds>)
        requires
            old(self).wf(),
        ensures
            final(self).wf(),
            final(self).capacity() == old(self).capacity(),
            r is Ok <==> old(self)@.len() + char_bytes(character).len() <= old(self).capacity(),
            r is Ok ==> final(self)@ == old(self)@ + char_bytes(character),
            r is Ok ==> final(self).chars() == old(self).chars().push(character),
            r is Err ==> *final(self) == *old(self),
    {
        let n = char_len(character);
        if n <= self.cap - self.size {
            self.push_unchecked(character);
            Ok(())
        } else {
            Err(OutOfBounds)
        }
    }

    /// Pushes a `char` to the end, assuming it fits.
    pub fn push_unchecked(&mut self, ch: char)
        requires
            old(self).wf(),
            old(self)@.len() + char_bytes(ch).len() <= old(self).capacity(),
        ensures
            final(self).wf(),
            final(self).capacity() == old(self).capacity(),
            final(self)@ == old(self)@ + char_bytes(ch),
            final(self).chars() == old(self).chars().push(ch),
    {
        let ghost before = self@;
        let n = char_len(ch);
        let at = self.size as usize;
        encode_char_at(&mut self.array, at, ch);
        self.size = self.size + n;
        assert(self@ =~= before + char_bytes(ch));
        proof {
            lemma_push_char(before, ch);
        }
    }
}

impl<SIZE: ArrayLength<u8> + TypeNum> ArrayString<SIZE> {
    /// Creates a new empty string, with the capacity its type stands for.
    pub fn new() -> (r: Self)
        ensures
            r.wf(),
            r@ == Seq::<u8>::empty(),
            r.capacity() == capacity_of::<SIZE>(),
    {
        Self::with_cap(type_capacity::<SIZE>())
    }

    /// Creates a string from a string slice if it fits in the capacity, otherwise returns an error.
    pub fn try_from_str(s: &str) -> (r: Result<Self, OutOfBounds>)
        ensures
            outcome_is(r, fit_outcome(s.spec_bytes(), capacity_of::<SIZE>())),
            r matches Ok(a) ==> a.capacity() == capacity_of::<SIZE>(),
    {
        let mut out = Self::new();
        let r = match out.try_push_str(s) {
            Ok(()) => {
                assert(out@ =~= s.spec_bytes());
                Ok(out)
            },
            Err(e) => Err(e),
        };
        assert(outcome_is(r, fit_outcome(s.spec_bytes(), out.capacity())));
        r
    }

    /// Creates a string from a string slice, cutting it at the last `char` boundary that fits.
    pub fn from_str_truncate(string: &str) -> (r: Self)
        ensures
            r.wf(),
            r.capacity() == capacity_of::<SIZE>(),
            r@ == truncated(string.spec_bytes(), r.capacity() as int),
    {
        let mut out = Self::new();
        out.push_str(string);
        assert(out@ =~= truncated(string.spec_bytes(), out.capacity() as int));
        out
    }

    /// Creates a string from a string slice that fits in the capacity.
    /// A slice that does not fit is cut at the last `char` boundary that fits.
    pub fn from_str_unchecked(string: &str) -> (r: Self)
        ensures
            r.wf(),
            r.capacity() == capacity_of::<SIZE>(),
            r@ == truncated(string.spec_bytes(), r.capacity() as int),
            string.spec_bytes().len() <= r.capacity() ==> r@ == string.spec_bytes(),
    {
        let r = Self::from_str_truncate(string);
        proof {
            encode_utf8_valid_utf8(string@);
            lemma_truncated(string.spec_bytes(), r.capacity() as int);
        }
        r
    }

    /// Creates a string from bytes: an error if they are not valid UTF-8 or do not fit.
    pub fn try_from_utf8(slice: &[u8]) -> (r: Result<Self, Error>)
        ensures
            outcome_is(r, utf8_outcome(slice@, capacity_of::<SIZE>())),
            r matches Ok(a) ==> a.capacity() == capacity_of::<SIZE>(),
    {
        match str_from_utf8(slice) {
            Ok(s) => {
                let r = Self::try_from_str(s);
                match r {
                    Ok(a) => {
                        assert(outcome_is(Ok::<Self, Error>(a), utf8_outcome(slice@, a.capacity())));
                        Ok(a)
                    },
                    Err(_) => {
                        let ghost cap = choose|cap: nat|
                            cap <= u8::MAX && outcome_is(r, #[trigger] fit_outcome(s.spec_bytes(), cap))
                                && (r matches Ok(a) ==> a.capacity() == cap);
                        assert(outcome_is(Err::<Self, Error>(Error::OutOfBounds), utf8_outcome(slice@, cap)));
                        Err(Error::OutOfBounds)
                    },
                }
            },
            Err(_) => {
                assert(outcome_is(Err::<Self, Error>(Error::Utf8), utf8_outcome(slice@, 0)));
                Err(Error::Utf8)
            },
        }
    }

    /// Creates a string from bytes: an error if they are not valid UTF-8, otherwise cut at the
    /// last `char` boundary that fits.
    pub fn from_utf8(slice: &[u8]) -> (r: Result<Self, Utf8>)
        ensures
            r is Err <==> !valid_utf8(slice@),
            r matches Ok(a) ==> a.wf() && a@ == truncated(slice@, a.capacity() as int),
            r matches Ok(a) ==> a.capacity() == capacity_of::<SIZE>(),
    {
        match str_from_utf8(slice) {
            Ok(s) => Ok(Self::from_str_truncate(s)),
            Err(_) => Err(Utf8),
        }
    }

    /// Creates a string from bytes that are valid UTF-8 and fit in the capacity.
    /// Bytes that do not fit are cut at the last `char` boundary that fits.
    pub fn from_utf8_unchecked(slice: &[u8]) -> (r: Self)
        requires
            valid_utf8(slice@),
        ensures
            r.wf(),
            r.capacity() == capacity_of::<SIZE>(),
            r@ == truncated(slice@, r.capacity() as int),
            slice@.len() <= r.capacity() ==> r@ == slice@,
    {
        let mut out = Self::new();
        let room = out.cap as usize;
        let k = truncate_index(slice, room);
        proof {
            lemma_truncated(slice@, room as int);
        }
        let (prefix, _) = slice.split_at(k);
        out.append_bytes(prefix);
        assert(out@ =~= truncated(slice@, out.capacity() as int));
        out
    }
}

impl<SIZE: ArrayLength<u8> + TypeNum> ArrayString<SIZE> {
    /// Creates a string from string slices one after the other, if they fit in the capacity,
    /// otherwise returns an error.
    pub fn try_from_iterator(strs: &[&str]) -> (r: Result<Self, OutOfBounds>)
        ensures
            outcome_is(r, fit_outcome(concat_strs(strs@), capacity_of::<SIZE>())),
            r matches Ok(a) ==> a.capacity() == capacity_of::<SIZE>(),
    {
        let mut out = Self::new();
        let n = strs.len();
        let mut i: usize = 0;
        while i < n
            invariant
                i <= n,
                n == strs@.len(),
                out.wf(),
                out.capacity() == capacity_of::<SIZE>(),
                out@ == concat_strs(strs@.take(i as int)),
            decreases n - i,
        {
            assert(strs@.take(i + 1).drop_last() =~= strs@.take(i as int));
            match out.try_push_str(strs[i]) {
                Ok(()) => {},
                Err(e) => {
                    proof {
                        lemma_concat_strs_split(strs@, i + 1);
                    }
                    let r = Err(e);
                    assert(outcome_is(r, fit_outcome(concat_strs(strs@), out.capacity())));
                    return r;
                },
            }
            i += 1;
        }
        assert(strs@.take(n as int) =~= strs@);
        let r = Ok(out);
        assert(outcome_is(r, fit_outcome(concat_strs(strs@), out.capacity())));
        r
    }

    /// Creates a string from string slices one after the other, cut at the last `char` boundary that fits.
    pub fn from_iterator(strs: &[&str]) -> (r: Self)
        ensures
            r.wf(),
            r.capacity() == capacity_of::<SIZE>(),
            r@ == truncated(concat_strs(strs@), r.capacity() as int),
    {
        let mut out = Self::new();
        let n = strs.len();
        let mut i: usize = 0;
        while i < n
            invariant
                i <= n,
                n == strs@.len(),
                out.wf(),
                out.capacity() == capacity_of::<SIZE>(),
                out@ == concat_strs(strs@.take(i as int)),
            decreases n - i,
        {
            assert(strs@.take(i + 1).drop_last() =~= strs@.take(i as int));
            let s = strs[i];
            if out.try_push_str(s).is_err() {
                let ghost before = out@;
                out.push_str(s);
                proof {
                    lemma_concat_strs_split(strs@, i as int);
                    let rest = strs@.skip(i as int);
                    lemma_concat_strs_split(rest, 1);
                    assert(rest.take(1).drop_last() =~= Seq::<&str>::empty());
                    assert(rest.take(1).last() == s);
                    assert(concat_strs(rest.take(1).drop_last()) =~= Seq::<u8>::empty());
                    assert(concat_strs(rest.take(1)) =~= s.spec_bytes());
                    lemma_concat_strs_split(strs@.take(i as int), 0);
                    encode_utf8_valid_utf8(s@);
                    lemma_concat_strs_split(rest.skip(1), 0);
                    lemma_truncated_concat(before, concat_strs(rest), out.capacity() as int);
                    lemma_truncated_prefix(
                        s.spec_bytes(),
                        concat_strs(rest.skip(1)),
                        out.capacity() - before.len(),
                    );
                }
                return out;
            }
            i += 1;
        }
        proof {
            assert(strs@.take(n as int) =~= strs@);
            lemma_concat_strs_split(strs@, 0);
            lemma_truncated(concat_strs(strs@), out.capacity() as int);
        }
        out
    }

    /// Creates a string from string slices one after the other that fit in the capacity.
    /// What does not fit is cut at the last `char` boundary that fits.
    pub fn from_iterator_unchecked(strs: &[&str]) -> (r: Self)
        ensures
            r.wf(),
            r.capacity() == capacity_of::<SIZE>(),
            r@ == truncated(concat_strs(strs@), r.capacity() as int),
            concat_strs(strs@).len() <= r.capacity() ==> r@ == concat_strs(strs@),
    {
        let r = Self::from_iterator(strs);
        proof {
            lemma_concat_strs_split(strs@, 0);
            lemma_truncated(concat_strs(strs@), r.capacity() as int);
        }
        r
    }

    /// Creates a string from `char`s if they fit in the capacity, otherwise returns an error.
    pub fn try_from_chars(chars: &[char]) -> (r: Result<Self, OutOfBounds>)
        ensures
            outcome_is(r, fit_outcome(encode_utf8(chars@), capacity_of::<SIZE>())),
            r matches Ok(a) ==> a.capacity() == capacity_of::<SIZE>(),
    {
        let mut out = Self::new();
        let n = chars.len();
        let mut i: usize = 0;
        while i < n
            invariant
                i <= n,
                n == chars@.len(),
                out.wf(),
                out.capacity() == capacity_of::<SIZE>(),
                out@ == encode_utf8(chars@.take(i as int)),
            decreases n - i,
        {
            let c = chars[i];
            proof {
                assert(chars@.take(i + 1) =~= chars@.take(i as int).push(c));
                lemma_encode_push(chars@.take(i as int), c);
            }
            match out.try_push(c) {
                Ok(()) => {},
                Err(e) => {
                    proof {
                        lemma_encode_take(chars@, i + 1);
                    }
                    let r = Err(e);
                    assert(outcome_is(r, fit_outcome(encode_utf8(chars@), out.capacity())));
                    return r;
                },
            }
            i += 1;
        }
        assert(chars@.take(n as int) =~= chars@);
        let r = Ok(out);
        assert(outcome_is(r, fit_outcome(encode_utf8(chars@), out.capacity())));
        r
    }

    /// Creates a string from the `char`s that fit in the capacity, stopping at the first that does not.
    pub fn from_chars(chars: &[char]) -> (r: Self)
        ensures
            r.wf(),
            r.capacity() == capacity_of::<SIZE>(),
            r@ == truncated(encode_utf8(chars@), r.capacity() as int),
    {
        let mut out = Self::new();
        let n = chars.len();
        let mut i: usize = 0;
        while i < n
            invariant
                i <= n,
                n == chars@.len(),
                out.wf(),
                out.capacity() == capacity_of::<SIZE>(),
                out@ == encode_utf8(chars@.take(i as int)),
            decreases n - i,
        {
            let c = chars[i];
            proof {
                assert(chars@.take(i + 1) =~= chars@.take(i as int).push(c));
                lemma_encode_push(chars@.take(i as int), c);
            }
            if out.try_push(c).is_err() {
                proof {
                    lemma_truncate_at_overflow(chars@, i as int, out.capacity() as int);
                }
                return out;
            }
            i += 1;
        }
        proof {
            assert(chars@.take(n as int) =~= chars@);
            lemma_truncate_fits(chars@, out.capacity() as int);
        }
        out
    }

    /// Creates a string from `char`s that fit in the capacity.
    /// It stops at the first `char` that does not fit.
    pub fn from_chars_unchecked(chars: &[char]) -> (r: Self)
        ensures
            r.wf(),
            r.capacity() == capacity_of::<SIZE>(),
            r@ == truncated(encode_utf8(chars@), r.capacity() as int),
            encode_utf8(chars@).len() <= r.capacity() ==> r@ == encode_utf8(chars@),
    {
        let r = Self::from_chars(chars);
        proof {
            if encode_utf8(chars@).len() <= r.capacity() {
                lemma_truncate_fits(chars@, r.capacity() as int);
            }
        }
        r
    }
}

impl<SIZE: ArrayLength<u8> + TypeNum> ArrayString<SIZE> {
    /// Creates a string from UTF-16 units: an error at the first unpaired surrogate or at the
    /// first `char` that does not fit, whichever comes first.
    pub fn try_from_utf16(slice: &[u16]) -> (r: Result<Self, Error>)
        ensures
            outcome_is(r, utf16_try_outcome(slice@, capacity_of::<SIZE>())),
            r matches Ok(a) ==> a.capacity() == capacity_of::<SIZE>(),
    {
        let ghost d = decode_utf16(slice@);
        let mut out = Self::new();
        let n = slice.len();
        let mut i: usize = 0;
        let ghost mut done: Seq<Option<char>> = Seq::empty();
        assert(slice@.subrange(0, n as int) =~= slice@);
        while i < n
            invariant
                i <= n,
                n == slice@.len(),
                d == decode_utf16(slice@),
                done + decode_utf16(slice@.subrange(i as int, n as int)) == d,
                forall|j: int| 0 <= j < done.len() ==> (#[trigger] done[j]) is Some,
                out.wf(),
                out.capacity() == capacity_of::<SIZE>(),
                out@ == encode_utf8(somes(done)),
            decreases n - i,
        {
            let (item, used) = decode_utf16_at(slice, i);
            let ghost k = done.len() as int;
            proof {
                assert(d.take(k) =~= done);
                assert(d[k] == item);
                assert(d.skip(k) =~= decode_utf16(slice@.subrange(i as int, n as int)));
            }
            match item {
                None => {
                    proof {
                        lemma_chars_before_error(d, k);
                        assert(chars_before_error(d.skip(k)) =~= Seq::<char>::empty());
                        assert(chars_before_error(d) =~= somes(done));
                    }
                    let r = Err(Error::Utf16);
                    assert(outcome_is(r, utf16_try_outcome(slice@, out.capacity())));
                    return r;
                },
                Some(c) => {
                    let ghost before = done;
                    proof {
                        done = done.push(item);
                        assert(somes(done) =~= somes(before).push(c));
                        lemma_encode_push(somes(before), c);
                        assert(done + decode_utf16(slice@.subrange(i + used, n as int)) =~= d);
                    }
                    if out.try_push(c).is_err() {
                        proof {
                            assert(d.take(k + 1) =~= done);
                            lemma_chars_before_error(d, k + 1);
                            let good = chars_before_error(d);
                            assert(good.take(k + 1) =~= somes(done));
                            lemma_encode_take(good, k + 1);
                        }
                        let r = Err(Error::OutOfBounds);
                        assert(outcome_is(r, utf16_try_outcome(slice@, out.capacity())));
                        return r;
                    }
                    i = i + used;
                },
            }
        }
        proof {
            assert(slice@.subrange(n as int, n as int) =~= Seq::<u16>::empty());
            assert(decode_utf16(Seq::<u16>::empty()) =~= Seq::<Option<char>>::empty());
            assert(done =~= d);
            lemma_chars_before_error(d, d.len() as int);
            assert(d.skip(d.len() as int) =~= Seq::<Option<char>>::empty());
            assert(d.take(d.len() as int) =~= d);
            assert(chars_before_error(d) =~= somes(d));
        }
        let r = Ok(out);
        assert(outcome_is(r, utf16_try_outcome(slice@, out.capacity())));
        r
    }

    /// Creates a string from UTF-16 units: an error if any unit fails to decode, and otherwise the
    /// `char`s that fit in the capacity, stopping at the first that does not.
    pub fn from_utf16(slice: &[u16]) -> (r: Result<Self, Utf16>)
        ensures
            outcome_is(r, utf16_outcome(slice@, capacity_of::<SIZE>())),
            r matches Ok(a) ==> a.capacity() == capacity_of::<SIZE>(),
    {
        let ghost d = decode_utf16(slice@);
        let n = slice.len();
        let mut i: usize = 0;
        let ghost mut done: Seq<Option<char>> = Seq::empty();
        assert(slice@.subrange(0, n as int) =~= slice@);
        while i < n
            invariant
                i <= n,
                n == slice@.len(),
                d == decode_utf16(slice@),
                done + decode_utf16(slice@.subrange(i as int, n as int)) == d,
                forall|j: int| 0 <= j < done.len() ==> (#[trigger] done[j]) is Some,
            decreases n - i,
        {
            let (item, used) = decode_utf16_at(slice, i);
            let ghost k = done.len() as int;
            proof {
                assert(d.take(k) =~= done);
                assert(d[k] == item);
                assert(d.skip(k) =~= decode_utf16(slice@.subrange(i as int, n as int)));
            }
            if item.is_none() {
                proof {
                    lemma_chars_before_error(d, k);
                    assert(chars_before_error(d.skip(k)) =~= Seq::<char>::empty());
                    assert(chars_before_error(d).len() == k);
                }
                let r: Result<Self, Utf16> = Err(Utf16);
                assert(outcome_is(r, utf16_outcome(slice@, 0)));
                return r;
            }
            proof {
                done = done.push(item);
                assert(done + decode_utf16(slice@.subrange(i + used, n as int)) =~= d);
            }
            i = i + used;
        }
        let out = Self::from_utf16_lossy(slice);
        proof {
            assert(slice@.subrange(n as int, n as int) =~= Seq::<u16>::empty());
            assert(decode_utf16(Seq::<u16>::empty()) =~= Seq::<Option<char>>::empty());
            assert(done =~= d);
            lemma_chars_before_error(d, d.len() as int);
            assert(d.skip(d.len() as int) =~= Seq::<Option<char>>::empty());
            assert(d.take(d.len() as int) =~= d);
            assert(chars_before_error(d) =~= somes(d));
            assert(lossy_chars(d) =~= somes(d));
        }
        let r = Ok(out);
        assert(outcome_is(r, utf16_outcome(slice@, out.capacity())));
        r
    }

    /// Creates a string from UTF-16 units, with U+FFFD in place of each unpaired surrogate,
    /// stopping at the first `char` that does not fit.
    pub fn from_utf16_lossy(slice: &[u16]) -> (r: Self)
        ensures
            r.wf(),
            r.capacity() == capacity_of::<SIZE>(),
            r@ == truncated(encode_utf8(lossy_chars(decode_utf16(slice@))), r.capacity() as int),
    {
        let ghost d = decode_utf16(slice@);
        let ghost all = lossy_chars(d);
        let mut out = Self::new();
        let n = slice.len();
        let mut i: usize = 0;
        let ghost mut done: Seq<Option<char>> = Seq::empty();
        assert(slice@.subrange(0, n as int) =~= slice@);
        while i < n
            invariant
                i <= n,
                n == slice@.len(),
                d == decode_utf16(slice@),
                all == lossy_chars(d),
                done + decode_utf16(slice@.subrange(i as int, n as int)) == d,
                out.wf(),
                out.capacity() == capacity_of::<SIZE>(),
                out@ == encode_utf8(all.take(done.len() as int)),
            decreases n - i,
        {
            let (item, used) = decode_utf16_at(slice, i);
            let ghost k = done.len() as int;
            proof {
                assert(d.take(k) =~= done);
                assert(d[k] == item);
                assert(d.skip(k) =~= decode_utf16(slice@.subrange(i as int, n as int)));
            }
            let c = match item {
                Some(c) => c,
                None => '\u{FFFD}',
            };
            proof {
                assert(all[k] == c);
                assert(all.take(k + 1) =~= all.take(k).push(c));
                lemma_encode_push(all.take(k), c);
            }
            if out.try_push(c).is_err() {
                proof {
                    lemma_truncate_at_overflow(all, k, out.capacity() as int);
                }
                return out;
            }
            proof {
                done = done.push(item);
                assert(done + decode_utf16(slice@.subrange(i + used, n as int)) =~= d);
            }
            i = i + used;
        }
        proof {
            assert(slice@.subrange(n as int, n as int) =~= Seq::<u16>::empty());
            assert(decode_utf16(Seq::<u16>::empty()) =~= Seq::<Option<char>>::empty());
            assert(done =~= d);
            assert(all.take(d.len() as int) =~= all);
            lemma_truncate_fits(all, out.capacity() as int);
        }
        out
    }
}

impl<SIZE> ArrayString<SIZE> {
    /// Moves the bytes from `end` to the end of the string so that they start at `start + n`,
    /// leaving the `n` bytes from `start` to be written.
    fn open_gap(&mut self, start: u8, end: u8, n: u8)
        requires
            old(self).wf(),
            start <= end <= old(self).size,
            start + n + (old(self).size - end) <= old(self).cap,
        ensures
            final(self).array@.len() == old(self).array@.len(),
            final(self).cap == old(self).cap,
            final(self).size == start + n + (old(self).size - end),
            final(self).array@.subrange(0, start as int) == old(self).array@.subrange(0, start as int),
            final(self).array@.subrange(start + n, final(self).size as int) == old(self).array@.subrange(
                end as int,
                old(self).size as int,
            ),
    {
        let ghost before = self.array@;
        let tail = self.size - end;
        copy_within(&mut self.array, end as usize, (start + n) as usize, tail as usize);
        self.size = start + n + tail;
        assert(self.array@.subrange(0, start as int) =~= before.subrange(0, start as int));
    }

    /// Replaces the bytes from `start` to `end` by `ins`, when the result is valid UTF-8 and fits.
    fn replace_bytes(&mut self, start: u8, end: u8, ins: &[u8])
        requires
            old(self).wf(),
            start <= end <= old(self)@.len(),
            start + ins@.len() + (old(self)@.len() - end) <= old(self).capacity(),
            valid_utf8(
                old(self)@.subrange(0, start as int) + ins@ + old(self)@.subrange(
                    end as int,
                    old(self)@.len() as int,
                ),
            ),
        ensures
            final(self).wf(),
            final(self).capacity() == old(self).capacity(),
            final(self)@ == old(self)@.subrange(0, start as int) + ins@ + old(self)@.subrange(
                end as int,
                old(self)@.len() as int,
            ),
    {
        let ghost before = self@;
        let n = ins.len() as u8;
        self.open_gap(start, end, n);
        let ghost mid = self.array@;
        write_slice(&mut self.array, start as usize, ins);
        assert(self.array@.subrange(0, start as int) =~= mid.subrange(0, start as int));
        assert(self.array@.subrange(start + n, self.size as int) =~= mid.subrange(
            start + n,
            self.size as int,
        ));
        let ghost target = before.subrange(0, start as int) + ins@ + before.subrange(
            end as int,
            before.len() as int,
        );
        assert forall|j: int| 0 <= j < self.size implies #[trigger] self.array@[j] == target[j] by {
            if j < start {
                assert(self.array@[j] == self.array@.subrange(0, start as int)[j]);
                assert(old(self).array@.subrange(0, start as int)[j] == before[j]);
            } else if j < start + n {
                assert(self.array@[j] == self.array@.subrange(start as int, start + n)[j - start]);
            } else {
                assert(self.array@[j] == self.array@.subrange(start + n, self.size as int)[j - start
                    - n]);
                assert(old(self).array@.subrange(end as int, old(self).size as int)[j - start - n]
                    == before[j - start - n + end]);
            }
        }
        assert(self@ =~= target);
    }

    /// Whether `index` is a `char` boundary of the string.
    fn boundary_at(&self, index: u8) -> (r: bool)
        requires
            self.wf(),
        ensures
            r == is_char_boundary(self@, index as int),
    {
        is_boundary(self.as_bytes(), index as usize)
    }

    /// Truncates the string to `size` bytes (to its length if `size` is larger), if that is a
    /// `char` boundary; otherwise returns an error and leaves the string as it was.
    pub fn truncate(&mut self, size: u8) -> (r: Result<(), Utf8>)
        requires
            old(self).wf(),
        ensures
            final(self).wf(),
            final(self).capacity() == old(self).capacity(),
            ({
                let n = if size < old(self)@.len() { size as int } else { old(self)@.len() as int };
                &&& r is Ok <==> is_char_boundary(old(self)@, n)
                &&& r is Ok ==> final(self)@ == old(self)@.subrange(0, n)
                &&& r is Err ==> *final(self) == *old(self)
            }),
    {
        let len = if self.size < size { self.size } else { size };
        if self.boundary_at(len) {
            let ghost before = self@;
            proof {
                valid_utf8_split(before, len as int);
            }
            self.size = len;
            assert(self@ =~= before.subrange(0, len as int));
            Ok(())
        } else {
            Err(Utf8)
        }
    }

    /// Removes the last `char` and returns it, or returns `None` when the string is empty.
    pub fn pop(&mut self) -> (r: Option<char>)
        requires
            old(self).wf(),
        ensures
            final(self).wf(),
            final(self).capacity() == old(self).capacity(),
            old(self)@.len() == 0 ==> r is None && *final(self) == *old(self),
            old(self)@.len() > 0 ==> (r matches Some(c) && old(self).chars()
                == final(self).chars().push(c) && old(self)@ == final(self)@ + char_bytes(c)),
    {
        if self.size == 0 {
            return None;
        }
        let ghost before = self@;
        let mut k: u8 = self.size - 1;
        while k > 0 && 0x80 <= self.array[k as usize] && self.array[k as usize] <= 0xbf
            invariant
                self.wf(),
                before == self@,
                k < self.size,
                forall|j: int| k < j < before.len() ==> !is_char_boundary(before, j),
            decreases k,
        {
            proof {
                lemma_boundary(before, k as int);
                assert(before[k as int] == self.array@[k as int]);
            }
            k -= 1;
        }
        proof {
            lemma_boundary(before, k as int);
            assert(before[k as int] == self.array@[k as int]);
            lemma_last_char(before, k as int);
        }
        let c = decode_char_at(self.array.as_slice(), self.size as usize, k as usize);
        self.size = k;
        assert(self@ =~= before.subrange(0, k as int));
        Some(c)
    }

    /// Removes the `char` at byte index `idx` and returns it: an error if `idx` is not before the end
    /// or not a `char` boundary, and then the string is left as it was.
    pub fn remove(&mut self, idx: u8) -> (r: Result<char, Error>)
        requires
            old(self).wf(),
        ensures
            final(self).wf(),
            final(self).capacity() == old(self).capacity(),
            r == (if idx >= old(self)@.len() {
                Err(Error::OutOfBounds)
            } else if !is_char_boundary(old(self)@, idx as int) {
                Err(Error::Utf8)
            } else {
                Ok(char_starting_at(old(self)@, idx as int))
            }),
            r is Err ==> *final(self) == *old(self),
            r matches Ok(c) ==> {
                &&& old(self)@.subrange(idx as int, idx + char_bytes(c).len()) == char_bytes(c)
                &&& final(self)@ == old(self)@.subrange(0, idx as int) + old(self)@.subrange(
                    idx + char_bytes(c).len(),
                    old(self)@.len() as int,
                )
            },
    {
        if idx >= self.size {
            return Err(Error::OutOfBounds);
        }
        if !self.boundary_at(idx) {
            return Err(Error::Utf8);
        }
        let ghost before = self@;
        let c = decode_char_at(self.array.as_slice(), self.size as usize, idx as usize);
        assert(self.array@.subrange(0, self.size as int) == before);
        let n = char_len(c);
        proof {
            lemma_char_at(before, idx as int);
            lemma_splice(before, idx as int, idx + n, Seq::<u8>::empty());
            assert(before.subrange(0, idx as int) + Seq::<u8>::empty() =~= before.subrange(
                0,
                idx as int,
            ));
        }
        let empty: [u8; 0] = [];
        self.replace_bytes(idx, idx + n, empty.as_slice());
        assert(self@ =~= before.subrange(0, idx as int) + before.subrange(idx + n, before.len() as int));
        Ok(c)
    }
}

impl<SIZE> ArrayString<SIZE> {
    /// Inserts `ch` at byte index `idx`, assuming `idx` is a `char` boundary and it fits.
    pub fn insert_unchecked(&mut self, idx: u8, ch: char)
        requires
            old(self).wf(),
            is_char_boundary(old(self)@, idx as int),
            old(self)@.len() + char_bytes(ch).len() <= old(self).capacity(),
        ensures
            final(self).wf(),
            final(self).capacity() == old(self).capacity(),
            final(self)@ == old(self)@.subrange(0, idx as int) + char_bytes(ch) + old(self)@.subrange(
                idx as int,
                old(self)@.len() as int,
            ),
    {
        let ghost before = self@;
        let n = char_len(ch);
        let mut buf = vec![0u8; 4];
        encode_char_at(&mut buf, 0, ch);
        let (enc, _) = buf.as_slice().split_at(n as usize);
        proof {
            lemma_boundary(before, idx as int);
            lemma_char_bytes(ch);
            lemma_splice(before, idx as int, idx as int, enc@);
        }
        self.replace_bytes(idx, idx, enc);
    }

    /// Inserts `ch` at byte index `idx`: an error if `idx` is past the end, if it does not fit,
    /// or if `idx` is not a `char` boundary, and then the string is left as it was.
    pub fn try_insert(&mut self, idx: u8, ch: char) -> (r: Result<(), Error>)
        requires
            old(self).wf(),
        ensures
            final(self).wf(),
            final(self).capacity() == old(self).capacity(),
            r == (if idx > old(self)@.len() {
                Err(Error::OutOfBounds)
            } else if old(self)@.len() + char_bytes(ch).len() > old(self).capacity() {
                Err(Error::OutOfBounds)
            } else if !is_char_boundary(old(self)@, idx as int) {
                Err(Error::Utf8)
            } else {
                Ok(())
            }),
            r is Err ==> *final(self) == *old(self),
            r is Ok ==> final(self)@ == old(self)@.subrange(0, idx as int) + char_bytes(ch) + old(
                self,
            )@.subrange(idx as int, old(self)@.len() as int),
    {
        if idx > self.size {
            return Err(Error::OutOfBounds);
        }
        if char_len(ch) > self.cap - self.size {
            return Err(Error::OutOfBounds);
        }
        if !self.boundary_at(idx) {
            return Err(Error::Utf8);
        }
        self.insert_unchecked(idx, ch);
        Ok(())
    }

    /// Inserts a string slice at byte index `idx`, assuming `idx` is a `char` boundary and it fits.
    pub fn insert_str_unchecked(&mut self, idx: u8, string: &str)
        requires
            old(self).wf(),
            is_char_boundary(old(self)@, idx as int),
            old(self)@.len() + string.spec_bytes().len() <= old(self).capacity(),
        ensures
            final(self).wf(),
            final(self).capacity() == old(self).capacity(),
            final(self)@ == old(self)@.subrange(0, idx as int) + string.spec_bytes() + old(
                self,
            )@.subrange(idx as int, old(self)@.len() as int),
    {
        let ghost before = self@;
        let b = string.as_bytes();
        proof {
            lemma_boundary(before, idx as int);
            encode_utf8_valid_utf8(string@);
            lemma_splice(before, idx as int, idx as int, b@);
        }
        self.replace_bytes(idx, idx, b);
    }

    /// Inserts a string slice at byte index `idx`: an error if `idx` is past the end, if it does
    /// not fit, or if `idx` is not a `char` boundary, and then the string is left as it was.
    pub fn try_insert_str(&mut self, idx: u8, s: &str) -> (r: Result<(), Error>)
        requires
            old(self).wf(),
        ensures
            final(self).wf(),
            final(self).capacity() == old(self).capacity(),
            r == (if idx > old(self)@.len() {
                Err(Error::OutOfBounds)
            } else if old(self)@.len() + s.spec_bytes().len() > old(self).capacity() {
                Err(Error::OutOfBounds)
            } else if !is_char_boundary(old(self)@, idx as int) {
                Err(Error::Utf8)
            } else {
                Ok(())
            }),
            r is Err ==> *final(self) == *old(self),
            r is Ok ==> final(self)@ == old(self)@.subrange(0, idx as int) + s.spec_bytes() + old(
                self,
            )@.subrange(idx as int, old(self)@.len() as int),
    {
        if idx > self.size {
            return Err(Error::OutOfBounds);
        }
        let n = s.as_bytes().len();
        if n > (self.cap - self.size) as usize {
            return Err(Error::OutOfBounds);
        }
        if !self.boundary_at(idx) {
            return Err(Error::Utf8);
        }
        self.insert_str_unchecked(idx, s);
        Ok(())
    }

    /// Inserts a string slice at byte index `idx`, cut at the last `char` boundary that fits:
    /// an error if `idx` is past the end or not a `char` boundary, and then the string is left as it was.
    pub fn insert_str(&mut self, idx: u8, string: &str) -> (r: Result<(), Error>)
        requires
            old(self).wf(),
        ensures
            final(self).wf(),
            final(self).capacity() == old(self).capacity(),
            r == (if idx > old(self)@.len() {
                Err(Error::OutOfBounds)
            } else if !is_char_boundary(old(self)@, idx as int) {
                Err(Error::Utf8)
            } else {
                Ok(())
            }),
            r is Err ==> *final(self) == *old(self),
            r is Ok ==> final(self)@ == old(self)@.subrange(0, idx as int) + truncated(
                string.spec_bytes(),
                old(self).capacity() - old(self)@.len(),
            ) + old(self)@.subrange(idx as int, old(self)@.len() as int),
    {
        if idx > self.size {
            return Err(Error::OutOfBounds);
        }
        if !self.boundary_at(idx) {
            return Err(Error::Utf8);
        }
        let ghost before = self@;
        let b = string.as_bytes();
        proof {
            encode_utf8_valid_utf8(string@);
        }
        let room = (self.cap - self.size) as usize;
        let k = truncate_index(b, room);
        proof {
            lemma_truncated(b@, room as int);
            lemma_boundary(before, idx as int);
        }
        let (prefix, _) = b.split_at(k);
        proof {
            lemma_splice(before, idx as int, idx as int, prefix@);
        }
        self.replace_bytes(idx, idx, prefix);
        Ok(())
    }

    /// Splits the string at byte index `at`: the string keeps the bytes before `at` and the bytes
    /// from `at` on are returned as a new string of the same capacity. An error if `at` is past
    /// the end or not a `char` boundary, and then the string is left as it was.
    pub fn split_off(&mut self, at: u8) -> (r: Result<Self, Error>)
        requires
            old(self).wf(),
        ensures
            final(self).wf(),
            final(self).capacity() == old(self).capacity(),
            (r is Ok) == (at <= old(self)@.len() && is_char_boundary(old(self)@, at as int)),
            at > old(self)@.len() ==> r == Err::<Self, Error>(Error::OutOfBounds),
            at <= old(self)@.len() && !is_char_boundary(old(self)@, at as int) ==> r == Err::<
                Self,
                Error,
            >(Error::Utf8),
            r is Err ==> *final(self) == *old(self),
            r matches Ok(tail) ==> {
                &&& tail.wf()
                &&& tail.capacity() == old(self).capacity()
                &&& final(self)@ == old(self)@.subrange(0, at as int)
                &&& tail@ == old(self)@.subrange(at as int, old(self)@.len() as int)
            },
    {
        if at > self.size {
            return Err(Error::OutOfBounds);
        }
        if !self.boundary_at(at) {
            return Err(Error::Utf8);
        }
        let ghost before = self@;
        let mut tail = Self::with_cap(self.cap);
        let (_, rest) = self.as_bytes().split_at(at as usize);
        proof {
            valid_utf8_split(before, at as int);
        }
        tail.append_bytes(rest);
        assert(tail@ =~= before.subrange(at as int, before.len() as int));
        self.size = at;
        assert(self@ =~= before.subrange(0, at as int));
        Ok(tail)
    }
}

/// The `char`s removed from a string by `drain`, handed out one at a time.
pub struct Drain<S>(ArrayString<S>, u8);

impl<S> Drain<S> {
    /// The drained string is well formed and the position is a `char` boundary of it when inside it.
    pub closed spec fn wf(&self) -> bool {
        &&& self.0.wf()
        &&& self.1 <= self.0@.len() ==> is_char_boundary(self.0@, self.1 as int)
    }

    /// The bytes held, including those already handed out from the front.
    pub closed spec fn held(&self) -> Seq<u8> {
        self.0@
    }

    /// How many bytes have been handed out from the front.
    pub closed spec fn position(&self) -> nat {
        self.1 as nat
    }

    /// The bytes not yet handed out from the front.
    pub open spec fn remaining(&self) -> Seq<u8> {
        if self.position() <= self.held().len() {
            self.held().subrange(self.position() as int, self.held().len() as int)
        } else {
            Seq::empty()
        }
    }

    /// Extracts a string slice containing every byte held.
    pub fn as_str(&self) -> (r: &str)
        requires
            self.wf(),
        ensures
            r.spec_bytes() == self.held(),
            r@ == decode_utf8(self.held()),
    {
        self.0.as_str()
    }

    /// Hands out the next `char` from the front, or `None` when none is left.
    pub fn next(&mut self) -> (r: Option<char>)
        requires
            old(self).wf(),
        ensures
            final(self).wf(),
            final(self).held() == old(self).held(),
            old(self).remaining().len() == 0 ==> r is None && *final(self) == *old(self),
            old(self).remaining().len() > 0 ==> (r matches Some(c) && old(self).remaining()
                == char_bytes(c) + final(self).remaining() && decode_utf8(old(self).remaining())
                == seq![c] + decode_utf8(final(self).remaining())),
    {
        if self.1 >= self.0.size {
            assert(self.remaining().len() == 0);
            return None;
        }
        let ghost b = self.0@;
        let pos = self.1;
        let c = decode_char_at(self.0.array.as_slice(), self.0.size as usize, pos as usize);
        assert(self.0.array@.subrange(0, self.0.size as int) == b);
        let n = char_len(c);
        proof {
            lemma_char_at(b, pos as int);
            lemma_decode_at(b, pos as int);
        }
        self.1 = pos + n;
        assert(b.subrange(pos as int, b.len() as int) =~= char_bytes(c) + b.subrange(
            pos + n,
            b.len() as int,
        ));
        Some(c)
    }

    /// Hands out the next `char` from the back, or `None` when none is left. The back stops where
    /// the front has got to, so no `char` is handed out twice.
    pub fn next_back(&mut self) -> (r: Option<char>)
        requires
            old(self).wf(),
        ensures
            final(self).wf(),
            final(self).position() == old(self).position(),
            old(self).remaining().len() == 0 ==> r is None && *final(self) == *old(self),
            old(self).remaining().len() > 0 ==> (r matches Some(c) && old(self).remaining()
                == final(self).remaining() + char_bytes(c) && decode_utf8(old(self).remaining())
                == decode_utf8(final(self).remaining()).push(c) && old(self).held()
                == final(self).held() + char_bytes(c)),
    {
        if self.1 >= self.0.size {
            return None;
        }
        let ghost h = self.0@;
        let ghost p = self.1 as int;
        let r = self.0.pop();
        proof {
            if let Some(c) = r {
                let h2 = self.0@;
                lemma_char_bytes(c);
                lemma_concat_boundary(h2, char_bytes(c), p);
                if p > h2.len() {
                    lemma_boundary(char_bytes(c), p - h2.len());
                    assert(char_bytes(c)[p - h2.len()] == h[p]);
                }
                assert(p <= h2.len());
                valid_utf8_split(h2, p);
                let rest = h2.subrange(p, h2.len() as int);
                assert(h.subrange(p, h.len() as int) =~= rest + char_bytes(c));
                lemma_push_char(rest, c);
            }
        }
        r
    }
}

impl<SIZE> ArrayString<SIZE> {
    /// Removes the bytes in `range` and returns them as a `Drain` that hands out their `char`s.
    /// An error if the range is reversed or past the end, or if an end of it is not a `char`
    /// boundary, and then the string is left as it was.
    pub fn drain(&mut self, range: (Bound<u8>, Bound<u8>)) -> (r: Result<Drain<SIZE>, Error>)
        requires
            old(self).wf(),
        ensures
            final(self).wf(),
            final(self).capacity() == old(self).capacity(),
            ({
                let start = range_start(range.0);
                let end = range_end(range.1, old(self)@.len() as int);
                &&& r matches Err(e) ==> e == (if start > end {
                    Error::OutOfBounds
                } else if end > old(self)@.len() {
                    Error::OutOfBounds
                } else {
                    Error::Utf8
                })
                &&& (r is Ok) == (start <= end <= old(self)@.len() && is_char_boundary(
                    old(self)@,
                    start,
                ) && is_char_boundary(old(self)@, end))
                &&& r is Err ==> *final(self) == *old(self)
                &&& r matches Ok(d) ==> {
                    &&& d.wf()
                    &&& d.position() == 0
                    &&& d.held() == old(self)@.subrange(start, end)
                    &&& d.remaining() == old(self)@.subrange(start, end)
                    &&& final(self)@ == old(self)@.subrange(0, start) + old(self)@.subrange(
                        end,
                        old(self)@.len() as int,
                    )
                }
            }),
    {
        let start = match range.0 {
            Bound::Included(t) => t,
            Bound::Excluded(t) => t.saturating_add(1),
            Bound::Unbounded => 0,
        };
        let end = match range.1 {
            Bound::Included(t) => t.saturating_add(1),
            Bound::Excluded(t) => t,
            Bound::Unbounded => self.size,
        };
        if start > end {
            return Err(Error::OutOfBounds);
        }
        if end > self.size {
            return Err(Error::OutOfBounds);
        }
        if !self.boundary_at(start) {
            return Err(Error::Utf8);
        }
        if !self.boundary_at(end) {
            return Err(Error::Utf8);
        }
        let ghost before = self@;
        let mut drained = Self::with_cap(self.cap);
        let (_, from_start) = self.as_bytes().split_at(start as usize);
        let (piece, _) = from_start.split_at((end - start) as usize);
        proof {
            lemma_splice(before, start as int, end as int, Seq::<u8>::empty());
            assert(piece@ =~= before.subrange(start as int, end as int));
            assert(before.subrange(0, start as int) + Seq::<u8>::empty() =~= before.subrange(
                0,
                start as int,
            ));
        }
        drained.append_bytes(piece);
        assert(drained@ =~= before.subrange(start as int, end as int));
        let empty: [u8; 0] = [];
        self.replace_bytes(start, end, empty.as_slice());
        assert(self@ =~= before.subrange(0, start as int) + before.subrange(end as int, before.len() as int));
        let d = Drain(drained, 0);
        proof {
            lemma_boundary(d.0@, 0);
            assert(d.remaining() =~= d.held());
        }
        Ok(d)
    }

    /// Replaces the bytes in `range` by a string slice. An error if the range is reversed or past
    /// the end, if the result would not fit, or if an end of the range is not a `char` boundary,
    /// and then the string is left as it was.
    pub fn replace_range(&mut self, r: (Bound<u8>, Bound<u8>), with: &str) -> (res: Result<(), Error>)
        requires
            old(self).wf(),
        ensures
            final(self).wf(),
            final(self).capacity() == old(self).capacity(),
            ({
                let start = range_start(r.0);
                let end = range_end(r.1, old(self)@.len() as int);
                let len = with.spec_bytes().len() as int;
                &&& res == (if start > end {
                    Err(Error::OutOfBounds)
                } else if end > old(self)@.len() {
                    Err(Error::OutOfBounds)
                } else if old(self)@.len() - (end - start) + len > old(self).capacity() {
                    Err(Error::OutOfBounds)
                } else if !is_char_boundary(old(self)@, start) || !is_char_boundary(old(self)@, end) {
                    Err(Error::Utf8)
                } else {
                    Ok(())
                })
                &&& res is Err ==> *final(self) == *old(self)
                &&& res is Ok ==> final(self)@ == old(self)@.subrange(0, start) + with.spec_bytes()
                    + old(self)@.subrange(end, old(self)@.len() as int)
            }),
    {
        let replace_with = with.as_bytes();
        let start = match r.0 {
            Bound::Included(t) => t,
            Bound::Excluded(t) => t.saturating_add(1),
            Bound::Unbounded => 0,
        };
        let end = match r.1 {
            Bound::Included(t) => t.saturating_add(1),
            Bound::Excluded(t) => t,
            Bound::Unbounded => self.size,
        };
        let len = replace_with.len();
        if start > end {
            return Err(Error::OutOfBounds);
        }
        if end > self.size {
            return Err(Error::OutOfBounds);
        }
        if len > self.cap as usize || ((self.size - (end - start)) as usize) > (self.cap as usize) - len {
            return Err(Error::OutOfBounds);
        }
        if !self.boundary_at(start) {
            return Err(Error::Utf8);
        }
        if !self.boundary_at(end) {
            return Err(Error::Utf8);
        }
        proof {
            encode_utf8_valid_utf8(with@);
            lemma_splice(self@, start as int, end as int, replace_with@);
        }
        self.replace_bytes(start, end, replace_with);
        Ok(())
    }
}

impl<SIZE> ArrayString<SIZE> {
    /// Removes the space bytes from the beginning and the end of the string.
    pub fn trim(&mut self)
        requires
            old(self).wf(),
        ensures
            final(self).wf(),
            final(self).capacity() == old(self).capacity(),
            final(self)@ == trim_spaces(old(self)@),
    {
        let ghost b = self@;
        let mut start: u8 = 0;
        let mut end: u8 = self.size;
        let mut leave: u8 = 0;
        while start < end && leave < 2
            invariant
                self.wf(),
                self@ == b,
                self.array@.subrange(0, self.size as int) == b,
                start <= end <= b.len(),
                leave <= 2,
                forall|j: int| 0 <= j < start ==> b[j] == SPACE,
                forall|j: int| end <= j < b.len() ==> b[j] == SPACE,
                leave == 2 ==> start < end && b[start as int] != SPACE && b[end - 1] != SPACE,
            decreases 3 * (end - start) + (2 - leave),
        {
            leave = 0;
            assert(self.array@[start as int] == b[start as int]);
            if self.array[start as usize] == SPACE {
                start = start + 1;
                if start >= end {
                    continue ;
                }
            } else {
                leave = leave + 1;
            }
            assert(self.array@[end - 1] == b[end - 1]);
            if start < end && self.array[(end - 1) as usize] == SPACE {
                end = end - 1;
            } else {
                leave = leave + 1;
            }
        }
        proof {
            lemma_boundary(b, 0);
            lemma_boundary(b, b.len() as int);
            if start > 0 {
                lemma_ascii_boundaries(b, start - 1);
            }
            if end < b.len() {
                lemma_ascii_boundaries(b, end as int);
            }
            lemma_splice(b, start as int, end as int, Seq::<u8>::empty());
            if start == end {
                lemma_trim_start(b, b.len() as int);
                assert(b.subrange(b.len() as int, b.len() as int) =~= Seq::<u8>::empty());
                assert(b.subrange(start as int, end as int) =~= Seq::<u8>::empty());
            } else {
                lemma_trim_start(b, start as int);
                let c = b.subrange(start as int, b.len() as int);
                lemma_trim_end(c, end - start);
                assert(c.subrange(0, end - start) =~= b.subrange(start as int, end as int));
            }
        }
        let n = end - start;
        copy_within(&mut self.array, start as usize, 0, n as usize);
        self.size = n;
        assert(self@ =~= b.subrange(start as int, end as int));
    }

    /// Keeps only the `char`s for which `f` returns `true`.
    pub fn retain<F: Fn(char) -> bool>(&mut self, f: F)
        requires
            old(self).wf(),
            forall|c: char| f.requires((c,)),
        ensures
            final(self).wf(),
            final(self).capacity() == old(self).capacity(),
            exists|keep: Seq<bool>|
                {
                    &&& keep.len() == old(self).chars().len()
                    &&& forall|i: int|
                        0 <= i < keep.len() ==> f.ensures((old(self).chars()[i],), #[trigger] keep[i])
                    &&& final(self).chars() == kept(old(self).chars(), keep)
                },
    {
        let ghost b = self@;
        let ghost cs = self.chars();
        let mut out = Self::with_cap(self.cap);
        let mut pos: u8 = 0;
        let ghost mut keep: Seq<bool> = Seq::empty();
        proof {
            lemma_boundary(b, 0);
            assert(b.subrange(0, 0) =~= Seq::<u8>::empty());
            assert(cs.take(0) =~= Seq::<char>::empty());
        }
        while pos < self.size
            invariant
                self.wf(),
                self@ == b,
                cs == decode_utf8(b),
                self.array@.subrange(0, self.size as int) == b,
                forall|c: char| f.requires((c,)),
                pos <= b.len(),
                is_char_boundary(b, pos as int),
                keep.len() <= cs.len(),
                decode_utf8(b.subrange(0, pos as int)) == cs.take(keep.len() as int),
                forall|i: int| 0 <= i < keep.len() ==> f.ensures((cs[i],), #[trigger] keep[i]),
                out.wf(),
                out.capacity() == self.capacity(),
                out.chars() == kept(cs.take(keep.len() as int), keep),
                out@.len() <= pos,
            decreases b.len() - pos,
        {
            let ghost k = keep.len() as int;
            let c = decode_char_at(self.array.as_slice(), self.size as usize, pos as usize);
            let n = char_len(c);
            proof {
                lemma_char_step(b, pos as int);
                assert(cs =~= cs.take(k) + decode_utf8(b.subrange(pos as int, b.len() as int)));
                assert(cs[k] == c);
                assert(cs.take(k + 1) =~= cs.take(k).push(c));
            }
            let keep_c = f(c);
            if keep_c {
                out.push_unchecked(c);
            }
            proof {
                let new_keep = keep.push(keep_c);
                assert(cs.take(k + 1).drop_last() =~= cs.take(k));
                assert(new_keep.drop_last() =~= keep);
                assert(forall|i: int| 0 <= i < k ==> new_keep[i] == keep[i]);
                keep = new_keep;
            }
            pos = pos + n;
        }
        proof {
            assert(b.subrange(0, b.len() as int) =~= b);
            assert(cs.take(keep.len() as int).len() == keep.len());
            assert(cs.take(keep.len() as int) =~= cs);
        }
        *self = out;
    }
}

impl<SIZE> Clone for ArrayString<SIZE> {
    /// A copy of the string, with the same capacity.
    fn clone(&self) -> (r: Self)
        ensures
            r@ == self@,
            r.capacity() == self.capacity(),
            self.wf() ==> r.wf(),
    {
        let array = self.array.clone();
        assert(array@ =~= self.array@);
        ArrayString { array, size: self.size, cap: self.cap, marker: PhantomData }
    }
}

impl<SIZE> PartialEq for ArrayString<SIZE> {
    /// Two strings are equal when they hold the same bytes.
    fn eq(&self, other: &Self) -> (r: bool)
        ensures
            r == (self@ == other@),
    {
        let a = self.array.as_slice();
        let b = other.array.as_slice();
        let n = if (self.size as usize) <= a.len() { self.size as usize } else { a.len() };
        let m = if (other.size as usize) <= b.len() { other.size as usize } else { b.len() };
        if n != m {
            assert(self@.len() != other@.len());
            return false;
        }
        let mut i: usize = 0;
        while i < n
            invariant
                i <= n,
                n == m,
                n == self@.len(),
                m == other@.len(),
                a@ == self.array@,
                b@ == other.array@,
                n <= a@.len(),
                m <= b@.len(),
                forall|j: int| 0 <= j < i ==> self@[j] == other@[j],
            decreases n - i,
        {
            if a[i] != b[i] {
                assert(self@[i as int] != other@[i as int]);
                return false;
            }
            i += 1;
        }
        assert(self@ =~= other@);
        true
    }
}

impl<SIZE> vstd::std_specs::cmp::PartialEqSpecImpl for ArrayString<SIZE> {
    open spec fn obeys_eq_spec() -> bool {
        true
    }

    open spec fn eq_spec(&self, other: &Self) -> bool {
        self@ == other@
    }
}

impl<S> Clone for Drain<S> {
    /// A copy holding the same bytes, at the same position.
    fn clone(&self) -> (r: Self)
        ensures
            r.held() == self.held(),
            r.position() == self.position(),
            self.wf() ==> r.wf(),
    {
        Drain(self.0.clone(), self.1)
    }
}

impl<S> PartialEq for Drain<S> {
    /// Two drains are equal when they hold the same bytes at the same position.
    fn eq(&self, other: &Self) -> (r: bool)
        ensures
            r == (self.held() == other.held() && self.position() == other.position()),
    {
        self.0 == other.0 && self.1 == other.1
    }
}

impl<S> vstd::std_specs::cmp::PartialEqSpecImpl for Drain<S> {
    open spec fn obeys_eq_spec() -> bool {
        true
    }

    open spec fn eq_spec(&self, other: &Self) -> bool {
        self.held() == other.held() && self.position() == other.position()
    }
}

} // verus!
