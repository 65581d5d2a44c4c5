//! UTF-8 facts the string operations rest on: the encoding of one `char`,
//! where characters start, and how a byte sequence is cut at a `char` boundary.

use vstd::prelude::*;
use vstd::utf8::*;
use vstd::string::StringSliceAdditionalSpecFns;

verus! {

broadcast use vstd::seq::group_seq_axioms;

/// The UTF-8 encoding of one `char`.
pub open spec fn char_bytes(c: char) -> Seq<u8> {
    encode_scalar(c as u32)
}

/// The greatest `char` boundary of `b` that is not above `n` (0 when `n` is not positive).
pub open spec fn floor_char_boundary(b: Seq<u8>, n: int) -> int
    decreases n,
{
    if n <= 0 {
        0
    } else if is_char_boundary(b, n) {
        n
    } else {
        floor_char_boundary(b, n - 1)
    }
}

/// How many bytes of `b` remain when it is cut to at most `room` bytes without splitting a `char`.
pub open spec fn truncate_len(b: Seq<u8>, room: int) -> int {
    if room >= b.len() {
        b.len() as int
    } else {
        floor_char_boundary(b, room)
    }
}

/// `b` cut to at most `room` bytes without splitting a `char`.
pub open spec fn truncated(b: Seq<u8>, room: int) -> Seq<u8> {
    b.subrange(0, truncate_len(b, room))
}

/// Inside a valid UTF-8 sequence, whether an index starts a `char` depends on that byte alone.
pub proof fn lemma_boundary(b: Seq<u8>, i: int)
    requires
        valid_utf8(b),
    ensures
        is_char_boundary(b, 0),
        is_char_boundary(b, b.len() as int),
        0 <= i < b.len() ==> (is_char_boundary(b, i) <==> !is_continuation_byte(b[i])),
        (i < 0 || i > b.len()) ==> !is_char_boundary(b, i),
{
    is_char_boundary_start_end_of_seq(b);
    if 0 <= i < b.len() {
        is_char_boundary_iff_not_is_continuation_byte(b, i);
    }
}

/// A nonempty valid UTF-8 sequence does not start with a continuation byte.
pub proof fn lemma_first_not_continuation(b: Seq<u8>)
    requires
        valid_utf8(b),
        b.len() > 0,
    ensures
        !is_continuation_byte(b[0]),
{
    assert(valid_first_scalar(b));
}

/// Facts on the encoding of one `char`.
pub proof fn lemma_char_bytes(c: char)
    ensures
        valid_utf8(char_bytes(c)),
        decode_utf8(char_bytes(c)) == seq![c],
        encode_utf8(seq![c]) == char_bytes(c),
        1 <= char_bytes(c).len() <= 4,
        !is_continuation_byte(char_bytes(c)[0]),
        forall|k: int| 1 <= k < char_bytes(c).len() ==> is_continuation_byte(#[trigger] char_bytes(c)[k]),
{
    let s = seq![c];
    assert(s.drop_first() =~= Seq::<char>::empty());
    assert(encode_utf8(s) =~= char_bytes(c) + encode_utf8(Seq::<char>::empty()));
    assert(encode_utf8(s) =~= char_bytes(c));
    encode_utf8_valid_utf8(s);
    encode_utf8_decode_utf8(s);
    char_is_scalar(c);
    let v = c as u32;
    if has_width_1_encoding(v) {
        assert(is_leading_byte_width_1(leading_byte_width_1(v))) by (bit_vector)
            requires 0 <= v <= 0x7F;
    } else if has_width_2_encoding(v) {
        assert(is_leading_byte_width_2(leading_byte_width_2(v)) && is_continuation_byte(
            last_continuation_byte(v),
        )) by (bit_vector)
            requires 0x80 <= v <= 0x7FF;
    } else if has_width_3_encoding(v) {
        assert(is_leading_byte_width_3(leading_byte_width_3(v)) && is_continuation_byte(
            second_last_continuation_byte(v),
        ) && is_continuation_byte(last_continuation_byte(v))) by (bit_vector)
            requires 0x800 <= v <= 0xFFFF;
    } else {
        assert(is_leading_byte_width_4(leading_byte_width_4(v)) && is_continuation_byte(
            third_last_continuation_byte(v),
        ) && is_continuation_byte(second_last_continuation_byte(v)) && is_continuation_byte(
            last_continuation_byte(v),
        )) by (bit_vector)
            requires 0x10000 <= v <= 0x10FFFF;
    }
}

/// Boundaries of a concatenation of two valid sequences are those of each part.
pub proof fn lemma_concat_boundary(x: Seq<u8>, y: Seq<u8>, i: int)
    requires
        valid_utf8(x),
        valid_utf8(y),
    ensures
        valid_utf8(x + y),
        0 <= i <= x.len() ==> (is_char_boundary(x + y, i) <==> is_char_boundary(x, i)),
        x.len() <= i <= x.len() + y.len() ==> (is_char_boundary(x + y, i) <==> is_char_boundary(
            y,
            i - x.len(),
        )),
{
    valid_utf8_concat(x, y);
    let z = x + y;
    lemma_boundary(z, i);
    lemma_boundary(x, i);
    lemma_boundary(y, i - x.len());
    if i == x.len() && y.len() > 0 {
        lemma_first_not_continuation(y);
    }
}

/// Decoding distributes over the concatenation of two valid sequences.
pub proof fn lemma_decode_concat(x: Seq<u8>, y: Seq<u8>)
    requires
        valid_utf8(x),
        valid_utf8(y),
    ensures
        valid_utf8(x + y),
        decode_utf8(x + y) == decode_utf8(x) + decode_utf8(y),
{
    let z = x + y;
    lemma_concat_boundary(x, y, x.len() as int);
    lemma_boundary(x, x.len() as int);
    decode_utf8_split(z, x.len() as int);
    assert(z.subrange(0, x.len() as int) =~= x);
    assert(z.subrange(x.len() as int, z.len() as int) =~= y);
}

/// Encoding distributes over concatenation of `char` sequences.
pub proof fn lemma_encode_concat(a: Seq<char>, b: Seq<char>)
    ensures
        encode_utf8(a + b) == encode_utf8(a) + encode_utf8(b),
    decreases a.len(),
{
    if a.len() == 0 {
        assert(a + b =~= b);
        assert(encode_utf8(a) =~= Seq::<u8>::empty());
        assert(encode_utf8(a) + encode_utf8(b) =~= encode_utf8(b));
    } else {
        lemma_encode_concat(a.drop_first(), b);
        assert((a + b).drop_first() =~= a.drop_first() + b);
        assert((a + b)[0] == a[0]);
        assert(encode_utf8(a + b) =~= encode_scalar(a[0] as u32) + encode_utf8(a.drop_first() + b));
        assert(encode_utf8(a) =~= encode_scalar(a[0] as u32) + encode_utf8(a.drop_first()));
    }
}

/// Encoding a sequence with one more `char` appends that `char`'s bytes.
pub proof fn lemma_encode_push(a: Seq<char>, c: char)
    ensures
        encode_utf8(a.push(c)) == encode_utf8(a) + char_bytes(c),
{
    lemma_encode_concat(a, seq![c]);
    lemma_char_bytes(c);
    assert(a.push(c) =~= a + seq![c]);
}

/// The floor boundary is a boundary, not above `n`, with no boundary between it and `n`.
pub proof fn lemma_floor_char_boundary(b: Seq<u8>, n: int)
    requires
        valid_utf8(b),
        0 <= n <= b.len(),
    ensures
        0 <= floor_char_boundary(b, n) <= n,
        is_char_boundary(b, floor_char_boundary(b, n)),
        forall|j: int| floor_char_boundary(b, n) < j <= n ==> !is_char_boundary(b, j),
    decreases n,
{
    lemma_boundary(b, 0);
    if n > 0 && !is_char_boundary(b, n) {
        lemma_floor_char_boundary(b, n - 1);
    }
}

/// Cutting a valid sequence gives a valid prefix no longer than the room.
pub proof fn lemma_truncated(b: Seq<u8>, room: int)
    requires
        valid_utf8(b),
        room >= 0,
    ensures
        0 <= truncate_len(b, room) <= b.len(),
        truncate_len(b, room) <= room,
        is_char_boundary(b, truncate_len(b, room)),
        valid_utf8(truncated(b, room)),
        room >= b.len() ==> truncated(b, room) == b,
{
    lemma_boundary(b, b.len() as int);
    if room < b.len() {
        lemma_floor_char_boundary(b, room);
    }
    valid_utf8_split(b, truncate_len(b, room));
    assert(b.subrange(0, b.len() as int) =~= b);
}

/// Below the length of a sequence's first `char`, the floor boundary is 0.
pub proof fn lemma_floor_inside_first_char(c: char, y: Seq<u8>, m: int)
    requires
        valid_utf8(y),
        0 <= m < char_bytes(c).len(),
    ensures
        floor_char_boundary(char_bytes(c) + y, m) == 0,
    decreases m,
{
    lemma_char_bytes(c);
    let z = char_bytes(c) + y;
    if m > 0 {
        lemma_concat_boundary(char_bytes(c), y, m);
        lemma_boundary(char_bytes(c), m);
        assert(z[m] == char_bytes(c)[m]);
        lemma_floor_inside_first_char(c, y, m - 1);
    }
}

/// Cutting `x + y` inside `y` keeps `x` whole and cuts `y`.
pub proof fn lemma_floor_concat(x: Seq<u8>, y: Seq<u8>, n: int)
    requires
        valid_utf8(x),
        valid_utf8(y),
        x.len() <= n <= x.len() + y.len(),
    ensures
        floor_char_boundary(x + y, n) == x.len() + floor_char_boundary(y, n - x.len()),
    decreases n,
{
    lemma_concat_boundary(x, y, n);
    lemma_boundary(y, 0);
    if n > 0 && n > x.len() && !is_char_boundary(x + y, n) {
        lemma_floor_concat(x, y, n - 1);
    } else if n > 0 && n == x.len() {
        lemma_boundary(x, x.len() as int);
    }
}

/// Cutting a concatenation that overflows inside `y` equals `x` followed by the cut of `y`.
pub proof fn lemma_truncated_concat(x: Seq<u8>, y: Seq<u8>, room: int)
    requires
        valid_utf8(x),
        valid_utf8(y),
        x.len() <= room,
    ensures
        truncated(x + y, room) == x + truncated(y, room - x.len()),
{
    lemma_truncated(y, room - x.len());
    valid_utf8_concat(x, y);
    lemma_truncated(x + y, room);
    if room < x.len() + y.len() {
        lemma_floor_concat(x, y, room);
    }
    assert(truncated(x + y, room) =~= x + truncated(y, room - x.len()));
}

/// Cutting `y + z` inside `y` is cutting `y`.
pub proof fn lemma_truncated_prefix(y: Seq<u8>, z: Seq<u8>, room: int)
    requires
        valid_utf8(y),
        valid_utf8(z),
        0 <= room < y.len(),
    ensures
        truncated(y + z, room) == truncated(y, room),
{
    lemma_floor_prefix(y, z, room);
    lemma_floor_char_boundary(y, room);
    assert(truncated(y + z, room) =~= truncated(y, room));
}

proof fn lemma_floor_prefix(y: Seq<u8>, z: Seq<u8>, n: int)
    requires
        valid_utf8(y),
        valid_utf8(z),
        0 <= n <= y.len(),
    ensures
        floor_char_boundary(y + z, n) == floor_char_boundary(y, n),
    decreases n,
{
    lemma_concat_boundary(y, z, n);
    if n > 0 {
        lemma_floor_prefix(y, z, n - 1);
    }
}

/// The encoding of a prefix of `chars` is a prefix of the encoding of `chars`.
pub proof fn lemma_encode_take(chars: Seq<char>, k: int)
    requires
        0 <= k <= chars.len(),
    ensures
        encode_utf8(chars) == encode_utf8(chars.take(k)) + encode_utf8(chars.skip(k)),
        encode_utf8(chars.take(k)).len() <= encode_utf8(chars).len(),
{
    lemma_encode_concat(chars.take(k), chars.skip(k));
    assert(chars.take(k) + chars.skip(k) =~= chars);
}

/// When `chars` stop fitting at the `k`-th `char`, cutting their encoding keeps the first `k`.
pub proof fn lemma_truncate_at_overflow(chars: Seq<char>, k: int, room: int)
    requires
        0 <= k < chars.len(),
        encode_utf8(chars.take(k)).len() <= room,
        room < encode_utf8(chars.take(k + 1)).len(),
    ensures
        truncated(encode_utf8(chars), room) == encode_utf8(chars.take(k)),
{
    let x = encode_utf8(chars.take(k));
    let c = chars[k];
    let rest = encode_utf8(chars.skip(k + 1));
    assert(chars.take(k + 1) =~= chars.take(k).push(c));
    lemma_encode_push(chars.take(k), c);
    lemma_encode_take(chars, k + 1);
    lemma_char_bytes(c);
    encode_utf8_valid_utf8(chars.take(k));
    encode_utf8_valid_utf8(chars.skip(k + 1));
    let y = char_bytes(c) + rest;
    valid_utf8_concat(char_bytes(c), rest);
    assert(encode_utf8(chars) =~= x + y);
    lemma_truncated_concat(x, y, room);
    lemma_floor_inside_first_char(c, rest, room - x.len());
    assert(truncated(y, room - x.len()) =~= Seq::<u8>::empty());
    assert(x + Seq::<u8>::empty() =~= x);
}

/// When all of `chars` fit, cutting their encoding keeps it whole.
pub proof fn lemma_truncate_fits(chars: Seq<char>, room: int)
    requires
        encode_utf8(chars).len() <= room,
    ensures
        truncated(encode_utf8(chars), room) == encode_utf8(chars),
{
    encode_utf8_valid_utf8(chars);
    lemma_truncated(encode_utf8(chars), room);
}

/// Cutting a valid sequence at two `char` boundaries gives three valid pieces, and any valid
/// sequence put in place of the middle piece gives a valid sequence again.
pub proof fn lemma_splice(b: Seq<u8>, start: int, end: int, ins: Seq<u8>)
    requires
        valid_utf8(b),
        valid_utf8(ins),
        0 <= start <= end <= b.len(),
        is_char_boundary(b, start),
        is_char_boundary(b, end),
    ensures
        valid_utf8(b.subrange(0, start)),
        valid_utf8(b.subrange(start, end)),
        valid_utf8(b.subrange(end, b.len() as int)),
        valid_utf8(b.subrange(0, start) + ins + b.subrange(end, b.len() as int)),
        decode_utf8(b) == decode_utf8(b.subrange(0, start)) + decode_utf8(b.subrange(start, end))
            + decode_utf8(b.subrange(end, b.len() as int)),
        decode_utf8(b.subrange(0, start) + ins + b.subrange(end, b.len() as int)) == decode_utf8(
            b.subrange(0, start),
        ) + decode_utf8(ins) + decode_utf8(b.subrange(end, b.len() as int)),
{
    let x = b.subrange(0, start);
    let y = b.subrange(start, b.len() as int);
    valid_utf8_split(b, start);
    assert(b =~= x + y);
    lemma_concat_boundary(x, y, end);
    let m = y.subrange(0, end - start);
    let z = y.subrange(end - start, y.len() as int);
    valid_utf8_split(y, end - start);
    assert(m =~= b.subrange(start, end));
    assert(z =~= b.subrange(end, b.len() as int));
    assert(y =~= m + z);
    lemma_decode_concat(x, y);
    lemma_decode_concat(m, z);
    lemma_decode_concat(x, ins);
    lemma_decode_concat(x + ins, z);
    assert(decode_utf8(x) + (decode_utf8(m) + decode_utf8(z)) =~= decode_utf8(x) + decode_utf8(m)
        + decode_utf8(z));
}

/// Where a space byte stands in valid UTF-8, the sequence is cut at `char` boundaries on both sides.
pub proof fn lemma_ascii_boundaries(b: Seq<u8>, i: int)
    requires
        valid_utf8(b),
        0 <= i < b.len(),
        b[i] < 0x80,
    ensures
        is_char_boundary(b, i),
        is_char_boundary(b, i + 1),
{
    lemma_boundary(b, i);
    lemma_boundary(b, i + 1);
    if i + 1 < b.len() {
        valid_utf8_split(b, i);
        let s = b.subrange(i, b.len() as int);
        assert(valid_first_scalar(s));
        assert(s[0] == b[i]);
        let rest = pop_first_scalar(s);
        assert(rest =~= b.subrange(i + 1, b.len() as int));
        lemma_first_not_continuation(rest);
    }
}

/// The first `char` that starts at boundary `i` of a valid sequence.
pub open spec fn char_starting_at(b: Seq<u8>, i: int) -> char {
    decode_first_scalar(b.subrange(i, b.len() as int)) as char
}

/// Decoding at a boundary: the bytes there encode one `char`, followed by another boundary.
pub proof fn lemma_char_at(b: Seq<u8>, i: int)
    requires
        valid_utf8(b),
        is_char_boundary(b, i),
        0 <= i < b.len(),
    ensures
        ({
            let c = char_starting_at(b, i);
            let k = char_bytes(c).len() as int;
            &&& i + k <= b.len()
            &&& b.subrange(i, i + k) == char_bytes(c)
            &&& is_char_boundary(b, i + k)
            &&& k == length_of_first_scalar(b.subrange(i, b.len() as int))
        }),
{
    let s = b.subrange(i, b.len() as int);
    valid_utf8_split(b, i);
    assert(valid_first_scalar(s));
    decode_utf8_first_scalar(s);
    let c = char_starting_at(b, i);
    let k = length_of_first_scalar(s);
    assert(char_bytes(c) == take_first_scalar(s));
    assert(b.subrange(i, i + k) =~= s.subrange(0, k));
    let rest = pop_first_scalar(s);
    assert(valid_utf8(rest));
    lemma_boundary(b, i + k);
    if i + k < b.len() {
        lemma_first_not_continuation(rest);
        assert(rest[0] == b[i + k]);
    }
}

/// Stepping over the `char` at a boundary extends the decoded prefix by that `char`.
pub proof fn lemma_char_step(b: Seq<u8>, pos: int)
    requires
        valid_utf8(b),
        is_char_boundary(b, pos),
        0 <= pos < b.len(),
    ensures
        ({
            let c = char_starting_at(b, pos);
            let n = char_bytes(c).len() as int;
            &&& pos + n <= b.len()
            &&& is_char_boundary(b, pos + n)
            &&& valid_utf8(b.subrange(0, pos))
            &&& decode_utf8(b.subrange(0, pos + n)) == decode_utf8(b.subrange(0, pos)).push(c)
            &&& decode_utf8(b) == decode_utf8(b.subrange(0, pos)) + decode_utf8(
                b.subrange(pos, b.len() as int),
            )
            &&& decode_utf8(b.subrange(pos, b.len() as int)).len() > 0
            &&& decode_utf8(b.subrange(pos, b.len() as int))[0] == c
        }),
{
    lemma_char_at(b, pos);
    lemma_decode_at(b, pos);
    let c = char_starting_at(b, pos);
    let n = char_bytes(c).len() as int;
    valid_utf8_split(b, pos);
    decode_utf8_split(b, pos);
    assert(b.subrange(0, pos + n) =~= b.subrange(0, pos) + char_bytes(c));
    lemma_push_char(b.subrange(0, pos), c);
}

/// A `char` decoded from valid bytes is encoded back by the same bytes, and the decoding splits there.
pub proof fn lemma_decode_at(b: Seq<u8>, i: int)
    requires
        valid_utf8(b),
        is_char_boundary(b, i),
        0 <= i < b.len(),
    ensures
        ({
            let c = char_starting_at(b, i);
            let k = char_bytes(c).len() as int;
            &&& valid_utf8(b.subrange(i + k, b.len() as int))
            &&& decode_utf8(b.subrange(i, b.len() as int)) == seq![c] + decode_utf8(
                b.subrange(i + k, b.len() as int),
            )
        }),
{
    lemma_char_at(b, i);
    let c = char_starting_at(b, i);
    let k = char_bytes(c).len() as int;
    let s = b.subrange(i, b.len() as int);
    valid_utf8_split(b, i);
    valid_utf8_split(b, i + k);
    lemma_char_bytes(c);
    assert(s =~= char_bytes(c) + b.subrange(i + k, b.len() as int));
    lemma_decode_concat(char_bytes(c), b.subrange(i + k, b.len() as int));
}

/// The last `char` of a nonempty valid sequence starts at the last boundary before its end.
pub proof fn lemma_last_char(b: Seq<u8>, k: int)
    requires
        valid_utf8(b),
        0 <= k < b.len(),
        is_char_boundary(b, k),
        forall|j: int| k < j < b.len() ==> !is_char_boundary(b, j),
    ensures
        k + char_bytes(char_starting_at(b, k)).len() == b.len(),
        valid_utf8(b.subrange(0, k)),
        decode_utf8(b) == decode_utf8(b.subrange(0, k)).push(char_starting_at(b, k)),
        b == b.subrange(0, k) + char_bytes(char_starting_at(b, k)),
{
    lemma_char_at(b, k);
    lemma_decode_at(b, k);
    let c = char_starting_at(b, k);
    let n = char_bytes(c).len() as int;
    valid_utf8_split(b, k);
    decode_utf8_split(b, k);
    assert(b.subrange(k + n, b.len() as int).len() == 0);
    assert(decode_utf8(b.subrange(k + n, b.len() as int)) =~= Seq::<char>::empty());
    assert(seq![c] + Seq::<char>::empty() =~= seq![c]);
    assert(decode_utf8(b.subrange(0, k)) + seq![c] =~= decode_utf8(b.subrange(0, k)).push(c));
    assert(b =~= b.subrange(0, k) + char_bytes(c));
}

/// Appending one `char` to valid bytes appends it to the decoding.
pub proof fn lemma_push_char(b: Seq<u8>, c: char)
    requires
        valid_utf8(b),
    ensures
        valid_utf8(b + char_bytes(c)),
        decode_utf8(b + char_bytes(c)) == decode_utf8(b).push(c),
{
    lemma_char_bytes(c);
    lemma_decode_concat(b, char_bytes(c));
    assert(decode_utf8(b) + seq![c] =~= decode_utf8(b).push(c));
}

/// Valid bytes are the encoding of their decoding, so equal decodings mean equal bytes.
pub proof fn lemma_decode_injective(x: Seq<u8>, y: Seq<u8>)
    requires
        valid_utf8(x),
        valid_utf8(y),
        decode_utf8(x) == decode_utf8(y),
    ensures
        x == y,
{
    decode_utf8_encode_utf8(x);
    decode_utf8_encode_utf8(y);
}

/// A well-formed first encoding decodes to a Unicode scalar.
pub proof fn lemma_first_scalar_is_scalar(s: Seq<u8>)
    requires
        valid_first_scalar(s),
    ensures
        is_scalar(decode_first_scalar(s)),
{
    let b0 = s[0];
    if is_leading_byte_width_1(b0) {
        let v = codepoint_width_1(b0);
        assert(v <= 0x7F) by (bit_vector)
            requires v == ((b0 & 0x7F) as u32);
    } else if is_leading_byte_width_2(b0) {
        let b1 = s[1];
        let v = codepoint_width_2(b0, b1);
        assert(v <= 0x7FF) by (bit_vector)
            requires v == ((((b0 & 0x1F) as u32) << 6) | ((b1 & 0x3F) as u32));
    } else if is_leading_byte_width_3(b0) {
        let b1 = s[1];
        let b2 = s[2];
        let v = codepoint_width_3(b0, b1, b2);
        assert(v <= 0xFFFF) by (bit_vector)
            requires
                v == ((((b0 & 0x0F) as u32) << 12) | (((b1 & 0x3F) as u32) << 6) | ((b2 & 0x3F) as u32));
    }
}

/// Width in bytes of the UTF-8 encoding of `c`.
pub fn char_len(c: char) -> (n: u8)
    ensures
        n as nat == char_bytes(c).len(),
        1 <= n <= 4,
{
    let v = c as u32;
    if v <= 0x7F {
        1
    } else if v <= 0x7FF {
        2
    } else if v <= 0xFFFF {
        proof {
            char_is_scalar(c);
        }
        3
    } else {
        proof {
            char_is_scalar(c);
        }
        4
    }
}

/// `char::from_u32`: gives the `char` with value `v`, or `None` when `v` is not a Unicode scalar
/// (above 0x10FFFF or in the surrogate range 0xD800..=0xDFFF).
#[verifier::external_body]
pub(crate) fn char_from_u32(v: u32) -> (r: Option<char>)
    ensures
        r == (if is_scalar(v) { Some(v as char) } else { None }),
{
    char::from_u32(v)
}

/// Decodes the `char` that starts at boundary `i` of the first `len` bytes of `bytes`.
pub fn decode_char_at(bytes: &[u8], len: usize, i: usize) -> (c: char)
    requires
        len <= bytes@.len(),
        valid_utf8(bytes@.subrange(0, len as int)),
        is_char_boundary(bytes@.subrange(0, len as int), i as int),
        i < len,
    ensures
        c == char_starting_at(bytes@.subrange(0, len as int), i as int),
{
    let ghost b = bytes@.subrange(0, len as int);
    let ghost s = b.subrange(i as int, len as int);
    proof {
        valid_utf8_split(b, i as int);
        assert(valid_first_scalar(s));
        lemma_first_scalar_is_scalar(s);
        assert(s[0] == bytes@[i as int]);
    }
    let b0 = bytes[i];
    let v: u32 = if b0 <= 0x7f {
        (b0 & 0x7F) as u32
    } else if b0 <= 0xdf {
        proof {
            assert(s[1] == bytes@[i + 1]);
        }
        let b1 = bytes[i + 1];
        (((b0 & 0x1F) as u32) << 6) | ((b1 & 0x3F) as u32)
    } else if b0 <= 0xef {
        proof {
            assert(s[1] == bytes@[i + 1]);
            assert(s[2] == bytes@[i + 2]);
        }
        let b1 = bytes[i + 1];
        let b2 = bytes[i + 2];
        (((b0 & 0x0F) as u32) << 12) | (((b1 & 0x3F) as u32) << 6) | ((b2 & 0x3F) as u32)
    } else {
        proof {
            assert(s[1] == bytes@[i + 1]);
            assert(s[2] == bytes@[i + 2]);
            assert(s[3] == bytes@[i + 3]);
        }
        let b1 = bytes[i + 1];
        let b2 = bytes[i + 2];
        let b3 = bytes[i + 3];
        (((b0 & 0x07) as u32) << 18) | (((b1 & 0x3F) as u32) << 12) | (((b2 & 0x3F) as u32) << 6)
            | ((b3 & 0x3F) as u32)
    };
    assert(v == decode_first_scalar(s));
    match char_from_u32(v) {
        Some(c) => c,
        None => {
            assert(false);
            '\u{FFFD}'
        },
    }
}

/// Writes the UTF-8 encoding of `c` into `buf` at `at`, leaving every other byte as it was.
pub fn encode_char_at(buf: &mut Vec<u8>, at: usize, c: char)
    requires
        at + char_bytes(c).len() <= old(buf)@.len(),
    ensures
        final(buf)@.len() == old(buf)@.len(),
        final(buf)@.subrange(at as int, at + char_bytes(c).len()) == char_bytes(c),
        forall|k: int|
            0 <= k < old(buf)@.len() && !(at <= k < at + char_bytes(c).len()) ==> #[trigger] final(buf)@[k]
                == old(buf)@[k],
{
    let v = c as u32;
    let _n = buf.len();
    proof {
        char_is_scalar(c);
    }
    if v <= 0x7F {
        buf[at] = (v & 0x7F) as u8;
    } else if v <= 0x7FF {
        assert(char_bytes(c).len() == 2);
        buf[at] = 0xC0 | ((v >> 6) & 0x1F) as u8;
        buf[at + 1] = 0x80 | (v & 0x3F) as u8;
    } else if v <= 0xFFFF {
        assert(char_bytes(c).len() == 3);
        buf[at] = 0xE0 | ((v >> 12) & 0x0F) as u8;
        buf[at + 1] = 0x80 | ((v >> 6) & 0x3F) as u8;
        buf[at + 2] = 0x80 | (v & 0x3F) as u8;
    } else {
        assert(char_bytes(c).len() == 4);
        buf[at] = 0xF0 | ((v >> 18) & 0x7) as u8;
        buf[at + 1] = 0x80 | ((v >> 12) & 0x3F) as u8;
        buf[at + 2] = 0x80 | ((v >> 6) & 0x3F) as u8;
        buf[at + 3] = 0x80 | (v & 0x3F) as u8;
    }
    assert(final(buf)@.subrange(at as int, at + char_bytes(c).len()) =~= char_bytes(c));
}

#[verifier::external_type_specification]
#[verifier::external_body]
pub struct ExUtf8Error(core::str::Utf8Error);

/// `core::str::from_utf8`: succeeds exactly when `bytes` is valid UTF-8, and then gives the
/// string slice made of those same bytes.
#[verifier::external_body]
pub(crate) fn str_from_utf8(bytes: &[u8]) -> (r: Result<&str, core::str::Utf8Error>)
    ensures
        r is Ok <==> valid_utf8(bytes@),
        r matches Ok(s) ==> s.spec_bytes() == bytes@,
{
    core::str::from_utf8(bytes)
}

/// A UTF-16 unit that opens a surrogate pair.
pub open spec fn is_high_surrogate(u: u16) -> bool {
    0xD800 <= u <= 0xDBFF
}

/// A UTF-16 unit that closes a surrogate pair.
pub open spec fn is_low_surrogate(u: u16) -> bool {
    0xDC00 <= u <= 0xDFFF
}

/// The scalar value that a surrogate pair stands for.
pub open spec fn surrogate_pair_value(high: u16, low: u16) -> u32 {
    ((high - 0xD800) * 0x400 + (low - 0xDC00) + 0x10000) as u32
}

/// UTF-16 decoding: one item per decoded `char`, `None` for each unpaired surrogate.
/// A high surrogate not followed by a low one is reported alone and the next unit is read afresh.
pub open spec fn decode_utf16(units: Seq<u16>) -> Seq<Option<char>>
    decreases units.len(),
{
    if units.len() == 0 {
        Seq::empty()
    } else if !is_high_surrogate(units[0]) && !is_low_surrogate(units[0]) {
        seq![Some((units[0] as u32) as char)] + decode_utf16(units.drop_first())
    } else if is_high_surrogate(units[0]) && units.len() >= 2 && is_low_surrogate(units[1]) {
        seq![Some(surrogate_pair_value(units[0], units[1]) as char)] + decode_utf16(
            units.subrange(2, units.len() as int),
        )
    } else {
        seq![None] + decode_utf16(units.drop_first())
    }
}

/// The `char`s of the decoded items before the first decoding error.
pub open spec fn chars_before_error(d: Seq<Option<char>>) -> Seq<char>
    decreases d.len(),
{
    if d.len() == 0 {
        Seq::empty()
    } else {
        match d[0] {
            Some(c) => seq![c] + chars_before_error(d.drop_first()),
            None => Seq::empty(),
        }
    }
}

/// The `char`s of decoded items known to hold one each.
pub open spec fn somes(d: Seq<Option<char>>) -> Seq<char> {
    d.map_values(|o: Option<char>| match o {
        Some(c) => c,
        None => '\0',
    })
}

/// The decoded items, with U+FFFD in place of each decoding error.
pub open spec fn lossy_chars(d: Seq<Option<char>>) -> Seq<char> {
    d.map_values(|o: Option<char>| match o {
        Some(c) => c,
        None => '\u{FFFD}',
    })
}

/// Before `k`, where every item holds a `char`, the `char`s before the first error are those items.
pub proof fn lemma_chars_before_error(d: Seq<Option<char>>, k: int)
    requires
        0 <= k <= d.len(),
        forall|j: int| 0 <= j < k ==> (#[trigger] d[j]) is Some,
    ensures
        chars_before_error(d) == somes(d.take(k)) + chars_before_error(d.skip(k)),
        chars_before_error(d).len() <= d.len(),
    decreases k,
{
    lemma_chars_before_error_len(d);
    if k == 0 {
        assert(d.skip(0) =~= d);
        assert(somes(d.take(0)) =~= Seq::<char>::empty());
        assert(Seq::<char>::empty() + chars_before_error(d) =~= chars_before_error(d));
    } else {
        let d1 = d.drop_first();
        assert forall|j: int| 0 <= j < k - 1 implies (#[trigger] d1[j]) is Some by {
            assert(d1[j] == d[j + 1]);
        }
        lemma_chars_before_error(d1, k - 1);
        assert(d1.skip(k - 1) =~= d.skip(k));
        assert(d[0] is Some);
        assert(somes(d.take(k)) =~= seq![somes(d.take(k))[0]] + somes(d1.take(k - 1)));
    }
}

proof fn lemma_chars_before_error_len(d: Seq<Option<char>>)
    ensures
        chars_before_error(d).len() <= d.len(),
    decreases d.len(),
{
    if d.len() > 0 {
        lemma_chars_before_error_len(d.drop_first());
    }
}

/// Decodes the item of `units` that starts at `i`, and says how many units it took.
pub fn decode_utf16_at(units: &[u16], i: usize) -> (r: (Option<char>, usize))
    requires
        i < units@.len(),
    ensures
        1 <= r.1 <= 2,
        i + r.1 <= units@.len(),
        decode_utf16(units@.subrange(i as int, units@.len() as int)) == seq![r.0] + decode_utf16(
            units@.subrange(i + r.1, units@.len() as int),
        ),
{
    let ghost s = units@.subrange(i as int, units@.len() as int);
    let u = units[i];
    assert(s[0] == u);
    if u < 0xD800 || u > 0xDFFF {
        assert(s.drop_first() =~= units@.subrange(i + 1, units@.len() as int));
        let v = u as u32;
        assert(is_scalar(v));
        match char_from_u32(v) {
            Some(c) => (Some(c), 1),
            None => {
                assert(false);
                (None, 1)
            },
        }
    } else if u <= 0xDBFF && i + 1 < units.len() && units[i + 1] >= 0xDC00 && units[i + 1]
        <= 0xDFFF {
        let l = units[i + 1];
        assert(s[1] == l);
        assert(s.subrange(2, s.len() as int) =~= units@.subrange(i + 2, units@.len() as int));
        let v: u32 = ((u - 0xD800) as u32) * 0x400 + ((l - 0xDC00) as u32) + 0x10000;
        assert(v == surrogate_pair_value(u, l));
        assert(is_scalar(v));
        match char_from_u32(v) {
            Some(c) => (Some(c), 2),
            None => {
                assert(false);
                (None, 2)
            },
        }
    } else {
        assert(s.drop_first() =~= units@.subrange(i + 1, units@.len() as int));
        (None, 1)
    }
}

} // verus!
