//! Properties that relate several operations of `ArrayString`, stated over the byte and `char`
//! sequences their contracts speak of.

use vstd::prelude::*;
use vstd::utf8::*;
use vstd::string::StringSliceAdditionalSpecFns;
use vstd::std_specs::cmp::PartialEqSpec;
use crate::array::{ArrayString, Drain, kept, trim_end_spaces, trim_spaces, trim_start_spaces, utf16_outcome, SPACE};
use crate::capacity::{capacity_of, TypeNum};
use crate::error::Utf16;
use crate::utf::{
    surrogate_pair_value,
    chars_before_error, decode_utf16, lemma_chars_before_error, lossy_chars, char_bytes, char_starting_at, lemma_boundary, lemma_char_at, lemma_char_bytes,
    lemma_concat_boundary, lemma_decode_injective, lemma_floor_char_boundary, lemma_push_char,
    lemma_splice, lemma_truncated, truncate_len, truncated,
};

verus! {

broadcast use vstd::seq::group_seq_axioms;

/// A string slice stored whole is read back unchanged: when `as_str` gives the bytes that
/// `try_from_str` (or `try_push_str` on an empty string) stored from `s`, it gives back `s`.
pub proof fn law_as_str_gives_back_stored(s: &str, stored: Seq<u8>, read: &str)
    requires
        stored == s.spec_bytes(),
        read.spec_bytes() == stored,
    ensures
        read@ == s@,
{
    encode_utf8_decode_utf8(s@);
    encode_utf8_decode_utf8(read@);
}

/// `pop` undoes `try_push`: popping right after pushing `c` onto a valid string gives `c` back
/// and leaves the bytes the string had before the push.
pub proof fn law_pop_undoes_push(before: Seq<u8>, c: char, after_pop: Seq<u8>, popped: char)
    requires
        valid_utf8(before),
        valid_utf8(after_pop),
        decode_utf8(before + char_bytes(c)) == decode_utf8(after_pop).push(popped),
    ensures
        popped == c,
        after_pop == before,
{
    lemma_push_char(before, c);
    let x = decode_utf8(before).push(c);
    let y = decode_utf8(after_pop).push(popped);
    assert(x.last() == y.last());
    assert(x.drop_last() =~= decode_utf8(before));
    assert(y.drop_last() =~= decode_utf8(after_pop));
    lemma_decode_injective(before, after_pop);
}

/// `remove` undoes `try_insert`: inserting `c` at a `char` boundary `idx` and then removing at
/// `idx` gives `c` back and restores the bytes.
pub proof fn law_remove_undoes_insert(before: Seq<u8>, idx: int, c: char)
    requires
        valid_utf8(before),
        0 <= idx <= before.len(),
        is_char_boundary(before, idx),
    ensures
        ({
            let inserted = before.subrange(0, idx) + char_bytes(c) + before.subrange(
                idx,
                before.len() as int,
            );
            let n = char_bytes(c).len() as int;
            &&& valid_utf8(inserted)
            &&& idx < inserted.len()
            &&& is_char_boundary(inserted, idx)
            &&& char_starting_at(inserted, idx) == c
            &&& inserted.subrange(0, idx) + inserted.subrange(idx + n, inserted.len() as int)
                == before
        }),
{
    lemma_char_bytes(c);
    lemma_boundary(before, idx);
    lemma_splice(before, idx, idx, char_bytes(c));
    let x = before.subrange(0, idx);
    let y = before.subrange(idx, before.len() as int);
    let inserted = x + char_bytes(c) + y;
    let n = char_bytes(c).len() as int;
    lemma_concat_boundary(x, char_bytes(c), idx);
    lemma_boundary(x, idx);
    valid_utf8_concat(x, char_bytes(c));
    lemma_concat_boundary(x + char_bytes(c), y, idx);
    lemma_char_at(inserted, idx);
    crate::utf::lemma_decode_at(inserted, idx);
    let s = inserted.subrange(idx, inserted.len() as int);
    assert(s =~= char_bytes(c) + y);
    valid_utf8_split(before, idx);
    crate::utf::lemma_decode_concat(char_bytes(c), y);
    assert(decode_utf8(s)[0] == c);
    assert(char_starting_at(inserted, idx) == c);
    assert(inserted.subrange(0, idx) =~= x);
    assert(inserted.subrange(idx + n, inserted.len() as int) =~= y);
    assert(x + y =~= before);
}

/// `split_off` loses nothing: the part kept followed by the part returned is the string before.
pub proof fn law_split_off_rejoins(before: Seq<u8>, at: int)
    requires
        0 <= at <= before.len(),
    ensures
        before.subrange(0, at) + before.subrange(at, before.len() as int) == before,
{
    assert(before.subrange(0, at) + before.subrange(at, before.len() as int) =~= before);
}

/// A truncating operation keeps as many bytes as fit: no longer `char`-boundary prefix of the
/// input fits in the room, and all of the input is kept when it fits.
pub proof fn law_truncation_is_maximal(b: Seq<u8>, room: int)
    requires
        valid_utf8(b),
        room >= 0,
    ensures
        truncate_len(b, room) <= room,
        is_char_boundary(b, truncate_len(b, room)),
        forall|j: int| truncate_len(b, room) < j <= room && j <= b.len() ==> !is_char_boundary(b, j),
        b.len() <= room ==> truncated(b, room) == b,
{
    lemma_truncated(b, room);
    if room < b.len() {
        lemma_floor_char_boundary(b, room);
    }
}

/// `push_str` appends the whole string slice, as `try_push_str` does, whenever it fits.
pub proof fn law_push_str_whole_when_it_fits(before: Seq<u8>, s: &str, capacity: int)
    requires
        before.len() + s.spec_bytes().len() <= capacity,
    ensures
        before + truncated(s.spec_bytes(), capacity - before.len()) == before + s.spec_bytes(),
{
    encode_utf8_valid_utf8(s@);
    lemma_truncated(s.spec_bytes(), capacity - before.len());
}

/// `replace_range` is `drain` of the range followed by `try_insert_str` at its start.
pub proof fn law_replace_range_is_drain_then_insert(b: Seq<u8>, start: int, end: int, with: Seq<u8>)
    requires
        0 <= start <= end <= b.len(),
    ensures
        ({
            let drained = b.subrange(0, start) + b.subrange(end, b.len() as int);
            drained.subrange(0, start) + with + drained.subrange(start, drained.len() as int)
                == b.subrange(0, start) + with + b.subrange(end, b.len() as int)
        }),
{
    let drained = b.subrange(0, start) + b.subrange(end, b.len() as int);
    assert(drained.subrange(0, start) =~= b.subrange(0, start));
    assert(drained.subrange(start, drained.len() as int) =~= b.subrange(end, b.len() as int));
}

proof fn lemma_trim_start_shape(b: Seq<u8>)
    ensures
        trim_start_spaces(b).len() == 0 || trim_start_spaces(b)[0] != SPACE,
        trim_start_spaces(b).len() <= b.len(),
    decreases b.len(),
{
    if b.len() > 0 && b[0] == SPACE {
        lemma_trim_start_shape(b.drop_first());
    }
}

proof fn lemma_trim_end_shape(b: Seq<u8>)
    ensures
        trim_end_spaces(b).len() <= b.len(),
        trim_end_spaces(b) == b.subrange(0, trim_end_spaces(b).len() as int),
        trim_end_spaces(b).len() == 0 || trim_end_spaces(b).last() != SPACE,
    decreases b.len(),
{
    if b.len() > 0 && b.last() == SPACE {
        lemma_trim_end_shape(b.drop_last());
        let t = trim_end_spaces(b.drop_last());
        assert(b.drop_last().subrange(0, t.len() as int) =~= b.subrange(0, t.len() as int));
    } else {
        assert(b.subrange(0, b.len() as int) =~= b);
    }
}

/// `trim` twice is `trim` once.
pub proof fn law_trim_idempotent(b: Seq<u8>)
    ensures
        trim_spaces(trim_spaces(b)) == trim_spaces(b),
{
    let x = trim_start_spaces(b);
    let t = trim_end_spaces(x);
    lemma_trim_start_shape(b);
    lemma_trim_end_shape(x);
    if t.len() > 0 {
        assert(t[0] == x[0]);
    }
    assert(trim_start_spaces(t) == t);
    assert(trim_end_spaces(t) == t);
}

/// `retain` with a predicate true of every `char` keeps the string as it is, and with one false
/// of every `char` empties it; in any case it keeps no more `char`s than there were.
pub proof fn law_retain_extremes(cs: Seq<char>, keep: Seq<bool>)
    requires
        keep.len() == cs.len(),
    ensures
        kept(cs, keep).len() <= cs.len(),
        (forall|i: int| 0 <= i < keep.len() ==> keep[i]) ==> kept(cs, keep) == cs,
        (forall|i: int| 0 <= i < keep.len() ==> !keep[i]) ==> kept(cs, keep).len() == 0,
    decreases cs.len(),
{
    if cs.len() > 0 {
        law_retain_extremes(cs.drop_last(), keep.drop_last());
        if forall|i: int| 0 <= i < keep.len() ==> keep[i] {
            assert forall|i: int| 0 <= i < keep.drop_last().len() implies keep.drop_last()[i] by {
                assert(keep.drop_last()[i] == keep[i]);
            }
            assert(keep.last());
            assert(cs.drop_last().push(cs.last()) =~= cs);
        }
        if forall|i: int| 0 <= i < keep.len() ==> !keep[i] {
            assert forall|i: int| 0 <= i < keep.drop_last().len() implies !keep.drop_last()[i] by {
                assert(keep.drop_last()[i] == keep[i]);
            }
            assert(!keep.last());
        }
    }
}


/// Taking `char`s from the front of a `Drain` hands out the drained text's `char`s in order. When
/// `rems[i]` is what remained before the `i`-th call of `next` and `outs[i]` is what that call
/// returned, the `char`s returned so far followed by the `char`s still remaining are the `char`s
/// of what remained at the start; once nothing remains, the calls have returned exactly those.
pub proof fn law_drain_front_in_order(rems: Seq<Seq<u8>>, outs: Seq<char>)
    requires
        rems.len() == outs.len() + 1,
        forall|i: int|
            0 <= i < outs.len() ==> decode_utf8(#[trigger] rems[i]) == seq![outs[i]] + decode_utf8(
                rems[i + 1],
            ),
    ensures
        decode_utf8(rems[0]) == outs + decode_utf8(rems.last()),
        rems.last().len() == 0 ==> outs == decode_utf8(rems[0]),
    decreases outs.len(),
{
    if outs.len() > 0 {
        let r2 = rems.drop_last();
        let o2 = outs.drop_last();
        assert forall|i: int| 0 <= i < o2.len() implies decode_utf8(#[trigger] r2[i]) == seq![o2[i]]
            + decode_utf8(r2[i + 1]) by {
            assert(r2[i] == rems[i] && r2[i + 1] == rems[i + 1] && o2[i] == outs[i]);
        }
        law_drain_front_in_order(r2, o2);
        let k = outs.len() - 1;
        assert(decode_utf8(rems[k]) == seq![outs[k]] + decode_utf8(rems[k + 1]));
        assert(o2 + (seq![outs[k]] + decode_utf8(rems.last())) =~= outs + decode_utf8(rems.last()));
    }
    if rems.last().len() == 0 {
        assert(rems.last() =~= Seq::<u8>::empty());
        assert(decode_utf8(Seq::<u8>::empty()) =~= Seq::<char>::empty());
        assert(outs + Seq::<char>::empty() =~= outs);
    }
}

proof fn lemma_all_decoded(d: Seq<Option<char>>)
    ensures
        (chars_before_error(d).len() == d.len()) <==> (forall|j: int| 0 <= j < d.len() ==> (#[trigger] d[j]) is Some),
        (forall|j: int| 0 <= j < d.len() ==> (#[trigger] d[j]) is Some) ==> chars_before_error(d) == lossy_chars(d),
    decreases d.len(),
{
    if d.len() == 0 {
        assert(lossy_chars(d) =~= Seq::<char>::empty());
    } else {
        let t = d.drop_first();
        lemma_all_decoded(t);
        assert forall|j: int| 0 <= j < t.len() implies t[j] == d[j + 1] by {}
        match d[0] {
            None => {
                assert(!(d[0] is Some));
            },
            Some(c) => {
                if forall|j: int| 0 <= j < t.len() ==> (#[trigger] t[j]) is Some {
                    assert forall|j: int| 0 <= j < d.len() implies (#[trigger] d[j]) is Some by {
                        if j > 0 {
                            assert(d[j] == t[j - 1]);
                        }
                    }
                    assert(lossy_chars(d) =~= seq![c] + lossy_chars(t));
                } else {
                    let j = choose|j: int| 0 <= j < t.len() && !(#[trigger] t[j] is Some);
                    assert(!(d[j + 1] is Some));
                }
            },
        }
    }
}

/// UTF-16 that decodes without error gives `from_utf16` the same bytes as `from_utf16_lossy`
/// for the same capacity (and so the same bytes `from_chars` gives for the decoded `char`s);
/// `from_utf16` succeeds exactly on such input.
pub proof fn law_utf16_agrees_with_lossy(units: Seq<u16>, cap: nat)
    ensures
        (utf16_outcome(units, cap) is Ok) <==> (forall|j: int|
            0 <= j < decode_utf16(units).len() ==> (#[trigger] decode_utf16(units)[j]) is Some),
        utf16_outcome(units, cap) is Ok ==> utf16_outcome(units, cap) == Ok::<Seq<u8>, Utf16>(
            truncated(encode_utf8(lossy_chars(decode_utf16(units))), cap as int),
        ),
{
    let d = decode_utf16(units);
    lemma_all_decoded(d);
    lemma_chars_before_error(d, 0);
}


/// For strings of one type, `from_utf16_lossy` on `units` gives the same string as `from_chars` on
/// the decoded `char`s (U+FFFD for each unit that fails to decode), since both take the capacity
/// of the type; on UTF-16 that decodes without error, `from_utf16` gives that string too.
pub proof fn law_utf16_lossy_is_from_chars<S: TypeNum>(
    units: Seq<u16>,
    lossy: ArrayString<S>,
    from_chars: ArrayString<S>,
)
    requires
        lossy.capacity() == capacity_of::<S>(),
        lossy@ == truncated(encode_utf8(lossy_chars(decode_utf16(units))), lossy.capacity() as int),
        from_chars.capacity() == capacity_of::<S>(),
        from_chars@ == truncated(
            encode_utf8(lossy_chars(decode_utf16(units))),
            from_chars.capacity() as int,
        ),
    ensures
        lossy@ == from_chars@,
        utf16_outcome(units, capacity_of::<S>()) is Ok ==> utf16_outcome(units, capacity_of::<S>())
            == Ok::<Seq<u8>, Utf16>(lossy@),
{
    law_utf16_agrees_with_lossy(units, capacity_of::<S>());
}


proof fn lemma_trim_start_split(b: Seq<u8>)
    ensures
        trim_start_spaces(b).len() <= b.len(),
        b.subrange(b.len() - trim_start_spaces(b).len(), b.len() as int) == trim_start_spaces(b),
        forall|j: int| 0 <= j < b.len() - trim_start_spaces(b).len() ==> b[j] == SPACE,
    decreases b.len(),
{
    if b.len() > 0 && b[0] == SPACE {
        let t = b.drop_first();
        lemma_trim_start_split(t);
        let s = trim_start_spaces(t);
        let a1 = t.len() - s.len();
        assert(t.subrange(a1, t.len() as int) =~= b.subrange(a1 + 1, b.len() as int));
        assert forall|j: int| 0 <= j < a1 + 1 implies b[j] == SPACE by {
            if j > 0 {
                assert(b[j] == t[j - 1]);
            }
        }
    } else {
        assert(b.subrange(0, b.len() as int) =~= b);
    }
}

proof fn lemma_trim_end_split(b: Seq<u8>)
    ensures
        trim_end_spaces(b).len() <= b.len(),
        b.subrange(0, trim_end_spaces(b).len() as int) == trim_end_spaces(b),
        forall|j: int| trim_end_spaces(b).len() <= j < b.len() ==> b[j] == SPACE,
    decreases b.len(),
{
    if b.len() > 0 && b.last() == SPACE {
        let d = b.drop_last();
        lemma_trim_end_split(d);
        let t = trim_end_spaces(d);
        assert(d.subrange(0, t.len() as int) =~= b.subrange(0, t.len() as int));
        assert forall|j: int| t.len() <= j < b.len() implies b[j] == SPACE by {
            if j < d.len() {
                assert(b[j] == d[j]);
            }
        }
    } else {
        assert(b.subrange(0, b.len() as int) =~= b);
    }
}

/// `n` space bytes.
pub open spec fn spaces(n: nat) -> Seq<u8> {
    Seq::new(n, |_i: int| SPACE)
}

/// `trim` removes the spaces at both ends and nothing else: the string before is some spaces,
/// then the trimmed string, then some spaces, and the trimmed string neither starts nor ends
/// with a space.
pub proof fn law_trim_strips_spaces(b: Seq<u8>)
    ensures
        trim_spaces(b).len() == 0 || (trim_spaces(b)[0] != SPACE && trim_spaces(b).last() != SPACE),
        exists|a: nat, z: nat| b == #[trigger] spaces(a) + trim_spaces(b) + #[trigger] spaces(z),
{
    let s = trim_start_spaces(b);
    let t = trim_end_spaces(s);
    lemma_trim_start_shape(b);
    lemma_trim_end_shape(s);
    lemma_trim_start_split(b);
    lemma_trim_end_split(s);
    if t.len() > 0 {
        assert(t[0] == s[0]);
    }
    let a = (b.len() - s.len()) as nat;
    let z = (s.len() - t.len()) as nat;
    let sp_a = spaces(a);
    let sp_z = spaces(z);
    assert forall|j: int| 0 <= j < b.len() implies b[j] == (sp_a + t + sp_z)[j] by {
        if j < a {
        } else if j < a + t.len() {
            assert(b[j] == b.subrange(a as int, b.len() as int)[j - a]);
            assert(t[j - a] == s.subrange(0, t.len() as int)[j - a]);
        } else {
            assert(b[j] == b.subrange(a as int, b.len() as int)[j - a]);
            assert(s[j - a] == SPACE);
        }
    }
    assert(b =~= sp_a + t + sp_z);
}

/// The `char`s that a `Seq<(char, bool)>` marks with `true`, in order.
pub open spec fn marked_chars() -> spec_fn((char, bool)) -> Option<char> {
    |p: (char, bool)| if p.1 { Some(p.0) } else { None }
}

/// `retain` keeps exactly the `char`s the predicate accepted, in order, whatever it said of the
/// others: with `keep[i]` the predicate's answer for `cs[i]`, what is kept is the filter of the
/// pairs `(cs[i], keep[i])` by their second half.
pub proof fn law_retain_is_filter(cs: Seq<char>, keep: Seq<bool>)
    requires
        keep.len() == cs.len(),
    ensures
        kept(cs, keep) == cs.zip_with(keep).filter_map(marked_chars()),
    decreases cs.len(),
{
    let z = cs.zip_with(keep);
    if cs.len() == 0 {
        assert(z =~= Seq::<(char, bool)>::empty());
    } else {
        let (c2, k2) = (cs.drop_last(), keep.drop_last());
        law_retain_is_filter(c2, k2);
        assert(z.drop_last() =~= c2.zip_with(k2));
        assert(z.last() == (cs.last(), keep.last()));
        let rest = kept(c2, k2);
        assert(rest.push(cs.last()) =~= rest + seq![cs.last()]);
    }
}

/// UTF-16 decoding pairs a high surrogate with the low surrogate after it, as the Unicode
/// standard does: the pair stands for `0x10000 + (h - 0xD800) * 0x400 + (l - 0xDC00)`.
pub proof fn law_utf16_pair(h: u16, l: u16, rest: Seq<u16>)
    requires
        0xD800 <= h <= 0xDBFF,
        0xDC00 <= l <= 0xDFFF,
    ensures
        decode_utf16(seq![h, l] + rest) == seq![
            Some(((0x10000 + (h - 0xD800) * 0x400 + (l - 0xDC00)) as u32) as char),
        ] + decode_utf16(rest),
{
    let u = seq![h, l] + rest;
    assert(u[0] == h && u[1] == l);
    assert(u.subrange(2, u.len() as int) =~= rest);
    assert((h - 0xD800) * 0x400 + (l - 0xDC00) + 0x10000 == 0x10000 + (h - 0xD800) * 0x400 + (l
        - 0xDC00));
    assert(surrogate_pair_value(h, l) == ((0x10000 + (h - 0xD800) * 0x400 + (l - 0xDC00)) as u32));
}

/// A unit outside the surrogate range decodes to the `char` with its value; a low surrogate
/// alone, or a high surrogate not followed by a low one, decodes to an error item; either way
/// decoding goes on with the next unit.
pub proof fn law_utf16_single(u: u16, rest: Seq<u16>)
    ensures
        (u < 0xD800 || u > 0xDFFF) ==> decode_utf16(seq![u] + rest) == seq![Some((u as u32) as char)]
            + decode_utf16(rest),
        (0xDC00 <= u <= 0xDFFF || (0xD800 <= u <= 0xDBFF && (rest.len() == 0 || !(0xDC00 <= rest[0]
            <= 0xDFFF)))) ==> decode_utf16(seq![u] + rest) == seq![None::<char>] + decode_utf16(rest),
{
    let v = seq![u] + rest;
    assert(v[0] == u);
    assert(v.drop_first() =~= rest);
    if rest.len() > 0 {
        assert(v[1] == rest[0]);
    }
}


/// `==` on strings is equality of their bytes: two strings that differ in any byte, or in length,
/// compare unequal, and two with the same bytes compare equal.
pub proof fn law_eq_is_byte_equality<S>(a: ArrayString<S>, b: ArrayString<S>)
    ensures
        a.eq_spec(&b) <==> a@ == b@,
        (exists|i: int| 0 <= i < a@.len() && i < b@.len() && a@[i] != b@[i]) ==> !a.eq_spec(&b),
        a@.len() != b@.len() ==> !a.eq_spec(&b),
{
}

/// `==` on drains is equality of the bytes held and of the front position.
pub proof fn law_drain_eq<S>(a: Drain<S>, b: Drain<S>)
    ensures
        a.eq_spec(&b) <==> (a.held() == b.held() && a.position() == b.position()),
{
}

} // verus!
