use arraystring::{ArrayString, Error, OutOfBounds, Utf16};
use std::ops::Bound;
use typenum::{U0, U255, U4, U63};

type CacheString = ArrayString<U63>;
type TinyString = ArrayString<U4>;

#[test]
fn pop_gives_back_what_push_added() {
    let mut s = CacheString::try_from_str("héllo").unwrap();
    let before = s.clone();
    s.try_push('ü').unwrap();
    assert_eq!(s.pop(), Some('ü'));
    assert!(s == before);
    assert_eq!(s.as_str(), "héllo");
}

#[test]
fn remove_gives_back_what_insert_added() {
    let mut s = CacheString::try_from_str("abcd").unwrap();
    s.try_insert(2, '🤔').unwrap();
    assert_eq!(s.as_str(), "ab🤔cd");
    assert_eq!(s.remove(2), Ok('🤔'));
    assert_eq!(s.as_str(), "abcd");
}

#[test]
fn split_off_then_push_rejoins() {
    let mut s = CacheString::try_from_str("añb🤔c").unwrap();
    let tail = s.split_off(3).unwrap();
    assert_eq!(s.as_str(), "añ");
    assert_eq!(tail.as_str(), "b🤔c");
    s.try_push_str(tail.as_str()).unwrap();
    assert_eq!(s.as_str(), "añb🤔c");
}

#[test]
fn truncation_never_splits_a_char() {
    let s = TinyString::from_str_truncate("ab🤔");
    assert_eq!(s.as_str(), "ab");
    let s = TinyString::from_str_truncate("aé🤔");
    assert_eq!(s.as_str(), "aé");
    let s = TinyString::from_str_truncate("abcdef");
    assert_eq!(s.as_str(), "abcd");
    let mut s = TinyString::try_from_str("a").unwrap();
    s.push_str("é🤔");
    assert_eq!(s.as_str(), "aé");
}

#[test]
fn push_str_appends_whole_when_it_fits() {
    let mut a = CacheString::try_from_str("x").unwrap();
    let mut b = a.clone();
    a.push_str("yz🤔");
    b.try_push_str("yz🤔").unwrap();
    assert!(a == b);
}

#[test]
fn replace_range_is_drain_then_insert() {
    let mut a = CacheString::try_from_str("ABCD🤔").unwrap();
    let mut b = a.clone();
    a.replace_range((Bound::Included(1), Bound::Excluded(3)), "xyz").unwrap();
    let drained = b.drain((Bound::Included(1), Bound::Excluded(3))).unwrap();
    assert_eq!(drained.as_str(), "BC");
    b.try_insert_str(1, "xyz").unwrap();
    assert!(a == b);
    assert_eq!(a.as_str(), "AxyzD🤔");
}

#[test]
fn replace_range_shrinks_and_grows() {
    let mut s = CacheString::try_from_str("hello world").unwrap();
    s.replace_range((Bound::Included(0), Bound::Excluded(5)), "").unwrap();
    assert_eq!(s.as_str(), " world");
    s.replace_range((Bound::Unbounded, Bound::Included(0)), "big").unwrap();
    assert_eq!(s.as_str(), "bigworld");
    let mut t = TinyString::try_from_str("abc").unwrap();
    assert_eq!(t.replace_range((Bound::Included(3), Bound::Unbounded), "de"), Err(Error::OutOfBounds));
    assert_eq!(t.as_str(), "abc");
}

#[test]
fn replace_range_fits_after_long_removal() {
    let mut s = CacheString::try_from_str(&"a".repeat(60)).unwrap();
    s.replace_range((Bound::Included(0), Bound::Excluded(60)), "0123456789").unwrap();
    assert_eq!(s.as_str(), "0123456789");
    let mut full = TinyString::try_from_str("abcd").unwrap();
    full.replace_range((Bound::Unbounded, Bound::Unbounded), "xy").unwrap();
    assert_eq!(full.as_str(), "xy");
    assert_eq!(full.replace_range((Bound::Included(0), Bound::Excluded(1)), "pqrs"), Err(Error::OutOfBounds));
    full.replace_range((Bound::Included(0), Bound::Excluded(1)), "pqr").unwrap();
    assert_eq!(full.as_str(), "pqry");
}

#[test]
fn trim_twice_is_trim_once() {
    let mut s = CacheString::try_from_str("  a b  ").unwrap();
    s.trim();
    assert_eq!(s.as_str(), "a b");
    s.trim();
    assert_eq!(s.as_str(), "a b");
    let mut blank = CacheString::try_from_str("    ").unwrap();
    blank.trim();
    assert!(blank.is_empty());
    let mut tabs = CacheString::try_from_str("\tx\t").unwrap();
    tabs.trim();
    assert_eq!(tabs.as_str(), "\tx\t");
}

#[test]
fn stored_string_reads_back() {
    let s = CacheString::try_from_str("héllo wörld ✓").unwrap();
    assert_eq!(s.as_str(), "héllo wörld ✓");
    assert_eq!(s.as_bytes(), "héllo wörld ✓".as_bytes());
    assert_eq!(s.len() as usize, "héllo wörld ✓".len());
}

#[test]
fn capacity_comes_from_the_type() {
    assert_eq!(TinyString::try_from_str("abcde").err(), Some(OutOfBounds));
    assert!(TinyString::try_from_str("abcd").is_ok());
    let full = "z".repeat(255);
    let s = ArrayString::<U255>::try_from_str(&full).unwrap();
    assert_eq!(s.len(), 255);
    let mut empty = ArrayString::<U0>::new();
    assert_eq!(empty.try_push('a'), Err(OutOfBounds));
    assert!(empty.is_empty());
    let (bytes, len) = TinyString::try_from_str("ab").unwrap().into_bytes();
    assert_eq!(bytes, vec![b'a', b'b', 0, 0]);
    assert_eq!(len, 2);
}

#[test]
fn decoding_multibyte_chars() {
    let mut s = CacheString::try_from_str("aé中🤔").unwrap();
    assert_eq!(s.pop(), Some('🤔'));
    assert_eq!(s.pop(), Some('中'));
    assert_eq!(s.pop(), Some('é'));
    assert_eq!(s.pop(), Some('a'));
    assert_eq!(s.pop(), None);
}

#[test]
fn invalid_and_valid_utf8_bytes() {
    assert_eq!(CacheString::try_from_utf8(&[0xC0, 0x80]).err(), Some(Error::Utf8));
    assert_eq!(CacheString::try_from_utf8(&[0xED, 0xA0, 0x80]).err(), Some(Error::Utf8));
    assert_eq!(CacheString::try_from_utf8(&[0xF4, 0x90, 0x80, 0x80]).err(), Some(Error::Utf8));
    assert_eq!(CacheString::try_from_utf8(&[0xE4, 0xB8, 0xAD]).unwrap().as_str(), "中");
    assert_eq!(TinyString::try_from_utf8(&[0xFF; 10]).err(), Some(Error::Utf8));
}

#[test]
fn utf16_error_order() {
    // The overflow comes before the unpaired surrogate.
    let units = [0x61, 0x62, 0x63, 0x64, 0x65, 0xD800];
    assert_eq!(TinyString::try_from_utf16(&units).err(), Some(Error::OutOfBounds));
    // Any unpaired surrogate is an error, however long the valid part before it.
    assert_eq!(TinyString::from_utf16(&units).err(), Some(Utf16));
    let mut long: Vec<u16> = vec![0x61; 256];
    long.push(0xD800);
    assert_eq!(CacheString::from_utf16(&long).err(), Some(Utf16));
    // Valid input longer than the capacity is truncated.
    assert_eq!(TinyString::from_utf16(&units[..5]).unwrap().as_str(), "abcd");
    // The unpaired surrogate comes first.
    let units = [0x61, 0xDC00, 0x62];
    assert_eq!(TinyString::try_from_utf16(&units).err(), Some(Error::Utf16));
    assert_eq!(TinyString::from_utf16(&units).err(), Some(Utf16));
    // A high surrogate followed by an ordinary unit: the unit is read afresh.
    let units = [0xD800, 0x61];
    assert_eq!(CacheString::from_utf16_lossy(&units).as_str(), "\u{FFFD}a");
    // A lone high surrogate at the end.
    let units = [0x61, 0xD83D];
    assert_eq!(CacheString::from_utf16_lossy(&units).as_str(), "a\u{FFFD}");
    assert_eq!(CacheString::try_from_utf16(&units).err(), Some(Error::Utf16));
    // A surrogate pair.
    let units = [0xD83D, 0xDE00];
    assert_eq!(CacheString::try_from_utf16(&units).unwrap().as_str(), "😀");
}

#[test]
fn from_chars_stops_at_first_char_that_does_not_fit() {
    let chars = ['a', 'b', 'c', '🤔', 'd'];
    assert_eq!(TinyString::from_chars(&chars).as_str(), "abc");
    assert_eq!(TinyString::try_from_chars(&chars).err(), Some(OutOfBounds));
    assert_eq!(TinyString::from_iterator(&["ab", "c🤔", "d"]).as_str(), "abc");
    assert_eq!(TinyString::try_from_iterator(&["ab", "cd"]).unwrap().as_str(), "abcd");
}

#[test]
fn drain_from_both_ends() {
    let mut s = CacheString::try_from_str("xaé🤔y").unwrap();
    let mut d = s.drain((Bound::Included(1), Bound::Excluded(8))).unwrap();
    assert_eq!(s.as_str(), "xy");
    assert_eq!(d.as_str(), "aé🤔");
    assert_eq!(d.next(), Some('a'));
    assert_eq!(d.next_back(), Some('🤔'));
    assert_eq!(d.next(), Some('é'));
    assert_eq!(d.next(), None);
    assert_eq!(d.next_back(), None);
}

#[test]
fn drain_ends_meet() {
    let mut s = CacheString::try_from_str("A").unwrap();
    let mut d = s.drain((Bound::Unbounded, Bound::Unbounded)).unwrap();
    assert_eq!(d.next(), Some('A'));
    assert_eq!(d.next_back(), None);
    assert_eq!(d.next(), None);
    let mut s = CacheString::try_from_str("ab").unwrap();
    let mut d = s.drain((Bound::Unbounded, Bound::Unbounded)).unwrap();
    assert_eq!(d.next_back(), Some('b'));
    assert_eq!(d.next_back(), Some('a'));
    assert_eq!(d.next_back(), None);
    assert_eq!(d.next(), None);
}

#[test]
fn retain_can_remove_everything() {
    let mut s = CacheString::try_from_str("aé🤔").unwrap();
    s.retain(|c| c.is_ascii());
    assert_eq!(s.as_str(), "a");
    s.retain(|_| false);
    assert!(s.is_empty());
}

#[test]
fn equality_is_by_content() {
    let a = CacheString::try_from_str("abc").unwrap();
    let mut b = CacheString::try_from_str("abcd").unwrap();
    assert!(a != b);
    b.pop();
    assert!(a == b);
}

#[test]
fn truncate_and_failed_operations_leave_string() {
    let mut s = CacheString::try_from_str("a🤔").unwrap();
    assert!(s.truncate(3).is_err());
    assert_eq!(s.as_str(), "a🤔");
    assert!(s.truncate(200).is_ok());
    assert_eq!(s.as_str(), "a🤔");
    s.truncate(1).unwrap();
    assert_eq!(s.as_str(), "a");
    s.truncate(0).unwrap();
    assert!(s.is_empty());
}

#[test]
fn drain_clone_is_equal_until_one_moves() {
    let mut s = CacheString::try_from_str("abc").unwrap();
    let mut d = s.drain((Bound::Unbounded, Bound::Unbounded)).unwrap();
    let e = d.clone();
    assert!(d == e);
    assert_eq!(d.next(), Some('a'));
    assert!(d != e);
    assert_eq!(d.as_str(), e.as_str());
}

#[test]
fn utf16_lossy_is_from_chars() {
    let units = [0x61, 0xD800, 0x62, 0xD83D, 0xDE00];
    let lossy = TinyString::from_utf16_lossy(&units);
    let chars: Vec<char> = char::decode_utf16(units.iter().cloned())
        .map(|r| r.unwrap_or('\u{FFFD}'))
        .collect();
    let from_chars = TinyString::from_chars(&chars);
    assert!(lossy == from_chars);
    assert_eq!(lossy.as_str(), "a\u{FFFD}");
    let valid = [0x61, 0x62, 0x63, 0x64, 0x65];
    assert!(TinyString::from_utf16(&valid).unwrap() == TinyString::from_utf16_lossy(&valid));
}
