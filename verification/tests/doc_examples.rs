use arraystring::{ArrayString, Error, OutOfBounds, Utf16, Utf8};
use std::ops::Bound;
use typenum::{Unsigned, U63};

type CacheString = ArrayString<U63>;

fn capacity() -> usize {
    U63::to_usize()
}

#[test]
fn into_bytes_keeps_the_used_prefix() {
    let string = CacheString::try_from_str("Byte Slice").unwrap();
    let (array, len) = string.into_bytes();
    assert_eq!(&array[..len as usize], b"Byte Slice");
    assert_eq!(array.len(), capacity());
    assert!(array[len as usize..].iter().all(|b| *b == 0));
}

#[test]
fn new_is_empty() {
    let string = CacheString::new();
    assert!(string.is_empty());
    assert_eq!(string.len(), 0);
}

#[test]
fn try_from_str_examples() {
    let string = CacheString::try_from_str("My String").unwrap();
    assert_eq!(string.as_str(), "My String");
    assert_eq!(CacheString::try_from_str("").unwrap().as_str(), "");
    let out_of_bounds = "0".repeat(capacity() + 1);
    assert_eq!(CacheString::try_from_str(&out_of_bounds).err(), Some(OutOfBounds));
}

#[test]
fn from_str_truncate_examples() {
    let string = CacheString::from_str_truncate("My String");
    assert_eq!(string.as_str(), "My String");
    let truncate = "0".repeat(capacity() + 10);
    let truncated = "0".repeat(capacity());
    let string = CacheString::from_str_truncate(&truncate);
    assert_eq!(string.as_str(), truncated);
}

#[test]
fn from_str_unchecked_example() {
    let filled = "0".repeat(capacity());
    let string = CacheString::from_str_unchecked(&filled);
    assert_eq!(string.as_str(), filled.as_str());
}

#[test]
fn try_from_iterator_examples() {
    let string = CacheString::try_from_iterator(&["My String", " My Other String"]).unwrap();
    assert_eq!(string.as_str(), "My String My Other String");
    let out_of_bounds: Vec<&str> = (0..100).map(|_| "000").collect();
    assert!(CacheString::try_from_iterator(&out_of_bounds).is_err());
}

#[test]
fn from_iterator_examples() {
    let string = CacheString::from_iterator(&["My String", " Other String"]);
    assert_eq!(string.as_str(), "My String Other String");
    let out_of_bounds: Vec<&str> = (0..400).map(|_| "000").collect();
    let truncated = "0".repeat(capacity());
    let truncate = CacheString::from_iterator(&out_of_bounds);
    assert_eq!(truncate.as_str(), truncated.as_str());
}

#[test]
fn from_iterator_unchecked_example() {
    let string = CacheString::from_iterator_unchecked(&["My String", " My Other String"]);
    assert_eq!(string.as_str(), "My String My Other String");
}

#[test]
fn try_from_chars_examples() {
    let chars: Vec<char> = "My String".chars().collect();
    let string = CacheString::try_from_chars(&chars).unwrap();
    assert_eq!(string.as_str(), "My String");
    let out_of_bounds: Vec<char> = "0".repeat(capacity() + 1).chars().collect();
    assert!(CacheString::try_from_chars(&out_of_bounds).is_err());
}

#[test]
fn from_chars_examples() {
    let chars: Vec<char> = "My String".chars().collect();
    let string = CacheString::from_chars(&chars);
    assert_eq!(string.as_str(), "My String");
    let out_of_bounds: Vec<char> = "0".repeat(capacity() + 1).chars().collect();
    let truncated = "0".repeat(capacity());
    let truncate = CacheString::from_chars(&out_of_bounds);
    assert_eq!(truncate.as_str(), truncated.as_str());
}

#[test]
fn from_chars_unchecked_example() {
    let chars: Vec<char> = "My String".chars().collect();
    let string = CacheString::from_chars_unchecked(&chars);
    assert_eq!(string.as_str(), "My String");
}

#[test]
fn try_from_utf8_examples() {
    let string = CacheString::try_from_utf8("My String".as_bytes()).unwrap();
    assert_eq!(string.as_str(), "My String");
    let invalid_utf8 = [0, 159, 146, 150];
    assert_eq!(CacheString::try_from_utf8(&invalid_utf8).err(), Some(Error::Utf8));
    let out_of_bounds = "0000".repeat(400);
    assert_eq!(CacheString::try_from_utf8(out_of_bounds.as_bytes()).err(), Some(Error::OutOfBounds));
}

#[test]
fn from_utf8_examples() {
    let string = CacheString::from_utf8("My String".as_bytes()).unwrap();
    assert_eq!(string.as_str(), "My String");
    let invalid_utf8 = [0, 159, 146, 150];
    assert_eq!(CacheString::from_utf8(&invalid_utf8).err(), Some(Utf8));
    let out_of_bounds = "0".repeat(300);
    assert_eq!(
        CacheString::from_utf8(out_of_bounds.as_bytes()).unwrap().as_str(),
        "0".repeat(capacity()).as_str()
    );
}

#[test]
fn from_utf8_unchecked_example() {
    let string = CacheString::from_utf8_unchecked("My String".as_bytes());
    assert_eq!(string.as_str(), "My String");
}

#[test]
fn try_from_utf16_examples() {
    let music = [0xD834, 0xDD1E, 0x006d, 0x0075, 0x0073, 0x0069, 0x0063];
    let string = CacheString::try_from_utf16(&music).unwrap();
    assert_eq!(string.as_str(), "𝄞music");
    let invalid_utf16 = [0xD834, 0xDD1E, 0x006d, 0x0075, 0xD800, 0x0069, 0x0063];
    assert_eq!(CacheString::try_from_utf16(&invalid_utf16).err(), Some(Error::Utf16));
    let out_of_bounds: Vec<u16> = (0..300).map(|_| 0).collect();
    assert_eq!(CacheString::try_from_utf16(&out_of_bounds).err(), Some(Error::OutOfBounds));
}

#[test]
fn from_utf16_examples() {
    let music = [0xD834, 0xDD1E, 0x006d, 0x0075, 0x0073, 0x0069, 0x0063];
    let string = CacheString::from_utf16(&music).unwrap();
    assert_eq!(string.as_str(), "𝄞music");
    let invalid_utf16 = [0xD834, 0xDD1E, 0x006d, 0x0075, 0xD800, 0x0069, 0x0063];
    assert_eq!(CacheString::from_utf16(&invalid_utf16).err(), Some(Utf16));
    let out_of_bounds: Vec<u16> = (0..300).map(|_| 0).collect();
    assert_eq!(
        CacheString::from_utf16(&out_of_bounds).unwrap().as_str(),
        "\0".repeat(capacity()).as_str()
    );
}

#[test]
fn from_utf16_lossy_examples() {
    let music = [0xD834, 0xDD1E, 0x006d, 0x0075, 0x0073, 0x0069, 0x0063];
    let string = CacheString::from_utf16_lossy(&music);
    assert_eq!(string.as_str(), "𝄞music");
    let invalid_utf16 = [0xD834, 0xDD1E, 0x006d, 0x0075, 0xD800, 0x0069, 0x0063];
    assert_eq!(CacheString::from_utf16_lossy(&invalid_utf16).as_str(), "𝄞mu\u{FFFD}ic");
    let out_of_bounds: Vec<u16> = (0..300).map(|_| 0).collect();
    assert_eq!(
        CacheString::from_utf16_lossy(&out_of_bounds).as_str(),
        "\0".repeat(capacity()).as_str()
    );
}

#[test]
fn as_str_and_as_bytes() {
    let s = CacheString::try_from_str("My String").unwrap();
    assert_eq!(s.as_str(), "My String");
    assert_eq!(s.as_bytes(), "My String".as_bytes());
}

#[test]
fn try_push_str_examples() {
    let mut s = CacheString::try_from_str("My String").unwrap();
    s.try_push_str(" My other String").unwrap();
    assert_eq!(s.as_str(), "My String My other String");
    assert!(s.try_push_str(&"0".repeat(capacity())).is_err());
    assert_eq!(s.as_str(), "My String My other String");
}

#[test]
fn push_str_examples() {
    let mut s = CacheString::try_from_str("My String").unwrap();
    s.push_str(" My other String");
    assert_eq!(s.as_str(), "My String My other String");
    s.clear();
    s.push_str(&"0".repeat(capacity() + 10));
    assert_eq!(s.as_str(), "0".repeat(capacity()).as_str());
}

#[test]
fn push_str_unchecked_example() {
    let mut s = CacheString::try_from_str("My String").unwrap();
    s.push_str_unchecked(" My other String");
    assert_eq!(s.as_str(), "My String My other String");
}

#[test]
fn try_push_examples() {
    let mut s = CacheString::try_from_str("My String").unwrap();
    s.try_push('!').unwrap();
    assert_eq!(s.as_str(), "My String!");
    let mut s = CacheString::try_from_str(&"0".repeat(capacity())).unwrap();
    assert!(s.try_push('!').is_err());
}

#[test]
fn push_unchecked_example() {
    let mut s = CacheString::try_from_str("My String").unwrap();
    s.push_unchecked('!');
    assert_eq!(s.as_str(), "My String!");
}

#[test]
fn truncate_examples() {
    let mut s = CacheString::try_from_str("My String").unwrap();
    s.truncate(5).unwrap();
    assert_eq!(s.as_str(), "My St");
    s.truncate(6).unwrap();
    assert_eq!(s.as_str(), "My St");
    let mut s = CacheString::try_from_str("🤔").unwrap();
    assert!(s.truncate(1).is_err());
}

#[test]
fn pop_examples() {
    let mut s = CacheString::try_from_str("A🤔").unwrap();
    assert_eq!(s.pop(), Some('🤔'));
    assert_eq!(s.pop(), Some('A'));
    assert_eq!(s.pop(), None);
}

#[test]
fn trim_examples() {
    let mut string = CacheString::try_from_str("   to be trimmed     ").unwrap();
    string.trim();
    assert_eq!(string.as_str(), "to be trimmed");
    let mut string = CacheString::try_from_str("   🤔").unwrap();
    string.trim();
    assert_eq!(string.as_str(), "🤔");
}

#[test]
fn remove_examples() {
    let mut s = CacheString::try_from_str("ABCD🤔").unwrap();
    assert_eq!(s.remove("ABCD🤔".len() as u8), Err(Error::OutOfBounds));
    assert_eq!(s.remove(10), Err(Error::OutOfBounds));
    assert_eq!(s.remove(6), Err(Error::Utf8));
    assert_eq!(s.remove(0), Ok('A'));
    assert_eq!(s.as_str(), "BCD🤔");
    assert_eq!(s.remove(2), Ok('D'));
    assert_eq!(s.as_str(), "BC🤔");
}

#[test]
fn retain_example() {
    let mut s = CacheString::try_from_str("ABCD🤔").unwrap();
    s.retain(|c| c != '🤔');
    assert_eq!(s.as_str(), "ABCD");
}

#[test]
fn try_insert_examples() {
    let mut s = CacheString::try_from_str("ABCD🤔").unwrap();
    s.try_insert(1, 'A').unwrap();
    s.try_insert(2, 'B').unwrap();
    assert_eq!(s.as_str(), "AABBCD🤔");
    assert_eq!(s.try_insert(20, 'C'), Err(Error::OutOfBounds));
    assert_eq!(s.try_insert(8, 'D'), Err(Error::Utf8));
    let mut s = CacheString::try_from_str(&"0".repeat(capacity())).unwrap();
    assert_eq!(s.try_insert(0, 'C'), Err(Error::OutOfBounds));
}

#[test]
fn insert_unchecked_example() {
    let mut s = CacheString::try_from_str("ABCD🤔").unwrap();
    s.insert_unchecked(1, 'A');
    s.insert_unchecked(1, 'B');
    assert_eq!(s.as_str(), "ABABCD🤔");
}

#[test]
fn try_insert_str_examples() {
    let mut s = CacheString::try_from_str("ABCD🤔").unwrap();
    s.try_insert_str(1, "AB").unwrap();
    s.try_insert_str(1, "BC").unwrap();
    assert_eq!(s.try_insert_str(1, &"0".repeat(capacity())), Err(Error::OutOfBounds));
    assert_eq!(s.as_str(), "ABCABBCD🤔");
    assert_eq!(s.try_insert_str(20, "C"), Err(Error::OutOfBounds));
    assert_eq!(s.try_insert_str(10, "D"), Err(Error::Utf8));
}

#[test]
fn insert_str_examples() {
    let mut s = CacheString::try_from_str("ABCD🤔").unwrap();
    s.insert_str(1, "AB").unwrap();
    s.insert_str(1, "BC").unwrap();
    assert_eq!(s.as_str(), "ABCABBCD🤔");
    assert_eq!(s.insert_str(20, "C"), Err(Error::OutOfBounds));
    assert_eq!(s.insert_str(10, "D"), Err(Error::Utf8));
    s.clear();
    s.insert_str(0, &"0".repeat(capacity() + 10)).unwrap();
    assert_eq!(s.as_str(), "0".repeat(capacity()).as_str());
}

#[test]
fn insert_str_unchecked_example() {
    let mut s = CacheString::try_from_str("ABCD🤔").unwrap();
    s.insert_str_unchecked(1, "AB");
    s.insert_str_unchecked(1, "BC");
    assert_eq!(s.as_str(), "ABCABBCD🤔");
}

#[test]
fn len_example() {
    let mut s = CacheString::try_from_str("ABCD").unwrap();
    assert_eq!(s.len(), 4);
    s.try_push('🤔').unwrap();
    assert_eq!(s.len(), 8);
}

#[test]
fn is_empty_and_clear_example() {
    let mut s = CacheString::try_from_str("ABCD").unwrap();
    assert!(!s.is_empty());
    s.clear();
    assert!(s.is_empty());
}

#[test]
fn split_off_examples() {
    let mut s = CacheString::try_from_str("AB🤔CD").unwrap();
    assert_eq!(s.split_off(6).unwrap().as_str(), "CD");
    assert_eq!(s.as_str(), "AB🤔");
    assert_eq!(s.split_off(20).err(), Some(Error::OutOfBounds));
    assert_eq!(s.split_off(4).err(), Some(Error::Utf8));
}

fn collect(mut d: arraystring::Drain<U63>) -> Vec<char> {
    let mut out = Vec::new();
    while let Some(c) = d.next() {
        out.push(c);
    }
    out
}

#[test]
fn drain_examples() {
    let mut s = CacheString::try_from_str("ABCD🤔").unwrap();
    let d = s.drain((Bound::Unbounded, Bound::Excluded(3))).unwrap();
    assert_eq!(collect(d), vec!['A', 'B', 'C']);
    assert_eq!(s.as_str(), "D🤔");
    assert!(matches!(s.drain((Bound::Included(3), Bound::Unbounded)), Err(Error::Utf8)));
    assert!(matches!(s.drain((Bound::Included(10), Bound::Unbounded)), Err(Error::OutOfBounds)));
}

#[test]
fn replace_range_examples() {
    let mut s = CacheString::try_from_str("ABCD🤔").unwrap();
    s.replace_range((Bound::Included(2), Bound::Excluded(4)), "EFGHI").unwrap();
    assert_eq!(s.as_str(), "ABEFGHI🤔");
    assert_eq!(s.replace_range((Bound::Included(9), Bound::Unbounded), "J"), Err(Error::Utf8));
    assert_eq!(s.replace_range((Bound::Unbounded, Bound::Excluded(90)), "K"), Err(Error::OutOfBounds));
    assert_eq!(
        s.replace_range((Bound::Included(0), Bound::Excluded(1)), &"0".repeat(capacity())),
        Err(Error::OutOfBounds)
    );
    assert_eq!(s.as_str(), "ABEFGHI🤔");
}
