use bitstr::{write_escaped_str, BitStr, BitStrMut};

#[test]
fn test_display() {
    let rio = BitStr::from(&[82, 105, 111]);
    assert_eq!(&rio.to_display_string(), "Rio");
}

#[test]
fn test_debug() {
    let rio = BitStr::from(&[82, 105, 111]);
    assert_eq!(&rio.to_debug_string(), "\"Rio\"");
}

#[test]
fn test_contains_u8() {
    let str_bitstr: BitStr = BitStr::from(&[82, 105, 111]);
    assert!(str_bitstr.contains_u8(82), "{}", true);
}

#[test]
fn test_first_and_last() {
    let bytes = [82, 105, 111];
    let bit_str: BitStr = BitStr::from(&bytes);
    assert_eq!(111, bit_str.last().unwrap());
    assert_eq!(82, bit_str.first().unwrap());
}

#[test]
fn test_from() {
    let bytes = [82, 105, 111];
    let bit_str: BitStr = BitStr::from(&bytes);

    let bt = b"Rust";
    let bit_str2: BitStr = BitStr::from(bt);

    assert!("Rio" == bit_str);
    assert!("Rust" == bit_str2);
    assert!("Rust" == bit_str2);
}

#[test]
fn invalid_lead_byte_display_and_debug() {
    let s = BitStr::from(&[0xFF, 0x61]);
    assert_eq!(s.to_display_string(), "\u{FFFD}a");
    assert_eq!(s.to_debug_string(), "\"\\xffa\"");
}

#[test]
fn truncated_tail_is_one_chunk() {
    let bytes = [0x61, 0xC2];
    let s = BitStr::from(&bytes);
    let mut it = s.utf8_chunks();
    let c = it.next().unwrap();
    assert_eq!(c.valid, "a");
    assert_eq!(c.broken, &[0xC2][..]);
    assert!(it.next().is_none());
}

#[test]
fn chunks_rejoin_to_input() {
    let bytes = [0x61, 0xFF, 0xE2, 0x82, 0x62, 0xF0, 0x9F, 0x98, 0x80, 0xC3];
    let s = BitStr::from(&bytes);
    let mut it = s.utf8_chunks();
    let mut all: Vec<u8> = Vec::new();
    let mut n = 0;
    while let Some(c) = it.next() {
        all.extend_from_slice(c.valid.as_bytes());
        all.extend_from_slice(c.broken);
        n += 1;
    }
    assert_eq!(all, bytes.to_vec());
    assert_eq!(n, 3);
}

#[test]
fn only_last_chunk_has_empty_broken() {
    let bytes = [0xFF, 0x61, 0xFE, 0x62];
    let s = BitStr::from(&bytes);
    let mut it = s.utf8_chunks();
    let a = it.next().unwrap();
    assert_eq!((a.valid, a.broken), ("", &[0xFF][..]));
    let b = it.next().unwrap();
    assert_eq!((b.valid, b.broken), ("a", &[0xFE][..]));
    let c = it.next().unwrap();
    assert_eq!((c.valid, c.broken), ("b", &[][..]));
    assert!(it.next().is_none());
}

#[test]
fn valid_text_is_one_chunk() {
    let s = BitStr::from_str("h\u{e9}llo \u{1F600}");
    let mut it = s.utf8_chunks();
    let c = it.next().unwrap();
    assert_eq!(c.valid, "h\u{e9}llo \u{1F600}");
    assert!(c.broken.is_empty());
    assert!(it.next().is_none());
}

#[test]
fn empty_input_has_no_chunks() {
    let s = BitStr::empty();
    assert!(s.utf8_chunks().next().is_none());
    assert_eq!(s.to_display_string(), "");
    assert_eq!(s.to_debug_string(), "\"\"");
}

#[test]
fn one_replacement_for_one_broken_run() {
    let s = BitStr::from(&[0xE2, 0x82, 0x61]);
    assert_eq!(s.to_display_string(), "\u{FFFD}a");
    assert_eq!(s.to_debug_string(), "\"\\xe2\\x82a\"");
}

#[test]
fn separate_runs_get_separate_replacements() {
    let s = BitStr::from(&[0xFF, 0xFF, 0x61]);
    assert_eq!(s.to_display_string(), "\u{FFFD}\u{FFFD}a");
}

#[test]
fn debug_escapes_control_and_quote() {
    let s = BitStr::from_str("a\n\"\\");
    assert_eq!(s.to_debug_string(), "\"a\\n\\\"\\\\\"");
    let mut out = String::from("x");
    write_escaped_str(&mut out, "\t'");
    assert_eq!(out, "x\\t\\'");
}

#[test]
fn split_at_end_keeps_everything() {
    let s = BitStr::from(b"hello");
    let (a, b) = s.split_at(5);
    assert!(a == s);
    assert!(b.is_empty());
    let (c, d) = s.split_at(2);
    assert!(c == "he" && d == "llo");
}

#[test]
fn strict_text_error_offset() {
    let s = BitStr::from(&[0xFF]);
    let e = s.to_str().unwrap_err();
    assert_eq!(e.valid_up_to(), 0);
    assert_eq!(e.error_len(), Some(1));
    let t = BitStr::from(&[0x61, 0xE2, 0x82]);
    let e = t.to_str().unwrap_err();
    assert_eq!(e.valid_up_to(), 1);
    assert_eq!(e.error_len(), None);
    assert_eq!(BitStr::from(b"ok").to_str().unwrap(), "ok");
}

#[test]
fn equality_and_order_are_bytewise() {
    let a = BitStr::from(b"abc");
    let b = BitStr::from(b"abd");
    let p = BitStr::from(b"ab");
    assert!(a == BitStr::from(b"abc"));
    assert!(a != b);
    assert!(a < b);
    assert!(p < a);
    assert!(BitStr::from(&[0xFF]) > BitStr::from(&[0x7F]));
    assert!(a == "abc" && "abc" == a);
    let raw: &[u8] = b"abc";
    assert!(a == raw && raw == a);
    assert!(a < "abd" && "abd" > a);
    assert_eq!(a.compare(&b), std::cmp::Ordering::Less);
}

#[test]
fn search_and_prefixes() {
    let s = BitStr::from(b"hello");
    assert!(s.contains(b'l'));
    assert!(!s.contains_u8(b'z'));
    assert!(s.starts_with(BitStr::from_str("he")));
    assert!(!s.starts_with(BitStr::from_str("hello!")));
    assert!(s.ends_with(BitStr::from_str("llo")));
    assert!(!s.ends_with(BitStr::from_str("hel")));
    assert!(s.starts_with(BitStr::empty()));
    assert_eq!(s.bytes(), b"hello".to_vec());
    assert_eq!(s.len(), 5);
    let (h, rest) = s.split_first().unwrap();
    assert_eq!(h, b'h');
    assert!(rest == "ello");
    assert!(BitStr::empty().split_first().is_none());
    assert!(BitStr::empty().first().is_none());
}

#[test]
fn ascii_operations() {
    assert!(BitStr::from(b"Hi!").is_ascii());
    assert!(!BitStr::from(&[0x61, 0x80]).is_ascii());
    assert!(BitStr::from(b"HeLLo").eq_ignore_ascii_case(BitStr::from(b"hello")));
    assert!(!BitStr::from(b"hello").eq_ignore_ascii_case(BitStr::from(b"hellp")));
    let mut buf = [b'a', b'B', 0xE9, b'z', b'1'];
    {
        let mut m = BitStrMut::from_mut(&mut buf);
        m.make_ascii_uppercase();
    }
    assert_eq!(buf, [b'A', b'B', 0xE9, b'Z', b'1']);
    {
        let mut m = BitStrMut::from_mut(&mut buf);
        m.make_ascii_lowercase();
    }
    assert_eq!(buf, [b'a', b'b', 0xE9, b'z', b'1']);
}

#[test]
fn mutable_access() {
    let mut buf = [1u8, 2, 3, 4];
    *BitStrMut::from_mut(&mut buf).first_mut().unwrap() = 10;
    *BitStrMut::from_mut(&mut buf).last_mut().unwrap() = 40;
    assert_eq!(buf, [10, 2, 3, 40]);
    {
        let (last, init) = BitStrMut::from_mut(&mut buf).split_last_mut().unwrap();
        *last = 41;
        init.as_bytes_mut()[0] = 11;
    }
    assert_eq!(buf, [11, 2, 3, 41]);
    {
        let (a, b) = BitStrMut::from_mut(&mut buf).split_at_mut(2);
        a.bytes_mut()[1] = 22;
        b.as_bytes_mut()[0] = 33;
    }
    assert_eq!(buf, [11, 22, 33, 41]);
    let mut empty: [u8; 0] = [];
    assert!(BitStrMut::from_mut(&mut empty).first_mut().is_none());
    assert_eq!(BitStrMut::from_mut(&mut empty).len(), 0);
}

#[test]
fn default_view_is_empty() {
    let d: BitStr = Default::default();
    assert!(d.is_empty());
    assert!(d == BitStr::empty());
}
