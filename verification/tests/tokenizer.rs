use streamparse::tokenizer::{find_byte, split_fields, trim};

#[test]
fn find_byte_locates_first_match() {
    assert_eq!(find_byte(b"abc\ndef", b'\n'), Some(3));
    assert_eq!(find_byte(b"abc", b'\n'), None);
}

#[test]
fn split_fields_borrows_subslices() {
    let fields = split_fields(b"a,b,c", b',');
    assert_eq!(fields, vec![&b"a"[..], &b"b"[..], &b"c"[..]]);
}

#[test]
fn trim_strips_surrounding_whitespace() {
    assert_eq!(trim(b"  hi  "), &b"hi"[..]);
    assert_eq!(trim(b"hi\r"), &b"hi"[..]);
}

#[test]
fn trim_of_all_whitespace_is_empty() {
    assert_eq!(trim(b"   "), &b""[..]);
    assert_eq!(trim(b""), &b""[..]);
}

#[test]
fn find_byte_gives_the_first_of_several() {
    assert_eq!(find_byte(b"a\nb\nc", b'\n'), Some(1));
    assert_eq!(find_byte(b"\n", b'\n'), Some(0));
    assert_eq!(find_byte(b"", b'\n'), None);
}

#[test]
fn split_fields_keeps_empty_fields() {
    let empty: &[u8] = b"";
    assert_eq!(split_fields(b"", b','), vec![empty]);
    assert_eq!(split_fields(b",", b','), vec![empty, empty]);
    assert_eq!(split_fields(b"a,,b,", b','), vec![&b"a"[..], empty, &b"b"[..], empty]);
    assert_eq!(split_fields(b"abc", b','), vec![&b"abc"[..]]);
}

#[test]
fn split_fields_rejoined_gives_the_record() {
    let record: &[u8] = b"x;;yy;z";
    let fields = split_fields(record, b';');
    assert_eq!(fields.join(&b';'), record.to_vec());
    assert!(fields.iter().all(|f| !f.contains(&b';')));
}

#[test]
fn trim_keeps_inner_whitespace_and_strips_every_kind() {
    assert_eq!(trim(b"\t\x0c a b \r\n"), &b"a b"[..]);
    assert_eq!(trim(b"\x0bv\x0b"), &b"\x0bv\x0b"[..]);
    assert_eq!(trim(b"x"), &b"x"[..]);
}

#[test]
fn trimming_twice_equals_trimming_once() {
    for input in [&b" \tx y\r\n"[..], b"   ", b"", b"z", b"\x0c a \x0c"] {
        assert_eq!(trim(trim(input)), trim(input));
    }
}
