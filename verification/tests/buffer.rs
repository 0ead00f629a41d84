use streamparse::StreamBuffer;

#[test]
fn take_record_removes_content_and_terminator() {
    let mut buf = StreamBuffer::new(1024);
    buf.extend(b"hello\nworld");
    let record = buf.take_record(5); // terminator at index 5
    assert_eq!(record.as_slice(), &b"hello"[..]);
    assert_eq!(buf.as_slice(), &b"world"[..]);
}

#[test]
fn take_all_drains_the_buffer() {
    let mut buf = StreamBuffer::new(1024);
    buf.extend(b"abc");
    let all = buf.take_all();
    assert_eq!(all.as_slice(), &b"abc"[..]);
    assert!(buf.is_empty());
}

#[test]
fn buffer_reports_length_and_limit() {
    let mut buf = StreamBuffer::new(7);
    assert!(buf.is_empty());
    assert_eq!(buf.max_record_size(), 7);
    buf.extend(b"ab");
    buf.extend(b"");
    buf.extend(b"c\n");
    assert_eq!(buf.len(), 4);
    assert_eq!(buf.as_slice(), &b"abc\n"[..]);
    let record = buf.take_record(3);
    assert_eq!(record.as_slice(), &b"abc"[..]);
    assert!(buf.is_empty());
    assert_eq!(buf.max_record_size(), 7);
}

#[test]
fn take_record_at_front_gives_empty_record() {
    let mut buf = StreamBuffer::new(16);
    buf.extend(b"\nrest");
    let record = buf.take_record(0);
    assert!(record.is_empty());
    assert_eq!(buf.as_slice(), &b"rest"[..]);
}
