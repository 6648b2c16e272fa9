use suroi::bitstream::{BitStream, StreamError};
use suroi::strings::{
    read_ascii_string, read_utf8_string, string_to_byte_array, write_ascii_string,
    write_utf8_string,
};

#[test]
fn utf8_round_trip_null_terminated() {
    let mut s = BitStream::new(16);
    write_utf8_string(&mut s, "hello", None).unwrap();
    assert_eq!(s.get_index(), 48);
    s.set_index(0).unwrap();
    assert_eq!(read_utf8_string(&mut s, None).unwrap(), "hello");
    assert_eq!(s.get_index(), 48);
}

#[test]
fn utf8_round_trip_fixed_length() {
    let mut s = BitStream::new(16);
    write_utf8_string(&mut s, "hello", Some(10)).unwrap();
    assert_eq!(s.get_index(), 80);
    s.set_index(0).unwrap();
    assert_eq!(read_utf8_string(&mut s, Some(10)).unwrap(), "hello");
    assert_eq!(s.get_index(), 80);
}

#[test]
fn fixed_length_stops_at_embedded_null() {
    let mut s = BitStream::new(16);
    write_utf8_string(&mut s, "he\0llo", Some(10)).unwrap();
    s.set_index(0).unwrap();
    assert_eq!(read_utf8_string(&mut s, Some(10)).unwrap(), "he");
    assert_eq!(s.get_index(), 80);
}

#[test]
fn fixed_length_truncates() {
    let mut s = BitStream::new(4);
    write_ascii_string(&mut s, "abcdef", Some(3)).unwrap();
    assert_eq!(s.to_bytes(), vec![b'a', b'b', b'c', 0]);
    s.set_index(0).unwrap();
    assert_eq!(read_ascii_string(&mut s, Some(3)).unwrap(), "abc");
}

#[test]
fn zero_length_reads_nothing() {
    let mut s = BitStream::new(2);
    assert_eq!(read_utf8_string(&mut s, Some(0)).unwrap(), "");
    assert_eq!(s.get_index(), 0);
}

#[test]
fn multibyte_text() {
    let text = "aé€😀";
    assert_eq!(
        string_to_byte_array(text),
        vec![0x61, 0xC3, 0xA9, 0xE2, 0x82, 0xAC, 0xF0, 0x9F, 0x98, 0x80]
    );
    assert_eq!(string_to_byte_array(text), text.as_bytes().to_vec());
    let mut s = BitStream::new(16);
    write_utf8_string(&mut s, text, None).unwrap();
    assert_eq!(s.get_index(), 88);
    s.set_index(0).unwrap();
    assert_eq!(read_utf8_string(&mut s, None).unwrap(), text);
}

#[test]
fn ascii_refuses_other_text() {
    let mut s = BitStream::new(16);
    assert_eq!(write_ascii_string(&mut s, "né", None), Err(StreamError::NotAscii));
    assert_eq!(s.get_index(), 0);
    write_utf8_string(&mut s, "né", None).unwrap();
    s.set_index(0).unwrap();
    assert_eq!(read_ascii_string(&mut s, None), Err(StreamError::NotAscii));
}

#[test]
fn invalid_utf8_is_refused() {
    let mut s = BitStream::from_bytes(&[0xC3, 0x28, 0]);
    assert_eq!(read_utf8_string(&mut s, None), Err(StreamError::InvalidUtf8));
}

#[test]
fn missing_terminator_is_out_of_bounds() {
    let mut s = BitStream::from_bytes(&[b'a', b'b']);
    assert_eq!(read_utf8_string(&mut s, None), Err(StreamError::OutOfBounds));
    let mut t = BitStream::from_bytes(&[b'a', b'b']);
    assert_eq!(read_utf8_string(&mut t, Some(3)), Err(StreamError::OutOfBounds));
    assert_eq!(t.get_index(), 0);
}

#[test]
fn text_without_room_is_refused() {
    let mut s = BitStream::new(5);
    assert_eq!(write_utf8_string(&mut s, "hello", None), Err(StreamError::OutOfBounds));
    assert_eq!(s.to_bytes(), vec![0; 5]);
    assert_eq!(write_utf8_string(&mut s, "hi", Some(6)), Err(StreamError::OutOfBounds));
    write_utf8_string(&mut s, "hell", None).unwrap();
    assert_eq!(s.to_bytes(), vec![b'h', b'e', b'l', b'l', 0]);
}
