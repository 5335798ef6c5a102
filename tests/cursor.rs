use git_objects::cursor::take_until;

#[test]
fn take_until_stops_at_the_delimiter() {
    let bytes = b"blob 6\0hello\n";
    let mut pos: usize = 0;
    assert_eq!(take_until(bytes, &mut pos, b' '), b"blob".to_vec());
    assert_eq!(pos, 5);
    assert_eq!(take_until(bytes, &mut pos, 0), b"6".to_vec());
    assert_eq!(pos, 7);
}

#[test]
fn take_until_without_delimiter_takes_the_rest() {
    let bytes = b"blob 6\0hello\n";
    let mut pos: usize = 7;
    assert_eq!(take_until(bytes, &mut pos, b' '), b"hello\n".to_vec());
    assert_eq!(pos, bytes.len());
    assert_eq!(take_until(bytes, &mut pos, b' '), Vec::<u8>::new());
    assert_eq!(pos, bytes.len());
}

#[test]
fn take_until_at_a_leading_delimiter_is_empty() {
    let mut pos: usize = 0;
    assert_eq!(take_until(b" x", &mut pos, b' '), Vec::<u8>::new());
    assert_eq!(pos, 1);
}
