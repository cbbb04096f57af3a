use cline::{read_key, Decoded, Direction, Key};

#[test]
fn classifies_single_bytes_exactly() {
    let bytes: Vec<u8> = vec![0x03, 0x08, 0x09, 0x0a, 0x20, 0x7f];
    assert!(read_key(&bytes, 0) == (Decoded::Key(Key::Etx), 1));
    assert!(read_key(&bytes, 1) == (Decoded::Key(Key::Backspace), 2));
    assert!(read_key(&bytes, 2) == (Decoded::Key(Key::Tab), 3));
    assert!(read_key(&bytes, 3) == (Decoded::Key(Key::Newline), 4));
    assert!(read_key(&bytes, 4) == (Decoded::Key(Key::Whitespace), 5));
    assert!(read_key(&bytes, 5) == (Decoded::Key(Key::Del), 6));
}

#[test]
fn classifies_digits_letters_and_symbols() {
    let bytes: Vec<u8> = vec![0x30, 0x39, 0x41, 0x5a, 0x61, 0x7a, 0x21];
    assert!(read_key(&bytes, 0) == (Decoded::Key(Key::Digit(0)), 1));
    assert!(read_key(&bytes, 1) == (Decoded::Key(Key::Digit(9)), 2));
    assert!(read_key(&bytes, 2) == (Decoded::Key(Key::Char('A')), 3));
    assert!(read_key(&bytes, 3) == (Decoded::Key(Key::Char('Z')), 4));
    assert!(read_key(&bytes, 4) == (Decoded::Key(Key::Char('a')), 5));
    assert!(read_key(&bytes, 5) == (Decoded::Key(Key::Char('z')), 6));
    assert!(read_key(&bytes, 6) == (Decoded::Key(Key::Symbol('!')), 7));
}

#[test]
fn decodes_arrow_escape_sequences() {
    let up: Vec<u8> = vec![0x1b, 0x5b, 0x41];
    let down: Vec<u8> = vec![0x1b, 0x5b, 0x42];
    let right: Vec<u8> = vec![0x1b, 0x5b, 0x43];
    let left: Vec<u8> = vec![0x1b, 0x5b, 0x44];
    assert!(read_key(&up, 0) == (Decoded::Key(Key::Arrow(Direction::Up)), 3));
    assert!(read_key(&down, 0) == (Decoded::Key(Key::Arrow(Direction::Down)), 3));
    assert!(read_key(&right, 0) == (Decoded::Key(Key::Arrow(Direction::Right)), 3));
    assert!(read_key(&left, 0) == (Decoded::Key(Key::Arrow(Direction::Left)), 3));
}

#[test]
fn unrecognized_escape_yields_no_key() {
    let bad_terminator: Vec<u8> = vec![0x1b, 0x5b, 0x45];
    assert!(read_key(&bad_terminator, 0) == (Decoded::Invalid, 3));
    let bad_second: Vec<u8> = vec![0x1b, 0x41, 0x41];
    assert!(read_key(&bad_second, 0) == (Decoded::Invalid, 2));
}

#[test]
fn truncated_input_is_incomplete() {
    let empty: Vec<u8> = Vec::new();
    assert!(read_key(&empty, 0) == (Decoded::Incomplete, 0));
    let esc_only: Vec<u8> = vec![0x1b];
    assert!(read_key(&esc_only, 0) == (Decoded::Incomplete, 0));
    let esc_bracket: Vec<u8> = vec![0x1b, 0x5b];
    assert!(read_key(&esc_bracket, 0) == (Decoded::Incomplete, 0));
}
