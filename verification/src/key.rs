use vstd::prelude::*;

verus! {

/// The direction of an arrow key.
#[derive(Debug, PartialEq, Eq, Structural, Clone, Copy)]
pub enum Direction {
    Up,
    Down,
    Left,
    Right,
}

/// One semantic key event decoded from the byte stream.
#[derive(Debug, PartialEq, Eq, Structural, Clone, Copy)]
pub enum Key {
    Char(char),
    Symbol(char),
    Digit(u8),
    Arrow(Direction),
    Whitespace,
    Backspace,
    Del,
    Tab,
    Newline,
    Etx,
}

/// The outcome of one decoding step.
#[derive(Debug, PartialEq, Eq, Structural, Clone, Copy)]
pub enum Decoded {
    /// A classified key.
    Key(Key),
    /// The stream holds no byte at this position, or ends inside a possible
    /// escape sequence: nothing can be classified yet.
    Incomplete,
    /// An escape sequence with an unrecognized terminator: no semantic key.
    Invalid,
}

/// The classification of one byte outside an escape sequence.
pub open spec fn classify_byte(b: u8) -> Key {
    if b == 0x03 {
        Key::Etx
    } else if b == 0x08 {
        Key::Backspace
    } else if b == 0x09 {
        Key::Tab
    } else if b == 0x0a {
        Key::Newline
    } else if b == 0x20 {
        Key::Whitespace
    } else if b == 0x7f {
        Key::Del
    } else if 0x30 <= b <= 0x39 {
        Key::Digit((b - 0x30) as u8)
    } else if (0x41 <= b <= 0x5a) || (0x61 <= b <= 0x7a) {
        Key::Char(b as char)
    } else {
        Key::Symbol(b as char)
    }
}

/// One decoding step at position `pos` of the stream: the outcome and the
/// position after the consumed bytes. An escape introducer (0x1B) must be
/// followed by 0x5B and one of the four arrow terminators to classify; a
/// stream ending inside such a sequence is incomplete and consumes nothing.
pub open spec fn spec_read_key(s: Seq<u8>, pos: int) -> (Decoded, int) {
    if pos >= s.len() {
        (Decoded::Incomplete, pos)
    } else if s[pos] == 0x1b {
        if pos + 1 >= s.len() {
            (Decoded::Incomplete, pos)
        } else if s[pos + 1] != 0x5b {
            (Decoded::Invalid, pos + 2)
        } else if pos + 2 >= s.len() {
            (Decoded::Incomplete, pos)
        } else if s[pos + 2] == 0x41 {
            (Decoded::Key(Key::Arrow(Direction::Up)), pos + 3)
        } else if s[pos + 2] == 0x42 {
            (Decoded::Key(Key::Arrow(Direction::Down)), pos + 3)
        } else if s[pos + 2] == 0x43 {
            (Decoded::Key(Key::Arrow(Direction::Right)), pos + 3)
        } else if s[pos + 2] == 0x44 {
            (Decoded::Key(Key::Arrow(Direction::Left)), pos + 3)
        } else {
            (Decoded::Invalid, pos + 3)
        }
    } else {
        (Decoded::Key(classify_byte(s[pos])), pos + 1)
    }
}

/// Decodes one key from the byte stream at position `pos`, returning the
/// outcome and the position after the consumed bytes.
pub fn read_key(bytes: &Vec<u8>, pos: usize) -> (r: (Decoded, usize))
    requires
        pos <= bytes@.len(),
    ensures
        r.0 == spec_read_key(bytes@, pos as int).0,
        r.1 == spec_read_key(bytes@, pos as int).1,
        r.1 <= bytes@.len(),
{
    let n = bytes.len();
    if pos >= n {
        return (Decoded::Incomplete, pos);
    }
    let b = bytes[pos];
    if b == 0x1b {
        if pos + 1 >= n {
            return (Decoded::Incomplete, pos);
        }
        if bytes[pos + 1] != 0x5b {
            return (Decoded::Invalid, pos + 2);
        }
        if pos + 2 >= n {
            return (Decoded::Incomplete, pos);
        }
        let t = bytes[pos + 2];
        if t == 0x41 {
            (Decoded::Key(Key::Arrow(Direction::Up)), pos + 3)
        } else if t == 0x42 {
            (Decoded::Key(Key::Arrow(Direction::Down)), pos + 3)
        } else if t == 0x43 {
            (Decoded::Key(Key::Arrow(Direction::Right)), pos + 3)
        } else if t == 0x44 {
            (Decoded::Key(Key::Arrow(Direction::Left)), pos + 3)
        } else {
            (Decoded::Invalid, pos + 3)
        }
    } else {
        let k = if b == 0x03 {
            Key::Etx
        } else if b == 0x08 {
            Key::Backspace
        } else if b == 0x09 {
            Key::Tab
        } else if b == 0x0a {
            Key::Newline
        } else if b == 0x20 {
            Key::Whitespace
        } else if b == 0x7f {
            Key::Del
        } else if 0x30 <= b && b <= 0x39 {
            Key::Digit(b - 0x30)
        } else if (0x41 <= b && b <= 0x5a) || (0x61 <= b && b <= 0x7a) {
            Key::Char(b as char)
        } else {
            Key::Symbol(b as char)
        };
        (Decoded::Key(k), pos + 1)
    }
}

} // verus!
