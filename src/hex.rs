//! Characters of the dump text: hex digits, offset labels, printable bytes
//! and white space.
use vstd::prelude::*;

verus! {

/// Relies on std's `String::push`, which appends one character to the string.
pub assume_specification[ String::push ](s: &mut String, ch: char)
    ensures
        final(s)@ == old(s)@.push(ch),
;

/// The lowercase hex digit of a value below 16.
pub open spec fn hex_digit(n: int) -> char {
    if n < 10 {
        (n + 48) as char
    } else {
        (n + 87) as char
    }
}

/// The two lowercase hex digits of a byte, high nibble first.
pub open spec fn hex_of_byte(b: u8) -> Seq<char> {
    seq![hex_digit(b as int / 16), hex_digit(b as int % 16)]
}

/// The hex digits of a byte sequence, two per byte, in order.
pub open spec fn hex_of_bytes(b: Seq<u8>) -> Seq<char>
    decreases b.len(),
{
    if b.len() == 0 {
        Seq::empty()
    } else {
        hex_of_bytes(b.drop_last()) + hex_of_byte(b.last())
    }
}

/// The lowercase hex digits of `n`, zero-padded on the left to at least
/// `width` digits.
pub open spec fn hex_label(n: nat, width: nat) -> Seq<char>
    decreases n, width,
{
    if n == 0 && width == 0 {
        Seq::empty()
    } else {
        hex_label(n / 16, if width > 0 { (width - 1) as nat } else { 0 }).push(
            hex_digit((n % 16) as int),
        )
    }
}

/// How a byte shows in the ASCII column: itself when printable, else a dot.
pub open spec fn ascii_char(b: u8) -> char {
    if 32 <= b <= 126 {
        b as char
    } else {
        '.'
    }
}

/// The ASCII column for a run of bytes: one character per byte.
pub open spec fn ascii_of(b: Seq<u8>) -> Seq<char> {
    b.map_values(|x: u8| ascii_char(x))
}

/// Unicode's White_Space property.
pub open spec fn is_white_space(c: char) -> bool {
    let u = c as u32;
    (9 <= u <= 13) || u == 32 || u == 0x85 || u == 0xa0 || u == 0x1680 || (0x2000 <= u
        <= 0x200a) || u == 0x2028 || u == 0x2029 || u == 0x202f || u == 0x205f || u == 0x3000
}

/// A hex digit of either case.
pub open spec fn is_hex_char(c: char) -> bool {
    let u = c as u32;
    (48 <= u <= 57) || (97 <= u <= 102) || (65 <= u <= 70)
}

/// The value of a hex digit.
pub open spec fn hex_value(c: char) -> int {
    let u = c as u32;
    if u <= 57 {
        u - 48
    } else if u >= 97 {
        u - 87
    } else {
        u - 55
    }
}

/// Two hex digits per byte.
pub proof fn lemma_hex_of_bytes_len(b: Seq<u8>)
    ensures
        hex_of_bytes(b).len() == 2 * b.len(),
    decreases b.len(),
{
    if b.len() > 0 {
        lemma_hex_of_bytes_len(b.drop_last());
    }
}

/// The hex digit of a value below 16.
fn nibble_char(n: u8) -> (c: char)
    requires
        n < 16,
    ensures
        c == hex_digit(n as int),
{
    if n < 10 {
        (n + 48) as char
    } else {
        (n + 87) as char
    }
}

/// Appends the two hex digits of `b`.
pub(crate) fn push_hex_byte(s: &mut String, b: u8)
    ensures
        final(s)@ == old(s)@ + hex_of_byte(b),
{
    s.push(nibble_char(b / 16));
    s.push(nibble_char(b % 16));
    assert(final(s)@ =~= old(s)@ + hex_of_byte(b));
}

/// Renders one byte as two lowercase hex digits.
pub fn byte_to_hex_string(byte: u8) -> (r: String)
    ensures
        r@ == hex_of_byte(byte),
{
    let mut s = String::new();
    push_hex_byte(&mut s, byte);
    assert(s@ =~= hex_of_byte(byte));
    s
}

/// Appends `n` in lowercase hex, zero-padded to at least `width` digits.
pub(crate) fn push_hex_label(s: &mut String, n: usize, width: usize)
    ensures
        final(s)@ == old(s)@ + hex_label(n as nat, width as nat),
    decreases n, width,
{
    if n == 0 && width == 0 {
        assert(final(s)@ =~= old(s)@ + hex_label(n as nat, width as nat));
        return;
    }
    let w: usize = if width > 0 {
        width - 1
    } else {
        0
    };
    push_hex_label(s, n / 16, w);
    s.push(nibble_char((n % 16) as u8));
    assert(final(s)@ =~= old(s)@ + hex_label(n as nat, width as nat));
}

/// How `b` shows in the ASCII column.
pub(crate) fn ascii_char_of(b: u8) -> (c: char)
    ensures
        c == ascii_char(b),
{
    if 32 <= b && b <= 126 {
        b as char
    } else {
        '.'
    }
}

/// Whether `c` is white space.
pub(crate) fn is_white_space_char(c: char) -> (r: bool)
    ensures
        r == is_white_space(c),
{
    let u = c as u32;
    (9 <= u && u <= 13) || u == 32 || u == 0x85 || u == 0xa0 || u == 0x1680 || (0x2000 <= u && u
        <= 0x200a) || u == 0x2028 || u == 0x2029 || u == 0x202f || u == 0x205f || u == 0x3000
}

/// The value of a hex digit, or `None` for any other character.
pub(crate) fn hex_char_value(c: char) -> (r: Option<u8>)
    ensures
        r is Some <==> is_hex_char(c),
        r is Some ==> r->0 as int == hex_value(c),
{
    let u = c as u32;
    if 48 <= u && u <= 57 {
        Some((u - 48) as u8)
    } else if 97 <= u && u <= 102 {
        Some((u - 87) as u8)
    } else if 65 <= u && u <= 70 {
        Some((u - 55) as u8)
    } else {
        None
    }
}

} // verus!
