//! Decoding: dump lines back to bytes.
use vstd::prelude::*;
use crate::encode::line_views;
use crate::hex::{hex_char_value, hex_value, is_hex_char, is_white_space, is_white_space_char};

verus! {

/// What a malformed dump line violates; the model of `FormatError`.
pub enum FormatFault {
    MissingOffsetSeparator,
    MissingFieldSeparator,
    OddHexLength,
    InvalidHexDigit(Seq<char>),
}

/// Why a dump line could not be decoded.
#[derive(Debug, PartialEq, Eq)]
pub enum FormatError {
    /// The line has no `:` after its offset label.
    MissingOffsetSeparator,
    /// The line has no two spaces between its hex field and ASCII column.
    MissingFieldSeparator,
    /// The hex field, without white space, has an odd number of digits.
    OddHexLength,
    /// A pair of characters of the hex field is not two hex digits.
    InvalidHexDigit { substring: String },
}

impl View for FormatError {
    type V = FormatFault;

    open spec fn view(&self) -> FormatFault {
        match self {
            FormatError::MissingOffsetSeparator => FormatFault::MissingOffsetSeparator,
            FormatError::MissingFieldSeparator => FormatFault::MissingFieldSeparator,
            FormatError::OddHexLength => FormatFault::OddHexLength,
            FormatError::InvalidHexDigit { substring } => FormatFault::InvalidHexDigit(substring@),
        }
    }
}

/// `i` is the index of the first `:` of `s`.
pub open spec fn is_first_colon(s: Seq<char>, i: int) -> bool {
    &&& 0 <= i < s.len()
    &&& s[i] == ':'
    &&& forall|k: int| 0 <= k < i ==> s[k] != ':'
}

/// Two spaces start at index `j` of `s`.
pub open spec fn is_gap_at(s: Seq<char>, j: int) -> bool {
    0 <= j && j + 1 < s.len() && s[j] == ' ' && s[j + 1] == ' '
}

/// `j` is where the first two consecutive spaces of `s` start.
pub open spec fn is_first_gap(s: Seq<char>, j: int) -> bool {
    &&& is_gap_at(s, j)
    &&& forall|k: int| 0 <= k < j ==> !is_gap_at(s, k)
}

/// A dump line split into offset label, hex field and ASCII column: at the
/// first `:`, then at the first two spaces after it.
pub open spec fn parse_line(s: Seq<char>) -> Result<
    (Seq<char>, Seq<char>, Seq<char>),
    FormatFault,
> {
    if !(exists|i: int| is_first_colon(s, i)) {
        Err(FormatFault::MissingOffsetSeparator)
    } else {
        let i = choose|i: int| is_first_colon(s, i);
        let rest = s.skip(i + 1);
        if !(exists|j: int| is_first_gap(rest, j)) {
            Err(FormatFault::MissingFieldSeparator)
        } else {
            let j = choose|j: int| is_first_gap(rest, j);
            Ok((s.take(i), rest.take(j), rest.skip(j + 2)))
        }
    }
}

/// `s` without its white space.
pub open spec fn strip_white_space(s: Seq<char>) -> Seq<char> {
    s.filter(|c: char| !is_white_space(c))
}

/// The byte that two hex digits spell, high digit first.
pub open spec fn pair_value(hi: char, lo: char) -> u8 {
    (hex_value(hi) * 16 + hex_value(lo)) as u8
}

/// Reads `h` two characters at a time as bytes, failing at the first pair
/// that is not two hex digits.
pub open spec fn decode_pairs(h: Seq<char>) -> Result<Seq<u8>, FormatFault>
    decreases h.len(),
{
    if h.len() < 2 {
        Ok(Seq::empty())
    } else if is_hex_char(h[0]) && is_hex_char(h[1]) {
        match decode_pairs(h.skip(2)) {
            Ok(rest) => Ok(seq![pair_value(h[0], h[1])] + rest),
            Err(e) => Err(e),
        }
    } else {
        Err(FormatFault::InvalidHexDigit(h.take(2)))
    }
}

/// The bytes of a hex field with its white space removed.
pub open spec fn decode_hex(h: Seq<char>) -> Result<Seq<u8>, FormatFault> {
    if h.len() % 2 == 1 {
        Err(FormatFault::OddHexLength)
    } else {
        decode_pairs(h)
    }
}

/// The bytes that one dump line holds.
pub open spec fn decode_line(s: Seq<char>) -> Result<Seq<u8>, FormatFault> {
    match parse_line(s) {
        Err(e) => Err(e),
        Ok((_label, hex, _ascii)) => decode_hex(strip_white_space(hex)),
    }
}

/// A line that holds only white space.
pub open spec fn is_blank(s: Seq<char>) -> bool {
    forall|i: int| 0 <= i < s.len() ==> is_white_space(#[trigger] s[i])
}

/// The bytes of a whole dump, in line order: blank lines are skipped, and
/// the first line that fails decides the error.
pub open spec fn decode_dump(lines: Seq<Seq<char>>) -> Result<Seq<u8>, FormatFault>
    decreases lines.len(),
{
    if lines.len() == 0 {
        Ok(Seq::empty())
    } else {
        match decode_dump(lines.drop_last()) {
            Err(e) => Err(e),
            Ok(prefix) => if is_blank(lines.last()) {
                Ok(prefix)
            } else {
                match decode_line(lines.last()) {
                    Ok(b) => Ok(prefix + b),
                    Err(e) => Err(e),
                }
            },
        }
    }
}

/// The characters of `s`, in order.
fn chars_of(s: &str) -> (v: Vec<char>)
    ensures
        v@ == s@,
{
    let mut v: Vec<char> = Vec::new();
    for c in it: s.chars()
        invariant
            it.seq() == s@,
            v@ == it.seq().take(it.index() as int),
    {
        v.push(c);
        assert(v@ =~= it.seq().take(it.index() + 1));
    }
    assert(v@ =~= s@);
    v
}

/// The characters `v[from..to]` as a string.
fn string_of(v: &Vec<char>, from: usize, to: usize) -> (r: String)
    requires
        from <= to <= v@.len(),
    ensures
        r@ == v@.subrange(from as int, to as int),
{
    let mut s = String::new();
    let mut k: usize = from;
    while k < to
        invariant
            from <= k <= to <= v@.len(),
            s@ == v@.subrange(from as int, k as int),
        decreases to - k,
    {
        s.push(v[k]);
        k = k + 1;
        assert(s@ =~= v@.subrange(from as int, k as int));
    }
    s
}

/// Splits a dump line into offset label, hex field and ASCII column: at the
/// first `:`, then at the first two spaces after it.
pub fn parse_hex_dump_line(line: &str) -> (r: Result<(String, String, String), FormatError>)
    ensures
        match r {
            Ok((a, b, c)) => parse_line(line@) == Ok::<_, FormatFault>((a@, b@, c@)),
            Err(e) => parse_line(line@) == Err::<(Seq<char>, Seq<char>, Seq<char>), _>(e@),
        },
{
    let v = chars_of(line);
    let ghost s = line@;
    let n = v.len();
    let mut i: usize = 0;
    while i < n && v[i] != ':'
        invariant
            i <= n == s.len(),
            v@ == s,
            forall|k: int| 0 <= k < i ==> s[k] != ':',
        decreases n - i,
    {
        i = i + 1;
    }
    if i == n {
        assert(!(exists|x: int| is_first_colon(s, x)));
        return Err(FormatError::MissingOffsetSeparator);
    }
    assert(is_first_colon(s, i as int));
    proof {
        let x = choose|x: int| is_first_colon(s, x);
        assert(x == i);
    }
    let ghost rest = s.skip(i + 1);
    let mut j: usize = i + 1;
    while j < n - 1 && !(v[j] == ' ' && v[j + 1] == ' ')
        invariant
            i < j <= n == s.len(),
            v@ == s,
            rest == s.skip(i + 1),
            forall|k: int| 0 <= k < j - (i + 1) ==> !is_gap_at(rest, k),
        decreases n - j,
    {
        j = j + 1;
    }
    if j >= n - 1 {
        proof {
            assert forall|x: int| !is_first_gap(rest, x) by {
                if is_first_gap(rest, x) {
                    assert(x < j - (i + 1));
                }
            }
        }
        return Err(FormatError::MissingFieldSeparator);
    }
    let ghost g = j - (i + 1);
    assert(is_gap_at(rest, g));
    assert(is_first_gap(rest, g));
    proof {
        let y = choose|y: int| is_first_gap(rest, y);
        assert(y == g) by {
            if y < g {
                assert(!is_gap_at(rest, y));
            }
            if g < y {
                assert(!is_gap_at(rest, g));
            }
        }
    }
    let label = string_of(&v, 0, i);
    let hex = string_of(&v, i + 1, j);
    let ascii = string_of(&v, j + 2, n);
    assert(label@ =~= s.take(i as int));
    assert(hex@ =~= rest.take(g));
    assert(ascii@ =~= rest.skip(g + 2));
    Ok((label, hex, ascii))
}

/// `v` without its white space.
fn strip_white_space_chars(v: &Vec<char>) -> (r: Vec<char>)
    ensures
        r@ == strip_white_space(v@),
{
    let mut r: Vec<char> = Vec::new();
    let mut i: usize = 0;
    while i < v.len()
        invariant
            i <= v@.len(),
            r@ == strip_white_space(v@.take(i as int)),
        decreases v@.len() - i,
    {
        let c = v[i];
        if !is_white_space_char(c) {
            r.push(c);
        }
        proof {
            let t = v@.take(i + 1);
            assert(t.drop_last() =~= v@.take(i as int));
            reveal_with_fuel(Seq::filter, 1);
        }
        i = i + 1;
    }
    assert(v@.take(i as int) =~= v@);
    r
}

/// Prepends `out` to a successful result, and passes an error on.
pub open spec fn prepend(out: Seq<u8>, r: Result<Seq<u8>, FormatFault>) -> Result<Seq<u8>, FormatFault> {
    match r {
        Ok(rest) => Ok(out + rest),
        Err(e) => Err(e),
    }
}

/// Reads the hex digits of `h` in pairs as bytes.
fn decode_hex_chars(h: &Vec<char>) -> (r: Result<Vec<u8>, FormatError>)
    ensures
        match r {
            Ok(v) => decode_hex(h@) == Ok::<_, FormatFault>(v@),
            Err(e) => decode_hex(h@) == Err::<Seq<u8>, _>(e@),
        },
{
    let n = h.len();
    if n % 2 == 1 {
        return Err(FormatError::OddHexLength);
    }
    let mut out: Vec<u8> = Vec::new();
    let mut i: usize = 0;
    proof {
        assert(h@.skip(0) =~= h@);
        match decode_pairs(h@) {
            Ok(x) => {
                assert(out@ + x =~= x);
            },
            Err(_) => {},
        }
    }
    while i < n
        invariant
            n == h@.len(),
            n % 2 == 0,
            i <= n,
            i % 2 == 0,
            decode_pairs(h@) == prepend(out@, decode_pairs(h@.skip(i as int))),
        decreases n - i,
    {
        let ghost t = h@.skip(i as int);
        assert(t.skip(2) =~= h@.skip(i + 2));
        let hi = hex_char_value(h[i]);
        let lo = hex_char_value(h[i + 1]);
        match (hi, lo) {
            (Some(a), Some(b)) => {
                let byte: u8 = a * 16 + b;
                proof {
                    match decode_pairs(h@.skip(i + 2)) {
                        Ok(rest) => {
                            assert(out@ + (seq![byte] + rest) =~= out@.push(byte) + rest);
                        },
                        Err(_) => {},
                    }
                }
                out.push(byte);
            },
            _ => {
                let mut sub = String::new();
                sub.push(h[i]);
                sub.push(h[i + 1]);
                assert(sub@ =~= t.take(2));
                return Err(FormatError::InvalidHexDigit { substring: sub });
            },
        }
        i = i + 2;
    }
    assert(out@ + Seq::<u8>::empty() =~= out@);
    Ok(out)
}

/// The bytes of one dump line: its hex field, without white space, read in
/// pairs of hex digits.
pub fn get_line_bytes(line: &str) -> (r: Result<Vec<u8>, FormatError>)
    ensures
        match r {
            Ok(v) => decode_line(line@) == Ok::<_, FormatFault>(v@),
            Err(e) => decode_line(line@) == Err::<Seq<u8>, _>(e@),
        },
{
    let (_label, hex, _ascii) = match parse_hex_dump_line(line) {
        Ok(parts) => parts,
        Err(e) => {
            return Err(e);
        },
    };
    let chars = chars_of(hex.as_str());
    let digits = strip_white_space_chars(&chars);
    decode_hex_chars(&digits)
}

fn is_blank_line(line: &str) -> (r: bool)
    ensures
        r == is_blank(line@),
{
    let v = chars_of(line);
    let mut i: usize = 0;
    while i < v.len()
        invariant
            v@ == line@,
            i <= v@.len(),
            forall|k: int| 0 <= k < i ==> is_white_space(#[trigger] v@[k]),
        decreases v@.len() - i,
    {
        if !is_white_space_char(v[i]) {
            return false;
        }
        i = i + 1;
    }
    true
}

/// Once a prefix of a dump fails, the whole dump fails with its error.
pub proof fn lemma_dump_error_persists(lines: Seq<Seq<char>>, k: int)
    requires
        0 <= k <= lines.len(),
        decode_dump(lines.take(k)) is Err,
    ensures
        decode_dump(lines) == decode_dump(lines.take(k)),
    decreases lines.len() - k,
{
    if k < lines.len() {
        let t = lines.take(k + 1);
        assert(t.drop_last() =~= lines.take(k));
        lemma_dump_error_persists(lines, k + 1);
    } else {
        assert(lines.take(k) =~= lines);
    }
}

/// Decodes a whole dump, given as its lines: blank lines are skipped, the
/// bytes of the other lines are joined in order, and the first malformed
/// line fails the whole decode.
pub fn extract_data_from_lines(lines: &Vec<String>) -> (r: Result<Vec<u8>, FormatError>)
    ensures
        match r {
            Ok(v) => decode_dump(line_views(lines@)) == Ok::<_, FormatFault>(v@),
            Err(e) => decode_dump(line_views(lines@)) == Err::<Seq<u8>, _>(e@),
        },
{
    let ghost all = line_views(lines@);
    let mut data: Vec<u8> = Vec::new();
    let mut i: usize = 0;
    while i < lines.len()
        invariant
            i <= lines@.len(),
            all == line_views(lines@),
            all.len() == lines@.len(),
            decode_dump(all.take(i as int)) == Ok::<_, FormatFault>(data@),
        decreases lines@.len() - i,
    {
        let line = lines[i].as_str();
        let ghost t = all.take(i + 1);
        assert(t.drop_last() =~= all.take(i as int));
        assert(t.last() == lines@[i as int]@);
        if !is_blank_line(line) {
            match get_line_bytes(line) {
                Ok(bytes) => {
                    let mut k: usize = 0;
                    let ghost before = data@;
                    while k < bytes.len()
                        invariant
                            k <= bytes@.len(),
                            data@ == before + bytes@.take(k as int),
                        decreases bytes@.len() - k,
                    {
                        data.push(bytes[k]);
                        k = k + 1;
                        assert(data@ =~= before + bytes@.take(k as int));
                    }
                    assert(bytes@.take(k as int) =~= bytes@);
                },
                Err(e) => {
                    proof {
                        lemma_dump_error_persists(all, i + 1);
                        assert(all.take(all.len() as int) =~= all);
                    }
                    return Err(e);
                },
            }
        }
        i = i + 1;
    }
    assert(all.take(i as int) =~= all);
    Ok(data)
}

} // verus!
