//! Laws that relate the encoder, the decoder and the configuration.
use vstd::prelude::*;
use vstd::arithmetic::div_mod::lemma_fundamental_div_mod;
use crate::decode::{
    decode_dump, decode_hex, decode_line, decode_pairs, is_blank, is_first_colon, is_first_gap,
    is_gap_at, pair_value, parse_line, strip_white_space, FormatFault,
};
use crate::encode::{
    block_hex, ceil_div, dump_line, dump_lines, field_width, group_slots, grouped_hex,
    line_block, line_count, line_offset, line_text, spaces,
};
use crate::hex::{
    ascii_char, ascii_of, hex_digit, hex_label, hex_of_byte, hex_of_bytes, hex_value,
    is_hex_char, is_white_space, lemma_hex_of_bytes_len,
};
use crate::options::{effective_group_size, window_end, window_start, HexDumpOptions};

verus! {

/// A byte shows as `.` in the ASCII column exactly when it lies outside the
/// printable range 32 to 126 (the dot itself aside, which shows as itself),
/// and no two printable bytes show alike.
pub proof fn lemma_ascii_rendering(x: u8, y: u8)
    ensures
        x != 46 ==> ((ascii_char(x) == '.') <==> (x < 32 || x > 126)),
        32 <= x <= 126 && 32 <= y <= 126 && ascii_char(x) == ascii_char(y) ==> x == y,
{
    assert((x as char) as u32 == x as u32);
    assert((y as char) as u32 == y as u32);
}

/// The window lies within the buffer; a negative seek that reaches past the
/// front starts it at 0, and a length that reaches past the end stops it at
/// the end of the buffer.
pub proof fn lemma_window_clamps(n: nat, seek: int, length: Option<usize>)
    ensures
        window_start(n, seek) <= window_end(n, seek, length) <= n,
        seek < 0 && -seek >= n ==> window_start(n, seek) == 0,
        length is Some && window_start(n, seek) + length->0 >= n ==> window_end(n, seek, length)
            == n,
        length is None ==> window_end(n, seek, length) == n,
{
}

/// Bounds of a group count: `ceil_div(len, g)` groups of `g` cover `len`,
/// one fewer does not.
proof fn lemma_ceil_div_bounds(len: nat, g: nat)
    requires
        g > 0,
    ensures
        len == 0 ==> ceil_div(len, g) == 0,
        len > 0 ==> (ceil_div(len, g) - 1) * g < len <= ceil_div(len, g) * g,
{
    let x = (len + g - 1) as int;
    lemma_fundamental_div_mod(x, g as int);
    let q = x / (g as int);
    let r = x % (g as int);
    if len == 0 {
        vstd::arithmetic::div_mod::lemma_small_div_converse(x, g as int);
        assert(x / (g as int) == 0) by {
            vstd::arithmetic::div_mod::lemma_fundamental_div_mod_converse_div(x, g as int, 0, x);
        }
    } else {
        assert((q - 1) * g < len <= q * g) by (nonlinear_arith)
            requires
                x == g * q + r,
                0 <= r < g,
                x == len + g - 1,
        ;
    }
}

/// The lines of a dump start at the window's first index and each starts
/// `cols` after the one before.
pub proof fn lemma_line_offsets(n: nat, options: HexDumpOptions, i: int)
    requires
        options.cols > 0,
        0 <= i,
    ensures
        line_offset(n, options, 0) == window_start(n, options.seek as int),
        line_offset(n, options, i + 1) == line_offset(n, options, i) + options.cols,
{
    assert((i + 1) * options.cols == i * options.cols + options.cols) by (nonlinear_arith);
}

/// A dump has one line per `cols` bytes of its window, rounded up; every
/// line covers `cols` bytes but the last, which covers at least one and at
/// most `cols`; and the lines cover the window without gap or overlap.
pub proof fn lemma_line_blocks(file: Seq<u8>, options: HexDumpOptions, i: int)
    requires
        options.cols > 0,
        0 <= i < line_count(file.len(), options),
    ensures
        ({
            let start = window_start(file.len(), options.seek as int);
            let end = window_end(file.len(), options.seek as int, options.length);
            &&& line_count(file.len(), options) == ceil_div((end - start) as nat, options.cols as nat)
            &&& i + 1 < line_count(file.len(), options) ==> line_block(file, options, i).len()
                == options.cols
            &&& 0 < line_block(file, options, i).len() <= options.cols
            &&& line_block(file, options, i) == file.subrange(
                line_offset(file.len(), options, i),
                line_offset(file.len(), options, i) + line_block(file, options, i).len(),
            )
            &&& i + 1 == line_count(file.len(), options) ==> line_offset(file.len(), options, i)
                + line_block(file, options, i).len() == end
        }),
{
    let start = window_start(file.len(), options.seek as int);
    let end = window_end(file.len(), options.seek as int, options.length);
    let w = (end - start) as nat;
    let c = options.cols as nat;
    let q = line_count(file.len(), options);
    lemma_ceil_div_bounds(w, c);
    assert(i * c < w) by (nonlinear_arith)
        requires
            0 <= i < q,
            (q - 1) * c < w,
    ;
    if i + 1 < q {
        assert((i + 1) * c <= w) by (nonlinear_arith)
            requires
                i + 1 <= q - 1,
                (q - 1) * c < w,
        ;
    } else {
        assert(w <= (i + 1) * c) by (nonlinear_arith)
            requires
                i + 1 == q,
                w <= q * c,
        ;
    }
    assert((i + 1) * c == i * c + c) by (nonlinear_arith);
}

/// Decoding fails on a line without `:`, on a hex field with an odd number
/// of digits, and, on an even one, at a pair that holds a character that is
/// not a hex digit, naming that pair.
pub proof fn lemma_decode_errors(s: Seq<char>)
    ensures
        (forall|k: int| 0 <= k < s.len() ==> s[k] != ':') ==> decode_line(s) == Err::<
            Seq<u8>,
            _,
        >(FormatFault::MissingOffsetSeparator),
        parse_line(s) is Ok && strip_white_space(parse_line(s)->Ok_0.1).len() % 2 == 1
            ==> decode_line(s) == Err::<Seq<u8>, _>(FormatFault::OddHexLength),
        ({
            let h = strip_white_space(parse_line(s)->Ok_0.1);
            parse_line(s) is Ok && h.len() % 2 == 0 && (exists|k: int|
                0 <= k < h.len() && !is_hex_char(#[trigger] h[k])) ==> bad_pair_reported(
                h,
                decode_line(s),
            )
        }),
{
    if forall|k: int| 0 <= k < s.len() ==> s[k] != ':' {
        assert(!(exists|i: int| is_first_colon(s, i)));
    }
    if parse_line(s) is Ok {
        let h = strip_white_space(parse_line(s)->Ok_0.1);
        if h.len() % 2 == 0 && (exists|k: int| 0 <= k < h.len() && !is_hex_char(#[trigger] h[k])) {
            let k = choose|k: int| 0 <= k < h.len() && !is_hex_char(#[trigger] h[k]);
            lemma_bad_pair_reported(h, k);
        }
    }
}

/// `r` fails at a pair of `h`, at an even index, that is not two hex digits.
pub open spec fn bad_pair_reported(h: Seq<char>, r: Result<Seq<u8>, FormatFault>) -> bool {
    exists|m: int|
        #![trigger h.subrange(2 * m, 2 * m + 2)]
        0 <= m && 2 * m + 2 <= h.len() && r == Err::<Seq<u8>, _>(
            FormatFault::InvalidHexDigit(h.subrange(2 * m, 2 * m + 2)),
        ) && (!is_hex_char(h[2 * m]) || !is_hex_char(h[2 * m + 1]))
}

/// Reading pairs of an even-length text that holds a non-hex character
/// fails at a pair that is not two hex digits.
proof fn lemma_bad_pair_reported(h: Seq<char>, k: int)
    requires
        h.len() % 2 == 0,
        0 <= k < h.len(),
        !is_hex_char(h[k]),
    ensures
        bad_pair_reported(h, decode_pairs(h)),
    decreases h.len(),
{
    if is_hex_char(h[0]) && is_hex_char(h[1]) {
        let t = h.skip(2);
        assert(k >= 2);
        assert(t[k - 2] == h[k]);
        lemma_bad_pair_reported(t, k - 2);
        let m = choose|m: int|
            #![trigger t.subrange(2 * m, 2 * m + 2)]
            0 <= m && 2 * m + 2 <= t.len() && decode_pairs(t) == Err::<Seq<u8>, _>(
                FormatFault::InvalidHexDigit(t.subrange(2 * m, 2 * m + 2)),
            ) && (!is_hex_char(t[2 * m]) || !is_hex_char(t[2 * m + 1]));
        assert(t.subrange(2 * m, 2 * m + 2) =~= h.subrange(2 * (m + 1), 2 * (m + 1) + 2));
        assert(h[2 * (m + 1)] == t[2 * m]);
        assert(h[2 * (m + 1) + 1] == t[2 * m + 1]);
    } else {
        assert(h.take(2) =~= h.subrange(2 * 0int, 2 * 0int + 2));
    }
}

/// A hex digit is a hex character of that value, and neither white space
/// nor a separator.
proof fn lemma_hex_digit(n: int)
    requires
        0 <= n < 16,
    ensures
        is_hex_char(hex_digit(n)),
        hex_value(hex_digit(n)) == n,
        !is_white_space(hex_digit(n)),
        hex_digit(n) != ':',
        hex_digit(n) != ' ',
{
}

/// Every character of `s` is a hex digit.
spec fn all_hex(s: Seq<char>) -> bool {
    forall|k: int| 0 <= k < s.len() ==> is_hex_char(#[trigger] s[k]) && !is_white_space(s[k])
        && s[k] != ':' && s[k] != ' '
}

/// The hex digits of bytes are all hex digits.
proof fn lemma_hex_of_bytes_all_hex(b: Seq<u8>)
    ensures
        all_hex(hex_of_bytes(b)),
    decreases b.len(),
{
    if b.len() > 0 {
        lemma_hex_of_bytes_all_hex(b.drop_last());
        lemma_hex_digit(b.last() as int / 16);
        lemma_hex_digit(b.last() as int % 16);
    }
}

/// An offset label is all hex digits, at least `width` of them.
proof fn lemma_hex_label_all_hex(n: nat, width: nat)
    ensures
        all_hex(hex_label(n, width)),
        hex_label(n, width).len() >= width,
    decreases n, width,
{
    if !(n == 0 && width == 0) {
        lemma_hex_label_all_hex(n / 16, if width > 0 { (width - 1) as nat } else { 0 });
        lemma_hex_digit((n % 16) as int);
    }
}

/// Removing white space leaves text without white space as it is.
proof fn lemma_strip_no_white_space(s: Seq<char>)
    requires
        forall|k: int| 0 <= k < s.len() ==> !is_white_space(#[trigger] s[k]),
    ensures
        strip_white_space(s) == s,
    decreases s.len(),
{
    reveal_with_fuel(Seq::filter, 1);
    if s.len() > 0 {
        lemma_strip_no_white_space(s.drop_last());
        assert(s.drop_last().push(s.last()) =~= s);
    }
}

/// Removing white space distributes over joining.
proof fn lemma_strip_add(a: Seq<char>, b: Seq<char>)
    ensures
        strip_white_space(a + b) == strip_white_space(a) + strip_white_space(b),
{
    Seq::filter_distributes_over_add(a, b, |c: char| !is_white_space(c));
}

/// The hex digits of joined bytes are the joined hex digits.
proof fn lemma_hex_of_bytes_add(a: Seq<u8>, b: Seq<u8>)
    ensures
        hex_of_bytes(a + b) == hex_of_bytes(a) + hex_of_bytes(b),
    decreases b.len(),
{
    if b.len() == 0 {
        assert(a + b =~= a);
        assert(hex_of_bytes(a) + hex_of_bytes(b) =~= hex_of_bytes(a));
    } else {
        lemma_hex_of_bytes_add(a, b.drop_last());
        assert((a + b).drop_last() =~= a + b.drop_last());
        assert((a + b).last() == b.last());
        assert(hex_of_bytes(a + b) =~= hex_of_bytes(a) + hex_of_bytes(b));
    }
}

/// Reading the hex digits of a byte sequence in pairs gives the bytes back.
proof fn lemma_decode_pairs_hex(b: Seq<u8>)
    ensures
        decode_pairs(hex_of_bytes(b)) == Ok::<_, FormatFault>(b),
    decreases b.len(),
{
    let h = hex_of_bytes(b);
    if b.len() > 0 {
        let x = b[0];
        let t = b.skip(1);
        assert(seq![x] + t =~= b);
        lemma_hex_of_bytes_add(seq![x], t);
        assert(seq![x].drop_last() =~= Seq::<u8>::empty());
        assert(hex_of_bytes(Seq::<u8>::empty()) =~= Seq::<char>::empty());
        assert(seq![x].last() == x);
        assert(hex_of_bytes(seq![x]) =~= hex_of_byte(x));
        lemma_hex_of_bytes_len(t);
        assert(h.skip(2) =~= hex_of_bytes(t));
        lemma_hex_digit(x as int / 16);
        lemma_hex_digit(x as int % 16);
        assert(pair_value(h[0], h[1]) == x);
        lemma_decode_pairs_hex(t);
        assert(seq![x] + t =~= b);
    } else {
        lemma_hex_of_bytes_len(b);
        assert(b =~= Seq::<u8>::empty());
        assert(h =~= Seq::<char>::empty());
    }
}

/// Spaces in `d` stand alone, between two other characters.
spec fn lone_spaces(d: Seq<char>) -> bool {
    forall|k: int|
        0 <= k < d.len() && #[trigger] d[k] == ' ' ==> 0 < k < d.len() - 1 && d[k - 1] != ' '
            && d[k + 1] != ' '
}

/// No `:` in `d`, and no white space but plain spaces.
spec fn plain_chars(d: Seq<char>) -> bool {
    forall|k: int|
        0 <= k < d.len() ==> #[trigger] d[k] != ':' && (d[k] == ' ' || !is_white_space(d[k]))
}

/// Joining hex digits to such text with one space keeps its shape.
proof fn lemma_join_shape(a: Seq<char>, rest: Seq<char>)
    requires
        a.len() > 0,
        all_hex(a),
        rest.len() > 0,
        lone_spaces(rest),
        plain_chars(rest),
    ensures
        lone_spaces(a + seq![' '] + rest),
        plain_chars(a + seq![' '] + rest),
{
    let d = a + seq![' '] + rest;
    assert(rest[0] != ' ');
    assert forall|k: int| 0 <= k < d.len() && #[trigger] d[k] == ' ' implies 0 < k < d.len() - 1
        && d[k - 1] != ' ' && d[k + 1] != ' ' by {
        if k > a.len() {
            assert(d[k] == rest[k - a.len() - 1]);
            assert(d[k - 1] == rest[k - a.len() - 2]);
            assert(d[k + 1] == rest[k - a.len()]);
        } else if k == a.len() {
            assert(d[k + 1] == rest[0]);
        } else {
            assert(d[k] == a[k]);
        }
    }
    assert forall|k: int| 0 <= k < d.len() implies #[trigger] d[k] != ':' && (d[k] == ' '
        || !is_white_space(d[k])) by {
        if k > a.len() {
            assert(d[k] == rest[k - a.len() - 1]);
        } else if k < a.len() {
            assert(d[k] == a[k]);
        }
    }
}

/// Removing white space from hex digits joined by one space to more text.
proof fn lemma_join_strip(a: Seq<char>, rest: Seq<char>)
    requires
        all_hex(a),
    ensures
        strip_white_space(a + seq![' '] + rest) == a + strip_white_space(rest),
{
    lemma_strip_add(a + seq![' '], rest);
    lemma_strip_add(a, seq![' ']);
    lemma_strip_no_white_space(a);
    reveal_with_fuel(Seq::filter, 2);
    assert(strip_white_space(seq![' ']) =~= Seq::<char>::empty());
    assert(a + Seq::<char>::empty() =~= a);
}

/// Without little-endian reversal, the groups of a non-empty line are its
/// hex digits in order with lone spaces between them.
proof fn lemma_grouped_plain(b: Seq<u8>, g: nat)
    requires
        g > 0,
        b.len() > 0,
    ensures
        strip_white_space(grouped_hex(b, g, false)) == hex_of_bytes(b),
        lone_spaces(grouped_hex(b, g, false)),
        plain_chars(grouped_hex(b, g, false)),
        grouped_hex(b, g, false).len() > 0,
    decreases b.len(),
{
    if b.len() <= g {
        lemma_hex_of_bytes_all_hex(b);
        lemma_hex_of_bytes_len(b);
        lemma_strip_no_white_space(hex_of_bytes(b));
    } else {
        let head = b.take(g as int);
        let tail = b.skip(g as int);
        let a = hex_of_bytes(head);
        let rest = grouped_hex(tail, g, false);
        lemma_grouped_plain(tail, g);
        lemma_hex_of_bytes_all_hex(head);
        lemma_hex_of_bytes_len(head);
        assert(grouped_hex(b, g, false) == a + seq![' '] + rest);
        lemma_join_shape(a, rest);
        lemma_join_strip(a, rest);
        lemma_hex_of_bytes_add(head, tail);
        assert(head + tail =~= b);
    }
}

/// Where a dump line splits: after its label, and where its hex data ends.
proof fn lemma_line_split(
    s: Seq<char>,
    label: Seq<char>,
    d: Seq<char>,
    pad: Seq<char>,
    tail: Seq<char>,
)
    requires
        s == label + seq![':', ' '] + d + pad + seq![' ', ' '] + tail,
        all_hex(label),
        d.len() > 0,
        lone_spaces(d),
        plain_chars(d),
        forall|k: int| 0 <= k < pad.len() ==> #[trigger] pad[k] == ' ',
    ensures
        parse_line(s) is Ok,
        parse_line(s)->Ok_0.1 == seq![' '] + d,
        !is_blank(s),
{
    let i = label.len() as int;
    assert(s[i] == ':');
    assert(is_first_colon(s, i)) by {
        assert forall|k: int| 0 <= k < i implies s[k] != ':' by {
            assert(s[k] == label[k]);
        }
    }
    assert(!is_white_space(s[i]));
    let rest = s.skip(i + 1);
    assert(rest =~= seq![' '] + d + pad + seq![' ', ' '] + tail);
    let j = d.len() + 1int;
    assert(is_gap_at(rest, j)) by {
        if pad.len() > 0 {
            assert(rest[j] == pad[0]);
        }
        if pad.len() > 1 {
            assert(rest[j + 1] == pad[1]);
        }
    }
    assert forall|k: int| 0 <= k < j implies !is_gap_at(rest, k) by {
        if k > 0 {
            assert(rest[k] == d[k - 1]);
            if k < d.len() {
                assert(rest[k + 1] == d[k]);
            }
        } else {
            assert(rest[1] == d[0]);
        }
    }
    assert(is_first_gap(rest, j));
    let x = choose|x: int| is_first_colon(s, x);
    assert(x == i);
    let y = choose|y: int| is_first_gap(rest, y);
    assert(y == j) by {
        if y < j {
            assert(!is_gap_at(rest, y));
        }
        if j < y {
            assert(!is_gap_at(rest, j));
        }
    }
    assert(rest.take(j) =~= seq![' '] + d);
}

/// The hex field of a line, as split off, decodes to the line's bytes.
proof fn lemma_hex_part(d: Seq<char>, b: Seq<u8>)
    requires
        strip_white_space(d) == hex_of_bytes(b),
    ensures
        decode_hex(strip_white_space(seq![' '] + d)) == Ok::<_, FormatFault>(b),
{
    lemma_strip_add(seq![' '], d);
    reveal_with_fuel(Seq::filter, 2);
    assert(strip_white_space(seq![' ']) =~= Seq::<char>::empty());
    assert(strip_white_space(seq![' '] + d) =~= hex_of_bytes(b));
    lemma_hex_of_bytes_len(b);
    lemma_decode_pairs_hex(b);
}

/// A line of that shape decodes to the bytes whose hex digits `d` holds.
proof fn lemma_line_decodes(
    s: Seq<char>,
    label: Seq<char>,
    d: Seq<char>,
    pad: Seq<char>,
    tail: Seq<char>,
    b: Seq<u8>,
)
    requires
        s == label + seq![':', ' '] + d + pad + seq![' ', ' '] + tail,
        all_hex(label),
        d.len() > 0,
        lone_spaces(d),
        plain_chars(d),
        strip_white_space(d) == hex_of_bytes(b),
        forall|k: int| 0 <= k < pad.len() ==> #[trigger] pad[k] == ' ',
    ensures
        !is_blank(s),
        decode_line(s) == Ok::<_, FormatFault>(b),
{
    lemma_line_split(s, label, d, pad, tail);
    lemma_hex_part(d, b);
}

/// One line of a dump made without little-endian reversal decodes to the
/// bytes it covers.
proof fn lemma_line_round_trip(offset: nat, b: Seq<u8>, options: HexDumpOptions)
    requires
        !options.little_endian,
        b.len() > 0,
    ensures
        !is_blank(line_text(offset, b, options)),
        decode_line(line_text(offset, b, options)) == Ok::<_, FormatFault>(b),
{
    let g = effective_group_size(options.group_size);
    let label = hex_label(offset, 8);
    let d = grouped_hex(b, g, false);
    let pad = spaces(field_width(group_slots(b.len(), options.cols as nat, g), g) - d.len());
    lemma_hex_label_all_hex(offset, 8);
    lemma_grouped_plain(b, g);
    assert(block_hex(b, options) == d + pad);
    assert(line_text(offset, b, options) =~= label + seq![':', ' '] + d + pad + seq![' ', ' ']
        + ascii_of(b));
    lemma_line_decodes(line_text(offset, b, options), label, d, pad, ascii_of(b), b);
}

/// How far into the buffer the first `k` lines of a dump reach.
spec fn covered(file: Seq<u8>, options: HexDumpOptions, k: int) -> int {
    if k < line_count(file.len(), options) {
        line_offset(file.len(), options, k)
    } else {
        window_end(file.len(), options.seek as int, options.length) as int
    }
}

/// The first `k` lines of a dump made without little-endian reversal decode
/// to the bytes from the window's start up to where they reach.
proof fn lemma_dump_prefix(file: Seq<u8>, options: HexDumpOptions, k: int)
    requires
        options.cols > 0,
        !options.little_endian,
        0 <= k <= line_count(file.len(), options),
    ensures
        window_start(file.len(), options.seek as int) <= covered(file, options, k)
            <= window_end(file.len(), options.seek as int, options.length),
        decode_dump(dump_lines(file, options).take(k)) == Ok::<_, FormatFault>(
            file.subrange(window_start(file.len(), options.seek as int) as int, covered(file, options, k)),
        ),
    decreases k,
{
    let lines = dump_lines(file, options);
    let start = window_start(file.len(), options.seek as int) as int;
    let end = window_end(file.len(), options.seek as int, options.length) as int;
    let q = line_count(file.len(), options);
    lemma_window_clamps(file.len(), options.seek as int, options.length);
    if k == 0 {
        lemma_line_offsets(file.len(), options, 0);
        assert(0 * options.cols == 0);
        if q == 0 {
            lemma_ceil_div_bounds((end - start) as nat, options.cols as nat);
        }
        assert(lines.take(0) =~= Seq::<Seq<char>>::empty());
        assert(file.subrange(start, covered(file, options, 0)) =~= Seq::<u8>::empty());
    } else {
        let j = k - 1;
        lemma_dump_prefix(file, options, j);
        lemma_line_blocks(file, options, j);
        lemma_line_offsets(file.len(), options, j);
        let off = line_offset(file.len(), options, j);
        let b = line_block(file, options, j);
        assert(covered(file, options, j) == off);
        assert(lines.take(k).drop_last() =~= lines.take(j));
        assert(lines.take(k).last() == dump_line(file, options, j));
        lemma_line_round_trip(off as nat, b, options);
        assert(covered(file, options, k) == off + b.len());
        assert(file.subrange(start, off) + b =~= file.subrange(start, off + b.len()));
    }
}

/// Decoding a dump made without little-endian reversal (as with the default
/// configuration) gives back exactly the bytes of its window: with no seek
/// and no length, the whole buffer.
pub proof fn lemma_round_trip(file: Seq<u8>, options: HexDumpOptions)
    requires
        options.cols > 0,
        !options.little_endian,
    ensures
        decode_dump(dump_lines(file, options)) == Ok::<_, FormatFault>(
            file.subrange(
                window_start(file.len(), options.seek as int) as int,
                window_end(file.len(), options.seek as int, options.length) as int,
            ),
        ),
        options.seek == 0 && options.length is None ==> decode_dump(dump_lines(file, options))
            == Ok::<_, FormatFault>(file),
{
    let lines = dump_lines(file, options);
    lemma_dump_prefix(file, options, lines.len() as int);
    assert(lines.take(lines.len() as int) =~= lines);
    assert(file.subrange(0, file.len() as int) =~= file);
}

} // verus!
