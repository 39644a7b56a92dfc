//! Encoding: bytes to dump lines.
use vstd::prelude::*;
use vstd::arithmetic::div_mod::lemma_fundamental_div_mod;
use vstd::arithmetic::div_mod::lemma_fundamental_div_mod_converse_div;
use crate::hex::{
    ascii_char_of, ascii_of, hex_label, hex_of_bytes, lemma_hex_of_bytes_len, push_hex_byte,
    push_hex_label,
};
use crate::options::{
    effective_group_size, effective_group_size_of, window_bounds, window_end, window_start,
    HexDumpOptions,
};

verus! {

/// The bytes of a group in the order they are rendered.
pub open spec fn oriented(b: Seq<u8>, little_endian: bool) -> Seq<u8> {
    if little_endian {
        b.reverse()
    } else {
        b
    }
}

/// The groups of `b`, `g` bytes each but the last, in hex, joined by single
/// spaces, with no padding.
pub open spec fn grouped_hex(b: Seq<u8>, g: nat, little_endian: bool) -> Seq<char>
    decreases b.len(),
{
    if b.len() == 0 || g == 0 {
        Seq::empty()
    } else if b.len() <= g {
        hex_of_bytes(oriented(b, little_endian))
    } else {
        hex_of_bytes(oriented(b.take(g as int), little_endian)) + seq![' '] + grouped_hex(
            b.skip(g as int),
            g,
            little_endian,
        )
    }
}

/// Number of groups of `g` that `len` bytes fill, the last possibly short.
pub open spec fn ceil_div(len: nat, g: nat) -> nat {
    if g == 0 {
        0
    } else {
        ((len + g - 1) / g as int) as nat
    }
}

/// Width of a hex field of `slots` groups, each padded to `2 * g` characters.
pub open spec fn field_width(slots: nat, g: nat) -> nat {
    if slots == 0 {
        0
    } else {
        (slots * (2 * g + 1) - 1) as nat
    }
}

/// Group slots of a line: as many as a full line of `cols` bytes has, or
/// more if the bytes need them.
pub open spec fn group_slots(len: nat, cols: nat, g: nat) -> nat {
    let own = ceil_div(len, g);
    let full = ceil_div(cols, g);
    if own >= full {
        own
    } else {
        full
    }
}

pub open spec fn spaces(n: int) -> Seq<char> {
    Seq::new(n as nat, |_i: int| ' ')
}

/// The hex field of a line: its groups joined by single spaces, then
/// right-padded with spaces to the width of every group slot padded to
/// `2 * g` characters, so that the ASCII column lines up across lines.
pub open spec fn hex_field(b: Seq<u8>, cols: nat, g: nat, little_endian: bool) -> Seq<char> {
    let data = grouped_hex(b, g, little_endian);
    data + spaces(field_width(group_slots(b.len(), cols, g), g) - data.len())
}

/// The hex field that `options` gives a line holding `b`.
pub open spec fn block_hex(b: Seq<u8>, options: HexDumpOptions) -> Seq<char> {
    hex_field(b, options.cols as nat, effective_group_size(options.group_size), options.little_endian)
}

/// One dump line: offset label, hex field, and ASCII column.
pub open spec fn line_text(offset: nat, b: Seq<u8>, options: HexDumpOptions) -> Seq<char> {
    hex_label(offset, 8) + seq![':', ' '] + block_hex(b, options) + seq![' ', ' '] + ascii_of(b)
}

/// Number of lines in the dump of a buffer of `n` bytes.
pub open spec fn line_count(n: nat, options: HexDumpOptions) -> nat {
    let start = window_start(n, options.seek as int);
    let end = window_end(n, options.seek as int, options.length);
    ceil_div((end - start) as nat, options.cols as nat)
}

/// Buffer index of the first byte of line `i`.
pub open spec fn line_offset(n: nat, options: HexDumpOptions, i: int) -> int {
    window_start(n, options.seek as int) + i * options.cols
}

/// The bytes that line `i` covers.
pub open spec fn line_block(file: Seq<u8>, options: HexDumpOptions, i: int) -> Seq<u8> {
    let lo = line_offset(file.len(), options, i);
    let end = window_end(file.len(), options.seek as int, options.length);
    file.subrange(lo, if lo + options.cols <= end { lo + options.cols } else { end as int })
}

/// Line `i` of the dump of `file`.
pub open spec fn dump_line(file: Seq<u8>, options: HexDumpOptions, i: int) -> Seq<char> {
    line_text(
        line_offset(file.len(), options, i) as nat,
        line_block(file, options, i),
        options,
    )
}

/// The text of each line.
pub open spec fn line_views(lines: Seq<String>) -> Seq<Seq<char>> {
    lines.map_values(|l: String| l@)
}

/// Every line of the dump of `file`, in order.
pub open spec fn dump_lines(file: Seq<u8>, options: HexDumpOptions) -> Seq<Seq<char>> {
    Seq::new(line_count(file.len(), options), |i: int| dump_line(file, options, i))
}

/// `k` steps of `g` reach `len` for the first time exactly when `k` is the
/// number of groups.
pub proof fn lemma_ceil_div_exact(len: nat, g: nat, k: nat)
    requires
        g > 0,
        (k - 1) * g < len <= k * g || (len == 0 && k == 0),
    ensures
        ceil_div(len, g) == k,
{
    if k > 0 {
        assert((len + g - 1) == (k - 1) * g + (len - 1 - (k - 1) * g) + g) by (nonlinear_arith)
            requires
                (k - 1) * g < len,
        ;
        assert(len + g - 1 == k * g + (len - 1 - (k - 1) * g)) by (nonlinear_arith)
            requires
                k >= 1,
        ;
        assert(len - 1 - (k - 1) * g < g) by (nonlinear_arith)
            requires
                len <= k * g,
                k >= 1,
        ;
        lemma_fundamental_div_mod_converse_div(
            (len + g - 1) as int,
            g as int,
            k as int,
            (len - 1 - (k - 1) * g) as int,
        );
    } else {
        lemma_fundamental_div_mod_converse_div((g - 1) as int, g as int, 0, (g - 1) as int);
    }
}

/// Appends the hex digits of `b[from..to]`, reversed first when
/// `little_endian`.
fn push_hex_group(s: &mut String, b: &[u8], from: usize, to: usize, little_endian: bool)
    requires
        from <= to <= b@.len(),
    ensures
        final(s)@ == old(s)@ + hex_of_bytes(oriented(b@.subrange(from as int, to as int), little_endian)),
{
    let ghost o = oriented(b@.subrange(from as int, to as int), little_endian);
    let n = to - from;
    let mut k: usize = 0;
    while k < n
        invariant
            from <= to <= b@.len(),
            n == to - from,
            k <= n,
            o == oriented(b@.subrange(from as int, to as int), little_endian),
            o.len() == n,
            s@ == old(s)@ + hex_of_bytes(o.take(k as int)),
        decreases n - k,
    {
        let idx = if little_endian {
            to - 1 - k
        } else {
            from + k
        };
        assert(o[k as int] == b@[idx as int]);
        push_hex_byte(s, b[idx]);
        assert(o.take(k + 1).drop_last() =~= o.take(k as int));
        assert(s@ =~= old(s)@ + hex_of_bytes(o.take(k + 1)));
        k = k + 1;
    }
    assert(o.take(n as int) =~= o);
}

/// Renders one line's bytes as its hex field: groups of `group_size` bytes
/// (0 stands for 16) in lowercase hex, each reversed when `little_endian`,
/// padded to `2 * group_size` characters, joined by single spaces, with
/// empty groups up to the number of groups of a full line of `cols` bytes.
#[verifier::rlimit(30)]
pub fn get_block_hex_string(block: &[u8], options: &HexDumpOptions) -> (r: String)
    ensures
        r@ == block_hex(block@, *options),
{
    let g = effective_group_size_of(options.group_size);
    let le = options.little_endian;
    let len = block.len();
    let ghost b = block@;
    let mut s = String::new();
    let mut start: usize = 0;
    let mut nd: usize = 0;
    let mut last_len: usize = 0;
    let ghost mut width: int = 0;
    // Groups with data.
    while start < len
        invariant
            g > 0,
            len == b.len(),
            b == block@,
            start <= len,
            nd <= start,
            start == 0 <==> nd == 0,
            nd == 0 ==> s@.len() == 0,
            nd > 0 ==> 0 < last_len <= g,
            nd > 0 ==> start == (nd - 1) * g + last_len,
            nd > 0 ==> (start < len ==> last_len == g),
            nd > 0 && start < len ==> grouped_hex(b, g as nat, le) == s@ + seq![' '] + grouped_hex(b.skip(start as int), g as nat, le),
            nd > 0 && start == len ==> grouped_hex(b, g as nat, le) == s@,
            width == field_width(nd as nat, g as nat),
            nd > 0 ==> s@.len() + 2 * (g - last_len) == width,
        decreases len - start,
    {
        let end: usize = if g <= len - start {
            start + g
        } else {
            len
        };
        let ghost rest = b.skip(start as int);
        let ghost before = s@;
        assert(start == nd * g) by (nonlinear_arith)
            requires
                nd > 0 ==> start == (nd - 1) * g + last_len,
                nd > 0 ==> last_len == g,
                nd == 0 ==> start == 0,
        ;
        if nd > 0 {
            s.push(' ');
        }
        push_hex_group(&mut s, block, start, end, le);
        proof {
            lemma_hex_of_bytes_len(oriented(b.subrange(start as int, end as int), le));
            if end == len {
                assert(rest =~= b.subrange(start as int, end as int));
            } else {
                assert(rest.take(g as int) =~= b.subrange(start as int, end as int));
                assert(rest.skip(g as int) =~= b.skip(end as int));
            }
            if nd == 0 {
                assert(b.skip(0) =~= b);
            }
            if nd > 0 {
                assert(grouped_hex(b, g as nat, le) =~= before + seq![' '] + grouped_hex(rest, g as nat, le));
            }
            if end < len {
                assert(grouped_hex(b, g as nat, le) =~= s@ + seq![' '] + grouped_hex(b.skip(end as int), g as nat, le));
            } else {
                assert(grouped_hex(b, g as nat, le) =~= s@);
            }
            assert(field_width((nd + 1) as nat, g as nat) == width + (if nd == 0 { 2 * g } else { 2 * g + 1 })) by (nonlinear_arith)
                requires
                    width == field_width(nd as nat, g as nat),
            ;
            width = width + (if nd == 0 { 2 * g } else { 2 * g + 1 });
            assert(start + 1 <= nd * g + 1) by (nonlinear_arith)
                requires
                    nd > 0 ==> start == (nd - 1) * g + last_len,
                    nd > 0 ==> last_len <= g,
                    nd == 0 ==> start == 0,
                    g > 0,
            ;
        }
        nd = nd + 1;
        last_len = end - start;
        start = end;
    }
    let ghost data = s@;
    proof {
        if len == 0 {
            assert(grouped_hex(b, g as nat, le) =~= s@);
        }
        if len > 0 {
            assert((nd - 1) * g < len <= nd * g) by (nonlinear_arith)
                requires
                    len == (nd - 1) * g + last_len,
                    0 < last_len <= g,
            ;
        }
        lemma_ceil_div_exact(len as nat, g as nat, nd as nat);
    }
    // Pad the last group with data.
    if nd > 0 {
        let mut k: usize = last_len;
        while k < g
            invariant
                last_len <= k <= g,
                s@.len() + 2 * (g - k) == width,
                width == field_width(nd as nat, g as nat),
                s@ == data + spaces(s@.len() - data.len()),
                s@.len() >= data.len(),
            decreases g - k,
        {
            s.push(' ');
            s.push(' ');
            assert(s@ =~= data + spaces(s@.len() - data.len()));
            k = k + 1;
        }
    } else {
        assert(s@ =~= data + spaces(0));
    }
    // Empty groups up to the slots of a full line.
    let q = options.cols / g;
    proof {
        lemma_fundamental_div_mod(options.cols as int, g as int);
        if options.cols % g != 0 {
            assert(q < options.cols) by (nonlinear_arith)
                requires
                    options.cols == g * q + options.cols % g,
                    options.cols % g > 0,
                    g > 0,
                    q >= 0,
            ;
        }
    }
    let full: usize = if options.cols % g == 0 {
        q
    } else {
        q + 1
    };
    proof {
        lemma_fundamental_div_mod(options.cols as int, g as int);
        let c = options.cols as int;
        if c % (g as int) == 0 {
            if c == 0 {
                lemma_ceil_div_exact(0, g as nat, 0);
            } else {
                assert((q - 1) * g < c <= q * g) by (nonlinear_arith)
                    requires
                        c == g * q + 0,
                        g > 0,
                ;
                lemma_ceil_div_exact(c as nat, g as nat, q as nat);
            }
        } else {
            assert(q * g < c <= (q + 1) * g) by (nonlinear_arith)
                requires
                    c == g * q + c % (g as int),
                    0 < c % (g as int) < g,
            ;
            lemma_ceil_div_exact(c as nat, g as nat, (q + 1) as nat);
        }
    }
    let mut slot: usize = nd;
    while slot < full
        invariant
            nd <= slot,
            slot <= full || slot == nd,
            nd == ceil_div(len as nat, g as nat),
            full == ceil_div(options.cols as nat, g as nat),
            data == grouped_hex(b, g as nat, le),
            b == block@,
            len == b.len(),
            g == effective_group_size(options.group_size),
            le == options.little_endian,
            g > 0,
            s@.len() == field_width(slot as nat, g as nat),
            s@ == data + spaces(s@.len() - data.len()),
            s@.len() >= data.len(),
        decreases full - slot,
    {
        if slot > 0 {
            s.push(' ');
        }
        let mut k: usize = 0;
        while k < g
            invariant
                k <= g,
                s@ == data + spaces(s@.len() - data.len()),
                s@.len() >= data.len(),
                s@.len() == field_width(slot as nat, g as nat) + (if slot > 0 { 1int } else { 0 }) + 2 * k,
            decreases g - k,
        {
            s.push(' ');
            s.push(' ');
            assert(s@ =~= data + spaces(s@.len() - data.len()));
            k = k + 1;
        }
        assert(field_width((slot + 1) as nat, g as nat) == field_width(slot as nat, g as nat) + (if slot > 0 { 1int } else { 0 }) + 2 * g) by (nonlinear_arith)
            requires
                g > 0,
        ;
        slot = slot + 1;
    }
    assert(s@ =~= block_hex(block@, *options));
    s
}

/// Renders each byte as itself when printable ASCII (32 to 126), else `.`.
pub fn get_block_ascii_value(block: &[u8]) -> (r: String)
    ensures
        r@ == ascii_of(block@),
{
    let mut s = String::new();
    let mut i: usize = 0;
    while i < block.len()
        invariant
            i <= block@.len(),
            s@ == ascii_of(block@.take(i as int)),
        decreases block@.len() - i,
    {
        s.push(ascii_char_of(block[i]));
        i = i + 1;
        assert(s@ =~= ascii_of(block@.take(i as int)));
    }
    assert(block@.take(i as int) =~= block@);
    s
}

/// The dump of the window of `file` that `options` selects: one line per
/// `cols` bytes, the last possibly shorter, labelled with the buffer index
/// of its first byte.
pub fn create_hex_dump(file: &[u8], options: &HexDumpOptions) -> (r: Vec<String>)
    requires
        options.cols > 0,
    ensures
        r@.len() == line_count(file@.len(), *options),
        forall|i: int| 0 <= i < r@.len() ==> (#[trigger] r@[i])@ == dump_line(file@, *options, i),
        line_views(r@) == dump_lines(file@, *options),
{
    let (start, end) = window_bounds(file.len(), options.seek, options.length);
    let cols = options.cols;
    let mut lines: Vec<String> = Vec::new();
    let mut pos: usize = start;
    let ghost mut lo: int = start as int;
    assert(lo == start + lines@.len() * cols) by (nonlinear_arith)
        requires
            lo == start,
            lines@.len() == 0,
    ;
    while pos < end
        invariant
            start <= pos <= end <= file@.len(),
            cols == options.cols,
            cols > 0,
            start == window_start(file@.len(), options.seek as int),
            end == window_end(file@.len(), options.seek as int, options.length),
            lo == start + lines@.len() * cols,
            pos < end ==> pos == lo,
            pos == end ==> end <= lo,
            lines@.len() > 0 ==> lo - cols < end,
            forall|i: int| 0 <= i < lines@.len() ==> (#[trigger] lines@[i])@ == dump_line(file@, *options, i),
        decreases end - pos,
    {
        let next: usize = if cols <= end - pos {
            pos + cols
        } else {
            end
        };
        let block = vstd::slice::slice_subrange(file, pos, next);
        let mut line = String::new();
        push_hex_label(&mut line, pos, 8);
        line.push(':');
        line.push(' ');
        let hex = get_block_hex_string(block, options);
        let ascii = get_block_ascii_value(block);
        let ghost label = line@;
        line.append(hex.as_str());
        line.push(' ');
        line.push(' ');
        line.append(ascii.as_str());
        proof {
            let i = lines@.len() as int;
            assert(line_offset(file@.len(), *options, i) == pos);
            assert(block@ =~= line_block(file@, *options, i));
            assert(line@ =~= dump_line(file@, *options, i));
        }
        let ghost old_len = lines@.len();
        lines.push(line);
        proof {
            assert(start + (old_len + 1) * cols == lo + cols) by (nonlinear_arith)
                requires
                    lo == start + old_len * cols,
            ;
            lo = lo + cols;
        }
        pos = next;
    }
    proof {
        let n = lines@.len();
        let w = (end - start) as nat;
        if n > 0 {
            assert((n - 1) * cols < w <= n * cols) by (nonlinear_arith)
                requires
                    lo == start + n * cols,
                    lo - cols < end <= lo,
                    w == end - start,
            ;
        }
        lemma_ceil_div_exact(w, cols as nat, n as nat);
        assert(line_views(lines@) =~= dump_lines(file@, *options));
    }
    lines
}

/// Lines joined by newlines, with none after the last.
pub open spec fn joined_lines(lines: Seq<Seq<char>>) -> Seq<char>
    decreases lines.len(),
{
    if lines.len() == 0 {
        Seq::empty()
    } else if lines.len() == 1 {
        lines[0]
    } else {
        joined_lines(lines.drop_last()) + seq!['\n'] + lines.last()
    }
}

/// The dump text: its lines joined by newlines.
pub fn join_dump_lines(lines: &Vec<String>) -> (r: String)
    ensures
        r@ == joined_lines(line_views(lines@)),
{
    let mut s = String::new();
    let mut i: usize = 0;
    while i < lines.len()
        invariant
            i <= lines@.len(),
            s@ == joined_lines(line_views(lines@.take(i as int))),
        decreases lines@.len() - i,
    {
        if i > 0 {
            s.push('\n');
        }
        s.append(lines[i].as_str());
        proof {
            let t = line_views(lines@.take(i + 1));
            assert(t.drop_last() =~= line_views(lines@.take(i as int)));
            if i == 0 {
                assert(s@ =~= joined_lines(t));
            }
        }
        i = i + 1;
    }
    assert(lines@.take(i as int) =~= lines@);
    s
}

} // verus!
