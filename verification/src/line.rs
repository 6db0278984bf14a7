//! Formatting of one dump line.
//!
//! A line holds a zero-padded hexadecimal address label, sixteen byte cells
//! in two groups of eight (a cell shows two hex digits, or blanks past the
//! end of the chunk), and a printable-character column where bytes outside
//! the printable range show as `.`.

use vstd::prelude::*;

verus! {

/// ASCII space.
pub const SPACE: u8 = 32;

/// ASCII `.`, standing in for a non-printable byte.
pub const DOT: u8 = 46;

/// ASCII `*`, the squeeze marker.
pub const STAR: u8 = 42;

/// ASCII line feed.
pub const NL: u8 = 10;

/// ASCII `:`, closing the address label.
pub const COLON: u8 = 58;

/// ASCII code of the hexadecimal digit for `d`, lower case.
pub open spec fn hex_digit(d: nat) -> u8
    recommends
        d < 16,
{
    if d < 10 {
        (48 + d) as u8
    } else {
        (87 + d) as u8
    }
}

/// Number of hexadecimal digits needed to write `v`.
pub open spec fn hex_width(v: nat) -> nat
    decreases v,
{
    if v < 16 {
        1
    } else {
        (1 + hex_width(v / 16)) as nat
    }
}

/// The last `width` hexadecimal digits of `v`, most significant first,
/// zero-padded on the left when `v` has fewer digits.
pub open spec fn hex_pad(v: nat, width: nat) -> Seq<u8>
    decreases width,
{
    if width == 0 {
        Seq::empty()
    } else {
        hex_pad(v / 16, (width - 1) as nat).push(hex_digit(v % 16))
    }
}

/// The address label: all digits of `addr`, zero-padded on the left to at
/// least eight.
pub open spec fn addr_label(addr: nat) -> Seq<u8> {
    if hex_width(addr) <= 8 {
        hex_pad(addr, 8)
    } else {
        hex_pad(addr, hex_width(addr))
    }
}

/// One byte cell: two hex digits and a trailing space, or three spaces for
/// a position past the end of the chunk.
pub open spec fn cell(chunk: Seq<u8>, j: int) -> Seq<u8> {
    if 0 <= j < chunk.len() {
        seq![hex_digit(chunk[j] as nat / 16), hex_digit(chunk[j] as nat % 16), SPACE]
    } else {
        seq![SPACE, SPACE, SPACE]
    }
}

/// Cells `start .. start + n` of a chunk, concatenated.
pub open spec fn cells(chunk: Seq<u8>, start: int, n: nat) -> Seq<u8>
    decreases n,
{
    if n == 0 {
        Seq::empty()
    } else {
        cell(chunk, start) + cells(chunk, start + 1, (n - 1) as nat)
    }
}

/// Printable rendering of one byte: itself when printable, `.` otherwise.
pub open spec fn printable(b: u8) -> u8 {
    if 32 <= b <= 126 {
        b
    } else {
        DOT
    }
}

/// The printable column: one character per chunk byte.
pub open spec fn ascii_column(chunk: Seq<u8>) -> Seq<u8> {
    chunk.map_values(|b: u8| printable(b))
}

/// A full dump line for `chunk` at address `addr`: label, the two cell
/// groups, the printable column, and a line feed.
pub open spec fn line_spec(addr: nat, chunk: Seq<u8>) -> Seq<u8> {
    addr_label(addr) + seq![COLON, SPACE] + cells(chunk, 0, 8) + seq![SPACE] + cells(chunk, 8, 8)
        + seq![SPACE] + ascii_column(chunk) + seq![NL]
}

/// The squeeze marker line: a lone `*`.
pub open spec fn star_line() -> Seq<u8> {
    seq![STAR, NL]
}

/// Number of line-feed bytes — that is, of finished lines — in a rendered
/// output.
pub open spec fn line_count(s: Seq<u8>) -> nat
    decreases s.len(),
{
    if s.len() == 0 {
        0
    } else {
        line_count(s.drop_last()) + (if s.last() == NL {
            1nat
        } else {
            0nat
        })
    }
}

/// Line counting distributes over concatenation.
pub proof fn lemma_line_count_concat(a: Seq<u8>, b: Seq<u8>)
    ensures
        line_count(a + b) == line_count(a) + line_count(b),
    decreases b.len(),
{
    if b.len() == 0 {
        assert(a + b =~= a);
    } else {
        lemma_line_count_concat(a, b.drop_last());
        assert((a + b).drop_last() =~= a + b.drop_last());
    }
}

/// A piece with no line feed holds no finished line.
proof fn lemma_line_count_zero(s: Seq<u8>)
    requires
        forall|i: int| 0 <= i < s.len() ==> s[i] != NL,
    ensures
        line_count(s) == 0,
    decreases s.len(),
{
    if s.len() > 0 {
        lemma_line_count_zero(s.drop_last());
    }
}

/// A padded hex number is `width` digits long and holds no line feed.
proof fn lemma_hex_pad_digits(v: nat, w: nat)
    ensures
        hex_pad(v, w).len() == w,
        forall|i: int| 0 <= i < w ==> #[trigger] hex_pad(v, w)[i] != NL,
    decreases w,
{
    if w > 0 {
        lemma_hex_pad_digits(v / 16, (w - 1) as nat);
    }
}

/// A run of cells is three bytes per cell and holds no line feed.
proof fn lemma_cells_no_nl(chunk: Seq<u8>, start: int, n: nat)
    ensures
        cells(chunk, start, n).len() == 3 * n,
        forall|i: int| 0 <= i < 3 * n ==> #[trigger] cells(chunk, start, n)[i] != NL,
    decreases n,
{
    if n > 0 {
        lemma_cells_no_nl(chunk, start + 1, (n - 1) as nat);
    }
}

/// A dump line ends in its line feed and holds exactly that one.
pub proof fn lemma_line_spec_one_line(addr: nat, chunk: Seq<u8>)
    ensures
        line_count(line_spec(addr, chunk)) == 1,
{
    let label = addr_label(addr);
    let head = label + seq![COLON, SPACE];
    let left = head + cells(chunk, 0, 8);
    let mid = left + seq![SPACE];
    let right = mid + cells(chunk, 8, 8);
    let gap = right + seq![SPACE];
    let text = gap + ascii_column(chunk);
    if hex_width(addr) <= 8 {
        lemma_hex_pad_digits(addr, 8);
    } else {
        lemma_hex_pad_digits(addr, hex_width(addr));
    }
    lemma_line_count_zero(label);
    lemma_line_count_concat(label, seq![COLON, SPACE]);
    lemma_line_count_zero(seq![COLON, SPACE]);
    lemma_cells_no_nl(chunk, 0, 8);
    lemma_line_count_zero(cells(chunk, 0, 8));
    lemma_line_count_concat(head, cells(chunk, 0, 8));
    lemma_line_count_concat(left, seq![SPACE]);
    lemma_line_count_zero(seq![SPACE]);
    lemma_cells_no_nl(chunk, 8, 8);
    lemma_line_count_zero(cells(chunk, 8, 8));
    lemma_line_count_concat(mid, cells(chunk, 8, 8));
    lemma_line_count_concat(right, seq![SPACE]);
    lemma_line_count_zero(ascii_column(chunk));
    lemma_line_count_concat(gap, ascii_column(chunk));
    lemma_line_count_concat(text, seq![NL]);
    assert(line_count(seq![NL]) == 1) by {
        assert(seq![NL].len() == 1);
        assert(seq![NL].last() == NL);
        assert(line_count(Seq::<u8>::empty()) == 0);
        assert(seq![NL].drop_last() =~= Seq::<u8>::empty());
    }
    assert(line_spec(addr, chunk) == text + seq![NL]);
}

/// Powers of sixteen.
spec fn pow16(w: nat) -> nat
    decreases w,
{
    if w == 0 {
        1
    } else {
        16 * pow16((w - 1) as nat)
    }
}

/// `v` needs at most `w` digits when it is below `16^w`.
proof fn lemma_hex_width_bound(v: nat, w: nat)
    requires
        1 <= w,
        v < pow16(w),
    ensures
        hex_width(v) <= w,
    decreases w,
{
    if v < 16 {
    } else {
        let p: nat = pow16((w - 1) as nat);
        vstd::arithmetic::div_mod::lemma_fundamental_div_mod(v as int, 16);
        assert(v / 16 < p) by (nonlinear_arith)
            requires
                v < 16 * p,
                v >= 16,
                v as int == 16 * ((v as int) / 16) + (v as int) % 16,
                0 <= (v as int) % 16 < 16,
                v / 16 == (v as int) / 16,
        ;
        lemma_hex_width_bound(v / 16, (w - 1) as nat);
    }
}

/// Number of hexadecimal digits needed to write `v`.
fn hex_width_exec(v: usize) -> (w: usize)
    ensures
        w == hex_width(v as nat),
        w <= 16,
{
    proof {
        assert(pow16(16) == 0x10000000000000000) by {
            reveal_with_fuel(pow16, 17);
        }
        assert(usize::MAX < 0x10000000000000000);
        lemma_hex_width_bound(v as nat, 16);
    }
    let mut w: usize = 1;
    let mut x: usize = v;
    while x >= 16
        invariant
            hex_width(v as nat) == w + hex_width(x as nat) - 1,
            1 <= w,
            w + hex_width(x as nat) - 1 <= 16,
        decreases x,
    {
        x = x / 16;
        w = w + 1;
    }
    w
}

/// The last `width` hexadecimal digits of `v`, zero-padded to `width`.
fn hex_pad_exec(v: usize, width: usize) -> (out: Vec<u8>)
    ensures
        out@ == hex_pad(v as nat, width as nat),
    decreases width,
{
    if width == 0 {
        let out: Vec<u8> = Vec::new();
        proof {
            assert(out@ =~= hex_pad(v as nat, 0));
        }
        out
    } else {
        let mut out = hex_pad_exec(v / 16, width - 1);
        let d: usize = v % 16;
        let c: u8 = if d < 10 {
            (48 + d) as u8
        } else {
            (87 + d) as u8
        };
        out.push(c);
        out
    }
}

/// The address label for `addr`.
fn addr_label_exec(addr: usize) -> (out: Vec<u8>)
    ensures
        out@ == addr_label(addr as nat),
{
    let w = hex_width_exec(addr);
    if w <= 8 {
        hex_pad_exec(addr, 8)
    } else {
        hex_pad_exec(addr, w)
    }
}

/// Appending one more cell extends the cell run on the right.
proof fn lemma_cells_snoc(chunk: Seq<u8>, start: int, n: nat)
    ensures
        cells(chunk, start, n + 1) == cells(chunk, start, n) + cell(chunk, start + n),
    decreases n,
{
    if n == 0 {
        assert(cells(chunk, start, 1) =~= cells(chunk, start, 0) + cell(chunk, start)) by {
            reveal_with_fuel(cells, 3);
        }
    } else {
        lemma_cells_snoc(chunk, start + 1, (n - 1) as nat);
        assert(cell(chunk, start) + (cells(chunk, start + 1, (n - 1) as nat) + cell(
            chunk,
            start + n,
        )) =~= (cell(chunk, start) + cells(chunk, start + 1, (n - 1) as nat)) + cell(
            chunk,
            start + n,
        ));
    }
}

/// Writes cells `start .. start + 8` of the chunk onto `out`.
fn push_cells(out: &mut Vec<u8>, chunk: &[u8], start: usize)
    requires
        start <= 8,
    ensures
        final (out)@ == old(out)@ + cells(chunk@, start as int, 8),
{
    let ghost base = out@;
    let mut j: usize = 0;
    while j < 8
        invariant
            j <= 8,
            start <= 8,
            out@ == base + cells(chunk@, start as int, j as nat),
        decreases 8 - j,
    {
        proof {
            lemma_cells_snoc(chunk@, start as int, j as nat);
        }
        if (start + j) < chunk.len() {
            let b = chunk[start + j];
            out.push(hex_digit_exec((b / 16) as usize));
            out.push(hex_digit_exec((b % 16) as usize));
            out.push(SPACE);
        } else {
            out.push(SPACE);
            out.push(SPACE);
            out.push(SPACE);
        }
        proof {
            assert(out@ =~= base + cells(chunk@, start as int, (j + 1) as nat));
        }
        j += 1;
    }
}

/// ASCII code of the hexadecimal digit for `d`, lower case.
fn hex_digit_exec(d: usize) -> (c: u8)
    requires
        d < 16,
    ensures
        c == hex_digit(d as nat),
{
    if d < 10 {
        (48 + d) as u8
    } else {
        (87 + d) as u8
    }
}

/// Writes the printable column of the chunk onto `out`.
fn push_ascii(out: &mut Vec<u8>, chunk: &[u8])
    ensures
        final (out)@ == old(out)@ + ascii_column(chunk@),
{
    let ghost base = out@;
    let mut j: usize = 0;
    while j < chunk.len()
        invariant
            j <= chunk@.len(),
            out@ == base + ascii_column(chunk@).take(j as int),
        decreases chunk@.len() - j,
    {
        let b = chunk[j];
        if 32 <= b && b <= 126 {
            out.push(b);
        } else {
            out.push(DOT);
        }
        j += 1;
        proof {
            assert(out@ =~= base + ascii_column(chunk@).take(j as int));
        }
    }
    proof {
        assert(ascii_column(chunk@).take(chunk@.len() as int) =~= ascii_column(chunk@));
    }
}

/// Renders the dump line for `chunk` at address `addr`.
pub fn render_line(addr: usize, chunk: &[u8]) -> (out: Vec<u8>)
    ensures
        out@ == line_spec(addr as nat, chunk@),
{
    let mut out = addr_label_exec(addr);
    out.push(COLON);
    out.push(SPACE);
    push_cells(&mut out, chunk, 0);
    out.push(SPACE);
    push_cells(&mut out, chunk, 8);
    out.push(SPACE);
    push_ascii(&mut out, chunk);
    out.push(NL);
    proof {
        assert(out@ =~= line_spec(addr as nat, chunk@));
    }
    out
}

} // verus!
