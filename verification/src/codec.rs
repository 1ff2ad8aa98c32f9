//! The textual board codec.
//!
//! A board is rendered as four lines, one per row. Each line starts and
//! ends with `|`, and between the bars holds four fields, one per cell:
//! a tile right-aligned to width 2 between single spaces, or four spaces
//! for the empty slot. Parsing accepts the same shape leniently: the text
//! is trimmed, must split into exactly 4 lines, each line must split at
//! `|` into exactly 6 fields (the outer two are boundary fillers), and
//! each inner field, trimmed of whitespace, must be blank or a number in
//! 1..=15, with no duplicate tile and at most one blank across the grid.
//! Any violation yields a single undifferentiated failure.
//!
//! All contracts speak about byte sequences: byte 124 is `|`, 10 is the
//! line feed, 32 the space, 43 the plus sign, and 48..=57 the digits.

use vstd::prelude::*;
use vstd::string::StringSliceAdditionalSpecFns;

use crate::state::GameState;
use crate::state::cells_distinct;
use crate::state::lemma_board_len;
use crate::state::lemma_full_grid_has_empty;
use crate::state::tile_ok;
use crate::state::wf_cells;

verus! {

broadcast use lemma_board_len;

/// Whitespace, as the parser ignores it: space, tab, line feed, vertical
/// tab, form feed, carriage return.
pub open spec fn is_ws(c: u8) -> bool {
    c == 32 || 9 <= c <= 13
}

/// The sequence without its leading whitespace.
pub open spec fn trim_front(s: Seq<u8>) -> Seq<u8>
    decreases s.len(),
{
    if s.len() > 0 && is_ws(s[0]) {
        trim_front(s.drop_first())
    } else {
        s
    }
}

/// The sequence without its trailing whitespace.
pub open spec fn trim_back(s: Seq<u8>) -> Seq<u8>
    decreases s.len(),
{
    if s.len() > 0 && is_ws(s.last()) {
        trim_back(s.drop_last())
    } else {
        s
    }
}

/// The sequence without leading and trailing whitespace.
pub open spec fn spec_trim(s: Seq<u8>) -> Seq<u8> {
    trim_back(trim_front(s))
}

/// The index of the first occurrence of `c` at or after position `i`.
pub open spec fn find_from(s: Seq<u8>, c: u8, i: int) -> Option<int>
    decreases s.len() - i,
{
    if i < 0 || i >= s.len() {
        None
    } else if s[i] == c {
        Some(i)
    } else {
        find_from(s, c, i + 1)
    }
}

/// The pieces of `s` between occurrences of the separator, in order; a
/// sequence with no separator is one piece, and every separator ends a
/// piece, so an empty input gives one empty piece.
pub open spec fn spec_split(s: Seq<u8>, sep: u8) -> Seq<Seq<u8>>
    decreases s.len(),
{
    match find_from(s, sep, 0) {
        None => seq![s],
        Some(i) => if 0 <= i < s.len() {
            seq![s.subrange(0, i)] + spec_split(s.subrange(i + 1, s.len() as int), sep)
        } else {
            // never reached: a found index lies within the sequence
            seq![s]
        },
    }
}

/// A line without one trailing carriage return, so that lines may end in
/// either a bare line feed or a carriage return and line feed.
pub open spec fn strip_cr(s: Seq<u8>) -> Seq<u8> {
    if s.len() > 0 && s.last() == 13 {
        s.drop_last()
    } else {
        s
    }
}

/// The lines of a text: the pieces between line feeds, each without a
/// trailing carriage return.
pub open spec fn spec_lines(t: Seq<u8>) -> Seq<Seq<u8>> {
    spec_split(t, 10).map_values(|p: Seq<u8>| strip_cr(p))
}

/// Every byte is a decimal digit.
pub open spec fn all_digits(d: Seq<u8>) -> bool {
    forall|i: int| 0 <= i < d.len() ==> 48 <= #[trigger] d[i] <= 57
}

/// The value of a sequence of decimal digits.
pub open spec fn dec_value(d: Seq<u8>) -> int
    decreases d.len(),
{
    if d.len() == 0 {
        0
    } else {
        dec_value(d.drop_last()) * 10 + (d.last() - 48)
    }
}

/// A number as `u8::from_str` reads it: an optional leading plus sign,
/// then at least one digit, with a value below 256.
pub open spec fn spec_parse_u8(f: Seq<u8>) -> Option<u8> {
    let d = if f.len() > 0 && f[0] == 43 {
        f.drop_first()
    } else {
        f
    };
    if d.len() > 0 && all_digits(d) && dec_value(d) < 256 {
        Some(dec_value(d) as u8)
    } else {
        None
    }
}

/// One inner field of a line: trimmed of whitespace it is either blank
/// (an empty cell) or a number in 1..=15 (a tile). Anything else is
/// invalid.
pub open spec fn spec_field(f: Seq<u8>) -> Option<Option<u8>> {
    let g = spec_trim(f);
    if g.len() == 0 {
        Some(Option::<u8>::None)
    } else {
        match spec_parse_u8(g) {
            None => None,
            Some(v) => if 1 <= v <= 15 {
                Some(Some(v))
            } else {
                None
            },
        }
    }
}

/// The four cells of one line: the line must split at `|` into exactly 6
/// fields, of which the outer two are ignored boundary fillers and the
/// inner four must each be a valid field.
pub open spec fn spec_row_cells(r: Seq<u8>) -> Option<Seq<Option<u8>>> {
    let parts = spec_split(r, 124);
    if parts.len() != 6 {
        None
    } else if spec_field(parts[1]) is None || spec_field(parts[2]) is None || spec_field(
        parts[3],
    ) is None || spec_field(parts[4]) is None {
        None
    } else {
        Some(
            seq![
                spec_field(parts[1])->0,
                spec_field(parts[2])->0,
                spec_field(parts[3])->0,
                spec_field(parts[4])->0,
            ],
        )
    }
}

/// The 16 cells read from a text: trimmed, it must have exactly 4 lines,
/// each yielding 4 cells; the cell at `(x, y)` comes from field `x` of
/// line `y` and lands at index `x * 4 + y`.
pub open spec fn spec_grid(t: Seq<u8>) -> Option<Seq<Option<u8>>> {
    let rows = spec_lines(spec_trim(t));
    if rows.len() != 4 {
        None
    } else if spec_row_cells(rows[0]) is None || spec_row_cells(rows[1]) is None
        || spec_row_cells(rows[2]) is None || spec_row_cells(rows[3]) is None {
        None
    } else {
        Some(Seq::new(16nat, |i: int| spec_row_cells(rows[i % 4])->0[i / 4]))
    }
}

/// What parsing a text yields: the grid it describes, provided no cell
/// value occurs twice — which also limits blanks to one. Otherwise
/// nothing, with no further diagnosis.
pub open spec fn spec_parse_cells(t: Seq<u8>) -> Option<Seq<Option<u8>>> {
    match spec_grid(t) {
        None => None,
        Some(cells) => if cells_distinct(cells) {
            Some(cells)
        } else {
            None
        },
    }
}

/// The decimal digits of a value below 1000.
pub open spec fn spec_digits(v: int) -> Seq<u8> {
    if v < 10 {
        seq![(48 + v) as u8]
    } else if v < 100 {
        seq![(48 + v / 10) as u8, (48 + v % 10) as u8]
    } else {
        seq![(48 + v / 100) as u8, (48 + (v / 10) % 10) as u8, (48 + v % 10) as u8]
    }
}

/// The body of one rendered field, between two bars: four spaces for the
/// empty cell, or the tile right-aligned to width 2 between single
/// spaces.
pub open spec fn cell_body(t: Option<u8>) -> Seq<u8> {
    match t {
        None => seq![32u8, 32u8, 32u8, 32u8],
        Some(v) => if v < 10 {
            seq![32u8, 32u8] + spec_digits(v as int) + seq![32u8]
        } else {
            seq![32u8] + spec_digits(v as int) + seq![32u8]
        },
    }
}

/// One rendered line: a bar, then the four cells of row `y` each followed
/// by a bar, then a line feed.
pub open spec fn spec_row_text(s: Seq<Option<u8>>, y: int) -> Seq<u8> {
    seq![124u8] + cell_body(s[y]) + seq![124u8] + cell_body(s[4 + y]) + seq![124u8] + cell_body(
        s[8 + y],
    ) + seq![124u8] + cell_body(s[12 + y]) + seq![124u8, 10u8]
}

/// The first `n` rendered lines of a board.
pub open spec fn spec_rows_prefix(s: Seq<Option<u8>>, n: int) -> Seq<u8>
    decreases n,
{
    if n <= 0 {
        Seq::empty()
    } else {
        spec_rows_prefix(s, n - 1) + spec_row_text(s, n - 1)
    }
}

/// The full rendered text of a board: its four lines.
pub open spec fn spec_format_cells(s: Seq<Option<u8>>) -> Seq<u8> {
    spec_rows_prefix(s, 4)
}

/// Relies on `String::from_utf8`: a byte vector that is valid UTF-8 —
/// here it is ASCII — becomes a string whose UTF-8 encoding is exactly
/// those bytes.
#[verifier::external_body]
fn ascii_bytes_to_string(v: Vec<u8>) -> (r: String)
    requires
        forall|i: int| 0 <= i < v@.len() ==> v@[i] < 128,
    ensures
        vstd::utf8::encode_utf8(r@) == v@,
{
    match String::from_utf8(v) {
        Ok(s) => s,
        Err(_) => String::new(),
    }
}

/// Appends the rendered body of one cell and a closing bar.
fn push_cell(out: &mut Vec<u8>, t: Option<u8>)
    ensures
        final(out)@ == old(out)@ + cell_body(t) + seq![124u8],
{
    match t {
        None => {
            out.push(32);
            out.push(32);
            out.push(32);
            out.push(32);
            out.push(124);
        },
        Some(v) => {
            out.push(32);
            if v < 10 {
                out.push(32);
                out.push(48 + v);
            } else if v < 100 {
                out.push(48 + v / 10);
                out.push(48 + v % 10);
            } else {
                out.push(48 + v / 100);
                out.push(48 + (v / 10) % 10);
                out.push(48 + v % 10);
            }
            out.push(32);
            out.push(124);
        },
    }
    proof {
        assert(final(out)@ =~= old(out)@ + cell_body(t) + seq![124u8]);
    }
}

impl GameState {
    /// Generates the human-readable text of the game state: four lines of
    /// bar-separated cells, each tile right-aligned to width 2, the empty
    /// slot blank.
    pub fn to_text(&self) -> (r: String)
        ensures
            vstd::utf8::encode_utf8(r@) == spec_format_cells(self@),
    {
        let mut out: Vec<u8> = Vec::new();
        let mut y: u8 = 0;
        while y < 4
            invariant
                y <= 4,
                out@ == spec_rows_prefix(self@, y as int),
                forall|i: int| 0 <= i < out@.len() ==> out@[i] < 128,
            decreases 4 - y,
        {
            let ghost before = out@;
            out.push(124);
            push_cell(&mut out, self.get(0, y));
            push_cell(&mut out, self.get(1, y));
            push_cell(&mut out, self.get(2, y));
            push_cell(&mut out, self.get(3, y));
            out.push(10);
            proof {
                assert(out@ =~= before + spec_row_text(self@, y as int));
                lemma_row_text_bytes_ascii(self@, y as int);
            }
            y += 1;
        }
        ascii_bytes_to_string(out)
    }
}

/// The pieces of `b` that a sequence of index ranges selects.
spec fn ranges_to_seqs(b: Seq<u8>, r: Seq<(usize, usize)>) -> Seq<Seq<u8>> {
    r.map_values(|pr: (usize, usize)| b.subrange(pr.0 as int, pr.1 as int))
}

/// The bounds of the trimmed core of `b[s..e]`: past the leading
/// whitespace, and before the trailing whitespace.
fn trim_range(b: &[u8], s: usize, e: usize) -> (r: (usize, usize))
    requires
        s <= e <= b@.len(),
    ensures
        s <= r.0 <= r.1 <= e,
        b@.subrange(r.0 as int, r.1 as int) == spec_trim(b@.subrange(s as int, e as int)),
{
    let mut lo: usize = s;
    loop
        invariant
            s <= lo <= e <= b@.len(),
            trim_front(b@.subrange(s as int, e as int)) == trim_front(
                b@.subrange(lo as int, e as int),
            ),
        ensures
            s <= lo <= e,
            trim_front(b@.subrange(s as int, e as int)) == b@.subrange(lo as int, e as int),
        decreases e - lo,
    {
        if lo >= e {
            break;
        }
        let c = b[lo];
        if !(c == 32 || (c >= 9 && c <= 13)) {
            break;
        }
        proof {
            assert(b@.subrange(lo as int, e as int).drop_first() =~= b@.subrange(
                lo as int + 1,
                e as int,
            ));
        }
        lo += 1;
    }
    let mut hi: usize = e;
    loop
        invariant
            s <= lo <= hi <= e <= b@.len(),
            trim_back(b@.subrange(lo as int, e as int)) == trim_back(
                b@.subrange(lo as int, hi as int),
            ),
        ensures
            lo <= hi <= e,
            trim_back(b@.subrange(lo as int, e as int)) == b@.subrange(lo as int, hi as int),
        decreases hi,
    {
        if hi <= lo {
            break;
        }
        let c = b[hi - 1];
        if !(c == 32 || (c >= 9 && c <= 13)) {
            break;
        }
        proof {
            assert(b@.subrange(lo as int, hi as int).drop_last() =~= b@.subrange(
                lo as int,
                hi as int - 1,
            ));
        }
        hi -= 1;
    }
    (lo, hi)
}

/// The position of the next `sep` at or after `p` within `b[..e]`, or `e`
/// if there is none.
fn scan_to(b: &[u8], p: usize, e: usize, sep: u8) -> (q: usize)
    requires
        p <= e <= b@.len(),
    ensures
        p <= q <= e,
        q < e ==> find_from(b@.subrange(p as int, e as int), sep, 0) == Some(q as int - p as int)
            && b@[q as int] == sep,
        q == e ==> find_from(b@.subrange(p as int, e as int), sep, 0) is None,
{
    let ghost sub = b@.subrange(p as int, e as int);
    let mut j: usize = p;
    loop
        invariant
            p <= j <= e <= b@.len(),
            sub == b@.subrange(p as int, e as int),
            find_from(sub, sep, 0) == find_from(sub, sep, j as int - p as int),
        ensures
            j == e,
            find_from(sub, sep, 0) is None,
        decreases e - j,
    {
        if j >= e {
            break;
        }
        if b[j] == sep {
            return j;
        }
        j += 1;
    }
    e
}

/// The pieces of `b[s..e]` between occurrences of the separator, as index
/// ranges, matching `spec_split` piece for piece.
fn split_ranges(b: &[u8], s: usize, e: usize, sep: u8) -> (r: Vec<(usize, usize)>)
    requires
        s <= e <= b@.len(),
    ensures
        ranges_to_seqs(b@, r@) == spec_split(b@.subrange(s as int, e as int), sep),
        forall|k: int| 0 <= k < r@.len() ==> s <= (#[trigger] r@[k]).0 <= r@[k].1 <= e,
{
    let mut out: Vec<(usize, usize)> = Vec::new();
    let mut p: usize = s;
    loop
        invariant
            s <= p <= e <= b@.len(),
            spec_split(b@.subrange(s as int, e as int), sep) =~= ranges_to_seqs(b@, out@)
                + spec_split(b@.subrange(p as int, e as int), sep),
            forall|k: int| 0 <= k < out@.len() ==> s <= (#[trigger] out@[k]).0 <= out@[k].1 <= e,
        decreases e - p,
    {
        let ghost rest = b@.subrange(p as int, e as int);
        let ghost pieces_before = ranges_to_seqs(b@, out@);
        let q = scan_to(b, p, e, sep);
        if q < e {
            out.push((p, q));
            proof {
                assert(rest.subrange(0, q as int - p as int) =~= b@.subrange(p as int, q as int));
                assert(rest.subrange(q as int - p as int + 1, rest.len() as int) =~= b@.subrange(
                    q as int + 1,
                    e as int,
                ));
                assert(spec_split(rest, sep) == seq![b@.subrange(p as int, q as int)] + spec_split(
                    b@.subrange(q as int + 1, e as int),
                    sep,
                ));
                assert(ranges_to_seqs(b@, out@) =~= pieces_before + seq![
                    b@.subrange(p as int, q as int),
                ]);
            }
            p = q + 1;
        } else {
            out.push((p, e));
            proof {
                assert(spec_split(rest, sep) == seq![rest]);
                assert(ranges_to_seqs(b@, out@) =~= pieces_before + seq![rest]);
            }
            return out;
        }
    }
}

/// A valid field is an empty cell or an in-range tile.
proof fn lemma_spec_field_ok(f: Seq<u8>)
    ensures
        spec_field(f) matches Some(c) ==> tile_ok(c),
{
}

/// A parsed line yields four cells, each empty or an in-range tile.
proof fn lemma_row_cells_ok(rseq: Seq<u8>)
    ensures
        spec_row_cells(rseq) matches Some(cs) ==> cs.len() == 4 && (forall|i: int|
            0 <= i < 4 ==> tile_ok(#[trigger] cs[i])),
{
    if spec_row_cells(rseq) is Some {
        let parts = spec_split(rseq, 124);
        lemma_spec_field_ok(parts[1]);
        lemma_spec_field_ok(parts[2]);
        lemma_spec_field_ok(parts[3]);
        lemma_spec_field_ok(parts[4]);
    }
}

/// One inner field: blank for the empty cell, or a tile number in 1..=15.
fn parse_field(b: &[u8], fs: usize, fe: usize) -> (r: Option<Option<u8>>)
    requires
        fs <= fe <= b@.len(),
    ensures
        r == spec_field(b@.subrange(fs as int, fe as int)),
{
    let (gs, ge) = trim_range(b, fs, fe);
    let ghost g = b@.subrange(gs as int, ge as int);
    if gs == ge {
        proof {
            assert(g.len() == 0);
        }
        return Some(None);
    }
    let js: usize = if b[gs] == 43 {
        gs + 1
    } else {
        gs
    };
    let ghost d = b@.subrange(js as int, ge as int);
    proof {
        if g[0] == 43 {
            assert(g.drop_first() =~= d);
        } else {
            assert(g =~= d);
        }
    }
    if js == ge {
        proof {
            assert(g.len() > 0);
            assert(d.len() == 0);
            assert(spec_parse_u8(g) is None);
        }
        return None;
    }
    let mut acc: u32 = 0;
    let mut j: usize = js;
    while j < ge
        invariant
            fs <= gs <= js <= j <= ge <= fe <= b@.len(),
            js < ge,
            g == spec_trim(b@.subrange(fs as int, fe as int)),
            g == b@.subrange(gs as int, ge as int),
            g.len() > 0,
            d == b@.subrange(js as int, ge as int),
            d == (if g.len() > 0 && g[0] == 43 {
                g.drop_first()
            } else {
                g
            }),
            all_digits(b@.subrange(js as int, j as int)),
            acc <= 256,
            (dec_value(b@.subrange(js as int, j as int)) < 256 && acc == dec_value(
                b@.subrange(js as int, j as int),
            )) || (dec_value(b@.subrange(js as int, j as int)) >= 256 && acc == 256),
        decreases ge - j,
    {
        let c = b[j];
        if c < 48 || c > 57 {
            proof {
                assert(d[j as int - js as int] == c);
            }
            return None;
        }
        proof {
            let pre = b@.subrange(js as int, j as int);
            let pre2 = b@.subrange(js as int, j as int + 1);
            assert(pre2.drop_last() =~= pre);
            assert(pre2.last() == c);
            assert(dec_value(pre2) == dec_value(pre) * 10 + (c - 48));
        }
        let t: u32 = acc * 10 + (c as u32 - 48);
        acc = if t > 255 {
            256
        } else {
            t
        };
        j += 1;
    }
    proof {
        assert(b@.subrange(js as int, ge as int) == d);
    }
    if acc > 255 {
        return None;
    }
    let v: u8 = acc as u8;
    if v < 1 || v > 15 {
        return None;
    }
    Some(Some(v))
}

/// One line of the grid: exactly six bar-separated fields, of which the
/// inner four must be valid cells.
fn parse_row(b: &[u8], rs: usize, re: usize) -> (r: Option<[Option<u8>; 4]>)
    requires
        rs <= re <= b@.len(),
    ensures
        r is None <==> spec_row_cells(b@.subrange(rs as int, re as int)) is None,
        spec_row_cells(b@.subrange(rs as int, re as int)) matches Some(cs) ==> r matches Some(a)
            && a@ == cs,
{
    let ghost row = b@.subrange(rs as int, re as int);
    let parts = split_ranges(b, rs, re, 124);
    proof {
        assert(parts@.len() == spec_split(row, 124).len());
    }
    if parts.len() != 6 {
        return None;
    }
    let p1 = parts[1];
    let p2 = parts[2];
    let p3 = parts[3];
    let p4 = parts[4];
    proof {
        assert(b@.subrange(p1.0 as int, p1.1 as int) == spec_split(row, 124)[1]);
        assert(b@.subrange(p2.0 as int, p2.1 as int) == spec_split(row, 124)[2]);
        assert(b@.subrange(p3.0 as int, p3.1 as int) == spec_split(row, 124)[3]);
        assert(b@.subrange(p4.0 as int, p4.1 as int) == spec_split(row, 124)[4]);
    }
    let c1 = match parse_field(b, p1.0, p1.1) {
        None => {
            return None;
        },
        Some(c) => c,
    };
    let c2 = match parse_field(b, p2.0, p2.1) {
        None => {
            return None;
        },
        Some(c) => c,
    };
    let c3 = match parse_field(b, p3.0, p3.1) {
        None => {
            return None;
        },
        Some(c) => c,
    };
    let c4 = match parse_field(b, p4.0, p4.1) {
        None => {
            return None;
        },
        Some(c) => c,
    };
    let a = [c1, c2, c3, c4];
    proof {
        assert(a@ =~= spec_row_cells(row)->0);
    }
    Some(a)
}

/// Stripping a trailing carriage return from a slice piece, by bounds.
proof fn lemma_strip_range(b: Seq<u8>, p0: int, p1: int, e: int)
    requires
        0 <= p0 <= p1 <= b.len(),
        if p1 > p0 && b[p1 - 1] == 13 {
            e == p1 - 1
        } else {
            e == p1
        },
    ensures
        strip_cr(b.subrange(p0, p1)) == b.subrange(p0, e),
{
    let piece = b.subrange(p0, p1);
    if p1 > p0 && b[p1 - 1] == 13 {
        assert(piece.last() == b[p1 - 1]);
        assert(piece.drop_last() =~= b.subrange(p0, p1 - 1));
    } else if p1 > p0 {
        assert(piece.last() == b[p1 - 1]);
    }
}

/// Reads the 16 cells of the grid from bytes, before the duplicate
/// check.
#[verifier::rlimit(100)]
fn parse_grid(b: &[u8]) -> (r: Option<[Option<u8>; 16]>)
    ensures
        r is None <==> spec_grid(b@) is None,
        spec_grid(b@) matches Some(cells) ==> r matches Some(a) && a@ == cells,
{
    let n = b.len();
    proof {
        assert(b@.subrange(0, n as int) =~= b@);
    }
    let (lo, hi) = trim_range(b, 0, n);
    let ghost trimmed = spec_trim(b@);
    let ghost lns = spec_lines(trimmed);
    let rows = split_ranges(b, lo, hi, 10);
    proof {
        assert(lns.len() == spec_split(trimmed, 10).len());
    }
    if rows.len() != 4 {
        return None;
    }
    let q0 = rows[0];
    let q1 = rows[1];
    let q2 = rows[2];
    let q3 = rows[3];
    let e0 = if q0.1 > q0.0 && b[q0.1 - 1] == 13 {
        q0.1 - 1
    } else {
        q0.1
    };
    let e1 = if q1.1 > q1.0 && b[q1.1 - 1] == 13 {
        q1.1 - 1
    } else {
        q1.1
    };
    let e2 = if q2.1 > q2.0 && b[q2.1 - 1] == 13 {
        q2.1 - 1
    } else {
        q2.1
    };
    let e3 = if q3.1 > q3.0 && b[q3.1 - 1] == 13 {
        q3.1 - 1
    } else {
        q3.1
    };
    proof {
        assert(b@.subrange(q0.0 as int, q0.1 as int) == spec_split(trimmed, 10)[0]);
        assert(b@.subrange(q1.0 as int, q1.1 as int) == spec_split(trimmed, 10)[1]);
        assert(b@.subrange(q2.0 as int, q2.1 as int) == spec_split(trimmed, 10)[2]);
        assert(b@.subrange(q3.0 as int, q3.1 as int) == spec_split(trimmed, 10)[3]);
        lemma_strip_range(b@, q0.0 as int, q0.1 as int, e0 as int);
        lemma_strip_range(b@, q1.0 as int, q1.1 as int, e1 as int);
        lemma_strip_range(b@, q2.0 as int, q2.1 as int, e2 as int);
        lemma_strip_range(b@, q3.0 as int, q3.1 as int, e3 as int);
        assert(lns[0] == b@.subrange(q0.0 as int, e0 as int));
        assert(lns[1] == b@.subrange(q1.0 as int, e1 as int));
        assert(lns[2] == b@.subrange(q2.0 as int, e2 as int));
        assert(lns[3] == b@.subrange(q3.0 as int, e3 as int));
    }
    let a0 = match parse_row(b, q0.0, e0) {
        None => {
            return None;
        },
        Some(a) => a,
    };
    let a1 = match parse_row(b, q1.0, e1) {
        None => {
            return None;
        },
        Some(a) => a,
    };
    let a2 = match parse_row(b, q2.0, e2) {
        None => {
            return None;
        },
        Some(a) => a,
    };
    let a3 = match parse_row(b, q3.0, e3) {
        None => {
            return None;
        },
        Some(a) => a,
    };
    let mut cells: [Option<u8>; 16] = [None;16];
    cells[0] = a0[0];
    cells[4] = a0[1];
    cells[8] = a0[2];
    cells[12] = a0[3];
    cells[1] = a1[0];
    cells[5] = a1[1];
    cells[9] = a1[2];
    cells[13] = a1[3];
    cells[2] = a2[0];
    cells[6] = a2[1];
    cells[10] = a2[2];
    cells[14] = a2[3];
    cells[3] = a3[0];
    cells[7] = a3[1];
    cells[11] = a3[2];
    cells[15] = a3[3];
    proof {
        assert(spec_grid(b@) is Some);
        let gridcells = spec_grid(b@)->0;
        assert(spec_row_cells(lns[0]) == Some(a0@));
        assert(spec_row_cells(lns[1]) == Some(a1@));
        assert(spec_row_cells(lns[2]) == Some(a2@));
        assert(spec_row_cells(lns[3]) == Some(a3@));
        assert forall|i: int| 0 <= i < 16 implies cells@[i] == gridcells[i] by {
            assert(i % 4 == 0 || i % 4 == 1 || i % 4 == 2 || i % 4 == 3);
            assert(0 <= i / 4 < 4);
            assert(gridcells[i] == spec_row_cells(lns[i % 4])->0[i / 4]);
        }
        assert(cells@ =~= gridcells);
    }
    Some(cells)
}

/// Every cell of a parsed grid is empty or an in-range tile.
proof fn lemma_grid_cells_ok(t: Seq<u8>)
    ensures
        spec_grid(t) matches Some(cells) ==> cells.len() == 16 && (forall|i: int|
            0 <= i < 16 ==> tile_ok(#[trigger] cells[i])),
{
    if spec_grid(t) is Some {
        let rows = spec_lines(spec_trim(t));
        let cells = spec_grid(t)->0;
        lemma_row_cells_ok(rows[0]);
        lemma_row_cells_ok(rows[1]);
        lemma_row_cells_ok(rows[2]);
        lemma_row_cells_ok(rows[3]);
        assert forall|i: int| 0 <= i < 16 implies tile_ok(#[trigger] cells[i]) by {
            assert(i % 4 == 0 || i % 4 == 1 || i % 4 == 2 || i % 4 == 3);
            assert(0 <= i / 4 < 4);
            assert(cells[i] == spec_row_cells(rows[i % 4])->0[i / 4]);
        }
    }
}

/// Parses a whole grid from bytes. On success the board is well formed.
fn parse_cells(b: &[u8]) -> (r: Option<GameState>)
    ensures
        r is None <==> spec_parse_cells(b@) is None,
        spec_parse_cells(b@) matches Some(cells) ==> r matches Some(g) && g@ == cells && g.wf(),
{
    let cells = match parse_grid(b) {
        None => {
            return None;
        },
        Some(a) => a,
    };
    proof {
        lemma_grid_cells_ok(b@);
    }
    let g = GameState::from_board(cells);
    if g.all_tiles_unique() {
        Some(g)
    } else {
        proof {
            if cells_distinct(cells@) {
                lemma_full_grid_has_empty(cells@);
                assert(g.wf());
            }
        }
        None
    }
}

impl GameState {
    /// Tries to parse a game state from the provided string.
    /// Returns None if parsing is not possible, or if the parsed game
    /// state would contain duplicate or invalid tiles.
    /// Ignores whitespace.
    pub fn from_str(s: &str) -> (r: Option<Self>)
        ensures
            r is None <==> spec_parse_cells(s.spec_bytes()) is None,
            spec_parse_cells(s.spec_bytes()) matches Some(cells) ==> r matches Some(g) && g@
                == cells && g.wf(),
    {
        let b = s.as_bytes();
        parse_cells(b)
    }
}

/// Every byte of a rendered cell body is a space or a digit.
proof fn lemma_cell_body_bytes(t: Option<u8>)
    ensures
        forall|i: int|
            0 <= i < cell_body(t).len() ==> (#[trigger] cell_body(t)[i] == 32 || 48 <= cell_body(
                t,
            )[i] <= 57),
{
}

/// Every byte of a rendered line is a bar, a space, a digit, or its final
/// line feed; in particular all are ASCII.
proof fn lemma_row_text_bytes_ascii(s: Seq<Option<u8>>, y: int)
    requires
        0 <= y < 4,
        s.len() == 16,
    ensures
        forall|i: int| 0 <= i < spec_row_text(s, y).len() ==> #[trigger] spec_row_text(s, y)[i]
            < 128,
{
    lemma_cell_body_bytes(s[y]);
    lemma_cell_body_bytes(s[4 + y]);
    lemma_cell_body_bytes(s[8 + y]);
    lemma_cell_body_bytes(s[12 + y]);
}

/// Where `find_from` finds its byte, and what it means when it finds
/// none.
proof fn lemma_find_from_props(s: Seq<u8>, c: u8, k: int)
    requires
        0 <= k <= s.len(),
    ensures
        find_from(s, c, k) matches Some(i) ==> k <= i < s.len() && s[i] == c && (forall|j: int|
            k <= j < i ==> s[j] != c),
        find_from(s, c, k) is None ==> forall|j: int| k <= j < s.len() ==> s[j] != c,
    decreases s.len() - k,
{
    if k < s.len() && s[k] != c {
        lemma_find_from_props(s, c, k + 1);
    }
}

/// Splitting a sequence that has no separator yields the one piece.
proof fn lemma_split_whole(a: Seq<u8>, sep: u8)
    requires
        forall|j: int| 0 <= j < a.len() ==> a[j] != sep,
    ensures
        spec_split(a, sep) == seq![a],
{
    lemma_find_from_props(a, sep, 0);
    if find_from(a, sep, 0) is Some {
        assert(false);
    }
}

/// Splitting peels one separator-free piece off the front.
proof fn lemma_split_peel(a: Seq<u8>, rest: Seq<u8>, sep: u8)
    requires
        forall|j: int| 0 <= j < a.len() ==> a[j] != sep,
    ensures
        spec_split(a + seq![sep] + rest, sep) == seq![a] + spec_split(rest, sep),
{
    let s = a + seq![sep] + rest;
    assert(s[a.len() as int] == sep);
    lemma_find_from_props(s, sep, 0);
    if find_from(s, sep, 0) is None {
        assert(false);
    }
    let i = find_from(s, sep, 0)->0;
    assert forall|j: int| 0 <= j < a.len() implies s[j] != sep by {
        assert(s[j] == a[j]);
    }
    if i < a.len() {
        assert(s[i] != sep);
        assert(false);
    }
    if i > a.len() {
        assert(s[a.len() as int] != sep);
        assert(false);
    }
    assert(s.subrange(0, i) =~= a);
    assert(s.subrange(i + 1, s.len() as int) =~= rest);
}

/// The decimal digits of a value below 256 read back as that value.
proof fn lemma_digits_value(v: int)
    requires
        0 <= v < 256,
    ensures
        all_digits(spec_digits(v)),
        1 <= spec_digits(v).len() <= 3,
        dec_value(spec_digits(v)) == v,
{
    let d = spec_digits(v);
    assert(dec_value(Seq::<u8>::empty()) == 0);
    assert(0 <= v % 10 <= 9);
    if v < 10 {
        assert(d.drop_last() =~= Seq::<u8>::empty());
        assert(dec_value(d) == dec_value(d.drop_last()) * 10 + (d.last() - 48));
        assert(d.last() == (48 + v) as u8);
        assert(dec_value(d) == v);
    } else if v < 100 {
        assert(1 <= v / 10 <= 9);
        let one = seq![(48 + v / 10) as u8];
        assert(d.drop_last() =~= one);
        assert(dec_value(one) == dec_value(one.drop_last()) * 10 + (one.last() - 48));
        assert(one.drop_last() =~= Seq::<u8>::empty());
        assert(dec_value(one) == v / 10);
        assert(dec_value(d) == dec_value(d.drop_last()) * 10 + (d.last() - 48));
        assert(dec_value(d) == (v / 10) * 10 + v % 10);
        assert((v / 10) * 10 + v % 10 == v) by (nonlinear_arith)
            requires
                v >= 0,
        ;
    } else {
        assert(1 <= v / 100 <= 2);
        assert(0 <= (v / 10) % 10 <= 9);
        let two = seq![(48 + v / 100) as u8, (48 + (v / 10) % 10) as u8];
        let one = seq![(48 + v / 100) as u8];
        assert(d.drop_last() =~= two);
        assert(two.drop_last() =~= one);
        assert(one.drop_last() =~= Seq::<u8>::empty());
        assert(dec_value(one) == dec_value(one.drop_last()) * 10 + (one.last() - 48));
        assert(dec_value(one) == v / 100);
        assert(dec_value(two) == dec_value(two.drop_last()) * 10 + (two.last() - 48));
        assert(dec_value(two) == (v / 100) * 10 + (v / 10) % 10);
        assert((v / 100) * 10 + (v / 10) % 10 == v / 10) by (nonlinear_arith)
            requires
                v >= 0,
        ;
        assert(dec_value(d) == dec_value(d.drop_last()) * 10 + (d.last() - 48));
        assert(dec_value(d) == (v / 10) * 10 + v % 10);
        assert((v / 10) * 10 + v % 10 == v) by (nonlinear_arith)
            requires
                v >= 0,
        ;
    }
}

/// Reading a rendered cell body back gives the cell: the spaces trim
/// away and the digits read back as the tile value.
proof fn lemma_cell_field_roundtrip(t: Option<u8>)
    requires
        tile_ok(t),
    ensures
        spec_field(cell_body(t)) == Some(t),
{
    let body = cell_body(t);
    match t {
        None => {
            let b3 = seq![32u8, 32u8, 32u8];
            let b2 = seq![32u8, 32u8];
            let b1 = seq![32u8];
            assert(body.drop_first() =~= b3);
            assert(trim_front(body) == trim_front(b3));
            assert(b3.drop_first() =~= b2);
            assert(trim_front(b3) == trim_front(b2));
            assert(b2.drop_first() =~= b1);
            assert(trim_front(b2) == trim_front(b1));
            assert(b1.drop_first() =~= Seq::<u8>::empty());
            assert(trim_front(b1) == trim_front(Seq::<u8>::empty()));
            assert(trim_front(Seq::<u8>::empty()) =~= Seq::<u8>::empty());
            assert(trim_back(Seq::<u8>::empty()) =~= Seq::<u8>::empty());
            assert(spec_trim(body).len() == 0);
        },
        Some(v) => {
            lemma_digits_value(v as int);
            let dg = spec_digits(v as int);
            assert(forall|j: int| 0 <= j < dg.len() ==> !is_ws(#[trigger] dg[j]));
            if v < 10 {
                assert(body =~= seq![32u8, 32u8] + dg + seq![32u8]);
                let s1 = seq![32u8] + dg + seq![32u8];
                let s2 = dg + seq![32u8];
                assert(body.drop_first() =~= s1);
                assert(trim_front(body) == trim_front(s1));
                assert(s1.drop_first() =~= s2);
                assert(trim_front(s1) == trim_front(s2));
                assert(s2[0] == dg[0]);
                assert(!is_ws(s2[0]));
                assert(trim_front(s2) == s2);
                assert(is_ws(s2.last()));
                assert(s2.drop_last() =~= dg);
                assert(trim_back(s2) == trim_back(dg));
                assert(!is_ws(dg.last()));
                assert(trim_back(dg) == dg);
                assert(spec_trim(body) == dg);
            } else {
                assert(dg.len() == 2);
                assert(body =~= seq![32u8] + dg + seq![32u8]);
                let s2 = dg + seq![32u8];
                assert(body.drop_first() =~= s2);
                assert(trim_front(body) == trim_front(s2));
                assert(s2[0] == dg[0]);
                assert(!is_ws(s2[0]));
                assert(trim_front(s2) == s2);
                assert(is_ws(s2.last()));
                assert(s2.drop_last() =~= dg);
                assert(trim_back(s2) == trim_back(dg));
                assert(!is_ws(dg.last()));
                assert(trim_back(dg) == dg);
                assert(spec_trim(body) == dg);
            }
            assert(dg[0] != 43);
            assert(spec_parse_u8(dg) == Some(v));
        },
    }
}

/// The shape of a rendered line: it ends in its one line feed, and its
/// body before that starts and ends with a bar and contains no line feed
/// and no carriage return.
proof fn lemma_row_body_shape(s: Seq<Option<u8>>, y: int)
    requires
        0 <= y < 4,
        s.len() == 16,
    ensures
        spec_row_text(s, y).last() == 10,
        spec_row_text(s, y).drop_last().len() > 0,
        spec_row_text(s, y).drop_last()[0] == 124,
        spec_row_text(s, y).drop_last().last() == 124,
        forall|j: int|
            0 <= j < spec_row_text(s, y).drop_last().len() ==> #[trigger] spec_row_text(
                s,
                y,
            ).drop_last()[j] != 10 && spec_row_text(s, y).drop_last()[j] != 13,
{
    lemma_cell_body_bytes(s[y]);
    lemma_cell_body_bytes(s[4 + y]);
    lemma_cell_body_bytes(s[8 + y]);
    lemma_cell_body_bytes(s[12 + y]);
}

/// Reading a rendered line back, without its final line feed, gives the
/// four cells of the row.
proof fn lemma_row_roundtrip(s: Seq<Option<u8>>, y: int)
    requires
        wf_cells(s),
        0 <= y < 4,
    ensures
        spec_row_cells(spec_row_text(s, y).drop_last()) == Some(
            seq![s[y], s[4 + y], s[8 + y], s[12 + y]],
        ),
{
    let b0 = cell_body(s[y]);
    let b1 = cell_body(s[4 + y]);
    let b2 = cell_body(s[8 + y]);
    let b3 = cell_body(s[12 + y]);
    lemma_cell_body_bytes(s[y]);
    lemma_cell_body_bytes(s[4 + y]);
    lemma_cell_body_bytes(s[8 + y]);
    lemma_cell_body_bytes(s[12 + y]);
    let bar = seq![124u8];
    let rest5 = Seq::<u8>::empty();
    let rest4 = b3 + bar + rest5;
    let rest3 = b2 + bar + rest4;
    let rest2 = b1 + bar + rest3;
    let rest1 = b0 + bar + rest2;
    let rb = Seq::<u8>::empty() + bar + rest1;
    assert(spec_row_text(s, y).drop_last() =~= rb);
    lemma_split_peel(Seq::<u8>::empty(), rest1, 124);
    lemma_split_peel(b0, rest2, 124);
    lemma_split_peel(b1, rest3, 124);
    lemma_split_peel(b2, rest4, 124);
    lemma_split_peel(b3, rest5, 124);
    lemma_split_whole(rest5, 124);
    let parts = spec_split(rb, 124);
    assert(parts =~= seq![Seq::<u8>::empty(), b0, b1, b2, b3, Seq::<u8>::empty()]);
    lemma_cell_field_roundtrip(s[y]);
    lemma_cell_field_roundtrip(s[4 + y]);
    lemma_cell_field_roundtrip(s[8 + y]);
    lemma_cell_field_roundtrip(s[12 + y]);
    assert(spec_row_cells(rb)->0 =~= seq![s[y], s[4 + y], s[8 + y], s[12 + y]]);
}

/// Formatting a well-formed board and parsing the text back yields the
/// same board: `parse(format(s)) == s`.
#[verifier::rlimit(100)]
pub proof fn lemma_parse_format_roundtrip(s: Seq<Option<u8>>)
    requires
        wf_cells(s),
    ensures
        spec_parse_cells(spec_format_cells(s)) == Some(s),
{
    let t = spec_format_cells(s);
    let r0 = spec_row_text(s, 0);
    let r1 = spec_row_text(s, 1);
    let r2 = spec_row_text(s, 2);
    let r3 = spec_row_text(s, 3);
    let rb0 = r0.drop_last();
    let rb1 = r1.drop_last();
    let rb2 = r2.drop_last();
    let rb3 = r3.drop_last();
    assert(spec_rows_prefix(s, 1) == spec_rows_prefix(s, 0) + r0);
    assert(spec_rows_prefix(s, 2) == spec_rows_prefix(s, 1) + r1);
    assert(spec_rows_prefix(s, 3) == spec_rows_prefix(s, 2) + r2);
    assert(t == spec_rows_prefix(s, 3) + r3);
    assert(t =~= r0 + r1 + r2 + r3);
    lemma_row_body_shape(s, 0);
    lemma_row_body_shape(s, 1);
    lemma_row_body_shape(s, 2);
    lemma_row_body_shape(s, 3);
    assert(r0 =~= rb0 + seq![10u8]);
    assert(r1 =~= rb1 + seq![10u8]);
    assert(r2 =~= rb2 + seq![10u8]);
    assert(r3 =~= rb3 + seq![10u8]);
    // the trimmed text: the one trailing line feed goes, nothing else
    assert(t[0] == rb0[0]);
    assert(t[0] == 124);
    assert(trim_front(t) == t);
    let u = t.drop_last();
    assert(t.last() == 10);
    assert(u.last() == rb3.last());
    assert(u.last() == 124);
    assert(trim_back(t) == trim_back(u));
    assert(trim_back(u) == u);
    assert(spec_trim(t) == u);
    // the four lines
    let nl = seq![10u8];
    let tail2 = rb3;
    let tail1 = rb2 + nl + tail2;
    let tail0 = rb1 + nl + tail1;
    assert(u =~= rb0 + nl + tail0);
    lemma_split_peel(rb0, tail0, 10);
    lemma_split_peel(rb1, tail1, 10);
    lemma_split_peel(rb2, tail2, 10);
    lemma_split_whole(rb3, 10);
    let pieces = spec_split(u, 10);
    assert(pieces =~= seq![rb0, rb1, rb2, rb3]);
    let rows = spec_lines(u);
    assert(rows.len() == 4);
    assert(rows[0] == strip_cr(rb0) && strip_cr(rb0) == rb0);
    assert(rows[1] == strip_cr(rb1) && strip_cr(rb1) == rb1);
    assert(rows[2] == strip_cr(rb2) && strip_cr(rb2) == rb2);
    assert(rows[3] == strip_cr(rb3) && strip_cr(rb3) == rb3);
    lemma_row_roundtrip(s, 0);
    lemma_row_roundtrip(s, 1);
    lemma_row_roundtrip(s, 2);
    lemma_row_roundtrip(s, 3);
    assert(spec_grid(t) is Some);
    let cells = spec_grid(t)->0;
    assert forall|i: int| 0 <= i < 16 implies cells[i] == s[i] by {
        assert(i % 4 == 0 || i % 4 == 1 || i % 4 == 2 || i % 4 == 3);
        assert(0 <= i / 4 < 4);
        assert(cells[i] == spec_row_cells(rows[i % 4])->0[i / 4]);
        assert((i / 4) * 4 + (i % 4) == i);
    }
    assert(cells =~= s);
}

/// Parsing a valid literal grid text — one that some well-formed board
/// renders to — and formatting the parsed board back reproduces the text:
/// `format(parse(t)) == t`.
pub proof fn lemma_format_parse_roundtrip(t: Seq<u8>)
    requires
        exists|s: Seq<Option<u8>>| wf_cells(s) && t == spec_format_cells(s),
    ensures
        spec_parse_cells(t) matches Some(c) && spec_format_cells(c) == t,
{
    let s = choose|s: Seq<Option<u8>>| wf_cells(s) && t == spec_format_cells(s);
    lemma_parse_format_roundtrip(s);
}

} // verus!
