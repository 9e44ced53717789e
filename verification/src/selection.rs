//! The text of a drag selection: what "drag to select and copy" puts on
//! the clipboard. Rows are a pane's lines in reading order (scrollback
//! history first, then the screen); points are `(col, row)`.

use vstd::prelude::*;
use crate::text::{is_whitespace, is_ws, string_from_chars, trim_end_by};

verus! {

/// The chars of `line` from column `from` through column `to`, clamped to
/// the line, with trailing whitespace trimmed; empty when `from` lies past
/// the clamped end.
pub open spec fn span_of(line: Seq<char>, from: int, to: int) -> Seq<char> {
    let end: int = if to < line.len() - 1 { to } else { line.len() - 1 };
    if from <= end {
        trim_end_by(line.subrange(from, end + 1), |c: char| is_ws(c))
    } else {
        Seq::empty()
    }
}

/// Trimming trailing whitespace keeps a prefix: the chars it drops are all
/// whitespace and the kept part does not end in whitespace.
proof fn lemma_trim_end_ws_prefix(s: Seq<char>)
    ensures
        ({
            let t = trim_end_by(s, |c: char| is_ws(c));
            &&& t.len() <= s.len()
            &&& forall|i: int| 0 <= i < t.len() ==> t[i] == s[i]
            &&& forall|j: int| t.len() <= j < s.len() ==> is_ws(#[trigger] s[j])
            &&& t.len() > 0 ==> !is_ws(t[t.len() - 1])
        }),
    decreases s.len(),
{
    if s.len() > 0 && is_ws(s.last()) {
        lemma_trim_end_ws_prefix(s.drop_last());
        let t = trim_end_by(s, |c: char| is_ws(c));
        assert(t == trim_end_by(s.drop_last(), |c: char| is_ws(c)));
        assert forall|j: int| t.len() <= j < s.len() implies is_ws(#[trigger] s[j]) by {
            if j < s.len() - 1 {
                assert(s[j] == s.drop_last()[j]);
            }
        }
    }
}

/// A row's piece of a selection is the line's cells from the start column
/// through the end column (clamped to the line) with only trailing
/// whitespace removed: it copies the line from the start column on, char
/// for char — leading indentation included — what it leaves off the end
/// of the span is all whitespace, and it never ends in whitespace.
pub proof fn lemma_span_trims_only_the_end(line: Seq<char>, from: int, to: int)
    requires
        0 <= from,
    ensures
        ({
            let end: int = if to < line.len() - 1 { to } else { line.len() - 1 };
            let r = span_of(line, from, to);
            &&& r.len() <= (if from <= end { end + 1 - from } else { 0 })
            &&& forall|i: int| 0 <= i < r.len() ==> r[i] == line[from + i]
            &&& forall|j: int| from + r.len() <= j <= end ==> is_ws(#[trigger] line[j])
            &&& r.len() > 0 ==> !is_ws(r[r.len() - 1])
        }),
{
    let end: int = if to < line.len() - 1 { to } else { line.len() - 1 };
    if from <= end {
        let sub = line.subrange(from, end + 1);
        lemma_trim_end_ws_prefix(sub);
        let r = span_of(line, from, to);
        assert forall|j: int| from + r.len() <= j <= end implies is_ws(#[trigger] line[j]) by {
            assert(line[j] == sub[j - from]);
        }
    }
}

/// Pieces joined with a newline between each two.
pub open spec fn join_lines(ps: Seq<Seq<char>>) -> Seq<char>
    decreases ps.len(),
{
    if ps.len() == 0 {
        Seq::empty()
    } else if ps.len() == 1 {
        ps[0]
    } else {
        join_lines(ps.drop_last()) + seq!['\n'] + ps.last()
    }
}

/// Whether `a` comes after `b` in reading order (by row, then column).
pub open spec fn after(a: (usize, usize), b: (usize, usize)) -> bool {
    a.1 > b.1 || (a.1 == b.1 && a.0 > b.0)
}

/// The pieces of a selection spanning rows `ar` < `br`: the first row from
/// column `ac` to its end, the rows between whole, the last row up to
/// column `bc`.
pub open spec fn multi_row_pieces(lines: Seq<Seq<char>>, ar: int, ac: int, br: int, bc: int) -> Seq<Seq<char>> {
    seq![span_of(lines[ar], ac, lines[ar].len() - 1)] + Seq::new(
        (br - ar - 1) as nat,
        |k: int| span_of(lines[ar + 1 + k], 0, lines[ar + 1 + k].len() - 1),
    ) + seq![span_of(lines[br], 0, bc)]
}

/// The text between two points, in either order: rows clamp to the last
/// line; a single-row selection takes the cell span between the columns;
/// a longer one takes the first row from its column to the end, the rows
/// between whole, and the last row up to its column; each row is
/// trailing-trimmed and the rows are joined with newlines. No lines, no
/// text.
pub open spec fn selection_spec(lines: Seq<Seq<char>>, start: (usize, usize), end: (usize, usize)) -> Seq<char> {
    if lines.len() == 0 {
        Seq::empty()
    } else {
        let (a, b) = if after(start, end) { (end, start) } else { (start, end) };
        let last = lines.len() - 1;
        let ar: int = if a.1 < last { a.1 as int } else { last };
        let br: int = if b.1 < last { b.1 as int } else { last };
        if ar == br {
            let lo: int = if a.0 < b.0 { a.0 as int } else { b.0 as int };
            let hi: int = if a.0 < b.0 { b.0 as int } else { a.0 as int };
            span_of(lines[ar], lo, hi)
        } else {
            join_lines(multi_row_pieces(lines, ar, a.0 as int, br, b.0 as int))
        }
    }
}

fn trim_end_ws(v: Vec<char>) -> (r: Vec<char>)
    ensures
        r@ == trim_end_by(v@, |c: char| is_ws(c)),
{
    let ghost orig = v@;
    let mut v = v;
    while v.len() > 0 && is_whitespace(v[v.len() - 1])
        invariant
            trim_end_by(v@, |c: char| is_ws(c)) == trim_end_by(orig, |c: char| is_ws(c)),
        decreases v@.len(),
    {
        let ghost before = v@;
        v.pop();
        assert(v@ =~= before.drop_last());
    }
    v
}

/// One row's span, as [`span_of`] says.
fn span(line: &[char], from: usize, to: usize) -> (r: Vec<char>)
    ensures
        r@ == span_of(line@, from as int, to as int),
{
    let len = line.len();
    if len == 0 {
        return Vec::new();
    }
    let end: usize = if to < len - 1 { to } else { len - 1 };
    if from > end {
        return Vec::new();
    }
    let mut out: Vec<char> = Vec::new();
    let mut i = from;
    while i <= end
        invariant
            from <= i <= end + 1,
            end < line@.len(),
            out@ == line@.subrange(from as int, i as int),
        decreases end + 1 - i,
    {
        out.push(line[i]);
        assert(line@.subrange(from as int, i + 1) =~= line@.subrange(from as int, i as int).push(
            line@[i as int],
        ));
        i += 1;
    }
    trim_end_ws(out)
}

/// The text a drag selection between `start` and `end` copies from
/// `lines`, as [`selection_spec`] says.
pub fn selection_text(lines: &[Vec<char>], start: (usize, usize), end: (usize, usize)) -> (s: String)
    ensures
        s@ == selection_spec(lines@.map_values(|l: Vec<char>| l@), start, end),
{
    let ghost ls = lines@.map_values(|l: Vec<char>| l@);
    if lines.len() == 0 {
        return string_from_chars(&[]);
    }
    let (a, b) = if start.1 > end.1 || (start.1 == end.1 && start.0 > end.0) {
        (end, start)
    } else {
        (start, end)
    };
    let last = lines.len() - 1;
    let ar: usize = if a.1 < last { a.1 } else { last };
    let br: usize = if b.1 < last { b.1 } else { last };
    if ar == br {
        let lo = if a.0 < b.0 { a.0 } else { b.0 };
        let hi = if a.0 < b.0 { b.0 } else { a.0 };
        assert(ls[ar as int] == lines@[ar as int]@);
        let r = span(lines[ar].as_slice(), lo, hi);
        return string_from_chars(r.as_slice());
    }
    let ghost pieces = multi_row_pieces(ls, ar as int, a.0 as int, br as int, b.0 as int);
    assert(ls[ar as int] == lines@[ar as int]@);
    let ghost first = span_of(ls[ar as int], a.0 as int, ls[ar as int].len() - 1);
    let ghost middle = Seq::new(
        (br - ar - 1) as nat,
        |k: int| span_of(ls[ar + 1 + k], 0, ls[ar + 1 + k].len() - 1),
    );
    let ghost final_piece = span_of(ls[br as int], 0, b.0 as int);
    assert(pieces == seq![first] + middle + seq![final_piece]);
    assert(pieces[0] == first);
    let _first_len = lines[ar].len();
    let mut out = span(lines[ar].as_slice(), a.0, usize::MAX);
    assert(out@ == pieces[0]);
    let mut row = ar + 1;
    while row <= br
        invariant
            ar < row <= br + 1,
            br < lines@.len(),
            ls == lines@.map_values(|l: Vec<char>| l@),
            pieces == multi_row_pieces(ls, ar as int, a.0 as int, br as int, b.0 as int),
            pieces == seq![first] + middle + seq![final_piece],
            middle.len() == br - ar - 1,
            forall|k: int| 0 <= k < middle.len() ==> #[trigger] middle[k] == span_of(ls[ar + 1 + k], 0, ls[ar + 1 + k].len() - 1),
            final_piece == span_of(ls[br as int], 0, b.0 as int),
            pieces.len() == br - ar + 1,
            out@ == join_lines(pieces.take(row - ar)),
        decreases br + 1 - row,
    {
        assert(ls[row as int] == lines@[row as int]@);
        let _row_len = lines[row].len();
        let piece = if row < br {
            span(lines[row].as_slice(), 0, usize::MAX)
        } else {
            span(lines[row].as_slice(), 0, b.0)
        };
        proof {
            if row < br {
                assert(pieces[row - ar] == middle[row - ar - 1]);
            } else {
                assert(pieces[row - ar] == final_piece);
            }
        }
        assert(piece@ == pieces[row - ar]);
        let ghost before = out@;
        out.push('\n');
        let mut k: usize = 0;
        while k < piece.len()
            invariant
                k <= piece@.len(),
                out@ == before + seq!['\n'] + piece@.take(k as int),
            decreases piece@.len() - k,
        {
            out.push(piece[k]);
            assert(piece@.take(k + 1) =~= piece@.take(k as int).push(piece@[k as int]));
            k += 1;
        }
        assert(piece@.take(piece@.len() as int) =~= piece@);
        let ghost taken = pieces.take(row + 1 - ar);
        assert(taken.drop_last() =~= pieces.take(row - ar));
        assert(taken.last() == pieces[row - ar]);
        row += 1;
    }
    assert(pieces.take(br + 1 - ar) =~= pieces);
    string_from_chars(out.as_slice())
}

} // verus!
