//! The status line's hotkey bar. A mode's hint string is a list of
//! ` · `-separated segments; a `key: label` segment paints its key
//! accented and its label muted (the colon becomes a space), any other
//! segment is muted prose, and segments sit a wide gap apart.

use vstd::prelude::*;
use crate::layout::Rect;
use crate::text::{chars_of, matches_at, occurs_at, string_from_chars};

verus! {

/// The separator between hint segments, as written.
pub open spec fn segment_sep() -> Seq<char> {
    seq![' ', '·', ' ']
}

/// The separator between a segment's key and its label.
pub open spec fn key_sep() -> Seq<char> {
    seq![':', ' ']
}

/// What is painted between two segments: a wide gap, so the bar reads as
/// spaced controls rather than a sentence.
pub open spec fn hint_gap() -> Seq<char> {
    seq![' ', ' ', '·', ' ', ' ']
}

/// The first position at or after `k` where `needle` occurs in `hay`.
pub open spec fn find_sub(hay: Seq<char>, needle: Seq<char>, k: int) -> Option<int>
    decreases hay.len() + 1 - k,
{
    if k < 0 || k + needle.len() > hay.len() {
        None
    } else if occurs_at(hay, needle, k) {
        Some(k)
    } else {
        find_sub(hay, needle, k + 1)
    }
}

/// A found position is an occurrence, at or after where the search began.
pub proof fn lemma_find_sub(hay: Seq<char>, needle: Seq<char>, k: int)
    ensures
        match find_sub(hay, needle, k) {
            Some(i) => k <= i && i + needle.len() <= hay.len() && occurs_at(hay, needle, i),
            None => true,
        },
    decreases hay.len() + 1 - k,
{
    if !(k < 0 || k + needle.len() > hay.len()) && !occurs_at(hay, needle, k) {
        lemma_find_sub(hay, needle, k + 1);
    }
}

/// `s` cut at every occurrence of a non-empty `sep`, left to right, the
/// separators dropped: what `str::split` yields.
pub open spec fn split_on(s: Seq<char>, sep: Seq<char>) -> Seq<Seq<char>>
    decreases s.len(),
{
    match find_sub(s, sep, 0) {
        Some(i) => if sep.len() > 0 && 0 <= i && i + sep.len() <= s.len() {
            seq![s.take(i)] + split_on(s.skip(i + sep.len()), sep)
        } else {
            seq![s]
        },
        None => seq![s],
    }
}

/// How a piece of the bar is painted.
#[derive(Clone, Copy, Debug, PartialEq, Eq, Structural)]
pub enum HintRole {
    /// A key: accented and bold.
    Key,
    /// A label, a gap or plain prose: muted.
    Muted,
}

/// One segment's pieces: `key`, a space and `label` for a `key: label`
/// segment, else the segment itself.
pub open spec fn segment_spans(seg: Seq<char>) -> Seq<(Seq<char>, HintRole)> {
    match find_sub(seg, key_sep(), 0) {
        Some(i) => seq![
            (seg.take(i), HintRole::Key),
            (seq![' '], HintRole::Muted),
            (seg.skip(i + 2), HintRole::Muted),
        ],
        None => seq![(seg, HintRole::Muted)],
    }
}

/// The pieces of the first `n` segments, with the gap before every
/// segment but the first.
pub open spec fn spans_upto(segs: Seq<Seq<char>>, n: int) -> Seq<(Seq<char>, HintRole)>
    decreases n,
{
    if n <= 0 {
        Seq::empty()
    } else {
        let gap = if n - 1 > 0 { seq![(hint_gap(), HintRole::Muted)] } else { Seq::empty() };
        spans_upto(segs, n - 1) + gap + segment_spans(segs[n - 1])
    }
}

/// The pieces the bar paints for `status`, left to right.
pub open spec fn hint_spans(status: Seq<char>) -> Seq<(Seq<char>, HintRole)> {
    let segs = split_on(status, segment_sep());
    spans_upto(segs, segs.len() as int)
}

/// The cells the first `n` segments take: each segment's chars, less one
/// for a colon painted as a space, plus a gap before every segment but
/// the first.
pub open spec fn width_upto(segs: Seq<Seq<char>>, n: int) -> int
    decreases n,
{
    if n <= 0 {
        0
    } else {
        let gap: int = if n - 1 > 0 { 5 } else { 0 };
        let colon: int = if find_sub(segs[n - 1], key_sep(), 0) is Some { 1 } else { 0 };
        width_upto(segs, n - 1) + gap + segs[n - 1].len() - colon
    }
}

/// The cells the bar paints for `status`.
pub open spec fn hint_width(status: Seq<char>) -> int {
    let segs = split_on(status, segment_sep());
    width_upto(segs, segs.len() as int)
}

/// The total length of a list of pieces.
pub open spec fn spans_len(spans: Seq<(Seq<char>, HintRole)>) -> int
    decreases spans.len(),
{
    if spans.len() == 0 {
        0
    } else {
        spans_len(spans.drop_last()) + spans.last().0.len()
    }
}

proof fn lemma_spans_len_concat(a: Seq<(Seq<char>, HintRole)>, b: Seq<(Seq<char>, HintRole)>)
    ensures
        spans_len(a + b) == spans_len(a) + spans_len(b),
    decreases b.len(),
{
    if b.len() > 0 {
        assert((a + b).drop_last() =~= a + b.drop_last());
        lemma_spans_len_concat(a, b.drop_last());
    } else {
        assert(a + b =~= a);
    }
}

proof fn lemma_spans_len_one(x: (Seq<char>, HintRole))
    ensures
        spans_len(seq![x]) == x.0.len(),
{
    reveal_with_fuel(spans_len, 2);
    assert(seq![x].drop_last() =~= Seq::<(Seq<char>, HintRole)>::empty());
}

proof fn lemma_segment_len(seg: Seq<char>)
    ensures
        spans_len(segment_spans(seg)) == seg.len() - (if find_sub(seg, key_sep(), 0) is Some { 1int } else { 0int }),
{
    lemma_find_sub(seg, key_sep(), 0);
    match find_sub(seg, key_sep(), 0) {
        Some(i) => {
            let a = (seg.take(i), HintRole::Key);
            let b = (seq![' '], HintRole::Muted);
            let c = (seg.skip(i + 2), HintRole::Muted);
            assert(segment_spans(seg) =~= seq![a] + seq![b] + seq![c]);
            lemma_spans_len_concat(seq![a], seq![b]);
            lemma_spans_len_concat(seq![a] + seq![b], seq![c]);
            lemma_spans_len_one(a);
            lemma_spans_len_one(b);
            lemma_spans_len_one(c);
        },
        None => {
            lemma_spans_len_one((seg, HintRole::Muted));
        },
    }
}

proof fn lemma_width_upto(segs: Seq<Seq<char>>, n: int)
    requires
        0 <= n <= segs.len(),
    ensures
        spans_len(spans_upto(segs, n)) == width_upto(segs, n),
    decreases n,
{
    if n > 0 {
        lemma_width_upto(segs, n - 1);
        let gap = if n - 1 > 0 {
            seq![(hint_gap(), HintRole::Muted)]
        } else {
            Seq::<(Seq<char>, HintRole)>::empty()
        };
        lemma_spans_len_concat(spans_upto(segs, n - 1), gap);
        lemma_spans_len_concat(spans_upto(segs, n - 1) + gap, segment_spans(segs[n - 1]));
        lemma_segment_len(segs[n - 1]);
        assert(spans_len(gap) == if n - 1 > 0 { 5int } else { 0int }) by {
            lemma_spans_len_one((hint_gap(), HintRole::Muted));
        }
    }
}

/// The hint bar's width is exactly what it paints: the pieces
/// [`hotkey_spans`] hands out for a status add up to [`hint_width`], the
/// figure [`hotkeys_width`] centers the bar by.
pub proof fn lemma_hotkeys_width_is_painted_width(status: Seq<char>)
    ensures
        spans_len(hint_spans(status)) == hint_width(status),
{
    let segs = split_on(status, segment_sep());
    lemma_width_upto(segs, segs.len() as int);
}

/// The chars of `s` from `from` up to `to`.
fn copy_range(s: &[char], from: usize, to: usize) -> (v: Vec<char>)
    requires
        from <= to <= s@.len(),
    ensures
        v@ == s@.subrange(from as int, to as int),
{
    let mut v: Vec<char> = Vec::new();
    let mut i = from;
    while i < to
        invariant
            from <= i <= to,
            to <= s@.len(),
            v@ == s@.subrange(from as int, i as int),
        decreases to - i,
    {
        v.push(s[i]);
        assert(s@.subrange(from as int, i + 1) =~= s@.subrange(from as int, i as int).push(s@[i as int]));
        i += 1;
    }
    v
}

/// The first position where `needle` occurs in `hay`.
pub fn find_first(hay: &[char], needle: &[char]) -> (r: Option<usize>)
    ensures
        match r {
            Some(i) => find_sub(hay@, needle@, 0) == Some(i as int),
            None => find_sub(hay@, needle@, 0) is None,
        },
{
    if needle.len() > hay.len() {
        return None;
    }
    let last = hay.len() - needle.len();
    let mut k: usize = 0;
    loop
        invariant
            needle@.len() <= hay@.len(),
            last == hay@.len() - needle@.len(),
            k <= last,
            find_sub(hay@, needle@, 0) == find_sub(hay@, needle@, k as int),
        decreases last - k,
    {
        if matches_at(hay, needle, k) {
            return Some(k);
        }
        if k == last {
            assert(find_sub(hay@, needle@, k + 1) is None);
            return None;
        }
        k += 1;
    }
}

/// `s` cut at every occurrence of a non-empty `sep`, as `str::split` cuts.
pub fn split_chars(s: &[char], sep: &[char]) -> (parts: Vec<Vec<char>>)
    requires
        sep@.len() > 0,
    ensures
        parts@.map_values(|p: Vec<char>| p@) == split_on(s@, sep@),
{
    let mut parts: Vec<Vec<char>> = Vec::new();
    let mut rest: Vec<char> = copy_range(s, 0, s.len());
    assert(rest@ =~= s@);
    loop
        invariant
            sep@.len() > 0,
            parts@.map_values(|p: Vec<char>| p@) + split_on(rest@, sep@) == split_on(s@, sep@),
        decreases rest@.len(),
    {
        let ghost before = parts@.map_values(|p: Vec<char>| p@);
        match find_first(rest.as_slice(), sep) {
            Some(i) => {
                assert(find_sub(rest@, sep@, 0) == Some(i as int));
                proof {
                    lemma_find_sub(rest@, sep@, 0);
                }
                assert(i + sep@.len() <= rest@.len());
                let head = copy_range(rest.as_slice(), 0, i);
                let n = rest.len();
                let tail = copy_range(rest.as_slice(), i + sep.len(), n);
                assert(head@ =~= rest@.take(i as int));
                assert(tail@ =~= rest@.skip(i + sep@.len()));
                assert(split_on(rest@, sep@) == seq![head@] + split_on(tail@, sep@));
                parts.push(head);
                assert(parts@.map_values(|p: Vec<char>| p@) =~= before.push(head@));
                assert(before.push(head@) + split_on(tail@, sep@) =~= before + (seq![head@] + split_on(
                    tail@,
                    sep@,
                )));
                rest = tail;
            },
            None => {
                assert(split_on(rest@, sep@) == seq![rest@]);
                let ghost last = rest@;
                parts.push(rest);
                assert(parts@.map_values(|p: Vec<char>| p@) =~= before.push(last));
                assert(before + seq![last] =~= before.push(last));
                return parts;
            },
        }
    }
}

/// The pieces the hotkey bar paints for `status`, left to right, each with
/// how it is painted: per segment, the gap before it (all but the first),
/// then `key`, a space and `label` for a `key: label` segment, else the
/// segment as prose.
pub fn hotkey_spans(status: &str) -> (spans: Vec<(String, HintRole)>)
    ensures
        spans@.map_values(|p: (String, HintRole)| (p.0@, p.1)) == hint_spans(status@),
{
    let chars = chars_of(status);
    let sep = vec![' ', '·', ' '];
    assert(sep@ =~= segment_sep());
    let segs = split_chars(chars.as_slice(), sep.as_slice());
    let ghost views = segs@.map_values(|p: Vec<char>| p@);
    let colon = vec![':', ' '];
    assert(colon@ =~= key_sep());
    let mut out: Vec<(String, HintRole)> = Vec::new();
    let mut k: usize = 0;
    while k < segs.len()
        invariant
            views == segs@.map_values(|p: Vec<char>| p@),
            views == split_on(status@, segment_sep()),
            colon@ == key_sep(),
            k <= segs@.len(),
            out@.map_values(|p: (String, HintRole)| (p.0@, p.1)) == spans_upto(views, k as int),
        decreases segs@.len() - k,
    {
        let ghost before = out@.map_values(|p: (String, HintRole)| (p.0@, p.1));
        let seg = &segs[k];
        assert(seg@ == views[k as int]);
        let ghost gap = if k > 0 {
            seq![(hint_gap(), HintRole::Muted)]
        } else {
            Seq::<(Seq<char>, HintRole)>::empty()
        };
        if k > 0 {
            let g = vec![' ', ' ', '·', ' ', ' '];
            let gs = string_from_chars(g.as_slice());
            assert(gs@ =~= hint_gap());
            out.push((gs, HintRole::Muted));
        }
        let ghost mid = out@.map_values(|p: (String, HintRole)| (p.0@, p.1));
        assert(mid =~= before + gap);
        match find_first(seg.as_slice(), colon.as_slice()) {
            Some(i) => {
                assert(find_sub(seg@, key_sep(), 0) == Some(i as int));
                proof {
                    lemma_find_sub(seg@, key_sep(), 0);
                }
                assert(i + 2 <= seg@.len());
                let key = copy_range(seg.as_slice(), 0, i);
                let n = seg.len();
                let label = copy_range(seg.as_slice(), i + 2, n);
                let space = vec![' '];
                let ks = string_from_chars(key.as_slice());
                let ss = string_from_chars(space.as_slice());
                let ls = string_from_chars(label.as_slice());
                assert(ks@ =~= seg@.take(i as int));
                assert(ls@ =~= seg@.skip(i + 2));
                assert(ss@ =~= seq![' ']);
                out.push((ks, HintRole::Key));
                out.push((ss, HintRole::Muted));
                out.push((ls, HintRole::Muted));
                assert(segment_spans(seg@) == seq![
                    (seg@.take(i as int), HintRole::Key),
                    (seq![' '], HintRole::Muted),
                    (seg@.skip(i + 2), HintRole::Muted),
                ]);
            },
            None => {
                assert(find_sub(seg@, key_sep(), 0) is None);
                let ps = string_from_chars(seg.as_slice());
                out.push((ps, HintRole::Muted));
                assert(segment_spans(seg@) == seq![(seg@, HintRole::Muted)]);
            },
        }
        assert(out@.map_values(|p: (String, HintRole)| (p.0@, p.1)) =~= mid + segment_spans(seg@));
        k += 1;
    }
    out
}

/// The exact cells the hotkey bar paints for `status`, for centering it;
/// held at `u16::MAX`.
pub fn hotkeys_width(status: &str) -> (w: u16)
    ensures
        w == if hint_width(status@) < u16::MAX { hint_width(status@) } else { u16::MAX as int },
{
    let chars = chars_of(status);
    let sep = vec![' ', '·', ' '];
    assert(sep@ =~= segment_sep());
    let segs = split_chars(chars.as_slice(), sep.as_slice());
    let ghost views = segs@.map_values(|p: Vec<char>| p@);
    let colon = vec![':', ' '];
    assert(colon@ =~= key_sep());
    let cap: u64 = u16::MAX as u64;
    let mut w: u64 = 0;
    let mut k: usize = 0;
    while k < segs.len()
        invariant
            views == segs@.map_values(|p: Vec<char>| p@),
            views == split_on(status@, segment_sep()),
            colon@ == key_sep(),
            cap == u16::MAX,
            k <= segs@.len(),
            w == if width_upto(views, k as int) < cap { width_upto(views, k as int) } else { cap as int },
            0 <= width_upto(views, k as int),
        decreases segs@.len() - k,
    {
        let seg = &segs[k];
        assert(seg@ == views[k as int]);
        let gap: u64 = if k > 0 { 5 } else { 0 };
        let len: u64 = if seg.len() > 70000 { 70000 } else { seg.len() as u64 };
        let has_colon = find_first(seg.as_slice(), colon.as_slice()).is_some();
        proof {
            lemma_find_sub(seg@, key_sep(), 0);
        }
        let inc: u64 = if has_colon { gap + len - 1 } else { gap + len };
        let next = w + inc;
        w = if next < cap { next } else { cap };
        k += 1;
    }
    w as u16
}

/// Where the hint bar goes on the status row: centered in the chrome
/// (`inner`), shifted left as far as `left` to clear the right-hand
/// controls starting at `right_edge` before it accepts truncation; drawn
/// from that column with the cells up to `right_edge`, when any are left.
pub open spec fn hint_place_spec(inner: Rect, left: u16, right_edge: u16, width: u16) -> Option<(int, int)> {
    let centered: int = inner.x + (if inner.width > width { inner.width - width } else { 0 }) / 2;
    let clear: int = if right_edge > width { right_edge - width } else { 0 };
    let x0: int = if centered < clear { centered } else { clear };
    let x: int = if x0 > left { x0 } else { left as int };
    if x < right_edge {
        Some((x, right_edge - x))
    } else {
        None
    }
}

/// The hint bar's column and budget on the status row.
pub fn hint_place(inner: Rect, left: u16, right_edge: u16, width: u16) -> (r: Option<(u16, u16)>)
    requires
        inner.fits(),
    ensures
        match (r, hint_place_spec(inner, left, right_edge, width)) {
            (Some((x, b)), Some((sx, sb))) => x == sx && b == sb,
            (None, None) => true,
            _ => false,
        },
{
    let centered: u16 = inner.x + inner.width.saturating_sub(width) / 2;
    let clear: u16 = right_edge.saturating_sub(width);
    let x0 = if centered < clear { centered } else { clear };
    let x = if x0 > left { x0 } else { left };
    if x < right_edge {
        Some((x, right_edge - x))
    } else {
        None
    }
}

/// A model's display name without its parenthetical variant: the text
/// before the first ` (`, or all of it.
pub open spec fn model_name_spec(model: Seq<char>) -> Seq<char> {
    match find_sub(model, seq![' ', '('], 0) {
        Some(i) => model.take(i),
        None => model,
    }
}

/// The model badge's text: `Opus 4.8 (1M context)` shows as `Opus 4.8`, so
/// the suffix does not starve the numbers on a narrow card.
pub fn model_name(model: &str) -> (s: String)
    ensures
        s@ == model_name_spec(model@),
{
    let chars = chars_of(model);
    let open = vec![' ', '('];
    assert(open@ =~= seq![' ', '(']);
    match find_first(chars.as_slice(), open.as_slice()) {
        Some(i) => {
            proof {
                lemma_find_sub(chars@, open@, 0);
            }
            let head = copy_range(chars.as_slice(), 0, i);
            assert(head@ =~= model@.take(i as int));
            string_from_chars(head.as_slice())
        },
        None => string_from_chars(chars.as_slice()),
    }
}

} // verus!
