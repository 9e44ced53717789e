//! The text format of a session snapshot (version 1), one line per
//! production:
//! - `v1` — the format header, always the first line.
//! - `window focused=<id> <node>` — one per window, in order. `<node>` is
//!   `(l <id>)` for a leaf or `(h <ratio> <node> <node>)` /
//!   `(v <ratio> <node> <node>)` for a split, the ratio to 4 decimal places.
//! - `active <n>` — the active window's index.
//! - `wname <idx> <name>` — one per window with a user-set name.
//! - `pane <id> <command>` — one per pane with a known command.
//!
//! This module holds the pieces of that grammar: how values are written,
//! and how each line and each node is read back.

use vstd::prelude::*;

use crate::layout::{LayoutNode, SplitDirection};
use crate::session::PaneId;
use crate::text::{
    chars_of, decimal, digit_char, has_prefix, is_ws, lemma_split_ws_concat, lemma_split_ws_word,
    push_decimal, split_whitespace, split_ws, split_ws_acc, starts_with,
};

verus! {

/// Four decimal digits of `n` (below ten thousand), zero-padded.
pub open spec fn four_digits(n: nat) -> Seq<char> {
    seq![
        digit_char(n / 1000 % 10),
        digit_char(n / 100 % 10),
        digit_char(n / 10 % 10),
        digit_char(n % 10),
    ]
}

/// A ratio in ten-thousandths as a decimal with four places:
/// `5000` is `0.5000`.
pub open spec fn ratio_text(r: nat) -> Seq<char> {
    decimal(r / 10000) + seq!['.'] + four_digits(r % 10000)
}

/// The letter of a split direction.
pub open spec fn direction_char(d: SplitDirection) -> char {
    match d {
        SplitDirection::Horizontal => 'h',
        SplitDirection::Vertical => 'v',
    }
}

/// A layout tree as snapshot text: `(l <id>)` for leaves,
/// `(h|v <ratio> <first> <second>)` for splits.
pub open spec fn node_text(n: LayoutNode) -> Seq<char>
    decreases n,
{
    match n {
        LayoutNode::Leaf(id) => seq!['(', 'l', ' '] + decimal(id.id() as nat) + seq![')'],
        LayoutNode::Split { direction, ratio, first, second } => seq!['(', direction_char(direction), ' ']
            + ratio_text(ratio as nat) + seq![' '] + node_text(*first) + seq![' '] + node_text(
            *second,
        ) + seq![')'],
    }
}

/// `s` kept to one line: each newline becomes a space.
pub open spec fn one_line(s: Seq<char>) -> Seq<char> {
    s.map_values(|c: char| if c == '\n' { ' ' } else { c })
}

/// Append four zero-padded digits of `n`.
fn push_four_digits(out: &mut Vec<char>, n: u16)
    requires
        n < 10000,
    ensures
        final(out)@ == old(out)@ + four_digits(n as nat),
{
    let a: u8 = (n / 1000 % 10) as u8;
    let b: u8 = (n / 100 % 10) as u8;
    let c: u8 = (n / 10 % 10) as u8;
    let d: u8 = (n % 10) as u8;
    out.push((a + 48u8) as char);
    out.push((b + 48u8) as char);
    out.push((c + 48u8) as char);
    out.push((d + 48u8) as char);
    assert(out@ =~= old(out)@ + four_digits(n as nat));
}

/// Append a ratio as a decimal with four places.
pub fn push_ratio(out: &mut Vec<char>, r: u16)
    ensures
        final(out)@ == old(out)@ + ratio_text(r as nat),
{
    push_decimal(out, (r / 10000) as u64);
    out.push('.');
    push_four_digits(out, r % 10000);
    assert(out@ =~= old(out)@ + ratio_text(r as nat));
}

/// Append `s` with each newline turned into a space.
pub fn push_one_line(out: &mut Vec<char>, s: &[char])
    ensures
        final(out)@ == old(out)@ + one_line(s@),
{
    let ghost start = out@;
    let mut i: usize = 0;
    while i < s.len()
        invariant
            i <= s@.len(),
            out@ == start + one_line(s@.take(i as int)),
        decreases s@.len() - i,
    {
        let c = s[i];
        if c == '\n' {
            out.push(' ');
        } else {
            out.push(c);
        }
        assert(one_line(s@.take(i + 1)) =~= one_line(s@.take(i as int)).push(
            if c == '\n' { ' ' } else { c },
        ));
        i += 1;
    }
    assert(s@.take(s@.len() as int) =~= s@);
}

/// Append a layout tree as snapshot text.
pub fn write_node(out: &mut Vec<char>, node: &LayoutNode)
    ensures
        final(out)@ == old(out)@ + node_text(*node),
    decreases node,
{
    match node {
        LayoutNode::Leaf(id) => {
            out.push('(');
            out.push('l');
            out.push(' ');
            push_decimal(out, id.raw());
            out.push(')');
        },
        LayoutNode::Split { direction, ratio, first, second } => {
            out.push('(');
            match direction {
                SplitDirection::Horizontal => out.push('h'),
                SplitDirection::Vertical => out.push('v'),
            }
            out.push(' ');
            push_ratio(out, *ratio);
            out.push(' ');
            write_node(out, first);
            out.push(' ');
            write_node(out, second);
            out.push(')');
        },
    }
    assert(out@ =~= old(out)@ + node_text(*node));
}


/// An ASCII digit.
pub open spec fn is_digit(c: char) -> bool {
    '0' <= c && c <= '9'
}

/// Whether every char of `s` is an ASCII digit.
pub open spec fn all_digits(s: Seq<char>) -> bool {
    forall|i: int| 0 <= i < s.len() ==> is_digit(#[trigger] s[i])
}

/// The value of a run of decimal digits.
pub open spec fn digits_value(s: Seq<char>) -> nat
    decreases s.len(),
{
    if s.len() == 0 {
        0
    } else {
        digits_value(s.drop_last()) * 10 + ((s.last() as u32 - 48) as nat)
    }
}

/// `s` without one leading `+`.
pub open spec fn unsigned_digits(s: Seq<char>) -> Seq<char> {
    if s.len() > 0 && s[0] == '+' {
        s.drop_first()
    } else {
        s
    }
}

/// What `str::parse` gives for an unsigned integer type whose largest
/// value is `max`: an optional `+`, then one or more ASCII digits whose
/// value is at most `max`.
pub open spec fn unsigned_of(s: Seq<char>, max: nat) -> Option<nat> {
    let d = unsigned_digits(s);
    if d.len() > 0 && all_digits(d) && digits_value(d) <= max {
        Some(digits_value(d))
    } else {
        None
    }
}

/// A longer run of digits is worth at least its prefix.
proof fn lemma_digits_prefix(s: Seq<char>, i: int)
    requires
        0 <= i <= s.len(),
        all_digits(s),
    ensures
        digits_value(s.take(i)) <= digits_value(s),
    decreases s.len() - i,
{
    if i < s.len() {
        lemma_digits_prefix(s, i + 1);
        assert(s.take(i + 1).drop_last() =~= s.take(i));
        assert(is_digit(s[i]));
    } else {
        assert(s.take(i) =~= s);
    }
}

/// Parse an unsigned integer no larger than `max`, as `str::parse` does.
pub fn parse_unsigned(s: &[char], max: u64) -> (r: Option<u64>)
    ensures
        match unsigned_of(s@, max as nat) {
            Some(v) => r == Some(v as u64),
            None => r is None,
        },
{
    let start: usize = if s.len() > 0 && s[0] == '+' { 1 } else { 0 };
    let ghost d = unsigned_digits(s@);
    assert(d =~= s@.skip(start as int));
    if start >= s.len() {
        return None;
    }
    let mut acc: u64 = 0;
    let mut i: usize = start;
    while i < s.len()
        invariant
            start <= i <= s@.len(),
            d == s@.skip(start as int),
            d == unsigned_digits(s@),
            all_digits(d.take(i - start)),
            acc == digits_value(d.take(i - start)),
            acc <= max,
        decreases s@.len() - i,
    {
        let c = s[i];
        assert(d.take(i - start + 1).drop_last() =~= d.take(i - start));
        assert(d.take(i - start + 1).last() == c);
        if !('0' <= c && c <= '9') {
            proof {
                assert(d[i - start] == c);
                assert(!is_digit(d[i - start]));
                assert(!all_digits(d));
            }
            return None;
        }
        let digit: u64 = (c as u32 - 48) as u64;
        if digit > max || acc > (max - digit) / 10 {
            proof {
                assert(digits_value(d.take(i - start + 1)) == acc * 10 + digit);
                assert(acc * 10 + digit > max) by (nonlinear_arith)
                    requires
                        digit > max || acc > (max - digit) / 10,
                        digit <= max ==> (max - digit) / 10 * 10 + 9 >= max - digit,
                ;
                if all_digits(d) {
                    lemma_digits_prefix(d, i - start + 1);
                }
            }
            return None;
        }
        proof {
            assert(acc * 10 + digit <= max) by (nonlinear_arith)
                requires
                    acc <= (max - digit) / 10,
                    digit <= max,
            ;
        }
        acc = acc * 10 + digit;
        i += 1;
    }
    assert(d.take(i - start) =~= d);
    Some(acc)
}


/// Whether every char of `s` is an ASCII digit.
fn only_digits(s: &[char]) -> (b: bool)
    ensures
        b == all_digits(s@),
{
    let mut i: usize = 0;
    while i < s.len()
        invariant
            i <= s@.len(),
            forall|j: int| 0 <= j < i ==> is_digit(#[trigger] s@[j]),
        decreases s@.len() - i,
    {
        if !('0' <= s[i] && s[i] <= '9') {
            assert(!is_digit(s@[i as int]));
            return false;
        }
        i += 1;
    }
    true
}

/// The integer and fraction digits of a decimal: `I` or `I.F`, with `I`
/// one or more digits and `F` zero or more.
pub open spec fn decimal_parts(b: Seq<char>) -> Option<(Seq<char>, Seq<char>)> {
    if b.len() > 0 && all_digits(b) {
        Some((b, Seq::empty()))
    } else if exists|k: int|
        0 < k < b.len() && b[k] == '.' && all_digits(#[trigger] b.take(k)) && all_digits(b.skip(k + 1))
    {
        let k = choose|k: int|
            0 < k < b.len() && b[k] == '.' && all_digits(#[trigger] b.take(k)) && all_digits(
                b.skip(k + 1),
            );
        Some((b.take(k), b.skip(k + 1)))
    } else {
        None
    }
}

/// The first four fraction digits, zero-padded, as ten-thousandths.
pub open spec fn four_places(f: Seq<char>) -> Seq<char> {
    Seq::new(4, |i: int| if i < f.len() { f[i] } else { '0' })
}

/// Whether every char of `s` is `0`.
pub open spec fn all_zero(s: Seq<char>) -> bool {
    forall|i: int| 0 <= i < s.len() ==> #[trigger] s[i] == '0'
}

/// A split ratio in ten-thousandths, read from a decimal between 0 and 1
/// with an optional `+`: places past the fourth are dropped.
pub open spec fn ratio_of(s: Seq<char>) -> Option<nat> {
    match decimal_parts(unsigned_digits(s)) {
        Some(p) => if digits_value(p.0) == 0 {
            Some(digits_value(four_places(p.1)))
        } else if digits_value(p.0) == 1 && all_zero(p.1) {
            Some(10000)
        } else {
            None
        },
        None => None,
    }
}

/// Read a split ratio.
pub fn parse_ratio(s: &[char]) -> (r: Option<u16>)
    ensures
        match ratio_of(s@) {
            Some(v) => v <= 10000 && r == Some(v as u16),
            None => r is None,
        },
{
    let start: usize = if s.len() > 0 && s[0] == '+' { 1 } else { 0 };
    let b = vstd::slice::slice_subrange(s, start, s.len());
    assert(b@ =~= unsigned_digits(s@));
    let mut k: usize = 0;
    while k < b.len() && b[k] != '.'
        invariant
            k <= b@.len(),
            forall|j: int| 0 <= j < k ==> b@[j] != '.',
        decreases b@.len() - k,
    {
        k += 1;
    }
    let int_part = vstd::slice::slice_subrange(b, 0, k);
    assert(int_part@ =~= b@.take(k as int));
    if k == 0 || !only_digits(int_part) {
        proof {
            if b@.len() > 0 && all_digits(b@) {
                assert(is_digit(b@[k as int]) || k == b@.len());
                if k == 0 {
                    assert(is_digit(b@[0]));
                } else {
                    assert forall|j: int| 0 <= j < k implies is_digit(#[trigger] b@.take(k as int)[j]) by {
                        assert(b@.take(k as int)[j] == b@[j]);
                    }
                }
            }
            if exists|q: int|
                0 < q < b@.len() && b@[q] == '.' && all_digits(#[trigger] b@.take(q)) && all_digits(
                    b@.skip(q + 1),
                ) {
                let q = choose|q: int|
                    0 < q < b@.len() && b@[q] == '.' && all_digits(#[trigger] b@.take(q)) && all_digits(
                        b@.skip(q + 1),
                    );
                if q < k {
                    assert(b@[q] != '.');
                } else if k == 0 {
                    assert(b@.take(q)[0] == b@[0]);
                    assert(is_digit(b@.take(q)[0]));
                    assert(k < b@.len() ==> b@[0] == '.');
                } else {
                    assert forall|j: int| 0 <= j < k implies is_digit(#[trigger] b@.take(k as int)[j]) by {
                        assert(b@.take(k as int)[j] == b@.take(q)[j]);
                    }
                }
            }
        }
        return None;
    }
    let int_value = match parse_unsigned(int_part, 1) {
        Some(v) => v,
        None => {
            proof {
                assert(unsigned_digits(int_part@) == int_part@);
                assert(digits_value(int_part@) > 1);
                assert(decimal_parts(b@) is Some ==> decimal_parts(b@)->Some_0.0 == int_part@) by {
                    lemma_decimal_parts_first_dot(b@, k as int);
                }
            }
            return None;
        },
    };
    proof {
        assert(unsigned_digits(int_part@) == int_part@);
        lemma_decimal_parts_first_dot(b@, k as int);
    }
    if k == b.len() {
        assert(b@.take(k as int) =~= b@);
        proof {
            assert(four_places(Seq::<char>::empty()) =~= seq!['0', '0', '0', '0']);
            reveal_with_fuel(digits_value, 5);
        }
        return if int_value == 1 { Some(10000) } else { Some(0) };
    }
    let frac = vstd::slice::slice_subrange(b, k + 1, b.len());
    assert(frac@ =~= b@.skip(k + 1));
    if !only_digits(frac) {
        return None;
    }
    proof {
        assert(decimal_parts(b@) == Some((b@.take(k as int), b@.skip(k + 1))));
    }
    if int_value == 1 {
        assert(digits_value(int_part@) == 1);
        assert(ratio_of(s@) == (if all_zero(frac@) { Some(10000nat) } else { None }));
        let mut j: usize = 0;
        while j < frac.len()
            invariant
                ratio_of(s@) == (if all_zero(frac@) { Some(10000nat) } else { None }),
                j <= frac@.len(),
                forall|q: int| 0 <= q < j ==> #[trigger] frac@[q] == '0',
            decreases frac@.len() - j,
        {
            if frac[j] != '0' {
                assert(!all_zero(frac@));
                return None;
            }
            j += 1;
        }
        return Some(10000);
    }
    let ghost padded = four_places(frac@);
    let mut acc: u16 = 0;
    let mut j: usize = 0;
    while j < 4
        invariant
            j <= 4,
            padded == four_places(frac@),
            all_digits(frac@),
            acc == digits_value(padded.take(j as int)),
            acc < 10000,
            j == 0 ==> acc < 1,
            j == 1 ==> acc < 10,
            j == 2 ==> acc < 100,
            j == 3 ==> acc < 1000,
        decreases 4 - j,
    {
        let c: char = if j < frac.len() { frac[j] } else { '0' };
        assert(padded[j as int] == c);
        assert(padded.take(j + 1).drop_last() =~= padded.take(j as int));
        assert(is_digit(c));
        let d: u16 = (c as u32 - 48) as u16;
        acc = acc * 10 + d;
        j += 1;
    }
    assert(padded.take(4) =~= padded);
    Some(acc)
}

/// With its first `.` at `k` after digits, a decimal's parts are what comes
/// before and after it.
proof fn lemma_decimal_parts_first_dot(b: Seq<char>, k: int)
    requires
        0 < k <= b.len(),
        all_digits(b.take(k)),
        k < b.len() ==> b[k] == '.',
    ensures
        k == b.len() ==> decimal_parts(b) == Some((b, Seq::<char>::empty())),
        k < b.len() ==> (decimal_parts(b) is Some <==> all_digits(b.skip(k + 1))),
        k < b.len() && decimal_parts(b) is Some ==> decimal_parts(b) == Some((b.take(k), b.skip(k + 1))),
{
    if k == b.len() {
        assert(b.take(k) =~= b);
    } else {
        assert(!is_digit(b[k]));
        assert(!all_digits(b));
        if exists|q: int|
            0 < q < b.len() && b[q] == '.' && all_digits(#[trigger] b.take(q)) && all_digits(b.skip(q + 1)) {
            let q = choose|q: int|
                0 < q < b.len() && b[q] == '.' && all_digits(#[trigger] b.take(q)) && all_digits(
                    b.skip(q + 1),
                );
            if q < k {
                assert(b.take(k)[q] == b[q]);
                assert(!is_digit(b.take(k)[q]));
            } else if q > k {
                assert(b.take(q)[k] == b[k]);
                assert(!is_digit(b.take(q)[k]));
            }
            assert(q == k);
        }
        if all_digits(b.skip(k + 1)) {
            assert(0 < k < b.len() && b[k] == '.' && all_digits(b.take(k)) && all_digits(b.skip(k + 1)));
        }
    }
}


/// A char of node text with its parens spaced apart.
pub open spec fn spaced_char(c: char) -> Seq<char> {
    if c == '(' {
        seq![' ', '(', ' ']
    } else if c == ')' {
        seq![' ', ')', ' ']
    } else {
        seq![c]
    }
}

/// Node text with every paren spaced apart.
pub open spec fn spaced(s: Seq<char>) -> Seq<char>
    decreases s.len(),
{
    if s.len() == 0 {
        Seq::empty()
    } else {
        spaced(s.drop_last()) + spaced_char(s.last())
    }
}

/// Node text split into parens and words.
pub open spec fn tokens_of(s: Seq<char>) -> Seq<Seq<char>> {
    split_ws(spaced(s))
}

/// Split node text into parens and words.
pub fn tokenize(s: &[char]) -> (t: Vec<Vec<char>>)
    ensures
        t.deep_view() == tokens_of(s@),
{
    let mut out: Vec<char> = Vec::new();
    let mut i: usize = 0;
    while i < s.len()
        invariant
            i <= s@.len(),
            out@ == spaced(s@.take(i as int)),
        decreases s@.len() - i,
    {
        let c = s[i];
        if c == '(' {
            out.push(' ');
            out.push('(');
            out.push(' ');
        } else if c == ')' {
            out.push(' ');
            out.push(')');
            out.push(' ');
        } else {
            out.push(c);
        }
        assert(s@.take(i + 1).drop_last() =~= s@.take(i as int));
        assert(out@ =~= spaced(s@.take(i + 1)));
        i += 1;
    }
    assert(s@.take(s@.len() as int) =~= s@);
    split_whitespace(out.as_slice())
}

/// The node starting at token `i`, and the index just past it.
pub open spec fn node_at(t: Seq<Seq<char>>, i: int) -> Option<(LayoutNode, int)>
    decreases t.len() - i,
{
    if i < 0 || i + 2 >= t.len() || t[i] != seq!['('] {
        None
    } else if t[i + 1] == seq!['l'] {
        if i + 3 < t.len() && t[i + 3] == seq![')'] {
            match unsigned_of(t[i + 2], u64::MAX as nat) {
                Some(raw) => Some((LayoutNode::Leaf(PaneId::raw_id(raw as u64)), i + 4)),
                None => None,
            }
        } else {
            None
        }
    } else if t[i + 1] == seq!['h'] || t[i + 1] == seq!['v'] {
        match ratio_of(t[i + 2]) {
            None => None,
            Some(ratio) => match node_at(t, i + 3) {
                None => None,
                Some(a) => if a.1 <= i || a.1 > t.len() {
                    None
                } else {
                    match node_at(t, a.1) {
                        None => None,
                        Some(b) => if b.1 < t.len() && t[b.1] == seq![')'] {
                            Some(
                                (
                                    LayoutNode::Split {
                                        direction: if t[i + 1] == seq!['h'] {
                                            SplitDirection::Horizontal
                                        } else {
                                            SplitDirection::Vertical
                                        },
                                        ratio: ratio as u16,
                                        first: Box::new(a.0),
                                        second: Box::new(b.0),
                                    },
                                    b.1 + 1,
                                ),
                            )
                        } else {
                            None
                        },
                    }
                },
            },
        }
    } else {
        None
    }
}

/// Whether a token is the single char `c`.
fn is_token(t: &Vec<char>, c: char) -> (b: bool)
    ensures
        b == (t@ == seq![c]),
{
    let b = t.len() == 1 && t[0] == c;
    proof {
        if t@.len() == 1 && t@[0] == c {
            assert(t@ =~= seq![c]);
        }
    }
    b
}

/// Parse the node starting at token `i`: the node and the index just past
/// it.
pub fn parse_node(t: &Vec<Vec<char>>, i: usize) -> (r: Option<(LayoutNode, usize)>)
    ensures
        match node_at(t.deep_view(), i as int) {
            Some(p) => r is Some && r->Some_0.0 == p.0 && r->Some_0.1 == p.1,
            None => r is None,
        },
        r is Some ==> i < r->Some_0.1 <= t@.len(),
    decreases t@.len() - i,
{
    let ghost tv = t.deep_view();
    assert(tv.len() == t@.len());
    if t.len() < 3 || i >= t.len() - 2 {
        return None;
    }
    assert(tv[i as int] == t@[i as int]@);
    assert(tv[i + 1] == t@[i + 1]@);
    assert(tv[i + 2] == t@[i + 2]@);
    if !is_token(&t[i], '(') {
        return None;
    }
    if is_token(&t[i + 1], 'l') {
        proof {
            if i + 3 < t@.len() {
                assert(tv[i + 3] == t@[i + 3]@);
            }
        }
        if i + 3 < t.len() && is_token(&t[i + 3], ')') {
            assert(tv[i + 3] == t@[i + 3]@);
            match parse_unsigned(t[i + 2].as_slice(), u64::MAX) {
                Some(raw) => {
                    let id = PaneId::from_raw(raw);
                    proof {
                        PaneId::lemma_raw_id(id, raw);
                    }
                    return Some((LayoutNode::Leaf(id), i + 4));
                },
                None => return None,
            }
        }
        return None;
    }
    let horizontal = is_token(&t[i + 1], 'h');
    if !horizontal && !is_token(&t[i + 1], 'v') {
        return None;
    }
    let ratio = match parse_ratio(t[i + 2].as_slice()) {
        Some(r) => r,
        None => return None,
    };
    let (first, j) = match parse_node(t, i + 3) {
        Some(p) => p,
        None => return None,
    };
    let (second, k) = match parse_node(t, j) {
        Some(p) => p,
        None => return None,
    };
    if k < t.len() && is_token(&t[k], ')') {
        assert(tv[k as int] == t@[k as int]@);
        let direction = if horizontal { SplitDirection::Horizontal } else { SplitDirection::Vertical };
        Some((LayoutNode::Split { direction, ratio, first: Box::new(first), second: Box::new(second) }, k + 1))
    } else {
        proof {
            if k < t.len() {
                assert(tv[k as int] == t@[k as int]@);
            }
        }
        None
    }
}

/// The index of the first space in `s`.
pub open spec fn first_space(s: Seq<char>) -> Option<int>
    decreases s.len(),
{
    if s.len() == 0 {
        None
    } else if s[0] == ' ' {
        Some(0)
    } else {
        match first_space(s.drop_first()) {
            Some(k) => Some(k + 1),
            None => None,
        }
    }
}

/// `s` split at its first space, the space dropped.
pub open spec fn split_space(s: Seq<char>) -> Option<(Seq<char>, Seq<char>)> {
    match first_space(s) {
        Some(k) => Some((s.take(k), s.skip(k + 1))),
        None => None,
    }
}

/// The first space is the one with no space before it.
proof fn lemma_first_space(s: Seq<char>, k: int)
    requires
        0 <= k <= s.len(),
        forall|j: int| 0 <= j < k ==> s[j] != ' ',
    ensures
        k < s.len() && s[k] == ' ' ==> first_space(s) == Some(k),
        k == s.len() ==> first_space(s) is None,
    decreases k,
{
    if k > 0 {
        lemma_first_space(s.drop_first(), k - 1);
        assert(s[0] != ' ');
    }
}

/// Split at the first space.
fn split_at_space(s: &[char]) -> (r: Option<(Vec<char>, Vec<char>)>)
    ensures
        match split_space(s@) {
            Some(p) => r is Some && r->Some_0.0@ == p.0 && r->Some_0.1@ == p.1,
            None => r is None,
        },
{
    let mut k: usize = 0;
    while k < s.len() && s[k] != ' '
        invariant
            k <= s@.len(),
            forall|j: int| 0 <= j < k ==> s@[j] != ' ',
        decreases s@.len() - k,
    {
        k += 1;
    }
    proof {
        lemma_first_space(s@, k as int);
    }
    if k == s.len() {
        return None;
    }
    let a = vstd::slice::slice_to_vec(vstd::slice::slice_subrange(s, 0, k));
    let b = vstd::slice::slice_to_vec(vstd::slice::slice_subrange(s, k + 1, s.len()));
    assert(a@ =~= s@.take(k as int));
    assert(b@ =~= s@.skip(k + 1));
    Some((a, b))
}

/// One line of a snapshot, as plain values.
pub enum LineView {
    /// A window: its focused pane's raw id and its node text.
    Window(u64, Seq<char>),
    /// The active window's index.
    Active(usize),
    /// A window's index and its name.
    Name(usize, Seq<char>),
    /// A pane's raw id and its command.
    Command(u64, Seq<char>),
    /// An empty line.
    Blank,
    /// Anything else.
    Bad,
}

/// What one snapshot line says.
pub open spec fn line_view(line: Seq<char>) -> LineView {
    if starts_with(line, "window focused="@) {
        match split_space(line.skip("window focused="@.len() as int)) {
            Some(p) => match unsigned_of(p.0, u64::MAX as nat) {
                Some(f) => LineView::Window(f as u64, p.1),
                None => LineView::Bad,
            },
            None => LineView::Bad,
        }
    } else if starts_with(line, "active "@) {
        match unsigned_of(line.skip("active "@.len() as int), usize::MAX as nat) {
            Some(n) => LineView::Active(n as usize),
            None => LineView::Bad,
        }
    } else if starts_with(line, "wname "@) {
        match split_space(line.skip("wname "@.len() as int)) {
            Some(p) => match unsigned_of(p.0, usize::MAX as nat) {
                Some(n) => LineView::Name(n as usize, p.1),
                None => LineView::Bad,
            },
            None => LineView::Bad,
        }
    } else if starts_with(line, "pane "@) {
        match split_space(line.skip("pane "@.len() as int)) {
            Some(p) => match unsigned_of(p.0, u64::MAX as nat) {
                Some(id) => LineView::Command(id as u64, p.1),
                None => LineView::Bad,
            },
            None => LineView::Bad,
        }
    } else if line.len() == 0 {
        LineView::Blank
    } else {
        LineView::Bad
    }
}

/// One line of a snapshot.
pub enum Line {
    /// A window: its focused pane's raw id and its node text.
    Window(u64, Vec<char>),
    /// The active window's index.
    Active(usize),
    /// A window's index and its name.
    Name(usize, Vec<char>),
    /// A pane's raw id and its command.
    Command(u64, Vec<char>),
    /// An empty line.
    Blank,
    /// Anything else.
    Bad,
}

impl Line {
    /// The line as plain values.
    pub open spec fn view(&self) -> LineView {
        match self {
            Line::Window(f, t) => LineView::Window(*f, t@),
            Line::Active(n) => LineView::Active(*n),
            Line::Name(i, t) => LineView::Name(*i, t@),
            Line::Command(id, t) => LineView::Command(*id, t@),
            Line::Blank => LineView::Blank,
            Line::Bad => LineView::Bad,
        }
    }
}

/// `s` from char `k` on.
fn tail(s: &[char], k: usize) -> (r: Vec<char>)
    requires
        k <= s@.len(),
    ensures
        r@ == s@.skip(k as int),
{
    let r = vstd::slice::slice_to_vec(vstd::slice::slice_subrange(s, k, s.len()));
    assert(r@ =~= s@.skip(k as int));
    r
}

/// Read one snapshot line.
pub fn read_line(line: &[char]) -> (r: Line)
    ensures
        r.view() == line_view(line@),
{
    let window = chars_of("window focused=");
    let active = chars_of("active ");
    let wname = chars_of("wname ");
    let pane = chars_of("pane ");
    if has_prefix(line, window.as_slice()) {
        let rest = tail(line, window.len());
        match split_at_space(rest.as_slice()) {
            Some((a, b)) => match parse_unsigned(a.as_slice(), u64::MAX) {
                Some(f) => Line::Window(f, b),
                None => Line::Bad,
            },
            None => Line::Bad,
        }
    } else if has_prefix(line, active.as_slice()) {
        let rest = tail(line, active.len());
        match parse_unsigned(rest.as_slice(), usize::MAX as u64) {
            Some(n) => Line::Active(n as usize),
            None => Line::Bad,
        }
    } else if has_prefix(line, wname.as_slice()) {
        let rest = tail(line, wname.len());
        match split_at_space(rest.as_slice()) {
            Some((a, b)) => match parse_unsigned(a.as_slice(), usize::MAX as u64) {
                Some(n) => Line::Name(n as usize, b),
                None => Line::Bad,
            },
            None => Line::Bad,
        }
    } else if has_prefix(line, pane.as_slice()) {
        let rest = tail(line, pane.len());
        match split_at_space(rest.as_slice()) {
            Some((a, b)) => match parse_unsigned(a.as_slice(), u64::MAX) {
                Some(id) => Line::Command(id, b),
                None => Line::Bad,
            },
            None => Line::Bad,
        }
    } else if line.len() == 0 {
        Line::Blank
    } else {
        Line::Bad
    }
}


/// A decimal numeral is all digits, worth its number.
pub proof fn lemma_decimal_digits(n: nat)
    ensures
        decimal(n).len() >= 1,
        all_digits(decimal(n)),
        digits_value(decimal(n)) == n,
    decreases n,
{
    if n < 10 {
        assert(decimal(n) =~= seq![digit_char(n)]);
        assert(seq![digit_char(n)].drop_last() =~= Seq::<char>::empty());
        assert(digit_char(n) as u32 == n + 48);
        assert(digits_value(decimal(n)) == digits_value(Seq::<char>::empty()) * 10 + ((digit_char(n) as u32
            - 48) as nat));
    } else {
        lemma_decimal_digits(n / 10);
        let d = decimal(n);
        assert(d.drop_last() =~= decimal(n / 10));
        assert(d.last() == digit_char(n % 10));
        assert(digit_char(n % 10) as u32 == n % 10 + 48);
        assert(digits_value(d) == digits_value(decimal(n / 10)) * 10 + n % 10);
        assert(n == (n / 10) * 10 + n % 10);
        assert forall|i: int| 0 <= i < d.len() implies is_digit(#[trigger] d[i]) by {
            if i < d.len() - 1 {
                assert(d[i] == decimal(n / 10)[i]);
            }
        }
    }
}

/// A decimal numeral parses back as its number.
pub proof fn lemma_decimal_parses(n: nat, max: nat)
    requires
        n <= max,
    ensures
        unsigned_of(decimal(n), max) == Some(n),
{
    lemma_decimal_digits(n);
    assert(is_digit(decimal(n)[0]));
    assert(unsigned_digits(decimal(n)) == decimal(n));
}

/// Four zero-padded digits are digits worth the number.
proof fn lemma_four_digits(n: nat)
    requires
        n < 10000,
    ensures
        all_digits(four_digits(n)),
        digits_value(four_digits(n)) == n,
        four_places(four_digits(n)) == four_digits(n),
{
    let f = four_digits(n);
    assert(digit_char(n / 1000 % 10) as u32 == n / 1000 % 10 + 48);
    assert(digit_char(n / 100 % 10) as u32 == n / 100 % 10 + 48);
    assert(digit_char(n / 10 % 10) as u32 == n / 10 % 10 + 48);
    assert(digit_char(n % 10) as u32 == n % 10 + 48);
    assert(f.drop_last().drop_last().drop_last().drop_last() =~= Seq::<char>::empty());
    reveal_with_fuel(digits_value, 5);
    assert(digits_value(f) == ((n / 1000 % 10) * 10 + n / 100 % 10) * 10 * 10 + (n / 10 % 10) * 10 + n % 10);
    assert(n == ((n / 1000 % 10) * 10 + n / 100 % 10) * 10 * 10 + (n / 10 % 10) * 10 + n % 10) by (nonlinear_arith)
        requires
            n < 10000,
    ;
    assert(four_places(f) =~= f);
}

/// Whether every split ratio of a tree is at most the whole axis.
pub open spec fn ratios_ok(n: LayoutNode) -> bool
    decreases n,
{
    match n {
        LayoutNode::Leaf(_) => true,
        LayoutNode::Split { ratio, first, second, .. } => ratio <= 10000 && ratios_ok(*first) && ratios_ok(
            *second,
        ),
    }
}

/// A ratio written with four places reads back as itself.
pub proof fn lemma_ratio_parses(r: nat)
    requires
        r <= 10000,
    ensures
        ratio_of(ratio_text(r)) == Some(r),
{
    let whole = decimal(r / 10000);
    lemma_decimal_digits(r / 10000);
    assert(whole =~= seq![digit_char(r / 10000)]);
    assert(digit_char(r / 10000) as u32 == r / 10000 + 48);
    lemma_four_digits(r % 10000);
    let b = ratio_text(r);
    assert(is_digit(b[0]));
    assert(unsigned_digits(b) == b);
    assert(b.take(1) =~= whole);
    assert(b.skip(2) =~= four_digits(r % 10000));
    assert(b[1] == '.');
    lemma_decimal_parts_first_dot(b, 1);
    assert(digits_value(whole) == r / 10000);
    if r == 10000 {
        assert(four_digits(0) =~= seq!['0', '0', '0', '0']);
    }
}


/// The tokens a layout tree's snapshot text splits into.
pub open spec fn node_tokens(n: LayoutNode) -> Seq<Seq<char>>
    decreases n,
{
    match n {
        LayoutNode::Leaf(id) => seq![seq!['('], seq!['l'], decimal(id.id() as nat), seq![')']],
        LayoutNode::Split { direction, ratio, first, second } => seq![
            seq!['('],
            seq![direction_char(direction)],
            ratio_text(ratio as nat),
        ] + node_tokens(*first) + node_tokens(*second) + seq![seq![')']],
    }
}

/// Spacing parens distributes over concatenation.
proof fn lemma_spaced_concat(a: Seq<char>, b: Seq<char>)
    ensures
        spaced(a + b) == spaced(a) + spaced(b),
    decreases b.len(),
{
    if b.len() == 0 {
        assert(a + b =~= a);
        assert(spaced(a) + Seq::<char>::empty() =~= spaced(a));
    } else {
        lemma_spaced_concat(a, b.drop_last());
        assert((a + b).drop_last() =~= a + b.drop_last());
        assert((a + b).last() == b.last());
        assert(spaced(a) + spaced(b.drop_last()) + spaced_char(b.last()) =~= spaced(a) + (spaced(
            b.drop_last(),
        ) + spaced_char(b.last())));
    }
}

/// Text without parens is left as it is.
proof fn lemma_spaced_plain(w: Seq<char>)
    requires
        forall|i: int| 0 <= i < w.len() ==> #[trigger] w[i] != '(' && w[i] != ')',
    ensures
        spaced(w) == w,
    decreases w.len(),
{
    if w.len() > 0 {
        assert forall|i: int| 0 <= i < w.drop_last().len() implies #[trigger] w.drop_last()[i] != '('
            && w.drop_last()[i] != ')' by {
            assert(w.drop_last()[i] == w[i]);
        }
        lemma_spaced_plain(w.drop_last());
        assert(w[w.len() - 1] == w.last());
        assert(w.drop_last() + seq![w.last()] =~= w);
    }
}

/// One char, spaced.
proof fn lemma_spaced_char(x: char)
    ensures
        spaced(seq![x]) == spaced_char(x),
{
    reveal_with_fuel(spaced, 2);
    assert(seq![x].drop_last() =~= Seq::<char>::empty());
    assert(seq![x].last() == x);
    assert(Seq::<char>::empty() + spaced_char(x) =~= spaced_char(x));
}

/// Three chars, spaced.
proof fn lemma_spaced_three(x: char, y: char, z: char)
    ensures
        spaced(seq![x, y, z]) == spaced_char(x) + spaced_char(y) + spaced_char(z),
{
    lemma_spaced_char(x);
    lemma_spaced_char(y);
    lemma_spaced_char(z);
    lemma_spaced_concat(seq![x], seq![y]);
    assert(seq![x] + seq![y] =~= seq![x, y]);
    lemma_spaced_concat(seq![x, y], seq![z]);
    assert(seq![x, y] + seq![z] =~= seq![x, y, z]);
}

/// Leading whitespace yields no token.
proof fn lemma_split_lead(b: Seq<char>)
    ensures
        split_ws(seq![' '] + b) == split_ws(b),
{
    let a = seq![' '];
    assert(a.drop_last() =~= Seq::<char>::empty());
    assert(a.last() == ' ');
    assert(is_ws(' '));
    reveal_with_fuel(split_ws_acc, 2);
    assert(split_ws_acc(a) == (Seq::<Seq<char>>::empty(), Seq::<char>::empty()));
    lemma_split_ws_concat(a, b);
    assert(Seq::<Seq<char>>::empty() + split_ws(b) =~= split_ws(b));
}

/// A word then a space yields the word, then whatever follows.
proof fn lemma_split_word_then(w: Seq<char>, rest: Seq<char>)
    requires
        w.len() > 0,
        forall|i: int| 0 <= i < w.len() ==> !is_ws(#[trigger] w[i]),
    ensures
        split_ws(w.push(' ') + rest) == seq![w] + split_ws(rest),
{
    lemma_split_ws_word(w, ' ');
    lemma_split_ws_concat(w.push(' '), rest);
}

/// Digits are not whitespace, nor parens.
proof fn lemma_digits_plain(s: Seq<char>)
    requires
        all_digits(s),
    ensures
        forall|i: int| 0 <= i < s.len() ==> !is_ws(#[trigger] s[i]),
        forall|i: int| 0 <= i < s.len() ==> #[trigger] s[i] != '(' && s[i] != ')',
{
    assert forall|i: int| 0 <= i < s.len() implies !is_ws(#[trigger] s[i]) by {
        assert(is_digit(s[i]));
    }
    assert forall|i: int| 0 <= i < s.len() implies #[trigger] s[i] != '(' && s[i] != ')' by {
        assert(is_digit(s[i]));
    }
}

/// A ratio's text has no whitespace and no parens.
proof fn lemma_ratio_plain(r: nat)
    ensures
        forall|i: int| 0 <= i < ratio_text(r).len() ==> !is_ws(#[trigger] ratio_text(r)[i]),
        forall|i: int| 0 <= i < ratio_text(r).len() ==> #[trigger] ratio_text(r)[i] != '(' && ratio_text(r)[i] != ')',
        ratio_text(r).len() > 0,
{
    lemma_decimal_digits(r / 10000);
    let whole = decimal(r / 10000);
    let f = four_digits(r % 10000);
    assert(digit_char(r % 10000 / 1000 % 10) as u32 == r % 10000 / 1000 % 10 + 48);
    assert(digit_char(r % 10000 / 100 % 10) as u32 == r % 10000 / 100 % 10 + 48);
    assert(digit_char(r % 10000 / 10 % 10) as u32 == r % 10000 / 10 % 10 + 48);
    assert(digit_char(r % 10000 % 10) as u32 == r % 10000 % 10 + 48);
    let t = ratio_text(r);
    assert forall|i: int| 0 <= i < t.len() implies !is_ws(#[trigger] t[i]) && t[i] != '(' && t[i] != ')' by {
        if i < whole.len() {
            assert(t[i] == whole[i]);
            assert(is_digit(whole[i]));
        } else if i == whole.len() {
            assert(t[i] == '.');
        } else {
            assert(t[i] == f[i - whole.len() - 1]);
        }
    }
}

/// A leaf's snapshot text, parens spaced, splits into its tokens.
proof fn lemma_leaf_tokens(id: PaneId, rest: Seq<char>)
    ensures
        split_ws(spaced(node_text(LayoutNode::Leaf(id))) + rest) == node_tokens(LayoutNode::Leaf(id)) + split_ws(
            rest,
        ),
        spaced(node_text(LayoutNode::Leaf(id))).len() > 0,
        spaced(node_text(LayoutNode::Leaf(id)))[0] == ' ',
{
    let n = LayoutNode::Leaf(id);
    let d = decimal(id.id() as nat);
    lemma_decimal_digits(id.id() as nat);
    lemma_digits_plain(d);
    lemma_spaced_plain(d);
    let open = seq!['(', 'l', ' '];
    lemma_spaced_concat(open + d, seq![')']);
    lemma_spaced_concat(open, d);
    lemma_spaced_three('(', 'l', ' ');
    lemma_spaced_char(')');
    assert(node_text(n) =~= open + d + seq![')']);
    let s = spaced(node_text(n));
    assert(s =~= seq![' ', '(', ' ', 'l', ' '] + d + seq![' ', ')', ' ']);
    let r1 = seq!['(', ' ', 'l', ' '] + d + seq![' ', ')', ' '] + rest;
    assert(s + rest =~= seq![' '] + r1);
    lemma_split_lead(r1);
    let r2 = seq!['l', ' '] + d + seq![' ', ')', ' '] + rest;
    assert(r1 =~= seq!['('].push(' ') + r2);
    lemma_split_word_then(seq!['('], r2);
    let r3 = d + seq![' ', ')', ' '] + rest;
    assert(r2 =~= seq!['l'].push(' ') + r3);
    lemma_split_word_then(seq!['l'], r3);
    let r4 = seq![')', ' '] + rest;
    assert(r3 =~= d.push(' ') + r4);
    lemma_split_word_then(d, r4);
    assert(r4 =~= seq![')'].push(' ') + rest);
    lemma_split_word_then(seq![')'], rest);
    assert(node_tokens(n) =~= seq![seq!['('], seq!['l'], d, seq![')']]);
    assert(split_ws(s + rest) =~= node_tokens(n) + split_ws(rest));
}

/// A split's snapshot text, parens spaced, is its opening, then its
/// children's spaced texts with a space between, then its closing.
proof fn lemma_split_spaced(c: char, rt: Seq<char>, nf: Seq<char>, ns: Seq<char>)
    requires
        c != '(' && c != ')',
        forall|i: int| 0 <= i < rt.len() ==> #[trigger] rt[i] != '(' && rt[i] != ')',
    ensures
        spaced(seq!['(', c, ' '] + rt + seq![' '] + nf + seq![' '] + ns + seq![')']) == seq![
            ' ',
            '(',
            ' ',
            c,
            ' ',
        ] + rt + seq![' '] + spaced(nf) + seq![' '] + spaced(ns) + seq![' ', ')', ' '],
{
    let open = seq!['(', c, ' '];
    lemma_spaced_plain(rt);
    lemma_spaced_concat(open + rt + seq![' '] + nf + seq![' '] + ns, seq![')']);
    lemma_spaced_concat(open + rt + seq![' '] + nf + seq![' '], ns);
    lemma_spaced_concat(open + rt + seq![' '] + nf, seq![' ']);
    lemma_spaced_concat(open + rt + seq![' '], nf);
    lemma_spaced_concat(open + rt, seq![' ']);
    lemma_spaced_concat(open, rt);
    lemma_spaced_three('(', c, ' ');
    lemma_spaced_char(' ');
    lemma_spaced_char(')');
    assert(spaced(open + rt + seq![' '] + nf + seq![' '] + ns + seq![')']) =~= seq![' ', '(', ' ', c, ' ']
        + rt + seq![' '] + spaced(nf) + seq![' '] + spaced(ns) + seq![' ', ')', ' ']);
}

/// Splitting a split's spaced text: its opening tokens, its children's
/// tokens, its closing paren.
proof fn lemma_split_compose(
    c: char,
    rt: Seq<char>,
    sf: Seq<char>,
    ss: Seq<char>,
    rest: Seq<char>,
    tf: Seq<Seq<char>>,
    ts: Seq<Seq<char>>,
)
    requires
        !is_ws(c),
        rt.len() > 0,
        forall|i: int| 0 <= i < rt.len() ==> !is_ws(#[trigger] rt[i]),
        split_ws(ss + (seq![' ', ')', ' '] + rest)) == ts + split_ws(seq![' ', ')', ' '] + rest),
        split_ws(sf + (seq![' '] + ss + seq![' ', ')', ' '] + rest)) == tf + split_ws(
            seq![' '] + ss + seq![' ', ')', ' '] + rest,
        ),
    ensures
        split_ws(
            seq![' ', '(', ' ', c, ' '] + rt + seq![' '] + sf + seq![' '] + ss + seq![' ', ')', ' '] + rest,
        ) == seq![seq!['('], seq![c], rt] + tf + ts + seq![seq![')']] + split_ws(rest),
{
    let tail2 = seq![' ', ')', ' '] + rest;
    let tail1 = seq![' '] + ss + tail2;
    let whole = seq![' ', '(', ' ', c, ' '] + rt + seq![' '] + sf + seq![' '] + ss + seq![' ', ')', ' '] + rest;
    let r1 = seq!['(', ' ', c, ' '] + rt + seq![' '] + sf + tail1;
    assert(whole =~= seq![' '] + r1);
    lemma_split_lead(r1);
    let r2 = seq![c, ' '] + rt + seq![' '] + sf + tail1;
    assert(r1 =~= seq!['('].push(' ') + r2);
    lemma_split_word_then(seq!['('], r2);
    let r3 = rt + seq![' '] + sf + tail1;
    assert(r2 =~= seq![c].push(' ') + r3);
    lemma_split_word_then(seq![c], r3);
    let r4 = sf + tail1;
    assert(r3 =~= rt.push(' ') + r4);
    lemma_split_word_then(rt, r4);
    assert(tail1 =~= seq![' '] + ss + seq![' ', ')', ' '] + rest);
    lemma_split_lead(ss + tail2);
    assert(tail1 =~= seq![' '] + (ss + tail2));
    lemma_split_lead(seq![')', ' '] + rest);
    assert(tail2 =~= seq![' '] + (seq![')', ' '] + rest));
    assert(seq![')', ' '] + rest =~= seq![')'].push(' ') + rest);
    lemma_split_word_then(seq![')'], rest);
    assert(split_ws(whole) =~= seq![seq!['('], seq![c], rt] + tf + ts + seq![seq![')']] + split_ws(rest));
}

/// A tree's snapshot text, parens spaced, starts with a space and splits
/// into the tree's tokens, whatever follows it.
pub proof fn lemma_node_tokens(n: LayoutNode, rest: Seq<char>)
    ensures
        split_ws(spaced(node_text(n)) + rest) == node_tokens(n) + split_ws(rest),
        spaced(node_text(n)).len() > 0,
        spaced(node_text(n))[0] == ' ',
    decreases n,
{
    match n {
        LayoutNode::Leaf(id) => {
            lemma_leaf_tokens(id, rest);
        },
        LayoutNode::Split { direction, ratio, first, second } => {
            let c = direction_char(direction);
            let rt = ratio_text(ratio as nat);
            lemma_ratio_plain(ratio as nat);
            let nf = node_text(*first);
            let ns = node_text(*second);
            assert(node_text(n) =~= seq!['(', c, ' '] + rt + seq![' '] + nf + seq![' '] + ns + seq![')']);
            lemma_split_spaced(c, rt, nf, ns);
            let sf = spaced(nf);
            let ss = spaced(ns);
            let tail2 = seq![' ', ')', ' '] + rest;
            lemma_node_tokens(*second, tail2);
            let tail1 = seq![' '] + ss + tail2;
            assert(tail1 =~= seq![' '] + ss + seq![' ', ')', ' '] + rest);
            lemma_node_tokens(*first, tail1);
            lemma_split_compose(c, rt, sf, ss, rest, node_tokens(*first), node_tokens(*second));
            let s = spaced(node_text(n));
            assert(s + rest =~= seq![' ', '(', ' ', c, ' '] + rt + seq![' '] + sf + seq![' '] + ss + seq![
                ' ',
                ')',
                ' ',
            ] + rest);
            assert(node_tokens(n) == seq![seq!['('], seq![c], rt] + node_tokens(*first) + node_tokens(*second)
                + seq![seq![')']]);
        },
    }
}


/// A leaf's tokens parse back as the leaf.
proof fn lemma_leaf_at(id: PaneId, t: Seq<Seq<char>>, i: int)
    requires
        0 <= i,
        i + 3 < t.len(),
        t[i] == seq!['('],
        t[i + 1] == seq!['l'],
        t[i + 2] == decimal(id.id() as nat),
        t[i + 3] == seq![')'],
    ensures
        node_at(t, i) == Some((LayoutNode::Leaf(id), i + 4)),
{
    lemma_decimal_parses(id.id() as nat, u64::MAX as nat);
    PaneId::lemma_raw_id(id, id.id());
}

/// A split's tokens parse back as the split, given its children do.
proof fn lemma_split_at(n: LayoutNode, t: Seq<Seq<char>>, i: int, j: int, k: int)
    requires
        n is Split,
        0 <= i,
        i + 3 <= j <= k < t.len(),
        t[i] == seq!['('],
        t[i + 1] == seq![direction_char(n->direction)],
        ratio_of(t[i + 2]) == Some(n->ratio as nat),
        node_at(t, i + 3) == Some((*n->first, j)),
        node_at(t, j) == Some((*n->second, k)),
        t[k] == seq![')'],
    ensures
        node_at(t, i) == Some((n, k + 1)),
{
    let c = direction_char(n->direction);
    assert(seq![c] != seq!['l']) by {
        assert(seq![c][0] != seq!['l'][0]);
    }
    if n->direction == SplitDirection::Vertical {
        assert(seq![c] != seq!['h']) by {
            assert(seq![c][0] != seq!['h'][0]);
        }
    }
}

/// A tree's tokens parse back as the tree, wherever they stand, when its
/// ratios are at most the whole axis.
pub proof fn lemma_node_at(n: LayoutNode, pre: Seq<Seq<char>>, rest: Seq<Seq<char>>)
    requires
        ratios_ok(n),
    ensures
        node_at(pre + node_tokens(n) + rest, pre.len() as int) == Some((n, (pre.len() + node_tokens(n).len()) as int)),
    decreases n,
{
    let t = pre + node_tokens(n) + rest;
    let i = pre.len() as int;
    match n {
        LayoutNode::Leaf(id) => {
            assert(t[i] == seq!['(']);
            assert(t[i + 1] == seq!['l']);
            assert(t[i + 2] == decimal(id.id() as nat));
            assert(t[i + 3] == seq![')']);
            lemma_leaf_at(id, t, i);
        },
        LayoutNode::Split { direction, ratio, first, second } => {
            let c = direction_char(direction);
            let rt = ratio_text(ratio as nat);
            let head = seq![seq!['('], seq![c], rt];
            let tf = node_tokens(*first);
            let ts = node_tokens(*second);
            assert(node_tokens(n) == head + tf + ts + seq![seq![')']]);
            assert(t =~= (pre + head) + tf + (ts + seq![seq![')']] + rest));
            lemma_node_at(*first, pre + head, ts + seq![seq![')']] + rest);
            assert(t =~= (pre + head + tf) + ts + (seq![seq![')']] + rest));
            lemma_node_at(*second, pre + head + tf, seq![seq![')']] + rest);
            lemma_ratio_parses(ratio as nat);
            assert(t[i] == seq!['(']);
            assert(t[i + 1] == seq![c]);
            assert(t[i + 2] == rt);
            let k = i + 3 + tf.len() + ts.len();
            assert(t[k] == seq![')']);
            lemma_split_at(n, t, i, i + 3 + tf.len(), k);
        },
    }
}


/// A text starts with its own prefix, and the rest follows it.
proof fn lemma_prefixed(p: Seq<char>, x: Seq<char>)
    ensures
        starts_with(p + x, p),
        (p + x).skip(p.len() as int) == x,
{
    assert((p + x).take(p.len() as int) =~= p);
    assert((p + x).skip(p.len() as int) =~= x);
}

/// A numeral, a space and anything: split at the space after the numeral.
proof fn lemma_split_after_number(n: nat, x: Seq<char>)
    ensures
        split_space(decimal(n) + seq![' '] + x) == Some((decimal(n), x)),
{
    let d = decimal(n);
    let s = d + seq![' '] + x;
    lemma_decimal_digits(n);
    assert forall|j: int| 0 <= j < d.len() implies s[j] != ' ' by {
        assert(s[j] == d[j]);
        assert(is_digit(d[j]));
    }
    assert(s[d.len() as int] == ' ');
    lemma_first_space(s, d.len() as int);
    assert(s.take(d.len() as int) =~= d);
    assert(s.skip((d.len() + 1) as int) =~= x);
}

/// A window line reads back as the window's focus and node text.
pub proof fn lemma_window_line_view(f: u64, node: Seq<char>)
    ensures
        line_view("window focused="@ + decimal(f as nat) + seq![' '] + node) == LineView::Window(f, node),
{
    let rest = decimal(f as nat) + seq![' '] + node;
    assert("window focused="@ + decimal(f as nat) + seq![' '] + node =~= "window focused="@ + rest);
    lemma_prefixed("window focused="@, rest);
    lemma_split_after_number(f as nat, node);
    lemma_decimal_parses(f as nat, u64::MAX as nat);
}

/// The active line reads back as the active index.
pub proof fn lemma_active_line_view(a: nat)
    requires
        a <= usize::MAX,
    ensures
        line_view("active "@ + decimal(a)) == LineView::Active(a as usize),
{
    let line = "active "@ + decimal(a);
    reveal_strlit("window focused=");
    reveal_strlit("active ");
    assert(line[0] == 'a');
    assert(!starts_with(line, "window focused="@)) by {
        if starts_with(line, "window focused="@) {
            assert(line.take(15)[0] == line[0]);
        }
    }
    lemma_prefixed("active "@, decimal(a));
    lemma_decimal_parses(a, usize::MAX as nat);
}

/// A name line reads back as the window index and the name.
pub proof fn lemma_name_line_view(i: nat, name: Seq<char>)
    requires
        i <= usize::MAX,
    ensures
        line_view("wname "@ + decimal(i) + seq![' '] + name) == LineView::Name(i as usize, name),
{
    let rest = decimal(i) + seq![' '] + name;
    let line = "wname "@ + rest;
    assert("wname "@ + decimal(i) + seq![' '] + name =~= line);
    reveal_strlit("window focused=");
    reveal_strlit("active ");
    reveal_strlit("wname ");
    assert(line[0] == 'w' && line[1] == 'n');
    assert(!starts_with(line, "window focused="@)) by {
        if starts_with(line, "window focused="@) {
            assert(line.take(15)[1] == line[1]);
        }
    }
    assert(!starts_with(line, "active "@)) by {
        if starts_with(line, "active "@) {
            assert(line.take(7)[0] == line[0]);
        }
    }
    lemma_prefixed("wname "@, rest);
    lemma_split_after_number(i, name);
    lemma_decimal_parses(i, usize::MAX as nat);
}

/// A command line reads back as the pane id and the command.
pub proof fn lemma_command_line_view(id: u64, command: Seq<char>)
    ensures
        line_view("pane "@ + decimal(id as nat) + seq![' '] + command) == LineView::Command(id, command),
{
    let rest = decimal(id as nat) + seq![' '] + command;
    let line = "pane "@ + rest;
    assert("pane "@ + decimal(id as nat) + seq![' '] + command =~= line);
    reveal_strlit("window focused=");
    reveal_strlit("active ");
    reveal_strlit("wname ");
    reveal_strlit("pane ");
    assert(line[0] == 'p');
    assert(!starts_with(line, "window focused="@)) by {
        if starts_with(line, "window focused="@) {
            assert(line.take(15)[0] == line[0]);
        }
    }
    assert(!starts_with(line, "active "@)) by {
        if starts_with(line, "active "@) {
            assert(line.take(7)[0] == line[0]);
        }
    }
    assert(!starts_with(line, "wname "@)) by {
        if starts_with(line, "wname "@) {
            assert(line.take(6)[0] == line[0]);
        }
    }
    lemma_prefixed("pane "@, rest);
    lemma_split_after_number(id as nat, command);
    lemma_decimal_parses(id as nat, u64::MAX as nat);
}

/// A tree's snapshot text holds no newline and no carriage return.
pub proof fn lemma_node_text_plain(n: LayoutNode)
    ensures
        forall|i: int| 0 <= i < node_text(n).len() ==> #[trigger] node_text(n)[i] != '\n' && node_text(n)[i] != '\r',
        node_text(n).len() > 0,
        node_text(n).last() == ')',
    decreases n,
{
    match n {
        LayoutNode::Leaf(id) => {
            let d = decimal(id.id() as nat);
            lemma_decimal_digits(id.id() as nat);
            let t = node_text(n);
            assert forall|i: int| 0 <= i < t.len() implies #[trigger] t[i] != '\n' && t[i] != '\r' by {
                if 3 <= i < 3 + d.len() {
                    assert(t[i] == d[i - 3]);
                    assert(is_digit(d[i - 3]));
                }
            }
        },
        LayoutNode::Split { direction, ratio, first, second } => {
            lemma_node_text_plain(*first);
            lemma_node_text_plain(*second);
            lemma_ratio_plain(ratio as nat);
            let c = direction_char(direction);
            let rt = ratio_text(ratio as nat);
            let nf = node_text(*first);
            let ns = node_text(*second);
            let t = node_text(n);
            assert(t =~= seq!['(', c, ' '] + rt + seq![' '] + nf + seq![' '] + ns + seq![')']);
            assert forall|i: int| 0 <= i < t.len() implies #[trigger] t[i] != '\n' && t[i] != '\r' by {
                let a = 3 + rt.len();
                let b = a + 1 + nf.len();
                if 3 <= i < a {
                    assert(t[i] == rt[i - 3]);
                    assert(!is_ws(rt[i - 3]));
                } else if a + 1 <= i < b {
                    assert(t[i] == nf[i - a - 1]);
                } else if b + 1 <= i < b + 1 + ns.len() {
                    assert(t[i] == ns[i - b - 1]);
                }
            }
        },
    }
}

} // verus!
