//! The split tree and the math that turns it into pane rectangles.
//!
//! A window's layout is a binary tree: leaves are panes, interior nodes are
//! splits with a direction and a ratio. [`layout`] walks the tree and tiles a
//! target rectangle exactly — no gaps, no overlap. Separators, if any, are a
//! rendering concern and are drawn inside pane rects.
//!
//! Ratios are fixed-point: the share of the axis given to a split's first
//! child, in ten-thousandths ([`RATIO_ONE`] is the whole axis).

use vstd::prelude::*;
use crate::session::PaneId;

verus! {

/// The fixed-point ratio that stands for the whole axis.
pub const RATIO_ONE: u16 = 10000;

/// An even split.
pub const RATIO_HALF: u16 = 5000;

/// A rectangle in terminal cell coordinates.
#[derive(Clone, Copy, Debug, PartialEq, Eq, Structural)]
pub struct Rect {
    /// Left column.
    pub x: u16,
    /// Top row.
    pub y: u16,
    /// Width in columns.
    pub width: u16,
    /// Height in rows.
    pub height: u16,
}

impl Default for Rect {
    fn default() -> (r: Self)
        ensures
            r == (Rect { x: 0, y: 0, width: 0, height: 0 }),
    {
        Rect { x: 0, y: 0, width: 0, height: 0 }
    }
}

impl Rect {
    /// A rect at (`x`, `y`) with the given size.
    pub fn new(x: u16, y: u16, width: u16, height: u16) -> (r: Self)
        ensures
            r == (Rect { x, y, width, height }),
    {
        Rect { x, y, width, height }
    }

    /// A rect at (`x`, `y`), its size cut back so its far edges stay on
    /// the `u16` grid — how a terminal frame's rects are built.
    pub fn clamped(x: u16, y: u16, width: u16, height: u16) -> (r: Self)
        ensures
            r == clamped_rect(x, y, width, height),
            r.fits(),
    {
        Rect { x, y, width: x.saturating_add(width) - x, height: y.saturating_add(height) - y }
    }

    /// The rect's right edge (one past its last column), held at `u16::MAX`.
    pub open spec fn right(self) -> u16 {
        self.x.saturating_add(self.width)
    }

    /// The rect's bottom edge (one past its last row), held at `u16::MAX`.
    pub open spec fn bottom(self) -> u16 {
        self.y.saturating_add(self.height)
    }

    /// The overlap of two rects, empty (zero width or height) when they do
    /// not meet.
    pub fn intersection(self, other: Rect) -> (r: Rect)
        ensures
            r == intersect_rect(self, other),
    {
        let x1 = if self.x > other.x { self.x } else { other.x };
        let y1 = if self.y > other.y { self.y } else { other.y };
        let r1 = self.x.saturating_add(self.width);
        let r2 = other.x.saturating_add(other.width);
        let b1 = self.y.saturating_add(self.height);
        let b2 = other.y.saturating_add(other.height);
        let x2 = if r1 < r2 { r1 } else { r2 };
        let y2 = if b1 < b2 { b1 } else { b2 };
        Rect { x: x1, y: y1, width: x2.saturating_sub(x1), height: y2.saturating_sub(y1) }
    }

    /// Whether the cell (`px`, `py`) lies inside the rect.
    pub open spec fn holds(self, px: int, py: int) -> bool {
        self.x <= px < self.x + self.width && self.y <= py < self.y + self.height
    }

    /// The rect's far edges stay on the `u16` grid.
    pub open spec fn fits(self) -> bool {
        self.x + self.width <= u16::MAX && self.y + self.height <= u16::MAX
    }
}

/// A rect at (`x`, `y`) with its size cut back to keep its far edges on
/// the `u16` grid.
pub open spec fn clamped_rect(x: u16, y: u16, width: u16, height: u16) -> Rect {
    Rect {
        x,
        y,
        width: (x.saturating_add(width) - x) as u16,
        height: (y.saturating_add(height) - y) as u16,
    }
}

/// The overlap of `a` and `b`: the larger near edges, the smaller far
/// edges, and no negative size.
pub open spec fn intersect_rect(a: Rect, b: Rect) -> Rect {
    let x1 = if a.x > b.x { a.x } else { b.x };
    let y1 = if a.y > b.y { a.y } else { b.y };
    let x2 = if a.right() < b.right() { a.right() } else { b.right() };
    let y2 = if a.bottom() < b.bottom() { a.bottom() } else { b.bottom() };
    Rect { x: x1, y: y1, width: x2.saturating_sub(x1), height: y2.saturating_sub(y1) }
}

/// How a split arranges its two children.
///
/// `Horizontal` lays children out along the horizontal axis (side by side,
/// divider vertical); `Vertical` stacks them (one above the other, divider
/// horizontal).
#[derive(Clone, Copy, Debug, PartialEq, Eq, Structural)]
pub enum SplitDirection {
    /// Children side by side.
    Horizontal,
    /// Children stacked top to bottom.
    Vertical,
}

/// A node in a window's split tree.
#[derive(Debug, PartialEq, Eq)]
pub enum LayoutNode {
    /// A pane.
    Leaf(PaneId),
    /// Two subtrees sharing an area.
    Split {
        direction: SplitDirection,
        /// Share of the axis given to `first`, in ten-thousandths.
        ratio: u16,
        first: Box<LayoutNode>,
        second: Box<LayoutNode>,
    },
}

/// Pane ids of all leaves, left-to-right / top-to-bottom tree order.
pub open spec fn leaves_of(n: LayoutNode) -> Seq<PaneId>
    decreases n,
{
    match n {
        LayoutNode::Leaf(id) => seq![id],
        LayoutNode::Split { first, second, .. } => leaves_of(*first) + leaves_of(*second),
    }
}

/// The tree with the leaf holding `target` (the first one, in tree order)
/// replaced by an even split of `target` and `new`, and whether it was
/// found.
pub open spec fn split_spec(n: LayoutNode, target: PaneId, new: PaneId, direction: SplitDirection) -> (
    LayoutNode,
    bool,
)
    decreases n,
{
    match n {
        LayoutNode::Leaf(id) => if id == target {
            (
                LayoutNode::Split {
                    direction,
                    ratio: RATIO_HALF,
                    first: Box::new(LayoutNode::Leaf(target)),
                    second: Box::new(LayoutNode::Leaf(new)),
                },
                true,
            )
        } else {
            (n, false)
        },
        LayoutNode::Split { direction: d, ratio, first, second } => {
            let (f, found) = split_spec(*first, target, new, direction);
            if found {
                (LayoutNode::Split { direction: d, ratio, first: Box::new(f), second }, true)
            } else {
                let (s, found) = split_spec(*second, target, new, direction);
                (LayoutNode::Split { direction: d, ratio, first, second: Box::new(s) }, found)
            }
        },
    }
}

/// A split that finds no target leaves the tree as it was.
pub proof fn lemma_split_miss_keeps(n: LayoutNode, target: PaneId, new: PaneId, direction: SplitDirection)
    ensures
        !split_spec(n, target, new, direction).1 ==> split_spec(n, target, new, direction).0 == n,
    decreases n,
{
    match n {
        LayoutNode::Leaf(_) => {},
        LayoutNode::Split { first, second, .. } => {
            lemma_split_miss_keeps(*first, target, new, direction);
            lemma_split_miss_keeps(*second, target, new, direction);
        },
    }
}

/// Outcome of [`LayoutNode::remove_leaf`].
pub enum RemoveOutcome {
    /// The leaf was removed; this is the surviving tree.
    Removed(LayoutNode),
    /// The tree consisted solely of the target leaf; nothing survives.
    LastLeaf,
    /// The target was not in this tree; the tree is returned unchanged.
    NotFound(LayoutNode),
}

/// The tree without the leaf holding `target` (the first one, in tree
/// order), its parent split collapsed into the sibling.
pub open spec fn remove_spec(n: LayoutNode, target: PaneId) -> RemoveOutcome
    decreases n,
{
    match n {
        LayoutNode::Leaf(id) => if id == target {
            RemoveOutcome::LastLeaf
        } else {
            RemoveOutcome::NotFound(n)
        },
        LayoutNode::Split { direction, ratio, first, second } => match remove_spec(*first, target) {
            RemoveOutcome::LastLeaf => RemoveOutcome::Removed(*second),
            RemoveOutcome::Removed(f) => RemoveOutcome::Removed(
                LayoutNode::Split { direction, ratio, first: Box::new(f), second },
            ),
            RemoveOutcome::NotFound(_) => match remove_spec(*second, target) {
                RemoveOutcome::LastLeaf => RemoveOutcome::Removed(*first),
                RemoveOutcome::Removed(s) => RemoveOutcome::Removed(
                    LayoutNode::Split { direction, ratio, first, second: Box::new(s) },
                ),
                RemoveOutcome::NotFound(_) => RemoveOutcome::NotFound(n),
            },
        },
    }
}

/// The tree with every leaf holding `old` changed to `new`.
pub open spec fn replace_spec(n: LayoutNode, old: PaneId, new: PaneId) -> LayoutNode
    decreases n,
{
    match n {
        LayoutNode::Leaf(id) => if id == old {
            LayoutNode::Leaf(new)
        } else {
            n
        },
        LayoutNode::Split { direction, ratio, first, second } => LayoutNode::Split {
            direction,
            ratio,
            first: Box::new(replace_spec(*first, old, new)),
            second: Box::new(replace_spec(*second, old, new)),
        },
    }
}

/// The length the first child gets out of `total` at `ratio`: the ratio's
/// share rounded to the nearest cell, kept to at least one cell on each
/// side when the axis allows it; an axis shorter than 2 goes to the first.
pub open spec fn portion_spec(total: u16, ratio: u16) -> u16 {
    if total < 2 {
        total
    } else {
        let ideal = (total * ratio + 5000) / 10000;
        if ideal < 1 {
            1
        } else if ideal > total - 1 {
            (total - 1) as u16
        } else {
            ideal as u16
        }
    }
}

/// `area` cut in two along `direction`, `ratio` of the axis to the first.
pub open spec fn divide_spec(area: Rect, direction: SplitDirection, ratio: u16) -> (Rect, Rect) {
    match direction {
        SplitDirection::Horizontal => {
            let w = portion_spec(area.width, ratio);
            (
                Rect { x: area.x, y: area.y, width: w, height: area.height },
                Rect {
                    x: (area.x + w) as u16,
                    y: area.y,
                    width: (area.width - w) as u16,
                    height: area.height,
                },
            )
        },
        SplitDirection::Vertical => {
            let h = portion_spec(area.height, ratio);
            (
                Rect { x: area.x, y: area.y, width: area.width, height: h },
                Rect {
                    x: area.x,
                    y: (area.y + h) as u16,
                    width: area.width,
                    height: (area.height - h) as u16,
                },
            )
        },
    }
}

/// Every pane's rect when `n` tiles `area`, in tree order.
pub open spec fn layout_of(n: LayoutNode, area: Rect) -> Seq<(PaneId, Rect)>
    decreases n,
{
    match n {
        LayoutNode::Leaf(id) => seq![(id, area)],
        LayoutNode::Split { direction, ratio, first, second } => {
            let (a, b) = divide_spec(area, direction, ratio);
            layout_of(*first, a) + layout_of(*second, b)
        },
    }
}

/// How many of `rects` hold the cell (`px`, `py`).
pub open spec fn cover_count(rects: Seq<(PaneId, Rect)>, px: int, py: int) -> nat
    decreases rects.len(),
{
    if rects.len() == 0 {
        0
    } else {
        cover_count(rects.drop_last(), px, py) + if rects.last().1.holds(px, py) {
            1nat
        } else {
            0nat
        }
    }
}

proof fn lemma_cover_count_concat(a: Seq<(PaneId, Rect)>, b: Seq<(PaneId, Rect)>, px: int, py: int)
    ensures
        cover_count(a + b, px, py) == cover_count(a, px, py) + cover_count(b, px, py),
    decreases b.len(),
{
    if b.len() == 0 {
        assert(a + b =~= a);
    } else {
        lemma_cover_count_concat(a, b.drop_last(), px, py);
        assert((a + b).drop_last() =~= a + b.drop_last());
    }
}

proof fn lemma_divide_partitions(area: Rect, direction: SplitDirection, ratio: u16, px: int, py: int)
    requires
        area.fits(),
    ensures
        divide_spec(area, direction, ratio).0.fits(),
        divide_spec(area, direction, ratio).1.fits(),
        area.holds(px, py) <==> (divide_spec(area, direction, ratio).0.holds(px, py)
            || divide_spec(area, direction, ratio).1.holds(px, py)),
        !(divide_spec(area, direction, ratio).0.holds(px, py) && divide_spec(
            area,
            direction,
            ratio,
        ).1.holds(px, py)),
{
    assert(area.width * ratio <= 65535 * 65535) by (nonlinear_arith)
        requires
            area.width <= 65535,
            ratio <= 65535,
    ;
    assert(area.height * ratio <= 65535 * 65535) by (nonlinear_arith)
        requires
            area.height <= 65535,
            ratio <= 65535,
    ;
}

/// The rects [`layout`] gives tile `area` exactly: every cell of the area
/// lies in exactly one pane's rect, and no rect reaches outside the area.
pub proof fn lemma_layout_tiles(n: LayoutNode, area: Rect, px: int, py: int)
    requires
        area.fits(),
    ensures
        cover_count(layout_of(n, area), px, py) == if area.holds(px, py) {
            1nat
        } else {
            0nat
        },
    decreases n,
{
    match n {
        LayoutNode::Leaf(id) => {
            assert(layout_of(n, area).drop_last() =~= Seq::<(PaneId, Rect)>::empty());
            assert(cover_count(Seq::<(PaneId, Rect)>::empty(), px, py) == 0);
        },
        LayoutNode::Split { direction, ratio, first, second } => {
            let (a, b) = divide_spec(area, direction, ratio);
            lemma_divide_partitions(area, direction, ratio, px, py);
            lemma_layout_tiles(*first, a, px, py);
            lemma_layout_tiles(*second, b, px, py);
            lemma_cover_count_concat(layout_of(*first, a), layout_of(*second, b), px, py);
        },
    }
}

/// There is one rect per leaf, each named by its leaf, in tree order.
pub proof fn lemma_layout_follows_leaves(n: LayoutNode, area: Rect)
    ensures
        layout_of(n, area).len() == leaves_of(n).len(),
        forall|i: int|
            0 <= i < leaves_of(n).len() ==> #[trigger] layout_of(n, area)[i].0 == leaves_of(n)[i],
    decreases n,
{
    match n {
        LayoutNode::Leaf(_) => {},
        LayoutNode::Split { direction, ratio, first, second } => {
            let (a, b) = divide_spec(area, direction, ratio);
            lemma_layout_follows_leaves(*first, a);
            lemma_layout_follows_leaves(*second, b);
            let lf = leaves_of(*first);
            assert forall|i: int| 0 <= i < leaves_of(n).len() implies #[trigger] layout_of(
                n,
                area,
            )[i].0 == leaves_of(n)[i] by {
                if i < lf.len() {
                } else {
                    assert(layout_of(n, area)[i] == layout_of(*second, b)[i - lf.len()]);
                }
            }
        },
    }
}

fn portion(total: u16, ratio: u16) -> (p: u16)
    ensures
        p == portion_spec(total, ratio),
{
    if total < 2 {
        return total;
    }
    proof {
        assert(total * ratio <= 65535 * 65535) by (nonlinear_arith)
            requires
                total <= 65535,
                ratio <= 65535,
        ;
    }
    let ideal: u64 = (total as u64 * ratio as u64 + 5000) / 10000;
    if ideal < 1 {
        1
    } else if ideal > (total - 1) as u64 {
        total - 1
    } else {
        ideal as u16
    }
}

fn divide(area: Rect, direction: SplitDirection, ratio: u16) -> (r: (Rect, Rect))
    requires
        area.fits(),
    ensures
        r == divide_spec(area, direction, ratio),
{
    match direction {
        SplitDirection::Horizontal => {
            let w = portion(area.width, ratio);
            (
                Rect::new(area.x, area.y, w, area.height),
                Rect::new(area.x + w, area.y, area.width - w, area.height),
            )
        },
        SplitDirection::Vertical => {
            let h = portion(area.height, ratio);
            (
                Rect::new(area.x, area.y, area.width, h),
                Rect::new(area.x, area.y + h, area.width, area.height - h),
            )
        },
    }
}

/// Change each leaf of `node` holding `gone` to hold `fresh`, in place.
pub fn replace_leaf(node: &mut LayoutNode, gone: PaneId, fresh: PaneId)
    ensures
        *final(node) == replace_spec(*old(node), gone, fresh),
{
    let mut taken = LayoutNode::Leaf(gone);
    core::mem::swap(&mut taken, node);
    *node = taken.replace_owned(gone, fresh);
}

/// Compute the rect of every pane in `node`, tiling `area` exactly.
pub fn layout(node: &LayoutNode, area: Rect, out: &mut Vec<(PaneId, Rect)>)
    requires
        area.fits(),
    ensures
        final(out)@ == old(out)@ + layout_of(*node, area),
    decreases node,
{
    match node {
        LayoutNode::Leaf(id) => {
            out.push((*id, area));
        },
        LayoutNode::Split { direction, ratio, first, second } => {
            let (a, b) = divide(area, *direction, *ratio);
            proof {
                lemma_divide_partitions(area, *direction, *ratio, 0, 0);
            }
            layout(first, a, out);
            layout(second, b, out);
            assert(out@ =~= old(out)@ + layout_of(*node, area));
        },
    }
}

impl LayoutNode {
    /// Replace the leaf holding `target` with an even split of `target` and
    /// `new`. Returns `true` if the target was found.
    pub fn split_leaf(&mut self, target: PaneId, new: PaneId, direction: SplitDirection) -> (found:
        bool)
        ensures
            (*final(self), found) == split_spec(*old(self), target, new, direction),
    {
        let mut node = LayoutNode::Leaf(target);
        core::mem::swap(&mut node, self);
        let (node, found) = node.split_owned(target, new, direction);
        *self = node;
        found
    }

    fn split_owned(self, target: PaneId, new: PaneId, direction: SplitDirection) -> (r: (
        LayoutNode,
        bool,
    ))
        ensures
            r == split_spec(self, target, new, direction),
        decreases self,
    {
        match self {
            LayoutNode::Leaf(id) => {
                if id.same_as(target) {
                    (
                        LayoutNode::Split {
                            direction,
                            ratio: RATIO_HALF,
                            first: Box::new(LayoutNode::Leaf(target)),
                            second: Box::new(LayoutNode::Leaf(new)),
                        },
                        true,
                    )
                } else {
                    (LayoutNode::Leaf(id), false)
                }
            },
            LayoutNode::Split { direction: d, ratio, first, second } => {
                let (f, found) = (*first).split_owned(target, new, direction);
                if found {
                    (LayoutNode::Split { direction: d, ratio, first: Box::new(f), second }, true)
                } else {
                    proof {
                        lemma_split_miss_keeps(*first, target, new, direction);
                    }
                    let (s, found) = (*second).split_owned(target, new, direction);
                    (LayoutNode::Split { direction: d, ratio, first: Box::new(f), second: Box::new(s) }, found)
                }
            },
        }
    }

    /// Remove the leaf holding `target`, collapsing its parent split into
    /// the sibling.
    pub fn remove_leaf(self, target: PaneId) -> (r: RemoveOutcome)
        ensures
            r == remove_spec(self, target),
        decreases self,
    {
        match self {
            LayoutNode::Leaf(id) => {
                if id.same_as(target) {
                    RemoveOutcome::LastLeaf
                } else {
                    RemoveOutcome::NotFound(LayoutNode::Leaf(id))
                }
            },
            LayoutNode::Split { direction, ratio, first, second } => match (*first).remove_leaf(
                target,
            ) {
                RemoveOutcome::LastLeaf => RemoveOutcome::Removed(*second),
                RemoveOutcome::Removed(node) => RemoveOutcome::Removed(
                    LayoutNode::Split { direction, ratio, first: Box::new(node), second },
                ),
                RemoveOutcome::NotFound(first) => match (*second).remove_leaf(target) {
                    RemoveOutcome::LastLeaf => RemoveOutcome::Removed(first),
                    RemoveOutcome::Removed(node) => RemoveOutcome::Removed(
                        LayoutNode::Split {
                            direction,
                            ratio,
                            first: Box::new(first),
                            second: Box::new(node),
                        },
                    ),
                    RemoveOutcome::NotFound(second) => RemoveOutcome::NotFound(
                        LayoutNode::Split {
                            direction,
                            ratio,
                            first: Box::new(first),
                            second: Box::new(second),
                        },
                    ),
                },
            },
        }
    }

    fn replace_owned(self, old: PaneId, new: PaneId) -> (r: LayoutNode)
        ensures
            r == replace_spec(self, old, new),
        decreases self,
    {
        match self {
            LayoutNode::Leaf(id) => if id.same_as(old) {
                LayoutNode::Leaf(new)
            } else {
                LayoutNode::Leaf(id)
            },
            LayoutNode::Split { direction, ratio, first, second } => LayoutNode::Split {
                direction,
                ratio,
                first: Box::new((*first).replace_owned(old, new)),
                second: Box::new((*second).replace_owned(old, new)),
            },
        }
    }

    /// Pane ids of all leaves, left-to-right / top-to-bottom tree order.
    pub fn leaves(&self) -> (v: Vec<PaneId>)
        ensures
            v@ == leaves_of(*self),
    {
        let mut out = Vec::new();
        self.collect_leaves(&mut out);
        assert(out@ =~= leaves_of(*self));
        out
    }

    /// The first pane of this tree in tree order.
    pub fn first_leaf(&self) -> (p: PaneId)
        ensures
            leaves_of(*self).len() > 0,
            p == leaves_of(*self)[0],
        decreases self,
    {
        proof {
            lemma_leaves_nonempty(*self);
        }
        match self {
            LayoutNode::Leaf(id) => *id,
            LayoutNode::Split { first, .. } => {
                let p = (&**first).first_leaf();
                assert((leaves_of(**first) + leaves_of(*self->second))[0] == leaves_of(**first)[0]);
                p
            },
        }
    }

    /// Whether `target` is a pane of this tree.
    pub fn has_leaf(&self, target: PaneId) -> (b: bool)
        ensures
            b == leaves_of(*self).contains(target),
        decreases self,
    {
        match self {
            LayoutNode::Leaf(id) => {
                assert(leaves_of(*self) == seq![*id]);
                if id.same_as(target) {
                    assert(leaves_of(*self)[0] == target);
                    true
                } else {
                    assert(!leaves_of(*self).contains(target)) by {
                        if leaves_of(*self).contains(target) {
                            let k = choose|k: int| 0 <= k < leaves_of(*self).len() && leaves_of(*self)[k] == target;
                            assert(k == 0);
                        }
                    }
                    false
                }
            },
            LayoutNode::Split { first, second, .. } => {
                let a = (&**first).has_leaf(target);
                let b = (&**second).has_leaf(target);
                let ghost lf = leaves_of(**first);
                let ghost ls = leaves_of(**second);
                assert(leaves_of(*self) == lf + ls);
                proof {
                    if a {
                        let k = choose|k: int| 0 <= k < lf.len() && lf[k] == target;
                        assert((lf + ls)[k] == target);
                    } else if b {
                        let k = choose|k: int| 0 <= k < ls.len() && ls[k] == target;
                        assert((lf + ls)[lf.len() + k] == target);
                    } else if (lf + ls).contains(target) {
                        let k = choose|k: int| 0 <= k < (lf + ls).len() && (lf + ls)[k] == target;
                        if k < lf.len() {
                            assert(lf[k] == target);
                        } else {
                            assert(ls[k - lf.len()] == target);
                        }
                    }
                }
                a || b
            },
        }
    }

    /// The first pane of the subtree that takes the collapsed split's place
    /// when `target` is removed: the removed pane's surviving sibling
    /// subtree.
    pub fn sibling_first(&self, target: PaneId) -> (p: PaneId)
        requires
            leaves_of(*self).contains(target),
        ensures
            leaves_of(sibling_spec(*self, target)).len() > 0,
            p == leaves_of(sibling_spec(*self, target))[0],
        decreases self,
    {
        proof {
            lemma_leaves_nonempty(sibling_spec(*self, target));
        }
        match self {
            LayoutNode::Leaf(id) => *id,
            LayoutNode::Split { first, second, .. } => {
                proof {
                    lemma_remove_leaves(**first, target);
                    lemma_remove_leaves(**second, target);
                }
                let first_is_target = match &**first {
                    LayoutNode::Leaf(id) => id.same_as(target),
                    _ => false,
                };
                if first_is_target {
                    return (&**second).first_leaf();
                }
                if (&**first).has_leaf(target) {
                    return (&**first).sibling_first(target);
                }
                let ghost lf = leaves_of(**first);
                let ghost ls = leaves_of(**second);
                assert(ls.contains(target)) by {
                    assert(leaves_of(*self) == lf + ls);
                    let k = choose|k: int| 0 <= k < (lf + ls).len() && (lf + ls)[k] == target;
                    if k < lf.len() {
                        assert(lf[k] == target);
                    } else {
                        assert(ls[k - lf.len()] == target);
                    }
                }
                let second_is_target = match &**second {
                    LayoutNode::Leaf(id) => id.same_as(target),
                    _ => false,
                };
                if second_is_target {
                    (&**first).first_leaf()
                } else {
                    (&**second).sibling_first(target)
                }
            },
        }
    }

    fn collect_leaves(&self, out: &mut Vec<PaneId>)
        ensures
            final(out)@ == old(out)@ + leaves_of(*self),
        decreases self,
    {
        match self {
            LayoutNode::Leaf(id) => out.push(*id),
            LayoutNode::Split { first, second, .. } => {
                first.collect_leaves(out);
                second.collect_leaves(out);
                assert(out@ =~= old(out)@ + leaves_of(*self));
            },
        }
    }
}

/// `i` is where `x` first occurs in `s`.
pub open spec fn first_at(s: Seq<PaneId>, x: PaneId, i: int) -> bool {
    &&& 0 <= i < s.len()
    &&& s[i] == x
    &&& forall|j: int| 0 <= j < i ==> s[j] != x
}

proof fn lemma_first_at_concat(a: Seq<PaneId>, b: Seq<PaneId>, x: PaneId, i: int)
    requires
        first_at(a + b, x, i),
    ensures
        a.contains(x) ==> i < a.len() && first_at(a, x, i),
        !a.contains(x) ==> i >= a.len() && first_at(b, x, i - a.len()),
{
    if a.contains(x) {
        let k = choose|k: int| 0 <= k < a.len() && a[k] == x;
        if i >= a.len() {
            assert((a + b)[k] == x);
        }
        assert forall|j: int| 0 <= j < i implies a[j] != x by {
            assert((a + b)[j] == a[j]);
        }
    } else {
        if i < a.len() {
            assert(a[i] == (a + b)[i]);
        }
        assert forall|j: int| 0 <= j < i - a.len() implies b[j] != x by {
            assert((a + b)[j + a.len()] == b[j]);
        }
        assert((a + b)[i] == b[i - a.len()]);
    }
}

/// Splitting a pane puts the new pane right after it in tree order and
/// touches nothing else; a split that names no pane of the tree finds
/// nothing and changes nothing.
pub proof fn lemma_split_leaves(n: LayoutNode, target: PaneId, new: PaneId, direction: SplitDirection)
    ensures
        split_spec(n, target, new, direction).1 == leaves_of(n).contains(target),
        !leaves_of(n).contains(target) ==> split_spec(n, target, new, direction).0 == n,
        forall|i: int|
            first_at(leaves_of(n), target, i) ==> leaves_of(split_spec(n, target, new, direction).0)
                == leaves_of(n).take(i + 1).push(new) + leaves_of(n).skip(i + 1),
    decreases n,
{
    lemma_split_miss_keeps(n, target, new, direction);
    match n {
        LayoutNode::Leaf(id) => {
            if id == target {
                assert(leaves_of(n)[0] == target);
            } else {
                assert forall|k: int| 0 <= k < leaves_of(n).len() implies leaves_of(n)[k] != target by {
                }
            }
            assert forall|i: int| first_at(leaves_of(n), target, i) implies leaves_of(
                split_spec(n, target, new, direction).0,
            ) == leaves_of(n).take(i + 1).push(new) + leaves_of(n).skip(i + 1) by {
                assert(i == 0);
                assert(leaves_of(n).take(1) =~= seq![target]);
                assert(leaves_of(n).skip(1) =~= Seq::<PaneId>::empty());
                assert(id == target);
                assert(leaves_of(LayoutNode::Leaf(target)) == seq![target]);
                assert(leaves_of(LayoutNode::Leaf(new)) == seq![new]);
                assert(leaves_of(split_spec(n, target, new, direction).0) =~= seq![target, new]);
            }
        },
        LayoutNode::Split { direction: d, ratio, first, second } => {
            lemma_split_leaves(*first, target, new, direction);
            lemma_split_leaves(*second, target, new, direction);
            let lf = leaves_of(*first);
            let ls = leaves_of(*second);
            assert(leaves_of(n) == lf + ls);
            if lf.contains(target) {
                let k = choose|k: int| 0 <= k < lf.len() && lf[k] == target;
                assert((lf + ls)[k] == target);
            } else if ls.contains(target) {
                let k = choose|k: int| 0 <= k < ls.len() && ls[k] == target;
                assert((lf + ls)[k + lf.len()] == target);
            } else {
                assert forall|k: int| 0 <= k < (lf + ls).len() implies (lf + ls)[k] != target by {
                    if k < lf.len() {
                        assert((lf + ls)[k] == lf[k]);
                    } else {
                        assert((lf + ls)[k] == ls[k - lf.len()]);
                    }
                }
            }
            assert forall|i: int| first_at(leaves_of(n), target, i) implies leaves_of(
                split_spec(n, target, new, direction).0,
            ) == leaves_of(n).take(i + 1).push(new) + leaves_of(n).skip(i + 1) by {
                lemma_first_at_concat(lf, ls, target, i);
                if lf.contains(target) {
                    let lf2 = lf.take(i + 1).push(new) + lf.skip(i + 1);
                    assert(lf2 + ls =~= (lf + ls).take(i + 1).push(new) + (lf + ls).skip(i + 1));
                } else {
                    let j = i - lf.len();
                    let ls2 = ls.take(j + 1).push(new) + ls.skip(j + 1);
                    assert(lf + ls2 =~= (lf + ls).take(i + 1).push(new) + (lf + ls).skip(i + 1));
                }
            }
        },
    }
}

/// Removing a pane takes exactly it out of the tree order. The whole tree
/// goes only when it is that one leaf; a pane not in the tree is reported
/// missing and the tree comes back unchanged.
pub proof fn lemma_remove_leaves(n: LayoutNode, target: PaneId)
    ensures
        remove_spec(n, target) is NotFound <==> !leaves_of(n).contains(target),
        remove_spec(n, target) is NotFound ==> remove_spec(n, target)->NotFound_0 == n,
        remove_spec(n, target) is LastLeaf <==> n == LayoutNode::Leaf(target),
        forall|i: int|
            first_at(leaves_of(n), target, i) && remove_spec(n, target) is Removed ==> leaves_of(
                remove_spec(n, target)->Removed_0,
            ) == leaves_of(n).remove(i),
    decreases n,
{
    match n {
        LayoutNode::Leaf(id) => {
            if id == target {
                assert(leaves_of(n)[0] == target);
            } else {
                assert forall|k: int| 0 <= k < leaves_of(n).len() implies leaves_of(n)[k] != target by {
                }
            }
        },
        LayoutNode::Split { direction, ratio, first, second } => {
            lemma_remove_leaves(*first, target);
            lemma_remove_leaves(*second, target);
            let lf = leaves_of(*first);
            let ls = leaves_of(*second);
            assert(leaves_of(n) == lf + ls);
            if lf.contains(target) {
                let k = choose|k: int| 0 <= k < lf.len() && lf[k] == target;
                assert((lf + ls)[k] == target);
            } else if ls.contains(target) {
                let k = choose|k: int| 0 <= k < ls.len() && ls[k] == target;
                assert((lf + ls)[k + lf.len()] == target);
            } else {
                assert forall|k: int| 0 <= k < (lf + ls).len() implies (lf + ls)[k] != target by {
                    if k < lf.len() {
                        assert((lf + ls)[k] == lf[k]);
                    } else {
                        assert((lf + ls)[k] == ls[k - lf.len()]);
                    }
                }
            }
            assert forall|i: int|
                first_at(leaves_of(n), target, i) && remove_spec(n, target) is Removed implies leaves_of(
                remove_spec(n, target)->Removed_0,
            ) == leaves_of(n).remove(i) by {
                lemma_first_at_concat(lf, ls, target, i);
                if lf.contains(target) {
                    if *first == LayoutNode::Leaf(target) {
                        assert(i == 0);
                        assert((lf + ls).remove(0) =~= ls);
                    } else {
                        assert(lf.remove(i) + ls =~= (lf + ls).remove(i));
                    }
                } else {
                    let j = i - lf.len();
                    if *second == LayoutNode::Leaf(target) {
                        assert((lf + ls).remove(i) =~= lf);
                    } else {
                        assert(lf + ls.remove(j) =~= (lf + ls).remove(i));
                    }
                }
            }
        },
    }
}

/// Closing the pane a split just made undoes the split: removing the new
/// pane from the split tree gives back the tree exactly as it was — its
/// shape and every ratio — whenever the split found its target and the new
/// id was not already in the tree.
pub proof fn lemma_split_then_remove_restores(n: LayoutNode, target: PaneId, new: PaneId, direction: SplitDirection)
    requires
        leaves_of(n).contains(target),
        !leaves_of(n).contains(new),
    ensures
        remove_spec(split_spec(n, target, new, direction).0, new) == RemoveOutcome::Removed(n),
    decreases n,
{
    match n {
        LayoutNode::Leaf(id) => {
            assert(leaves_of(n) == seq![id]);
            assert(id == target);
            assert(leaves_of(n)[0] == target);
            assert(target != new);
            assert(remove_spec(LayoutNode::Leaf(target), new) == RemoveOutcome::NotFound(LayoutNode::Leaf(target)));
            assert(remove_spec(LayoutNode::Leaf(new), new) == RemoveOutcome::LastLeaf);
        },
        LayoutNode::Split { direction: d, ratio, first, second } => {
            let lf = leaves_of(*first);
            let ls = leaves_of(*second);
            assert(leaves_of(n) == lf + ls);
            assert(!lf.contains(new)) by {
                if lf.contains(new) {
                    let k = choose|k: int| 0 <= k < lf.len() && lf[k] == new;
                    assert((lf + ls)[k] == new);
                }
            }
            assert(!ls.contains(new)) by {
                if ls.contains(new) {
                    let k = choose|k: int| 0 <= k < ls.len() && ls[k] == new;
                    assert((lf + ls)[k + lf.len()] == new);
                }
            }
            lemma_split_leaves(*first, target, new, direction);
            lemma_split_leaves(*second, target, new, direction);
            lemma_remove_leaves(*first, new);
            if lf.contains(target) {
                lemma_split_then_remove_restores(*first, target, new, direction);
            } else {
                assert(ls.contains(target)) by {
                    let k = choose|k: int| 0 <= k < (lf + ls).len() && (lf + ls)[k] == target;
                    if k < lf.len() {
                        assert((lf + ls)[k] == lf[k]);
                    } else {
                        assert((lf + ls)[k] == ls[k - lf.len()]);
                    }
                }
                lemma_split_then_remove_restores(*second, target, new, direction);
            }
        },
    }
}

/// The subtree that takes a collapsed split's place when `target` is
/// removed: the removed pane's surviving sibling subtree (the tree itself
/// when it is a single leaf or does not hold `target`).
pub open spec fn sibling_spec(n: LayoutNode, target: PaneId) -> LayoutNode
    decreases n,
{
    match n {
        LayoutNode::Leaf(_) => n,
        LayoutNode::Split { first, second, .. } => match remove_spec(*first, target) {
            RemoveOutcome::LastLeaf => *second,
            RemoveOutcome::Removed(_) => sibling_spec(*first, target),
            RemoveOutcome::NotFound(_) => match remove_spec(*second, target) {
                RemoveOutcome::LastLeaf => *first,
                RemoveOutcome::Removed(_) => sibling_spec(*second, target),
                RemoveOutcome::NotFound(_) => n,
            },
        },
    }
}

/// The surviving sibling subtree stays whole in the tree a removal leaves,
/// so its first pane is still a pane of that tree.
pub proof fn lemma_sibling_survives(n: LayoutNode, target: PaneId)
    requires
        remove_spec(n, target) is Removed,
    ensures
        leaves_of(sibling_spec(n, target)).len() > 0,
        leaves_of(remove_spec(n, target)->Removed_0).contains(leaves_of(sibling_spec(n, target))[0]),
    decreases n,
{
    lemma_leaves_nonempty(sibling_spec(n, target));
    match n {
        LayoutNode::Leaf(_) => {},
        LayoutNode::Split { direction, ratio, first, second } => {
            let x = leaves_of(sibling_spec(n, target))[0];
            match remove_spec(*first, target) {
                RemoveOutcome::LastLeaf => {
                    assert(leaves_of(*second)[0] == x);
                },
                RemoveOutcome::Removed(f) => {
                    lemma_sibling_survives(*first, target);
                    let lf = leaves_of(f);
                    let k = choose|k: int| 0 <= k < lf.len() && lf[k] == x;
                    assert((lf + leaves_of(*second))[k] == x);
                },
                RemoveOutcome::NotFound(_) => match remove_spec(*second, target) {
                    RemoveOutcome::LastLeaf => {
                        assert(leaves_of(*first)[0] == x);
                    },
                    RemoveOutcome::Removed(sr) => {
                        lemma_sibling_survives(*second, target);
                        let ls = leaves_of(sr);
                        let k = choose|k: int| 0 <= k < ls.len() && ls[k] == x;
                        assert((leaves_of(*first) + ls)[leaves_of(*first).len() + k] == x);
                    },
                    RemoveOutcome::NotFound(_) => {},
                },
            }
        },
    }
}

/// Replacing a pane changes its leaves, and only its leaves, to the new id.
pub proof fn lemma_replace_leaves(n: LayoutNode, gone: PaneId, fresh: PaneId)
    ensures
        leaves_of(replace_spec(n, gone, fresh)) == leaves_of(n).map_values(
            |x: PaneId| if x == gone { fresh } else { x },
        ),
    decreases n,
{
    match n {
        LayoutNode::Leaf(id) => {
            assert(leaves_of(replace_spec(n, gone, fresh)) =~= leaves_of(n).map_values(
                |x: PaneId| if x == gone { fresh } else { x },
            ));
        },
        LayoutNode::Split { first, second, .. } => {
            lemma_replace_leaves(*first, gone, fresh);
            lemma_replace_leaves(*second, gone, fresh);
            assert(leaves_of(replace_spec(n, gone, fresh)) =~= leaves_of(n).map_values(
                |x: PaneId| if x == gone { fresh } else { x },
            ));
        },
    }
}

/// Whether (`px`, `py`) lies on the divider of a split of `area` into `a`
/// and `b`: a side-by-side split's divider is the last column of its first
/// half, a stacked split's the first row of its second half. A split whose
/// axis is shorter than 2 shows no divider.
pub open spec fn on_divider(area: Rect, direction: SplitDirection, a: Rect, b: Rect, px: int, py: int) -> bool {
    match direction {
        SplitDirection::Horizontal => area.width >= 2 && px == a.x + a.width - 1 && area.y <= py
            < area.y + area.height,
        SplitDirection::Vertical => area.height >= 2 && py == b.y && area.x <= px < area.x
            + area.width,
    }
}

/// The direction of the divider under (`px`, `py`) when `n` tiles `area`:
/// a split's own divider is found before any divider inside its children.
pub open spec fn divider_spec(n: LayoutNode, area: Rect, px: int, py: int) -> Option<SplitDirection>
    decreases n,
{
    match n {
        LayoutNode::Leaf(_) => None,
        LayoutNode::Split { direction, ratio, first, second } => {
            let (a, b) = divide_spec(area, direction, ratio);
            if on_divider(area, direction, a, b, px, py) {
                Some(direction)
            } else if a.holds(px, py) {
                divider_spec(*first, a, px, py)
            } else if b.holds(px, py) {
                divider_spec(*second, b, px, py)
            } else {
                None
            }
        },
    }
}

/// `v` kept within `lo..=hi`.
pub open spec fn clamp_int(v: int, lo: int, hi: int) -> int {
    if v < lo {
        lo
    } else if v > hi {
        hi
    } else {
        v
    }
}

/// The length the first half should get for its divider to sit at `to`,
/// kept to at least one cell on each side.
pub open spec fn wanted_len(area: Rect, direction: SplitDirection, to: (u16, u16)) -> int {
    match direction {
        SplitDirection::Horizontal => clamp_int(to.0 - area.x + 1, 1, area.width - 1),
        SplitDirection::Vertical => clamp_int(to.1 - area.y, 1, area.height - 1),
    }
}

/// The ratio nearest to giving the first half `wanted_len`.
pub open spec fn dragged_ratio(area: Rect, direction: SplitDirection, to: (u16, u16)) -> u16 {
    let total = match direction {
        SplitDirection::Horizontal => area.width,
        SplitDirection::Vertical => area.height,
    };
    ((wanted_len(area, direction, to) * 10000 + total / 2) / total as int) as u16
}

/// Where a split's divider sits, the other coordinate taken from `to`.
pub open spec fn divider_pos(area: Rect, direction: SplitDirection, ratio: u16, to: (u16, u16)) -> (
    u16,
    u16,
) {
    let (a, b) = divide_spec(area, direction, ratio);
    match direction {
        SplitDirection::Horizontal => ((a.x + a.width - 1) as u16, to.1),
        SplitDirection::Vertical => (to.0, b.y),
    }
}

/// The tree after dragging the divider under `from` toward `to`, and the
/// divider's new position; the tree unchanged and `None` when no divider
/// lies under `from`.
pub open spec fn drag_spec(n: LayoutNode, area: Rect, from: (u16, u16), to: (u16, u16)) -> (
    LayoutNode,
    Option<(u16, u16)>,
)
    decreases n,
{
    match n {
        LayoutNode::Leaf(_) => (n, None),
        LayoutNode::Split { direction, ratio, first, second } => {
            let (a, b) = divide_spec(area, direction, ratio);
            if on_divider(area, direction, a, b, from.0 as int, from.1 as int) {
                let r = dragged_ratio(area, direction, to);
                (
                    LayoutNode::Split { direction, ratio: r, first, second },
                    Some(divider_pos(area, direction, r, to)),
                )
            } else if a.holds(from.0 as int, from.1 as int) {
                let (f, pos) = drag_spec(*first, a, from, to);
                (LayoutNode::Split { direction, ratio, first: Box::new(f), second }, pos)
            } else if b.holds(from.0 as int, from.1 as int) {
                let (s, pos) = drag_spec(*second, b, from, to);
                (LayoutNode::Split { direction, ratio, first, second: Box::new(s) }, pos)
            } else {
                (n, None)
            }
        },
    }
}

fn on_divider_exec(area: Rect, direction: SplitDirection, a: Rect, b: Rect, px: u16, py: u16) -> (r: bool)
    requires
        area.fits(),
    ensures
        r == on_divider(area, direction, a, b, px as int, py as int),
{
    match direction {
        SplitDirection::Horizontal => area.width >= 2 && px as u32 + 1 == a.x as u32 + a.width as u32
            && area.y <= py && (py as u32) < area.y as u32 + area.height as u32,
        SplitDirection::Vertical => area.height >= 2 && py == b.y && area.x <= px && (px as u32)
            < area.x as u32 + area.width as u32,
    }
}

fn holds_exec(r: Rect, px: u16, py: u16) -> (b: bool)
    ensures
        b == r.holds(px as int, py as int),
{
    r.x <= px && (px as u32) < r.x as u32 + r.width as u32 && r.y <= py && (py as u32) < r.y as u32
        + r.height as u32
}

fn wanted(area: Rect, direction: SplitDirection, to: (u16, u16)) -> (w: u16)
    requires
        area.fits(),
        direction is Horizontal ==> area.width >= 2,
        direction is Vertical ==> area.height >= 2,
    ensures
        w == wanted_len(area, direction, to),
{
    match direction {
        SplitDirection::Horizontal => {
            if (to.0 as u32) + 1 < area.x as u32 + 1 {
                1
            } else {
                let v: u32 = to.0 as u32 + 1 - area.x as u32;
                if v < 1 {
                    1
                } else if v > (area.width - 1) as u32 {
                    area.width - 1
                } else {
                    v as u16
                }
            }
        },
        SplitDirection::Vertical => {
            if to.1 < area.y {
                1
            } else {
                let v: u16 = to.1 - area.y;
                if v < 1 {
                    1
                } else if v > area.height - 1 {
                    area.height - 1
                } else {
                    v
                }
            }
        },
    }
}

fn drag_ratio(area: Rect, direction: SplitDirection, to: (u16, u16)) -> (r: u16)
    requires
        area.fits(),
        direction is Horizontal ==> area.width >= 2,
        direction is Vertical ==> area.height >= 2,
    ensures
        r == dragged_ratio(area, direction, to),
        r <= RATIO_ONE,
{
    let total: u32 = match direction {
        SplitDirection::Horizontal => area.width as u32,
        SplitDirection::Vertical => area.height as u32,
    };
    let w: u32 = wanted(area, direction, to) as u32;
    assert(w <= total);
    assert((w * 10000 + total / 2) / (total as int) <= 10000) by (nonlinear_arith)
        requires
            w <= total,
            total >= 2,
    ;
    ((w * 10000 + total / 2) / total) as u16
}

impl LayoutNode {
    /// The direction of the divider under (`x`, `y`) when this tree tiles
    /// `area`.
    pub fn divider_at(&self, area: Rect, x: u16, y: u16) -> (d: Option<SplitDirection>)
        requires
            area.fits(),
        ensures
            d == divider_spec(*self, area, x as int, y as int),
        decreases self,
    {
        match self {
            LayoutNode::Leaf(_) => None,
            LayoutNode::Split { direction, ratio, first, second } => {
                let (a, b) = divide(area, *direction, *ratio);
                proof {
                    lemma_divide_partitions(area, *direction, *ratio, 0, 0);
                }
                if on_divider_exec(area, *direction, a, b, x, y) {
                    Some(*direction)
                } else if holds_exec(a, x, y) {
                    first.divider_at(a, x, y)
                } else if holds_exec(b, x, y) {
                    second.divider_at(b, x, y)
                } else {
                    None
                }
            },
        }
    }

    /// Drag the divider under `from` toward `to`, resizing its split so the
    /// divider lands as near `to` as the ratio's precision and the one-cell
    /// minimum on each side allow. Returns the divider's new position, or
    /// `None` (the tree untouched) when `from` holds no divider.
    pub fn drag_divider(&mut self, area: Rect, from: (u16, u16), to: (u16, u16)) -> (pos: Option<
        (u16, u16),
    >)
        requires
            area.fits(),
        ensures
            (*final(self), pos) == drag_spec(*old(self), area, from, to),
    {
        let mut node = LayoutNode::Leaf(PaneId::from_raw(0));
        core::mem::swap(&mut node, self);
        let (node, pos) = node.drag_owned(area, from, to);
        *self = node;
        pos
    }

    fn drag_owned(self, area: Rect, from: (u16, u16), to: (u16, u16)) -> (r: (
        LayoutNode,
        Option<(u16, u16)>,
    ))
        requires
            area.fits(),
        ensures
            r == drag_spec(self, area, from, to),
        decreases self,
    {
        match self {
            LayoutNode::Leaf(id) => (LayoutNode::Leaf(id), None),
            LayoutNode::Split { direction, ratio, first, second } => {
                let (a, b) = divide(area, direction, ratio);
                proof {
                    lemma_divide_partitions(area, direction, ratio, 0, 0);
                }
                if on_divider_exec(area, direction, a, b, from.0, from.1) {
                    let r = drag_ratio(area, direction, to);
                    let (a2, b2) = divide(area, direction, r);
                    let pos = match direction {
                        SplitDirection::Horizontal => (a2.x + a2.width - 1, to.1),
                        SplitDirection::Vertical => (to.0, b2.y),
                    };
                    (LayoutNode::Split { direction, ratio: r, first, second }, Some(pos))
                } else if holds_exec(a, from.0, from.1) {
                    let (f, pos) = (*first).drag_owned(a, from, to);
                    (LayoutNode::Split { direction, ratio, first: Box::new(f), second }, pos)
                } else if holds_exec(b, from.0, from.1) {
                    let (s, pos) = (*second).drag_owned(b, from, to);
                    (LayoutNode::Split { direction, ratio, first, second: Box::new(s) }, pos)
                } else {
                    (LayoutNode::Split { direction, ratio, first, second }, None)
                }
            },
        }
    }
}

/// Dragging a divider moves no pane: the tree keeps its leaves.
pub proof fn lemma_drag_keeps_leaves(n: LayoutNode, area: Rect, from: (u16, u16), to: (u16, u16))
    ensures
        leaves_of(drag_spec(n, area, from, to).0) == leaves_of(n),
    decreases n,
{
    match n {
        LayoutNode::Leaf(_) => {},
        LayoutNode::Split { direction, ratio, first, second } => {
            let (a, b) = divide_spec(area, direction, ratio);
            lemma_drag_keeps_leaves(*first, a, from, to);
            lemma_drag_keeps_leaves(*second, b, from, to);
        },
    }
}

/// Every tree has at least one leaf.
pub proof fn lemma_leaves_nonempty(n: LayoutNode)
    ensures
        leaves_of(n).len() >= 1,
    decreases n,
{
    match n {
        LayoutNode::Leaf(_) => {},
        LayoutNode::Split { first, second, .. } => {
            lemma_leaves_nonempty(*first);
        },
    }
}

/// Every rect a layout hands out keeps its far edges on the grid.
pub proof fn lemma_layout_fits(n: LayoutNode, area: Rect)
    requires
        area.fits(),
    ensures
        forall|k: int| 0 <= k < layout_of(n, area).len() ==> (#[trigger] layout_of(n, area)[k]).1.fits(),
    decreases n,
{
    match n {
        LayoutNode::Leaf(_) => {},
        LayoutNode::Split { direction, ratio, first, second } => {
            let (a, b) = divide_spec(area, direction, ratio);
            lemma_divide_partitions(area, direction, ratio, 0, 0);
            lemma_layout_fits(*first, a);
            lemma_layout_fits(*second, b);
            let lf = layout_of(*first, a);
            assert forall|k: int| 0 <= k < layout_of(n, area).len() implies (#[trigger] layout_of(
                n,
                area,
            )[k]).1.fits() by {
                if k < lf.len() {
                    assert(layout_of(n, area)[k] == lf[k]);
                } else {
                    assert(layout_of(n, area)[k] == layout_of(*second, b)[k - lf.len()]);
                }
            }
        },
    }
}

} // verus!
