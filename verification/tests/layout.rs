//! Split-tree scenarios: tiling, splitting and removing leaves.

use roster::layout::{layout, LayoutNode, Rect, RemoveOutcome, SplitDirection, RATIO_HALF};
use roster::session::PaneId;

fn pid(n: u64) -> PaneId {
    PaneId::from_raw(n)
}

fn rects_of(node: &LayoutNode, area: Rect) -> Vec<(PaneId, Rect)> {
    let mut out = Vec::new();
    layout(node, area, &mut out);
    out
}

#[test]
fn single_leaf_fills_area() {
    let node = LayoutNode::Leaf(pid(1));
    let area = Rect::new(0, 0, 80, 24);
    assert_eq!(rects_of(&node, area), vec![(pid(1), area)]);
}

#[test]
fn even_horizontal_split_halves_width() {
    let node = LayoutNode::Split {
        direction: SplitDirection::Horizontal,
        ratio: RATIO_HALF,
        first: Box::new(LayoutNode::Leaf(pid(1))),
        second: Box::new(LayoutNode::Leaf(pid(2))),
    };
    let rects = rects_of(&node, Rect::new(0, 0, 80, 24));
    assert_eq!(rects[0].1, Rect::new(0, 0, 40, 24));
    assert_eq!(rects[1].1, Rect::new(40, 0, 40, 24));
}

#[test]
fn odd_width_gives_remainder_deterministically() {
    let node = LayoutNode::Split {
        direction: SplitDirection::Horizontal,
        ratio: RATIO_HALF,
        first: Box::new(LayoutNode::Leaf(pid(1))),
        second: Box::new(LayoutNode::Leaf(pid(2))),
    };
    let rects = rects_of(&node, Rect::new(0, 0, 81, 24));
    assert_eq!(rects[0].1.width + rects[1].1.width, 81);
    assert_eq!(rects[0].1, Rect::new(0, 0, 41, 24));
    assert_eq!(rects[1].1, Rect::new(41, 0, 40, 24));
}

#[test]
fn vertical_split_stacks() {
    let node = LayoutNode::Split {
        direction: SplitDirection::Vertical,
        ratio: RATIO_HALF,
        first: Box::new(LayoutNode::Leaf(pid(1))),
        second: Box::new(LayoutNode::Leaf(pid(2))),
    };
    let rects = rects_of(&node, Rect::new(0, 0, 80, 25));
    assert_eq!(rects[0].1, Rect::new(0, 0, 80, 13));
    assert_eq!(rects[1].1, Rect::new(0, 13, 80, 12));
}

#[test]
fn nested_splits_tile_exactly() {
    // ┌───┬───┐
    // │ 1 │ 2 │
    // │   ├───┤
    // │   │ 3 │
    // └───┴───┘
    let node = LayoutNode::Split {
        direction: SplitDirection::Horizontal,
        ratio: RATIO_HALF,
        first: Box::new(LayoutNode::Leaf(pid(1))),
        second: Box::new(LayoutNode::Split {
            direction: SplitDirection::Vertical,
            ratio: RATIO_HALF,
            first: Box::new(LayoutNode::Leaf(pid(2))),
            second: Box::new(LayoutNode::Leaf(pid(3))),
        }),
    };
    let area = Rect::new(0, 0, 80, 24);
    let rects = rects_of(&node, area);
    assert_eq!(rects.len(), 3);
    let total: u32 = rects
        .iter()
        .map(|(_, r)| u32::from(r.width) * u32::from(r.height))
        .sum();
    assert_eq!(total, 80 * 24);
    assert_eq!(rects[0].1, Rect::new(0, 0, 40, 24));
    assert_eq!(rects[1].1, Rect::new(40, 0, 40, 12));
    assert_eq!(rects[2].1, Rect::new(40, 12, 40, 12));
}

#[test]
fn extreme_ratio_keeps_both_panes_visible() {
    let node = LayoutNode::Split {
        direction: SplitDirection::Horizontal,
        ratio: 9900,
        first: Box::new(LayoutNode::Leaf(pid(1))),
        second: Box::new(LayoutNode::Leaf(pid(2))),
    };
    let rects = rects_of(&node, Rect::new(0, 0, 10, 5));
    assert_eq!(rects[0].1.width, 9);
    assert_eq!(rects[1].1.width, 1);
}

#[test]
fn degenerate_axis_collapses_second_pane() {
    let node = LayoutNode::Split {
        direction: SplitDirection::Horizontal,
        ratio: RATIO_HALF,
        first: Box::new(LayoutNode::Leaf(pid(1))),
        second: Box::new(LayoutNode::Leaf(pid(2))),
    };
    let rects = rects_of(&node, Rect::new(0, 0, 1, 5));
    assert_eq!(rects[0].1.width, 1);
    assert_eq!(rects[1].1.width, 0);
}

#[test]
fn split_leaf_replaces_target() {
    let mut node = LayoutNode::Leaf(pid(1));
    assert!(node.split_leaf(pid(1), pid(2), SplitDirection::Horizontal));
    assert_eq!(node.leaves(), vec![pid(1), pid(2)]);
}

#[test]
fn split_leaf_misses_unknown_target() {
    let mut node = LayoutNode::Leaf(pid(1));
    assert!(!node.split_leaf(pid(9), pid(2), SplitDirection::Horizontal));
    assert_eq!(node.leaves(), vec![pid(1)]);
}

#[test]
fn remove_leaf_collapses_to_sibling() {
    let node = LayoutNode::Split {
        direction: SplitDirection::Horizontal,
        ratio: RATIO_HALF,
        first: Box::new(LayoutNode::Leaf(pid(1))),
        second: Box::new(LayoutNode::Leaf(pid(2))),
    };
    match node.remove_leaf(pid(1)) {
        RemoveOutcome::Removed(survivor) => {
            assert_eq!(survivor.leaves(), vec![pid(2)])
        }
        _ => panic!("expected Removed"),
    }
}

#[test]
fn remove_only_leaf_reports_last() {
    let node = LayoutNode::Leaf(pid(1));
    assert!(matches!(node.remove_leaf(pid(1)), RemoveOutcome::LastLeaf));
}

#[test]
fn remove_unknown_leaf_returns_tree_unchanged() {
    let node = LayoutNode::Split {
        direction: SplitDirection::Vertical,
        ratio: RATIO_HALF,
        first: Box::new(LayoutNode::Leaf(pid(1))),
        second: Box::new(LayoutNode::Leaf(pid(2))),
    };
    match node.remove_leaf(pid(9)) {
        RemoveOutcome::NotFound(tree) => {
            assert_eq!(tree.leaves(), vec![pid(1), pid(2)])
        }
        _ => panic!("expected NotFound"),
    }
}

fn uneven_tree() -> LayoutNode {
    LayoutNode::Split {
        direction: SplitDirection::Horizontal,
        ratio: 3000,
        first: Box::new(LayoutNode::Leaf(pid(1))),
        second: Box::new(LayoutNode::Split {
            direction: SplitDirection::Vertical,
            ratio: 7000,
            first: Box::new(LayoutNode::Leaf(pid(2))),
            second: Box::new(LayoutNode::Leaf(pid(3))),
        }),
    }
}

#[test]
fn closing_the_pane_a_split_made_undoes_the_split() {
    for target in [1, 2, 3] {
        let mut tree = uneven_tree();
        assert!(tree.split_leaf(pid(target), pid(9), SplitDirection::Vertical));
        assert_ne!(tree, uneven_tree());
        match tree.remove_leaf(pid(9)) {
            RemoveOutcome::Removed(back) => assert_eq!(back, uneven_tree(), "target {target}"),
            _ => panic!("the new pane should have been found"),
        }
    }
}
