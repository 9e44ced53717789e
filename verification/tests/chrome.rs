//! Frame geometry scenarios: the chrome inset, the pane and sidebar
//! regions, and a panel's interior.

use roster::chrome::{chrome_area, content_rect, panes_area, sidebar_area, title_budget, SidebarSide};
use roster::layout::Rect;

#[test]
fn content_rect_is_the_panel_interior_and_slivers_keep_every_cell() {
    // A panelled pane loses one border row/column on every side.
    assert_eq!(content_rect(Rect::new(0, 0, 24, 24)), Rect::new(1, 1, 22, 22));
    assert_eq!(content_rect(Rect::new(24, 0, 24, 12)), Rect::new(25, 1, 22, 10));
    // Slivers under 3×3 draw no panel and keep every cell.
    assert_eq!(content_rect(Rect::new(0, 0, 48, 2)), Rect::new(0, 0, 48, 2));
    assert_eq!(content_rect(Rect::new(0, 0, 2, 24)), Rect::new(0, 0, 2, 24));
}

#[test]
fn chrome_stands_back_from_the_edge_when_there_is_room() {
    // A roomy frame is inset by 2 columns and 1 row on every side.
    assert_eq!(chrome_area(Rect::new(0, 0, 120, 30)), Rect::new(2, 1, 116, 28));
    // Small terminals spend every cell on content.
    assert_eq!(chrome_area(Rect::new(0, 0, 23, 30)), Rect::new(0, 0, 23, 30));
    assert_eq!(chrome_area(Rect::new(0, 0, 120, 7)), Rect::new(0, 0, 120, 7));
    assert_eq!(chrome_area(Rect::new(0, 0, 0, 0)), Rect::new(0, 0, 0, 0));
}

#[test]
fn panes_area_reserves_sidebar_and_status_inside_the_inset() {
    let area = Rect::new(0, 0, 120, 30);
    // Chrome inset (2,1); left sidebar: panes offset to its right.
    assert_eq!(panes_area(area, SidebarSide::Left), Rect::new(34, 1, 84, 27));
    assert_eq!(sidebar_area(area, SidebarSide::Left), Rect::new(2, 1, 32, 27));
    // Right sidebar: panes start at the chrome's left edge.
    assert_eq!(panes_area(area, SidebarSide::Right), Rect::new(2, 1, 84, 27));
    assert_eq!(sidebar_area(area, SidebarSide::Right), Rect::new(86, 1, 32, 27));
    // Narrow terminals split the width instead of going negative.
    let narrow = Rect::new(0, 0, 40, 10);
    assert_eq!(panes_area(narrow, SidebarSide::Left), Rect::new(20, 1, 18, 7));
}

#[test]
fn title_budget_stops_short_of_the_close_button() {
    // Wide enough for a close button at columns 16..19: the title runs
    // from column 4 up to it.
    assert_eq!(title_budget(Rect::new(0, 0, 20, 10)), 12);
    assert_eq!(title_budget(Rect::new(30, 5, 20, 10)), 12);
    // No close button: the title stops two columns short of the edge.
    assert_eq!(title_budget(Rect::new(0, 0, 10, 10)), 4);
    // Too narrow for any title.
    assert_eq!(title_budget(Rect::new(0, 0, 6, 10)), 0);
    assert_eq!(title_budget(Rect::new(0, 0, 1, 1)), 0);
}
