//! Modal geometry scenarios: the close dialog's buttons, the context
//! menu's rows, the exited card and the toast stack.

use roster::dialogs::{
    exited_message, menu_fits, rename_contains, rename_rect, ContextMenuView, button_spans, confirm_button_at, confirm_contains, confirm_rect, exited_buttons,
    exited_card_rect, menu_drawable, menu_item_at, menu_contains, menu_rect, ConfirmButton,
    ContextMenuItem, CARD_HEIGHT, CARD_WIDTH, CONFIRM_MIN_WIDTH,
};
use roster::layout::Rect;
use roster::widgets::{toast_rects, ToastLevel, TOAST_HEIGHT, TOAST_MAX_WIDTH};

fn items() -> Vec<ContextMenuItem> {
    vec![ContextMenuItem::Pin, ContextMenuItem::Close]
}

#[test]
fn buttons_hit_test_and_miss_elsewhere() {
    let area = Rect::new(0, 0, 80, 24);
    let (cancel, close) = button_spans(area);
    assert_eq!(
        confirm_button_at(area, cancel.x + 1, cancel.y),
        Some(ConfirmButton::Cancel)
    );
    assert_eq!(
        confirm_button_at(area, close.x + 1, close.y),
        Some(ConfirmButton::Close)
    );
    // The gap between them is dead space; the message row is too.
    assert_eq!(
        confirm_button_at(area, cancel.x + cancel.width + 1, cancel.y),
        None
    );
    assert_eq!(confirm_button_at(area, cancel.x, cancel.y - 2), None);
    // Inside the modal but not a button.
    let modal = confirm_rect(area);
    assert!(confirm_contains(area, modal.x + 1, modal.y + 1));
    assert!(!confirm_contains(area, modal.x.saturating_sub(1), modal.y));
}

#[test]
fn buttons_stay_inside_the_dialog_at_the_minimum_width() {
    // At the narrowest drawable width the centered button row must sit
    // inside the borders: a close button overflowing the frame would catch
    // clicks past the dialog's edge.
    let area = Rect::new(0, 0, CONFIRM_MIN_WIDTH, 24);
    let modal = confirm_rect(area);
    assert!(modal.width >= CONFIRM_MIN_WIDTH, "dialog should draw here");
    let (cancel, close) = button_spans(area);
    assert!(cancel.x > modal.x, "cancel overflows the left border");
    assert!(
        close.x + close.width < modal.x + modal.width,
        "close overflows the right border"
    );
}

#[test]
fn confirm_slivers_own_no_click() {
    // Frames under the dialog's minimum footprint own no click: a phantom
    // close button would kill the agent with no dialog on screen.
    for (w, h) in [(1u16, 1u16), (80, 3), (80, 4), (CONFIRM_MIN_WIDTH - 1, 24)] {
        let area = Rect::new(0, 0, w, h);
        for y in 0..h {
            for x in 0..w {
                assert_eq!(confirm_button_at(area, x, y), None, "({x},{y}) in {w}x{h}");
                assert!(!confirm_contains(area, x, y), "({x},{y}) in {w}x{h}");
            }
        }
    }
}

#[test]
fn items_hit_test_and_miss_the_border_and_outside() {
    let area = Rect::new(0, 0, 80, 24);
    let anchor = (10, 4);
    let items = items();
    let rect = menu_rect(area, anchor, &items);
    // Row for each item resolves to its index.
    assert_eq!(menu_item_at(area, anchor, &items, rect.x + 2, rect.y + 1), Some(0));
    assert_eq!(menu_item_at(area, anchor, &items, rect.x + 2, rect.y + 2), Some(1));
    // The top and bottom border rows are dead space.
    assert_eq!(menu_item_at(area, anchor, &items, rect.x + 2, rect.y), None);
    assert_eq!(
        menu_item_at(area, anchor, &items, rect.x + 2, rect.y + rect.height - 1),
        None
    );
    // A column outside the rect misses; a point inside it contains.
    assert_eq!(
        menu_item_at(area, anchor, &items, rect.x + rect.width, rect.y + 1),
        None
    );
    assert!(menu_contains(area, anchor, &items, rect.x + 1, rect.y + 1));
    assert!(!menu_contains(area, anchor, &items, rect.x.saturating_sub(1), rect.y));
}

#[test]
fn menu_stays_inside_the_frame_when_anchored_at_an_edge() {
    // A right-click in the bottom-right corner slides the menu back so
    // every row stays clickable inside the frame.
    let area = Rect::new(0, 0, 80, 24);
    let items = items();
    let anchor = (79, 23);
    let rect = menu_rect(area, anchor, &items);
    assert!(rect.x + rect.width <= area.x + area.width, "overflows right");
    assert!(rect.y + rect.height <= area.y + area.height, "overflows bottom");
    assert!(menu_drawable(rect, &items), "should still draw at the corner");
    // The last item row is inside the frame and hits.
    assert_eq!(
        menu_item_at(area, anchor, &items, rect.x + 2, rect.y + items.len() as u16),
        Some(items.len() - 1)
    );
}

#[test]
fn card_centers_and_buttons_land_inside_it() {
    let content = Rect::new(10, 5, 60, 20);
    let card = exited_card_rect(content).unwrap();
    assert_eq!(card.width, CARD_WIDTH);
    assert_eq!(card.height, CARD_HEIGHT);
    assert!(card.x > content.x && card.x + card.width < content.x + content.width);

    let (restart, close) = exited_buttons(content).unwrap();
    assert_eq!(restart.y, card.y + card.height - 2);
    assert_eq!(restart.y, close.y);
    assert!(restart.x >= card.x && close.x + close.width <= card.x + card.width);
    assert!(restart.x + restart.width < close.x, "buttons must not touch");
}

#[test]
fn small_panes_get_no_card_or_buttons() {
    assert!(exited_card_rect(Rect::new(0, 0, 20, 20)).is_none());
    assert!(exited_card_rect(Rect::new(0, 0, 60, 4)).is_none());
    assert!(exited_buttons(Rect::new(0, 0, 20, 4)).is_none());
}

#[test]
fn toasts_stack_from_the_top_right_of_the_chrome() {
    let area = Rect::new(0, 0, 120, 30);
    let toasts = vec![
        ("launch failed: no such command", ToastLevel::Error),
        ("copied", ToastLevel::Info),
    ];
    let rects = toast_rects(area, &toasts);
    assert_eq!(rects.len(), 2);
    // Right-aligned one column in from the chrome's right edge (118),
    // never jutting into the inset margin.
    assert_eq!(rects[0].x + rects[0].width, 117);
    assert_eq!(rects[1].x + rects[1].width, 117);
    assert!(rects[0].y > 0, "toasts start inside the inset");
    // Stacked downward with a gap.
    assert!(rects[1].y > rects[0].y + rects[0].height);
    // Width scales with the text but stays clamped.
    assert!(rects[0].width > rects[1].width);
    assert!(rects[0].width <= TOAST_MAX_WIDTH);
}

#[test]
fn overflowing_toasts_collapse_to_zero_height() {
    let area = Rect::new(0, 0, 60, 8);
    let toasts = vec![
        ("one", ToastLevel::Info),
        ("two", ToastLevel::Info),
        ("three", ToastLevel::Info),
    ];
    let rects = toast_rects(area, &toasts);
    assert_eq!(rects[0].height, TOAST_HEIGHT);
    assert_eq!(rects[1].height, 0);
    assert_eq!(rects[2].height, 0);
}

#[test]
fn wide_char_toasts_size_by_cells() {
    // Ten double-width chars are twenty cells; sized by chars the card
    // would be sixteen wide and clip the message's tail.
    let area = Rect::new(0, 0, 120, 30);
    let toasts = vec![("启动失败：命令不存在", ToastLevel::Error)];
    let rect = toast_rects(area, &toasts)[0];
    assert_eq!(rect.width, 26);
}

#[test]
fn a_menu_view_carries_everything_the_menu_needs() {
    let menu = ContextMenuView {
        items: items(),
        anchor: (3, 4),
        hover: Some(1),
    }
    .menu();
    assert_eq!(menu.items, items());
    assert_eq!(menu.anchor, (3, 4));
    assert_eq!(menu.hover, Some(1));
}

#[test]
fn menus_fit_roomy_frames_only() {
    assert!(menu_fits(Rect::new(0, 0, 80, 24), (10, 4), &items()));
    assert!(!menu_fits(Rect::new(0, 0, 80, 3), (0, 0), &items()));
    assert!(!menu_fits(Rect::new(0, 0, 4, 24), (0, 0), &items()));
}

#[test]
fn rename_dialog_owns_its_rect() {
    let area = Rect::new(0, 0, 80, 24);
    let modal = rename_rect(area);
    assert!(rename_contains(area, modal.x, modal.y));
    assert!(rename_contains(area, modal.x + modal.width - 1, modal.y + modal.height - 1));
    assert!(!rename_contains(area, modal.x + modal.width, modal.y));
    assert!(!rename_contains(area, 0, 0));
}

#[test]
fn long_names_truncate_but_the_exit_code_survives() {
    assert_eq!(exited_message("agent-code", 1), "agent-code · exit 1");
    assert_eq!(
        exited_message("definitely-not-a-command-xyz", 127),
        "definitely-not… · exit 127"
    );
}
