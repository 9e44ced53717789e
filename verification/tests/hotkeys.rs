//! Hotkey-bar scenarios: how a hint string splits into keys, labels and
//! prose, and the width the bar is centered by.

use roster::hotkeys::{hotkey_spans, hotkeys_width, HintRole};

fn painted(status: &str) -> String {
    hotkey_spans(status).into_iter().map(|(t, _)| t).collect()
}

#[test]
fn hotkey_pieces_accent_keys_and_mute_labels_and_prose() {
    let status = "plain prose · ctrl-b: keys · then c: new agent";
    // The colon in `key: label` paints as a space, and segments sit a wide
    // gap apart.
    assert_eq!(painted(status), "plain prose  ·  ctrl-b keys  ·  then c new agent");
    let spans = hotkey_spans(status);
    let expected = vec![
        ("plain prose", HintRole::Muted),
        ("  ·  ", HintRole::Muted),
        ("ctrl-b", HintRole::Key),
        (" ", HintRole::Muted),
        ("keys", HintRole::Muted),
        ("  ·  ", HintRole::Muted),
        ("then c", HintRole::Key),
        (" ", HintRole::Muted),
        ("new agent", HintRole::Muted),
    ];
    let got: Vec<(&str, HintRole)> = spans.iter().map(|(t, r)| (t.as_str(), *r)).collect();
    assert_eq!(got, expected);
}

#[test]
fn hint_width_matches_the_painted_pieces() {
    for status in [
        "plain prose",
        "c: new agent",
        "c: new agent · q: quit",
        "plain · ctrl-b: keys · x: close",
        "",
    ] {
        let width = hotkeys_width(status);
        assert_eq!(width as usize, painted(status).chars().count(), "status {status:?}");
    }
    assert_eq!(hotkeys_width("c: new agent · q: quit"), 22);
}

#[test]
fn only_the_first_colon_splits_a_segment() {
    let spans = hotkey_spans("a: b: c");
    let got: Vec<(&str, HintRole)> = spans.iter().map(|(t, r)| (t.as_str(), *r)).collect();
    assert_eq!(
        got,
        vec![("a", HintRole::Key), (" ", HintRole::Muted), ("b: c", HintRole::Muted)]
    );
    // A colon without the space is prose, and an empty hint is one empty
    // segment.
    assert_eq!(hotkey_spans("a:b").len(), 1);
    assert_eq!(painted(""), "");
    assert_eq!(hotkeys_width(""), 0);
}
