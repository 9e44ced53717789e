//! Wire protocol scenarios: every frame round-trips, frames stream back to
//! back, and corrupt input is an error.

use roster::proto::{read_frame, write_frame, Frame, HelloPane, ProtoError, MAX_FRAME};

fn put_u64(out: &mut Vec<u8>, v: u64) {
    out.extend_from_slice(&v.to_le_bytes());
}

fn put_bytes(out: &mut Vec<u8>, bytes: &[u8]) {
    out.extend_from_slice(&(bytes.len() as u32).to_le_bytes());
    out.extend_from_slice(bytes);
}

fn round_trip(frame: Frame) {
    let mut buf = Vec::new();
    write_frame(&mut buf, &frame).expect("write");
    let mut r = buf.as_slice();
    let back = read_frame(&mut r).expect("read").expect("some frame");
    assert_eq!(back, frame);
    assert!(r.is_empty(), "reader consumed the whole frame");
}

#[test]
fn every_frame_round_trips() {
    round_trip(Frame::Attach);
    round_trip(Frame::Input {
        pane: 7,
        bytes: b"ls -la\r".to_vec(),
    });
    round_trip(Frame::Resize {
        pane: 7,
        cols: 120,
        rows: 40,
    });
    round_trip(Frame::Spawn {
        command: "agent --dangerously-skip-permissions".into(),
    });
    round_trip(Frame::Close { pane: 3 });
    round_trip(Frame::SetLayout {
        blob: b"v1\nwindow focused=1 (l 1)\nactive 0\n".to_vec(),
    });
    round_trip(Frame::Detach);
    round_trip(Frame::Kill);
    round_trip(Frame::Ping);
    round_trip(Frame::HookBlocked {
        pane: 3,
        tool: "Bash".into(),
        reason: "Bash: rm -rf target/".into(),
    });
    round_trip(Frame::HookBlocked {
        pane: 3,
        tool: String::new(),
        reason: String::new(),
    });
    round_trip(Frame::HookClear {
        pane: 3,
        tool: "Bash".into(),
    });
    round_trip(Frame::HookClear {
        pane: 3,
        tool: String::new(),
    });
    round_trip(Frame::Statusline {
        pane: 3,
        json: r#"{"model":{"display_name":"Opus"},"context_window":{"remaining_percentage":62.5}}"#.into(),
    });
    round_trip(Frame::Statusline {
        pane: 3,
        json: String::new(),
    });
    round_trip(Frame::Statusline {
        pane: u64::MAX,
        json: "non-json 🦀 payloads still round-trip".into(),
    });
    round_trip(Frame::HookDecision { allow: true });
    round_trip(Frame::HookDecision { allow: false });
    round_trip(Frame::SetAutoApprove { pane: 5, on: true });
    round_trip(Frame::SetAutoApprove { pane: 5, on: false });
    round_trip(Frame::Hello {
        panes: vec![
            HelloPane {
                pane: 1,
                command: "agent".into(),
                exited: None,
                auto_approve: true,
            },
            HelloPane {
                pane: 2,
                command: "zsh".into(),
                exited: Some(130),
                auto_approve: false,
            },
        ],
        layout: b"blob".to_vec(),
    });
    round_trip(Frame::Hello {
        panes: vec![],
        layout: vec![],
    });
    round_trip(Frame::Replay {
        pane: 1,
        bytes: vec![0, 27, 91, 65, 255],
    });
    round_trip(Frame::Output {
        pane: 9,
        bytes: b"\x1b[1;31mred\x1b[0m".to_vec(),
    });
    round_trip(Frame::Exited { pane: 2, code: 130 });
    round_trip(Frame::PaneOpened {
        pane: 4,
        command: "agent".into(),
    });
    round_trip(Frame::Shutdown {
        reason: "another client attached".into(),
    });
    round_trip(Frame::Pong);
    round_trip(Frame::SpawnFailed {
        error: "spawning command: no such file".into(),
    });
}

#[test]
fn frames_stream_back_to_back() {
    let mut buf = Vec::new();
    write_frame(&mut buf, &Frame::Ping).unwrap();
    write_frame(
        &mut buf,
        &Frame::Input {
            pane: 1,
            bytes: b"x".to_vec(),
        },
    )
    .unwrap();
    write_frame(&mut buf, &Frame::Detach).unwrap();
    let mut r = buf.as_slice();
    assert_eq!(read_frame(&mut r).unwrap(), Some(Frame::Ping));
    assert!(matches!(
        read_frame(&mut r).unwrap(),
        Some(Frame::Input { pane: 1, .. })
    ));
    assert_eq!(read_frame(&mut r).unwrap(), Some(Frame::Detach));
    assert_eq!(read_frame(&mut r).unwrap(), None, "clean EOF");
}

#[test]
fn corrupt_input_errors_instead_of_panicking() {
    // Truncated length prefix mid-stream is clean EOF at frame start
    // only; anything after must error.
    let mut r: &[u8] = &[5, 0, 0, 0, 2, 1]; // claims 5 bytes, has 2
    assert!(read_frame(&mut r).is_err());

    // Oversized length.
    let huge = (MAX_FRAME + 1).to_le_bytes();
    let mut r: &[u8] = &huge;
    assert!(read_frame(&mut r).is_err());

    // Zero length.
    let mut r: &[u8] = &[0, 0, 0, 0];
    assert!(read_frame(&mut r).is_err());

    // Unknown tag.
    let mut buf = Vec::new();
    buf.extend_from_slice(&1u32.to_le_bytes());
    buf.push(200);
    let mut r = buf.as_slice();
    assert!(read_frame(&mut r).is_err());

    // Trailing garbage inside a frame.
    let mut buf = Vec::new();
    buf.extend_from_slice(&2u32.to_le_bytes());
    buf.push(1); // Attach carries no payload
    buf.push(99);
    let mut r = buf.as_slice();
    assert!(read_frame(&mut r).is_err());

    // Invalid utf-8 in a string field.
    let mut payload = Vec::new();
    put_bytes(&mut payload, &[0xff, 0xfe]);
    let mut buf = Vec::new();
    buf.extend_from_slice(&(payload.len() as u32 + 1).to_le_bytes());
    buf.push(4); // Spawn
    buf.extend_from_slice(&payload);
    let mut r = buf.as_slice();
    assert!(read_frame(&mut r).is_err());

    // Invalid utf-8 in a Statusline json field.
    let mut payload = Vec::new();
    put_u64(&mut payload, 3);
    put_bytes(&mut payload, &[0xff, 0xfe]);
    let mut buf = Vec::new();
    buf.extend_from_slice(&(payload.len() as u32 + 1).to_le_bytes());
    buf.push(14); // Statusline
    buf.extend_from_slice(&payload);
    let mut r = buf.as_slice();
    assert!(read_frame(&mut r).is_err());

    // A Statusline frame truncated inside its json length.
    let mut payload = Vec::new();
    put_u64(&mut payload, 3);
    payload.extend_from_slice(&8u32.to_le_bytes()); // claims 8 bytes
    payload.extend_from_slice(b"abc"); // has 3
    let mut buf = Vec::new();
    buf.extend_from_slice(&(payload.len() as u32 + 1).to_le_bytes());
    buf.push(14);
    buf.extend_from_slice(&payload);
    let mut r = buf.as_slice();
    assert!(read_frame(&mut r).is_err());
}

fn frame_bytes(tag: u8, payload: &[u8]) -> Vec<u8> {
    let mut buf = Vec::new();
    buf.extend_from_slice(&(payload.len() as u32 + 1).to_le_bytes());
    buf.push(tag);
    buf.extend_from_slice(payload);
    buf
}

#[test]
fn close_frame_has_its_exact_bytes() {
    let mut buf = Vec::new();
    write_frame(&mut buf, &Frame::Close { pane: 3 }).unwrap();
    assert_eq!(buf, vec![9, 0, 0, 0, 5, 3, 0, 0, 0, 0, 0, 0, 0]);
    let mut buf = Vec::new();
    write_frame(&mut buf, &Frame::Spawn { command: "é".into() }).unwrap();
    assert_eq!(buf, vec![7, 0, 0, 0, 4, 2, 0, 0, 0, 0xc3, 0xa9]);
}

#[test]
fn each_corruption_names_its_error() {
    let mut r: &[u8] = &[5, 0, 0, 0, 2, 1];
    assert_eq!(read_frame(&mut r), Err(ProtoError::Truncated));
    assert!(r.is_empty());

    let huge = (MAX_FRAME + 1).to_le_bytes();
    let mut r: &[u8] = &huge;
    assert_eq!(read_frame(&mut r), Err(ProtoError::LengthOutOfRange));

    let mut r: &[u8] = &[0, 0, 0, 0];
    assert_eq!(read_frame(&mut r), Err(ProtoError::LengthOutOfRange));

    let buf = frame_bytes(200, &[]);
    let mut r = buf.as_slice();
    assert_eq!(read_frame(&mut r), Err(ProtoError::UnknownTag));

    let buf = frame_bytes(1, &[99]);
    let mut r = buf.as_slice();
    assert_eq!(read_frame(&mut r), Err(ProtoError::TrailingBytes));

    let mut payload = Vec::new();
    put_bytes(&mut payload, &[0xff, 0xfe]);
    let buf = frame_bytes(4, &payload);
    let mut r = buf.as_slice();
    assert_eq!(read_frame(&mut r), Err(ProtoError::InvalidUtf8));

    let mut payload = Vec::new();
    payload.extend_from_slice(&(MAX_FRAME + 1).to_le_bytes());
    let buf = frame_bytes(6, &payload);
    let mut r = buf.as_slice();
    assert_eq!(read_frame(&mut r), Err(ProtoError::FieldOutOfRange));

    let mut payload = Vec::new();
    put_u64(&mut payload, 4097);
    let buf = frame_bytes(64, &payload);
    let mut r = buf.as_slice();
    assert_eq!(read_frame(&mut r), Err(ProtoError::AbsurdPaneCount));

    let mut payload = Vec::new();
    put_u64(&mut payload, 1);
    put_u64(&mut payload, 1);
    put_bytes(&mut payload, b"sh");
    payload.push(2);
    let buf = frame_bytes(64, &payload);
    let mut r = buf.as_slice();
    assert_eq!(read_frame(&mut r), Err(ProtoError::BadExitedFlag));
}

#[test]
fn short_input_is_clean_end() {
    let mut r: &[u8] = &[];
    assert_eq!(read_frame(&mut r), Ok(None));
    let mut r: &[u8] = &[1, 0, 0];
    assert_eq!(read_frame(&mut r), Ok(None));
}

#[test]
fn flags_read_as_non_zero() {
    let buf = frame_bytes(12, &[7]);
    let mut r = buf.as_slice();
    assert_eq!(read_frame(&mut r), Ok(Some(Frame::HookDecision { allow: true })));
}

#[test]
fn frames_past_max_frame_are_refused_and_nothing_is_written() {
    let mut w = Vec::new();
    let huge = Frame::Output {
        pane: 1,
        bytes: vec![0u8; 16 * 1024 * 1024],
    };
    assert_eq!(write_frame(&mut w, &huge), Err(ProtoError::TooLarge));
    assert!(w.is_empty());
    // Tag, pane id and length prefix take thirteen bytes: the largest
    // output frame fits exactly and reads back.
    let largest = Frame::Output {
        pane: 1,
        bytes: vec![7u8; MAX_FRAME as usize - 13],
    };
    round_trip(largest);
    let over = Frame::Output {
        pane: 1,
        bytes: vec![7u8; MAX_FRAME as usize - 12],
    };
    assert_eq!(write_frame(&mut w, &over), Err(ProtoError::TooLarge));
    assert!(w.is_empty());
}

#[test]
fn frame_tags_are_fixed() {
    assert_eq!(Frame::Attach.tag(), 1);
    assert_eq!(Frame::Close { pane: 3 }.tag(), 5);
}
