//! The wire protocol between a roster client and a session server.
//!
//! Frames are length-prefixed binary: a little-endian `u32` length (tag
//! plus payload), a `u8` tag, then the payload. Integers are little-endian,
//! byte and string fields carry a `u32` length prefix, strings are UTF-8,
//! and booleans are one byte (written 0/1, read as "non-zero"). Corrupt or
//! oversized input is always a [`ProtoError`], never a panic. Tags are an
//! append-only compatibility surface: never reuse or renumber one.

use vstd::prelude::*;
use vstd::utf8::{decode_utf8, encode_utf8, valid_utf8};

verus! {

/// The largest frame either side will read or write. Enforced before any
/// length-prefixed allocation happens, and before anything is written.
pub const MAX_FRAME: u32 = 16 * 1024 * 1024;

/// The most panes a `Hello` frame may claim.
pub const MAX_HELLO_PANES: u64 = 4096;

/// Why a frame could not be read or written.
#[derive(Clone, Copy, Debug, PartialEq, Eq, Structural)]
pub enum ProtoError {
    /// The frame's length prefix is zero or above [`MAX_FRAME`].
    LengthOutOfRange,
    /// The input ended inside a frame or a field.
    Truncated,
    /// The tag names no frame.
    UnknownTag,
    /// The payload held bytes past its last field.
    TrailingBytes,
    /// A string field is not UTF-8.
    InvalidUtf8,
    /// A byte field's length prefix is above [`MAX_FRAME`].
    FieldOutOfRange,
    /// A `Hello` claims more than [`MAX_HELLO_PANES`] panes.
    AbsurdPaneCount,
    /// A `Hello` pane's exited flag is neither 0 nor 1.
    BadExitedFlag,
    /// The frame is larger than [`MAX_FRAME`], so it is not written.
    TooLarge,
}

/// One pane as described in a `Hello`: the server's id, the command it
/// runs, its exit code if it has ended, and whether the server
/// auto-approves its permission asks.
#[derive(Clone, Debug, PartialEq, Eq)]
pub struct HelloPane {
    /// The server's pane id.
    pub pane: u64,
    /// The command the pane runs.
    pub command: String,
    /// The exit code, when the process has ended (the pane lingers).
    pub exited: Option<u32>,
    /// Whether the server auto-approves this pane's permission asks.
    pub auto_approve: bool,
}

/// A `HelloPane` as plain values.
pub struct HelloPaneView {
    pub pane: u64,
    pub command: Seq<char>,
    pub exited: Option<u32>,
    pub auto_approve: bool,
}

impl HelloPane {
    /// The pane as plain values.
    pub open spec fn view(&self) -> HelloPaneView {
        HelloPaneView {
            pane: self.pane,
            command: self.command@,
            exited: self.exited,
            auto_approve: self.auto_approve,
        }
    }
}

/// Every message either side can send. Tags 1–63 flow client → server,
/// 64+ server → client — except the hook frames (10/11) and the statusline
/// frame (14), which enter from the hook helpers and are relayed verbatim,
/// and the hook reply (12), written back on the hook's own connection.
#[derive(Clone, Debug, PartialEq, Eq)]
pub enum Frame {
    /// Take over the session.
    Attach,
    /// Keystrokes for a pane.
    Input { pane: u64, bytes: Vec<u8> },
    /// A pane's new size.
    Resize { pane: u64, cols: u16, rows: u16 },
    /// Start a command in a fresh pane.
    Spawn { command: String },
    /// Kill a pane's process and forget it.
    Close { pane: u64 },
    /// Store the client's layout blob for the next attach.
    SetLayout { blob: Vec<u8> },
    /// The client is leaving; the session keeps running.
    Detach,
    /// Kill every pane and end the session.
    Kill,
    /// Liveness probe.
    Ping,
    /// Turn auto-approval on or off for a pane.
    SetAutoApprove { pane: u64, on: bool },
    /// A pane's agent is blocked on a permission request.
    HookBlocked { pane: u64, tool: String, reason: String },
    /// A hook event that answers a permission ask.
    HookClear { pane: u64, tool: String },
    /// A pane's statusline telemetry payload, verbatim.
    Statusline { pane: u64, json: String },
    /// The socket owner's answer to a permission ask.
    HookDecision { allow: bool },
    /// The session state at attach: every pane plus the stored layout.
    Hello { panes: Vec<HelloPane>, layout: Vec<u8> },
    /// A pane's buffered output history.
    Replay { pane: u64, bytes: Vec<u8> },
    /// Live output from a pane.
    Output { pane: u64, bytes: Vec<u8> },
    /// A pane's process ended.
    Exited { pane: u64, code: u32 },
    /// A `Spawn` succeeded.
    PaneOpened { pane: u64, command: String },
    /// The server is dropping this client.
    Shutdown { reason: String },
    /// Reply to `Ping`.
    Pong,
    /// A `Spawn` failed; the session carries on.
    SpawnFailed { error: String },
}

/// A frame as plain values.
pub enum FrameView {
    Attach,
    Input { pane: u64, bytes: Seq<u8> },
    Resize { pane: u64, cols: u16, rows: u16 },
    Spawn { command: Seq<char> },
    Close { pane: u64 },
    SetLayout { blob: Seq<u8> },
    Detach,
    Kill,
    Ping,
    SetAutoApprove { pane: u64, on: bool },
    HookBlocked { pane: u64, tool: Seq<char>, reason: Seq<char> },
    HookClear { pane: u64, tool: Seq<char> },
    Statusline { pane: u64, json: Seq<char> },
    HookDecision { allow: bool },
    Hello { panes: Seq<HelloPaneView>, layout: Seq<u8> },
    Replay { pane: u64, bytes: Seq<u8> },
    Output { pane: u64, bytes: Seq<u8> },
    Exited { pane: u64, code: u32 },
    PaneOpened { pane: u64, command: Seq<char> },
    Shutdown { reason: Seq<char> },
    Pong,
    SpawnFailed { error: Seq<char> },
}

/// Each pane as plain values, in order.
pub open spec fn pane_views(ps: Seq<HelloPane>) -> Seq<HelloPaneView> {
    ps.map_values(|p: HelloPane| p.view())
}

impl Frame {
    /// The frame's wire tag: an append-only compatibility surface, never
    /// reused or renumbered.
    pub fn tag(&self) -> (t: u8)
        ensures
            t == tag_of(self@),
    {
        tag_byte(self)
    }

    /// The frame as plain values.
    pub open spec fn view(&self) -> FrameView {
        match self {
            Frame::Attach => FrameView::Attach,
            Frame::Input { pane, bytes } => FrameView::Input { pane: *pane, bytes: bytes@ },
            Frame::Resize { pane, cols, rows } => FrameView::Resize {
                pane: *pane,
                cols: *cols,
                rows: *rows,
            },
            Frame::Spawn { command } => FrameView::Spawn { command: command@ },
            Frame::Close { pane } => FrameView::Close { pane: *pane },
            Frame::SetLayout { blob } => FrameView::SetLayout { blob: blob@ },
            Frame::Detach => FrameView::Detach,
            Frame::Kill => FrameView::Kill,
            Frame::Ping => FrameView::Ping,
            Frame::SetAutoApprove { pane, on } => FrameView::SetAutoApprove {
                pane: *pane,
                on: *on,
            },
            Frame::HookBlocked { pane, tool, reason } => FrameView::HookBlocked {
                pane: *pane,
                tool: tool@,
                reason: reason@,
            },
            Frame::HookClear { pane, tool } => FrameView::HookClear { pane: *pane, tool: tool@ },
            Frame::Statusline { pane, json } => FrameView::Statusline {
                pane: *pane,
                json: json@,
            },
            Frame::HookDecision { allow } => FrameView::HookDecision { allow: *allow },
            Frame::Hello { panes, layout } => FrameView::Hello {
                panes: pane_views(panes@),
                layout: layout@,
            },
            Frame::Replay { pane, bytes } => FrameView::Replay { pane: *pane, bytes: bytes@ },
            Frame::Output { pane, bytes } => FrameView::Output { pane: *pane, bytes: bytes@ },
            Frame::Exited { pane, code } => FrameView::Exited { pane: *pane, code: *code },
            Frame::PaneOpened { pane, command } => FrameView::PaneOpened {
                pane: *pane,
                command: command@,
            },
            Frame::Shutdown { reason } => FrameView::Shutdown { reason: reason@ },
            Frame::Pong => FrameView::Pong,
            Frame::SpawnFailed { error } => FrameView::SpawnFailed { error: error@ },
        }
    }
}

// ---------------------------------------------------------------------
// The encoding.
// ---------------------------------------------------------------------

/// Little-endian bytes of a `u16`.
pub open spec fn le16(v: u16) -> Seq<u8> {
    seq![(v & 0xff) as u8, ((v >> 8) & 0xff) as u8]
}

/// Little-endian bytes of a `u32`.
pub open spec fn le32(v: u32) -> Seq<u8> {
    seq![
        (v & 0xff) as u8,
        ((v >> 8) & 0xff) as u8,
        ((v >> 16) & 0xff) as u8,
        ((v >> 24) & 0xff) as u8,
    ]
}

/// Little-endian bytes of a `u64`.
pub open spec fn le64(v: u64) -> Seq<u8> {
    seq![
        (v & 0xff) as u8,
        ((v >> 8) & 0xff) as u8,
        ((v >> 16) & 0xff) as u8,
        ((v >> 24) & 0xff) as u8,
        ((v >> 32) & 0xff) as u8,
        ((v >> 40) & 0xff) as u8,
        ((v >> 48) & 0xff) as u8,
        ((v >> 56) & 0xff) as u8,
    ]
}

/// The `u16` little-endian bytes spell.
pub open spec fn from_le16(b: Seq<u8>) -> u16 {
    (b[0] as u16) | ((b[1] as u16) << 8u16)
}

/// The `u32` little-endian bytes spell.
pub open spec fn from_le32(b: Seq<u8>) -> u32 {
    (b[0] as u32) | ((b[1] as u32) << 8u32) | ((b[2] as u32) << 16u32) | ((b[3] as u32) << 24u32)
}

/// The `u64` little-endian bytes spell.
pub open spec fn from_le64(b: Seq<u8>) -> u64 {
    (b[0] as u64) | ((b[1] as u64) << 8u64) | ((b[2] as u64) << 16u64) | ((b[3] as u64)
        << 24u64) | ((b[4] as u64) << 32u64) | ((b[5] as u64) << 40u64) | ((b[6] as u64)
        << 48u64) | ((b[7] as u64) << 56u64)
}

/// A length-prefixed byte field.
pub open spec fn field(b: Seq<u8>) -> Seq<u8> {
    le32(b.len() as u32) + b
}

/// A length-prefixed UTF-8 string field.
pub open spec fn text_field(s: Seq<char>) -> Seq<u8> {
    field(encode_utf8(s))
}

/// A boolean's byte as written.
pub open spec fn bool_byte(b: bool) -> u8 {
    if b {
        1
    } else {
        0
    }
}

/// One `Hello` pane's bytes.
pub open spec fn pane_bytes(p: HelloPaneView) -> Seq<u8> {
    le64(p.pane) + text_field(p.command) + match p.exited {
        Some(code) => seq![1u8] + le32(code),
        None => seq![0u8],
    } + seq![bool_byte(p.auto_approve)]
}

/// The bytes of a run of `Hello` panes, in order.
pub open spec fn panes_bytes(ps: Seq<HelloPaneView>) -> Seq<u8>
    decreases ps.len(),
{
    if ps.len() == 0 {
        Seq::empty()
    } else {
        panes_bytes(ps.drop_last()) + pane_bytes(ps.last())
    }
}

/// A frame's tag.
pub open spec fn tag_of(f: FrameView) -> u8 {
    match f {
        FrameView::Attach => 1,
        FrameView::Input { .. } => 2,
        FrameView::Resize { .. } => 3,
        FrameView::Spawn { .. } => 4,
        FrameView::Close { .. } => 5,
        FrameView::SetLayout { .. } => 6,
        FrameView::Detach => 7,
        FrameView::Kill => 8,
        FrameView::Ping => 9,
        FrameView::HookBlocked { .. } => 10,
        FrameView::HookClear { .. } => 11,
        FrameView::HookDecision { .. } => 12,
        FrameView::SetAutoApprove { .. } => 13,
        FrameView::Statusline { .. } => 14,
        FrameView::Hello { .. } => 64,
        FrameView::Replay { .. } => 65,
        FrameView::Output { .. } => 66,
        FrameView::Exited { .. } => 67,
        FrameView::PaneOpened { .. } => 68,
        FrameView::Shutdown { .. } => 69,
        FrameView::Pong => 70,
        FrameView::SpawnFailed { .. } => 71,
    }
}

/// A frame's payload bytes.
pub open spec fn payload_of(f: FrameView) -> Seq<u8> {
    match f {
        FrameView::Attach | FrameView::Detach | FrameView::Kill | FrameView::Ping
        | FrameView::Pong => Seq::empty(),
        FrameView::Input { pane, bytes } => le64(pane) + field(bytes),
        FrameView::Replay { pane, bytes } => le64(pane) + field(bytes),
        FrameView::Output { pane, bytes } => le64(pane) + field(bytes),
        FrameView::Resize { pane, cols, rows } => le64(pane) + le16(cols) + le16(rows),
        FrameView::Spawn { command } => text_field(command),
        FrameView::Close { pane } => le64(pane),
        FrameView::HookBlocked { pane, tool, reason } => le64(pane) + text_field(tool)
            + text_field(reason),
        FrameView::HookClear { pane, tool } => le64(pane) + text_field(tool),
        FrameView::Statusline { pane, json } => le64(pane) + text_field(json),
        FrameView::HookDecision { allow } => seq![bool_byte(allow)],
        FrameView::SetAutoApprove { pane, on } => le64(pane) + seq![bool_byte(on)],
        FrameView::SetLayout { blob } => field(blob),
        FrameView::Hello { panes, layout } => le64(panes.len() as u64) + panes_bytes(panes)
            + field(layout),
        FrameView::Exited { pane, code } => le64(pane) + le32(code),
        FrameView::PaneOpened { pane, command } => le64(pane) + text_field(command),
        FrameView::Shutdown { reason } => text_field(reason),
        FrameView::SpawnFailed { error } => text_field(error),
    }
}

/// The whole frame on the wire: length, tag, payload.
pub open spec fn encoding(f: FrameView) -> Seq<u8> {
    le32((payload_of(f).len() + 1) as u32) + seq![tag_of(f)] + payload_of(f)
}

/// The frame, tag and payload, is at most [`MAX_FRAME`] bytes: the
/// largest either side writes or reads.
pub open spec fn wire_fits(f: FrameView) -> bool {
    payload_of(f).len() + 1 <= MAX_FRAME
}

// ---------------------------------------------------------------------
// The decoding, one field at a time: each step yields the value and the
// bytes after it, or why it failed.
// ---------------------------------------------------------------------

/// One byte.
pub open spec fn take_u8(p: Seq<u8>) -> Result<(u8, Seq<u8>), ProtoError> {
    if p.len() >= 1 {
        Ok((p[0], p.skip(1)))
    } else {
        Err(ProtoError::Truncated)
    }
}

/// A little-endian `u16`.
pub open spec fn take_u16(p: Seq<u8>) -> Result<(u16, Seq<u8>), ProtoError> {
    if p.len() >= 2 {
        Ok((from_le16(p), p.skip(2)))
    } else {
        Err(ProtoError::Truncated)
    }
}

/// A little-endian `u32`.
pub open spec fn take_u32(p: Seq<u8>) -> Result<(u32, Seq<u8>), ProtoError> {
    if p.len() >= 4 {
        Ok((from_le32(p), p.skip(4)))
    } else {
        Err(ProtoError::Truncated)
    }
}

/// A little-endian `u64`.
pub open spec fn take_u64(p: Seq<u8>) -> Result<(u64, Seq<u8>), ProtoError> {
    if p.len() >= 8 {
        Ok((from_le64(p), p.skip(8)))
    } else {
        Err(ProtoError::Truncated)
    }
}

/// A length-prefixed byte field, its length vetted against [`MAX_FRAME`].
pub open spec fn take_bytes(p: Seq<u8>) -> Result<(Seq<u8>, Seq<u8>), ProtoError> {
    match take_u32(p) {
        Ok((len, rest)) => if len > MAX_FRAME {
            Err(ProtoError::FieldOutOfRange)
        } else if rest.len() < len {
            Err(ProtoError::Truncated)
        } else {
            Ok((rest.take(len as int), rest.skip(len as int)))
        },
        Err(e) => Err(e),
    }
}

/// A length-prefixed UTF-8 string field.
#[verifier::opaque]
pub open spec fn take_text(p: Seq<u8>) -> Result<(Seq<char>, Seq<u8>), ProtoError> {
    match take_bytes(p) {
        Ok((b, rest)) => if valid_utf8(b) {
            Ok((decode_utf8(b), rest))
        } else {
            Err(ProtoError::InvalidUtf8)
        },
        Err(e) => Err(e),
    }
}

/// A `Hello` pane's exit status: a flag byte, then the code when the flag
/// is 1.
pub open spec fn take_exited(p: Seq<u8>) -> Result<(Option<u32>, Seq<u8>), ProtoError> {
    match take_u8(p) {
        Err(e) => Err(e),
        Ok((flag, p)) => if flag == 0 {
            Ok((None, p))
        } else if flag == 1 {
            match take_u32(p) {
                Ok((code, p)) => Ok((Some(code), p)),
                Err(e) => Err(e),
            }
        } else {
            Err(ProtoError::BadExitedFlag)
        },
    }
}

/// One `Hello` pane.
pub open spec fn take_pane(p: Seq<u8>) -> Result<(HelloPaneView, Seq<u8>), ProtoError> {
    match take_u64(p) {
        Err(e) => Err(e),
        Ok((pane, p)) => match take_text(p) {
            Err(e) => Err(e),
            Ok((command, p)) => match take_exited(p) {
                Err(e) => Err(e),
                Ok((exited, p)) => match take_u8(p) {
                    Err(e) => Err(e),
                    Ok((auto, p)) => Ok(
                        (HelloPaneView { pane, command, exited, auto_approve: auto != 0 }, p),
                    ),
                },
            },
        },
    }
}

/// `n` `Hello` panes in a row.
pub open spec fn take_panes(p: Seq<u8>, n: nat) -> Result<(Seq<HelloPaneView>, Seq<u8>), ProtoError>
    decreases n,
{
    if n == 0 {
        Ok((Seq::empty(), p))
    } else {
        match take_pane(p) {
            Err(e) => Err(e),
            Ok((first, rest)) => match take_panes(rest, (n - 1) as nat) {
                Err(e) => Err(e),
                Ok((others, rest)) => Ok((seq![first] + others, rest)),
            },
        }
    }
}

/// The frame, unless bytes remain past its last field.
pub open spec fn finish(f: FrameView, rest: Seq<u8>) -> Result<FrameView, ProtoError> {
    if rest.len() == 0 {
        Ok(f)
    } else {
        Err(ProtoError::TrailingBytes)
    }
}

/// A `pane` followed by a byte field.
pub open spec fn pane_and_bytes(p: Seq<u8>) -> Result<(u64, Seq<u8>, Seq<u8>), ProtoError> {
    match take_u64(p) {
        Err(e) => Err(e),
        Ok((pane, p)) => match take_bytes(p) {
            Err(e) => Err(e),
            Ok((bytes, p)) => Ok((pane, bytes, p)),
        },
    }
}

/// A `pane` followed by a string field.
pub open spec fn pane_and_text(p: Seq<u8>) -> Result<(u64, Seq<char>, Seq<u8>), ProtoError> {
    match take_u64(p) {
        Err(e) => Err(e),
        Ok((pane, p)) => match take_text(p) {
            Err(e) => Err(e),
            Ok((text, p)) => Ok((pane, text, p)),
        },
    }
}

/// A frame of a pane and a byte field: `Input`, `Replay` or `Output`.
pub open spec fn parse_pane_bytes(tag: u8, p: Seq<u8>) -> Result<FrameView, ProtoError> {
    match pane_and_bytes(p) {
        Err(e) => Err(e),
        Ok((pane, bytes, p)) => finish(
            if tag == 2 {
                FrameView::Input { pane, bytes }
            } else if tag == 65 {
                FrameView::Replay { pane, bytes }
            } else {
                FrameView::Output { pane, bytes }
            },
            p,
        ),
    }
}

/// A `Resize` frame.
pub open spec fn parse_resize(p: Seq<u8>) -> Result<FrameView, ProtoError> {
    match take_u64(p) {
        Err(e) => Err(e),
        Ok((pane, p)) => match take_u16(p) {
            Err(e) => Err(e),
            Ok((cols, p)) => match take_u16(p) {
                Err(e) => Err(e),
                Ok((rows, p)) => finish(FrameView::Resize { pane, cols, rows }, p),
            },
        },
    }
}

/// A frame of one string field: `Spawn`, `Shutdown` or `SpawnFailed`.
pub open spec fn parse_text(tag: u8, p: Seq<u8>) -> Result<FrameView, ProtoError> {
    match take_text(p) {
        Err(e) => Err(e),
        Ok((text, p)) => finish(
            if tag == 4 {
                FrameView::Spawn { command: text }
            } else if tag == 69 {
                FrameView::Shutdown { reason: text }
            } else {
                FrameView::SpawnFailed { error: text }
            },
            p,
        ),
    }
}

/// A `HookBlocked` frame.
pub open spec fn parse_hook_blocked(p: Seq<u8>) -> Result<FrameView, ProtoError> {
    match pane_and_text(p) {
        Err(e) => Err(e),
        Ok((pane, tool, p)) => match take_text(p) {
            Err(e) => Err(e),
            Ok((reason, p)) => finish(FrameView::HookBlocked { pane, tool, reason }, p),
        },
    }
}

/// A frame of a pane and a string field: `HookClear`, `Statusline` or
/// `PaneOpened`.
pub open spec fn parse_pane_text(tag: u8, p: Seq<u8>) -> Result<FrameView, ProtoError> {
    match pane_and_text(p) {
        Err(e) => Err(e),
        Ok((pane, text, p)) => finish(
            if tag == 11 {
                FrameView::HookClear { pane, tool: text }
            } else if tag == 14 {
                FrameView::Statusline { pane, json: text }
            } else {
                FrameView::PaneOpened { pane, command: text }
            },
            p,
        ),
    }
}

/// A `SetAutoApprove` frame.
pub open spec fn parse_set_auto_approve(p: Seq<u8>) -> Result<FrameView, ProtoError> {
    match take_u64(p) {
        Err(e) => Err(e),
        Ok((pane, p)) => match take_u8(p) {
            Err(e) => Err(e),
            Ok((b, p)) => finish(FrameView::SetAutoApprove { pane, on: b != 0 }, p),
        },
    }
}

/// A `Hello` frame.
pub open spec fn parse_hello(p: Seq<u8>) -> Result<FrameView, ProtoError> {
    match take_u64(p) {
        Err(e) => Err(e),
        Ok((count, p)) => if count > MAX_HELLO_PANES {
            Err(ProtoError::AbsurdPaneCount)
        } else {
            match take_panes(p, count as nat) {
                Err(e) => Err(e),
                Ok((panes, p)) => match take_bytes(p) {
                    Err(e) => Err(e),
                    Ok((layout, p)) => finish(FrameView::Hello { panes, layout }, p),
                },
            }
        },
    }
}

/// An `Exited` frame.
pub open spec fn parse_exited(p: Seq<u8>) -> Result<FrameView, ProtoError> {
    match take_u64(p) {
        Err(e) => Err(e),
        Ok((pane, p)) => match take_u32(p) {
            Err(e) => Err(e),
            Ok((code, p)) => finish(FrameView::Exited { pane, code }, p),
        },
    }
}

/// The frame a tag and its payload describe.
pub open spec fn parse_payload(tag: u8, p: Seq<u8>) -> Result<FrameView, ProtoError> {
    if tag == 1 {
        finish(FrameView::Attach, p)
    } else if tag == 2 || tag == 65 || tag == 66 {
        parse_pane_bytes(tag, p)
    } else if tag == 3 {
        parse_resize(p)
    } else if tag == 4 || tag == 69 || tag == 71 {
        parse_text(tag, p)
    } else if tag == 5 {
        match take_u64(p) {
            Err(e) => Err(e),
            Ok((pane, p)) => finish(FrameView::Close { pane }, p),
        }
    } else if tag == 6 {
        match take_bytes(p) {
            Err(e) => Err(e),
            Ok((blob, p)) => finish(FrameView::SetLayout { blob }, p),
        }
    } else if tag == 7 {
        finish(FrameView::Detach, p)
    } else if tag == 8 {
        finish(FrameView::Kill, p)
    } else if tag == 9 {
        finish(FrameView::Ping, p)
    } else if tag == 10 {
        parse_hook_blocked(p)
    } else if tag == 11 || tag == 14 || tag == 68 {
        parse_pane_text(tag, p)
    } else if tag == 12 {
        match take_u8(p) {
            Err(e) => Err(e),
            Ok((b, p)) => finish(FrameView::HookDecision { allow: b != 0 }, p),
        }
    } else if tag == 13 {
        parse_set_auto_approve(p)
    } else if tag == 64 {
        parse_hello(p)
    } else if tag == 67 {
        parse_exited(p)
    } else if tag == 70 {
        finish(FrameView::Pong, p)
    } else {
        Err(ProtoError::UnknownTag)
    }
}

/// What reading one frame from `input` yields: `Ok(None)` when the input
/// ends before a whole length prefix (the peer closed between frames),
/// else the frame and how many bytes it spans, or why it is corrupt.
pub open spec fn read_spec(input: Seq<u8>) -> Result<Option<(FrameView, nat)>, ProtoError> {
    if input.len() < 4 {
        Ok(None)
    } else {
        let len = from_le32(input);
        if len == 0 || len > MAX_FRAME {
            Err(ProtoError::LengthOutOfRange)
        } else if input.len() < 4 + len {
            Err(ProtoError::Truncated)
        } else {
            match parse_payload(input[4], input.subrange(5, 4 + len as int)) {
                Ok(f) => Ok(Some((f, (4 + len) as nat))),
                Err(e) => Err(e),
            }
        }
    }
}

// ---------------------------------------------------------------------
// Writing.
// ---------------------------------------------------------------------

fn put_u16(out: &mut Vec<u8>, v: u16)
    ensures
        final(out)@ == old(out)@ + le16(v),
{
    out.push((v & 0xff) as u8);
    out.push(((v >> 8) & 0xff) as u8);
    assert(out@ =~= old(out)@ + le16(v));
}

fn put_u32(out: &mut Vec<u8>, v: u32)
    ensures
        final(out)@ == old(out)@ + le32(v),
{
    out.push((v & 0xff) as u8);
    out.push(((v >> 8) & 0xff) as u8);
    out.push(((v >> 16) & 0xff) as u8);
    out.push(((v >> 24) & 0xff) as u8);
    assert(out@ =~= old(out)@ + le32(v));
}

fn put_u64(out: &mut Vec<u8>, v: u64)
    ensures
        final(out)@ == old(out)@ + le64(v),
{
    out.push((v & 0xff) as u8);
    out.push(((v >> 8) & 0xff) as u8);
    out.push(((v >> 16) & 0xff) as u8);
    out.push(((v >> 24) & 0xff) as u8);
    out.push(((v >> 32) & 0xff) as u8);
    out.push(((v >> 40) & 0xff) as u8);
    out.push(((v >> 48) & 0xff) as u8);
    out.push(((v >> 56) & 0xff) as u8);
    assert(out@ =~= old(out)@ + le64(v));
}

fn put_slice(out: &mut Vec<u8>, bytes: &[u8])
    ensures
        final(out)@ == old(out)@ + bytes@,
{
    let mut i: usize = 0;
    while i < bytes.len()
        invariant
            i <= bytes@.len(),
            out@ == old(out)@ + bytes@.take(i as int),
        decreases bytes@.len() - i,
    {
        out.push(bytes[i]);
        i += 1;
        assert(out@ =~= old(out)@ + bytes@.take(i as int));
    }
    assert(bytes@.take(i as int) =~= bytes@);
}

/// A length-prefixed byte field. The prefix is the length cut to 32 bits,
/// as the wire format has it; a frame too long for that is refused whole.
fn put_field(out: &mut Vec<u8>, bytes: &[u8])
    ensures
        final(out)@ == old(out)@ + field(bytes@),
{
    put_u32(out, bytes.len() as u32);
    put_slice(out, bytes);
    assert(out@ =~= old(out)@ + field(bytes@));
}

fn put_text(out: &mut Vec<u8>, s: &String)
    ensures
        final(out)@ == old(out)@ + text_field(s@),
{
    let b = s.as_str().as_bytes();
    put_field(out, b);
}

fn put_bool(out: &mut Vec<u8>, b: bool)
    ensures
        final(out)@ == old(out)@.push(bool_byte(b)),
{
    out.push(if b { 1u8 } else { 0u8 });
}

fn put_pane(out: &mut Vec<u8>, p: &HelloPane)
    ensures
        final(out)@ == old(out)@ + pane_bytes(p.view()),
{
    put_u64(out, p.pane);
    put_text(out, &p.command);
    match p.exited {
        Some(code) => {
            out.push(1u8);
            put_u32(out, code);
        },
        None => {
            out.push(0u8);
        },
    }
    put_bool(out, p.auto_approve);
    assert(out@ =~= old(out)@ + pane_bytes(p.view()));
}

fn put_panes(out: &mut Vec<u8>, panes: &Vec<HelloPane>)
    ensures
        final(out)@ == old(out)@ + panes_bytes(pane_views(panes@)),
{
    let mut i: usize = 0;
    while i < panes.len()
        invariant
            i <= panes@.len(),
            out@ == old(out)@ + panes_bytes(pane_views(panes@.take(i as int))),
        decreases panes@.len() - i,
    {
        put_pane(out, &panes[i]);
        proof {
            let before = pane_views(panes@.take(i as int));
            let after = pane_views(panes@.take(i + 1));
            assert(after.drop_last() =~= before);
            assert(after.last() == panes@[i as int].view());
        }
        i += 1;
        assert(out@ =~= old(out)@ + panes_bytes(pane_views(panes@.take(i as int))));
    }
    assert(panes@.take(i as int) =~= panes@);
}

fn tag_byte(frame: &Frame) -> (t: u8)
    ensures
        t == tag_of(frame@),
{
    match frame {
        Frame::Attach => 1,
        Frame::Input { .. } => 2,
        Frame::Resize { .. } => 3,
        Frame::Spawn { .. } => 4,
        Frame::Close { .. } => 5,
        Frame::SetLayout { .. } => 6,
        Frame::Detach => 7,
        Frame::Kill => 8,
        Frame::Ping => 9,
        Frame::HookBlocked { .. } => 10,
        Frame::HookClear { .. } => 11,
        Frame::HookDecision { .. } => 12,
        Frame::SetAutoApprove { .. } => 13,
        Frame::Statusline { .. } => 14,
        Frame::Hello { .. } => 64,
        Frame::Replay { .. } => 65,
        Frame::Output { .. } => 66,
        Frame::Exited { .. } => 67,
        Frame::PaneOpened { .. } => 68,
        Frame::Shutdown { .. } => 69,
        Frame::Pong => 70,
        Frame::SpawnFailed { .. } => 71,
    }
}

fn payload(frame: &Frame) -> (p: Vec<u8>)
    ensures
        p@ == payload_of(frame@),
{
    let mut p: Vec<u8> = Vec::new();
    match frame {
        Frame::Attach | Frame::Detach | Frame::Kill | Frame::Ping | Frame::Pong => {},
        Frame::Input { pane, bytes } | Frame::Replay { pane, bytes } | Frame::Output {
            pane,
            bytes,
        } => {
            put_u64(&mut p, *pane);
            put_field(&mut p, bytes.as_slice());
        },
        Frame::Resize { pane, cols, rows } => {
            put_u64(&mut p, *pane);
            put_u16(&mut p, *cols);
            put_u16(&mut p, *rows);
        },
        Frame::Spawn { command } => put_text(&mut p, command),
        Frame::Close { pane } => put_u64(&mut p, *pane),
        Frame::HookBlocked { pane, tool, reason } => {
            put_u64(&mut p, *pane);
            put_text(&mut p, tool);
            put_text(&mut p, reason);
        },
        Frame::HookClear { pane, tool } => {
            put_u64(&mut p, *pane);
            put_text(&mut p, tool);
        },
        Frame::Statusline { pane, json } => {
            put_u64(&mut p, *pane);
            put_text(&mut p, json);
        },
        Frame::HookDecision { allow } => put_bool(&mut p, *allow),
        Frame::SetAutoApprove { pane, on } => {
            put_u64(&mut p, *pane);
            put_bool(&mut p, *on);
        },
        Frame::SetLayout { blob } => put_field(&mut p, blob.as_slice()),
        Frame::Hello { panes, layout } => {
            put_u64(&mut p, panes.len() as u64);
            put_panes(&mut p, panes);
            put_field(&mut p, layout.as_slice());
        },
        Frame::Exited { pane, code } => {
            put_u64(&mut p, *pane);
            put_u32(&mut p, *code);
        },
        Frame::PaneOpened { pane, command } => {
            put_u64(&mut p, *pane);
            put_text(&mut p, command);
        },
        Frame::Shutdown { reason } => put_text(&mut p, reason),
        Frame::SpawnFailed { error } => put_text(&mut p, error),
    }
    assert(p@ =~= payload_of(frame@));
    p
}

/// Append one frame to `w`: its length, its tag, its payload. A frame
/// larger than [`MAX_FRAME`] (tag plus payload) is refused whole with
/// [`ProtoError::TooLarge`] and `w` is left as it was.
pub fn write_frame(w: &mut Vec<u8>, frame: &Frame) -> (r: Result<(), ProtoError>)
    ensures
        wire_fits(frame@) ==> r == Ok::<(), ProtoError>(()) && final(w)@ == old(w)@ + encoding(
            frame@,
        ),
        !wire_fits(frame@) ==> r == Err::<(), ProtoError>(ProtoError::TooLarge) && final(w)@
            == old(w)@,
{
    let p = payload(frame);
    if p.len() as u64 >= MAX_FRAME as u64 {
        return Err(ProtoError::TooLarge);
    }
    let len: u32 = p.len() as u32 + 1;
    put_u32(w, len);
    w.push(tag_byte(frame));
    put_slice(w, p.as_slice());
    assert(w@ =~= old(w)@ + encoding(frame@));
    Ok(())
}

// ---------------------------------------------------------------------
// Reading. Each step reads one field of `buf` at `at` and yields the value
// and the position after it, as the matching step of the decoding says.
// ---------------------------------------------------------------------

/// `String::from_utf8`: the bytes as a string when they are UTF-8, as the
/// standard library documents it; `None` when they are not.
#[verifier::external_body]
fn string_from_utf8(bytes: Vec<u8>) -> (r: Option<String>)
    ensures
        match r {
            Some(s) => valid_utf8(bytes@) && s@ == decode_utf8(bytes@),
            None => !valid_utf8(bytes@),
        },
{
    String::from_utf8(bytes).ok()
}

fn get_u8(buf: &[u8], at: usize) -> (r: Result<(u8, usize), ProtoError>)
    requires
        at <= buf@.len(),
    ensures
        match r {
            Ok((v, next)) => at <= next <= buf@.len() && take_u8(buf@.skip(at as int)) == Ok::<
                (u8, Seq<u8>),
                ProtoError,
            >((v, buf@.skip(next as int))),
            Err(e) => take_u8(buf@.skip(at as int)) == Err::<(u8, Seq<u8>), ProtoError>(e),
        },
{
    if buf.len() - at < 1 {
        return Err(ProtoError::Truncated);
    }
    let v = buf[at];
    assert(buf@.skip(at as int).skip(1) =~= buf@.skip(at + 1));
    Ok((v, at + 1))
}

fn get_u16(buf: &[u8], at: usize) -> (r: Result<(u16, usize), ProtoError>)
    requires
        at <= buf@.len(),
    ensures
        match r {
            Ok((v, next)) => at <= next <= buf@.len() && take_u16(buf@.skip(at as int)) == Ok::<
                (u16, Seq<u8>),
                ProtoError,
            >((v, buf@.skip(next as int))),
            Err(e) => take_u16(buf@.skip(at as int)) == Err::<(u16, Seq<u8>), ProtoError>(e),
        },
{
    if buf.len() - at < 2 {
        return Err(ProtoError::Truncated);
    }
    let v: u16 = (buf[at] as u16) | ((buf[at + 1] as u16) << 8u16);
    assert(buf@.skip(at as int).skip(2) =~= buf@.skip(at + 2));
    Ok((v, at + 2))
}

fn get_u32(buf: &[u8], at: usize) -> (r: Result<(u32, usize), ProtoError>)
    requires
        at <= buf@.len(),
    ensures
        match r {
            Ok((v, next)) => at <= next <= buf@.len() && take_u32(buf@.skip(at as int)) == Ok::<
                (u32, Seq<u8>),
                ProtoError,
            >((v, buf@.skip(next as int))),
            Err(e) => take_u32(buf@.skip(at as int)) == Err::<(u32, Seq<u8>), ProtoError>(e),
        },
{
    if buf.len() - at < 4 {
        return Err(ProtoError::Truncated);
    }
    let v: u32 = (buf[at] as u32) | ((buf[at + 1] as u32) << 8u32) | ((buf[at + 2] as u32)
        << 16u32) | ((buf[at + 3] as u32) << 24u32);
    assert(buf@.skip(at as int).skip(4) =~= buf@.skip(at + 4));
    Ok((v, at + 4))
}

fn get_u64(buf: &[u8], at: usize) -> (r: Result<(u64, usize), ProtoError>)
    requires
        at <= buf@.len(),
    ensures
        match r {
            Ok((v, next)) => at <= next <= buf@.len() && take_u64(buf@.skip(at as int)) == Ok::<
                (u64, Seq<u8>),
                ProtoError,
            >((v, buf@.skip(next as int))),
            Err(e) => take_u64(buf@.skip(at as int)) == Err::<(u64, Seq<u8>), ProtoError>(e),
        },
{
    if buf.len() - at < 8 {
        return Err(ProtoError::Truncated);
    }
    let v: u64 = (buf[at] as u64) | ((buf[at + 1] as u64) << 8u64) | ((buf[at + 2] as u64)
        << 16u64) | ((buf[at + 3] as u64) << 24u64) | ((buf[at + 4] as u64) << 32u64) | ((buf[at
        + 5] as u64) << 40u64) | ((buf[at + 6] as u64) << 48u64) | ((buf[at + 7] as u64)
        << 56u64);
    assert(buf@.skip(at as int).skip(8) =~= buf@.skip(at + 8));
    Ok((v, at + 8))
}

fn get_bytes(buf: &[u8], at: usize) -> (r: Result<(Vec<u8>, usize), ProtoError>)
    requires
        at <= buf@.len(),
    ensures
        match r {
            Ok((v, next)) => at <= next <= buf@.len() && take_bytes(buf@.skip(at as int)) == Ok::<
                (Seq<u8>, Seq<u8>),
                ProtoError,
            >((v@, buf@.skip(next as int))),
            Err(e) => take_bytes(buf@.skip(at as int)) == Err::<(Seq<u8>, Seq<u8>), ProtoError>(e),
        },
{
    let (len, at) = match get_u32(buf, at) {
        Ok(x) => x,
        Err(e) => return Err(e),
    };
    if len > MAX_FRAME {
        return Err(ProtoError::FieldOutOfRange);
    }
    if ((buf.len() - at) as u64) < len as u64 {
        return Err(ProtoError::Truncated);
    }
    let end: usize = at + len as usize;
    let v = vstd::slice::slice_to_vec(vstd::slice::slice_subrange(buf, at, end));
    assert(buf@.skip(at as int).take(len as int) =~= v@);
    assert(buf@.skip(at as int).skip(len as int) =~= buf@.skip(end as int));
    Ok((v, end))
}

fn get_text(buf: &[u8], at: usize) -> (r: Result<(String, usize), ProtoError>)
    requires
        at <= buf@.len(),
    ensures
        match r {
            Ok((v, next)) => at <= next <= buf@.len() && take_text(buf@.skip(at as int)) == Ok::<
                (Seq<char>, Seq<u8>),
                ProtoError,
            >((v@, buf@.skip(next as int))),
            Err(e) => take_text(buf@.skip(at as int)) == Err::<(Seq<char>, Seq<u8>), ProtoError>(e),
        },
{
    proof {
        reveal(take_text);
    }
    let (bytes, at) = match get_bytes(buf, at) {
        Ok(x) => x,
        Err(e) => return Err(e),
    };
    match string_from_utf8(bytes) {
        Some(s) => Ok((s, at)),
        None => Err(ProtoError::InvalidUtf8),
    }
}

fn get_exited(buf: &[u8], at: usize) -> (r: Result<(Option<u32>, usize), ProtoError>)
    requires
        at <= buf@.len(),
    ensures
        match r {
            Ok((v, next)) => at <= next <= buf@.len() && take_exited(buf@.skip(at as int)) == Ok::<
                (Option<u32>, Seq<u8>),
                ProtoError,
            >((v, buf@.skip(next as int))),
            Err(e) => take_exited(buf@.skip(at as int)) == Err::<(Option<u32>, Seq<u8>), ProtoError>(
                e,
            ),
        },
{
    let (flag, at) = match get_u8(buf, at) {
        Ok(x) => x,
        Err(e) => return Err(e),
    };
    if flag == 0 {
        Ok((None, at))
    } else if flag == 1 {
        match get_u32(buf, at) {
            Ok((code, at)) => Ok((Some(code), at)),
            Err(e) => Err(e),
        }
    } else {
        Err(ProtoError::BadExitedFlag)
    }
}

fn get_pane(buf: &[u8], at: usize) -> (r: Result<(HelloPane, usize), ProtoError>)
    requires
        at <= buf@.len(),
    ensures
        match r {
            Ok((v, next)) => at <= next <= buf@.len() && take_pane(buf@.skip(at as int)) == Ok::<
                (HelloPaneView, Seq<u8>),
                ProtoError,
            >((v.view(), buf@.skip(next as int))),
            Err(e) => take_pane(buf@.skip(at as int)) == Err::<(HelloPaneView, Seq<u8>), ProtoError>(
                e,
            ),
        },
{
    let (pane, at) = match get_u64(buf, at) {
        Ok(x) => x,
        Err(e) => return Err(e),
    };
    let (command, at) = match get_text(buf, at) {
        Ok(x) => x,
        Err(e) => return Err(e),
    };
    let (exited, at) = match get_exited(buf, at) {
        Ok(x) => x,
        Err(e) => return Err(e),
    };
    let (auto, at) = match get_u8(buf, at) {
        Ok(x) => x,
        Err(e) => return Err(e),
    };
    Ok((HelloPane { pane, command, exited, auto_approve: auto != 0 }, at))
}

#[verifier::rlimit(30)]
fn get_panes(buf: &[u8], at: usize, count: u64) -> (r: Result<(Vec<HelloPane>, usize), ProtoError>)
    requires
        at <= buf@.len(),
    ensures
        match r {
            Ok((v, next)) => at <= next <= buf@.len() && take_panes(buf@.skip(at as int), count as nat)
                == Ok::<(Seq<HelloPaneView>, Seq<u8>), ProtoError>(
                (pane_views(v@), buf@.skip(next as int)),
            ),
            Err(e) => take_panes(buf@.skip(at as int), count as nat) == Err::<
                (Seq<HelloPaneView>, Seq<u8>),
                ProtoError,
            >(e),
        },
{
    let mut panes: Vec<HelloPane> = Vec::new();
    let mut pos = at;
    let mut i: u64 = 0;
    while i < count
        invariant
            i <= count,
            at <= pos <= buf@.len(),
            take_panes(buf@.skip(at as int), count as nat) == match take_panes(
                buf@.skip(pos as int),
                (count - i) as nat,
            ) {
                Ok((others, rest)) => Ok((pane_views(panes@) + others, rest)),
                Err(e) => Err(e),
            },
        decreases count - i,
    {
        match get_pane(buf, pos) {
            Ok((p, next)) => {
                proof {
                    let others = take_panes(buf@.skip(next as int), (count - i - 1) as nat);
                    assert(pane_views(panes@.push(p)) =~= pane_views(panes@).push(p.view()));
                    match others {
                        Ok((o, rest)) => {
                            assert(pane_views(panes@) + (seq![p.view()] + o) =~= pane_views(
                                panes@.push(p),
                            ) + o);
                        },
                        Err(_) => {},
                    }
                }
                panes.push(p);
                pos = next;
            },
            Err(e) => {
                assert(take_panes(buf@.skip(pos as int), (count - i) as nat) == Err::<
                    (Seq<HelloPaneView>, Seq<u8>),
                    ProtoError,
                >(e));
                return Err(e);
            },
        }
        i += 1;
    }
    assert(pane_views(panes@) + Seq::<HelloPaneView>::empty() =~= pane_views(panes@));
    Ok((panes, pos))
}

/// Whether the cursor stands at the end of the payload.
fn at_end(buf: &[u8], at: usize) -> (b: bool)
    requires
        at <= buf@.len(),
    ensures
        b == (buf@.skip(at as int).len() == 0),
{
    at == buf.len()
}

fn get_pane_and_bytes(buf: &[u8], at: usize) -> (r: Result<(u64, Vec<u8>, usize), ProtoError>)
    requires
        at <= buf@.len(),
    ensures
        match r {
            Ok((pane, v, next)) => at <= next <= buf@.len() && pane_and_bytes(buf@.skip(at as int))
                == Ok::<(u64, Seq<u8>, Seq<u8>), ProtoError>((pane, v@, buf@.skip(next as int))),
            Err(e) => pane_and_bytes(buf@.skip(at as int)) == Err::<
                (u64, Seq<u8>, Seq<u8>),
                ProtoError,
            >(e),
        },
{
    let (pane, at) = match get_u64(buf, at) {
        Ok(x) => x,
        Err(e) => return Err(e),
    };
    match get_bytes(buf, at) {
        Ok((v, at)) => Ok((pane, v, at)),
        Err(e) => Err(e),
    }
}

fn get_pane_and_text(buf: &[u8], at: usize) -> (r: Result<(u64, String, usize), ProtoError>)
    requires
        at <= buf@.len(),
    ensures
        match r {
            Ok((pane, v, next)) => at <= next <= buf@.len() && pane_and_text(buf@.skip(at as int))
                == Ok::<(u64, Seq<char>, Seq<u8>), ProtoError>((pane, v@, buf@.skip(next as int))),
            Err(e) => pane_and_text(buf@.skip(at as int)) == Err::<
                (u64, Seq<char>, Seq<u8>),
                ProtoError,
            >(e),
        },
{
    let (pane, at) = match get_u64(buf, at) {
        Ok(x) => x,
        Err(e) => return Err(e),
    };
    match get_text(buf, at) {
        Ok((v, at)) => Ok((pane, v, at)),
        Err(e) => Err(e),
    }
}

/// The frame when the cursor has reached the payload's end.
fn finished(f: Frame, buf: &[u8], at: usize) -> (r: Result<Frame, ProtoError>)
    requires
        at <= buf@.len(),
    ensures
        match r {
            Ok(g) => finish(f@, buf@.skip(at as int)) == Ok::<FrameView, ProtoError>(g@),
            Err(e) => finish(f@, buf@.skip(at as int)) == Err::<FrameView, ProtoError>(e),
        },
{
    if at_end(buf, at) {
        Ok(f)
    } else {
        Err(ProtoError::TrailingBytes)
    }
}

fn parse_pane_bytes_frame(tag: u8, buf: &[u8]) -> (r: Result<Frame, ProtoError>)
    ensures
        match r {
            Ok(f) => parse_pane_bytes(tag, buf@) == Ok::<FrameView, ProtoError>(f@),
            Err(e) => parse_pane_bytes(tag, buf@) == Err::<FrameView, ProtoError>(e),
        },
{
    assert(buf@.skip(0) =~= buf@);
    match get_pane_and_bytes(buf, 0) {
        Err(e) => Err(e),
        Ok((pane, bytes, at)) => finished(
            if tag == 2 {
                Frame::Input { pane, bytes }
            } else if tag == 65 {
                Frame::Replay { pane, bytes }
            } else {
                Frame::Output { pane, bytes }
            },
            buf,
            at,
        ),
    }
}

fn parse_resize_frame(buf: &[u8]) -> (r: Result<Frame, ProtoError>)
    ensures
        match r {
            Ok(f) => parse_resize(buf@) == Ok::<FrameView, ProtoError>(f@),
            Err(e) => parse_resize(buf@) == Err::<FrameView, ProtoError>(e),
        },
{
    assert(buf@.skip(0) =~= buf@);
    match get_u64(buf, 0) {
        Err(e) => Err(e),
        Ok((pane, at)) => match get_u16(buf, at) {
            Err(e) => Err(e),
            Ok((cols, at)) => match get_u16(buf, at) {
                Err(e) => Err(e),
                Ok((rows, at)) => finished(Frame::Resize { pane, cols, rows }, buf, at),
            },
        },
    }
}

fn parse_text_frame(tag: u8, buf: &[u8]) -> (r: Result<Frame, ProtoError>)
    ensures
        match r {
            Ok(f) => parse_text(tag, buf@) == Ok::<FrameView, ProtoError>(f@),
            Err(e) => parse_text(tag, buf@) == Err::<FrameView, ProtoError>(e),
        },
{
    assert(buf@.skip(0) =~= buf@);
    match get_text(buf, 0) {
        Err(e) => Err(e),
        Ok((text, at)) => finished(
            if tag == 4 {
                Frame::Spawn { command: text }
            } else if tag == 69 {
                Frame::Shutdown { reason: text }
            } else {
                Frame::SpawnFailed { error: text }
            },
            buf,
            at,
        ),
    }
}

fn parse_hook_blocked_frame(buf: &[u8]) -> (r: Result<Frame, ProtoError>)
    ensures
        match r {
            Ok(f) => parse_hook_blocked(buf@) == Ok::<FrameView, ProtoError>(f@),
            Err(e) => parse_hook_blocked(buf@) == Err::<FrameView, ProtoError>(e),
        },
{
    assert(buf@.skip(0) =~= buf@);
    match get_pane_and_text(buf, 0) {
        Err(e) => Err(e),
        Ok((pane, tool, at)) => match get_text(buf, at) {
            Err(e) => Err(e),
            Ok((reason, at)) => finished(Frame::HookBlocked { pane, tool, reason }, buf, at),
        },
    }
}

fn parse_pane_text_frame(tag: u8, buf: &[u8]) -> (r: Result<Frame, ProtoError>)
    ensures
        match r {
            Ok(f) => parse_pane_text(tag, buf@) == Ok::<FrameView, ProtoError>(f@),
            Err(e) => parse_pane_text(tag, buf@) == Err::<FrameView, ProtoError>(e),
        },
{
    assert(buf@.skip(0) =~= buf@);
    match get_pane_and_text(buf, 0) {
        Err(e) => Err(e),
        Ok((pane, text, at)) => finished(
            if tag == 11 {
                Frame::HookClear { pane, tool: text }
            } else if tag == 14 {
                Frame::Statusline { pane, json: text }
            } else {
                Frame::PaneOpened { pane, command: text }
            },
            buf,
            at,
        ),
    }
}

fn parse_set_auto_approve_frame(buf: &[u8]) -> (r: Result<Frame, ProtoError>)
    ensures
        match r {
            Ok(f) => parse_set_auto_approve(buf@) == Ok::<FrameView, ProtoError>(f@),
            Err(e) => parse_set_auto_approve(buf@) == Err::<FrameView, ProtoError>(e),
        },
{
    assert(buf@.skip(0) =~= buf@);
    match get_u64(buf, 0) {
        Err(e) => Err(e),
        Ok((pane, at)) => match get_u8(buf, at) {
            Err(e) => Err(e),
            Ok((b, at)) => finished(Frame::SetAutoApprove { pane, on: b != 0 }, buf, at),
        },
    }
}

fn parse_hello_frame(buf: &[u8]) -> (r: Result<Frame, ProtoError>)
    ensures
        match r {
            Ok(f) => parse_hello(buf@) == Ok::<FrameView, ProtoError>(f@),
            Err(e) => parse_hello(buf@) == Err::<FrameView, ProtoError>(e),
        },
{
    assert(buf@.skip(0) =~= buf@);
    match get_u64(buf, 0) {
        Err(e) => Err(e),
        Ok((count, at)) => if count > MAX_HELLO_PANES {
            Err(ProtoError::AbsurdPaneCount)
        } else {
            match get_panes(buf, at, count) {
                Err(e) => Err(e),
                Ok((panes, at)) => match get_bytes(buf, at) {
                    Err(e) => Err(e),
                    Ok((layout, at)) => finished(Frame::Hello { panes, layout }, buf, at),
                },
            }
        },
    }
}

fn parse_exited_frame(buf: &[u8]) -> (r: Result<Frame, ProtoError>)
    ensures
        match r {
            Ok(f) => parse_exited(buf@) == Ok::<FrameView, ProtoError>(f@),
            Err(e) => parse_exited(buf@) == Err::<FrameView, ProtoError>(e),
        },
{
    assert(buf@.skip(0) =~= buf@);
    match get_u64(buf, 0) {
        Err(e) => Err(e),
        Ok((pane, at)) => match get_u32(buf, at) {
            Err(e) => Err(e),
            Ok((code, at)) => finished(Frame::Exited { pane, code }, buf, at),
        },
    }
}

/// The frame a tag and its payload describe.
fn parse_frame(tag: u8, buf: &[u8]) -> (r: Result<Frame, ProtoError>)
    ensures
        match r {
            Ok(f) => parse_payload(tag, buf@) == Ok::<FrameView, ProtoError>(f@),
            Err(e) => parse_payload(tag, buf@) == Err::<FrameView, ProtoError>(e),
        },
{
    assert(buf@.skip(0) =~= buf@);
    if tag == 1 {
        finished(Frame::Attach, buf, 0)
    } else if tag == 2 || tag == 65 || tag == 66 {
        parse_pane_bytes_frame(tag, buf)
    } else if tag == 3 {
        parse_resize_frame(buf)
    } else if tag == 4 || tag == 69 || tag == 71 {
        parse_text_frame(tag, buf)
    } else if tag == 5 {
        match get_u64(buf, 0) {
            Err(e) => Err(e),
            Ok((pane, at)) => finished(Frame::Close { pane }, buf, at),
        }
    } else if tag == 6 {
        match get_bytes(buf, 0) {
            Err(e) => Err(e),
            Ok((blob, at)) => finished(Frame::SetLayout { blob }, buf, at),
        }
    } else if tag == 7 {
        finished(Frame::Detach, buf, 0)
    } else if tag == 8 {
        finished(Frame::Kill, buf, 0)
    } else if tag == 9 {
        finished(Frame::Ping, buf, 0)
    } else if tag == 10 {
        parse_hook_blocked_frame(buf)
    } else if tag == 11 || tag == 14 || tag == 68 {
        parse_pane_text_frame(tag, buf)
    } else if tag == 12 {
        match get_u8(buf, 0) {
            Err(e) => Err(e),
            Ok((b, at)) => finished(Frame::HookDecision { allow: b != 0 }, buf, at),
        }
    } else if tag == 13 {
        parse_set_auto_approve_frame(buf)
    } else if tag == 64 {
        parse_hello_frame(buf)
    } else if tag == 67 {
        parse_exited_frame(buf)
    } else if tag == 70 {
        finished(Frame::Pong, buf, 0)
    } else {
        Err(ProtoError::UnknownTag)
    }
}

/// How many bytes reading one frame from `input` takes off it: a length
/// prefix that is refused leaves the rest, and input that ends early is
/// used up.
pub open spec fn consumed(input: Seq<u8>) -> nat {
    if input.len() < 4 {
        input.len()
    } else {
        let len = from_le32(input);
        if len == 0 || len > MAX_FRAME {
            4
        } else if input.len() < 4 + len {
            input.len()
        } else {
            (4 + len) as nat
        }
    }
}

/// Read one frame off the front of `r`. `Ok(None)` means the input ended
/// cleanly between frames. Corrupt input is an error, never a panic.
pub fn read_frame(r: &mut &[u8]) -> (res: Result<Option<Frame>, ProtoError>)
    ensures
        match read_spec(old(r)@) {
            Ok(None) => res == Ok::<Option<Frame>, ProtoError>(None),
            Ok(Some((f, n))) => res is Ok && res->Ok_0 is Some && res->Ok_0->Some_0@ == f,
            Err(e) => res == Err::<Option<Frame>, ProtoError>(e),
        },
        final(r)@ == old(r)@.skip(consumed(old(r)@) as int),
{
    let input: &[u8] = *r;
    if input.len() < 4 {
        *r = vstd::slice::slice_subrange(input, input.len(), input.len());
        return Ok(None);
    }
    let len: u32 = (input[0] as u32) | ((input[1] as u32) << 8u32) | ((input[2] as u32) << 16u32)
        | ((input[3] as u32) << 24u32);
    if len == 0 || len > MAX_FRAME {
        *r = vstd::slice::slice_subrange(input, 4, input.len());
        return Err(ProtoError::LengthOutOfRange);
    }
    if ((input.len() - 4) as u64) < len as u64 {
        *r = vstd::slice::slice_subrange(input, input.len(), input.len());
        return Err(ProtoError::Truncated);
    }
    let end: usize = 4 + len as usize;
    let tag = input[4];
    let body = vstd::slice::slice_subrange(input, 5, end);
    *r = vstd::slice::slice_subrange(input, end, input.len());
    match parse_frame(tag, body) {
        Ok(f) => Ok(Some(f)),
        Err(e) => Err(e),
    }
}

// ---------------------------------------------------------------------
// Round trip: what is written reads back as itself.
// ---------------------------------------------------------------------

proof fn lemma_u16_round_trip(v: u16, rest: Seq<u8>)
    ensures
        take_u16(le16(v) + rest) == Ok::<(u16, Seq<u8>), ProtoError>((v, rest)),
{
    let b = le16(v) + rest;
    let b0 = (v & 0xff) as u8;
    let b1 = ((v >> 8) & 0xff) as u8;
    assert(b[0] == b0 && b[1] == b1);
    assert((b0 as u16) | ((b1 as u16) << 8u16) == v) by (bit_vector)
        requires
            b0 == (v & 0xff) as u8,
            b1 == ((v >> 8) & 0xff) as u8,
    ;
    assert(b.skip(2) =~= rest);
}

proof fn lemma_u32_round_trip(v: u32, rest: Seq<u8>)
    ensures
        take_u32(le32(v) + rest) == Ok::<(u32, Seq<u8>), ProtoError>((v, rest)),
{
    let b = le32(v) + rest;
    let b0 = (v & 0xff) as u8;
    let b1 = ((v >> 8) & 0xff) as u8;
    let b2 = ((v >> 16) & 0xff) as u8;
    let b3 = ((v >> 24) & 0xff) as u8;
    assert(b[0] == b0 && b[1] == b1 && b[2] == b2 && b[3] == b3);
    assert((b0 as u32) | ((b1 as u32) << 8u32) | ((b2 as u32) << 16u32) | ((b3 as u32) << 24u32)
        == v) by (bit_vector)
        requires
            b0 == (v & 0xff) as u8,
            b1 == ((v >> 8) & 0xff) as u8,
            b2 == ((v >> 16) & 0xff) as u8,
            b3 == ((v >> 24) & 0xff) as u8,
    ;
    assert(b.skip(4) =~= rest);
}

proof fn lemma_u64_round_trip(v: u64, rest: Seq<u8>)
    ensures
        take_u64(le64(v) + rest) == Ok::<(u64, Seq<u8>), ProtoError>((v, rest)),
{
    let b = le64(v) + rest;
    let b0 = (v & 0xff) as u8;
    let b1 = ((v >> 8) & 0xff) as u8;
    let b2 = ((v >> 16) & 0xff) as u8;
    let b3 = ((v >> 24) & 0xff) as u8;
    let b4 = ((v >> 32) & 0xff) as u8;
    let b5 = ((v >> 40) & 0xff) as u8;
    let b6 = ((v >> 48) & 0xff) as u8;
    let b7 = ((v >> 56) & 0xff) as u8;
    assert(b[0] == b0 && b[1] == b1 && b[2] == b2 && b[3] == b3);
    assert(b[4] == b4 && b[5] == b5 && b[6] == b6 && b[7] == b7);
    assert((b0 as u64) | ((b1 as u64) << 8u64) | ((b2 as u64) << 16u64) | ((b3 as u64) << 24u64)
        | ((b4 as u64) << 32u64) | ((b5 as u64) << 40u64) | ((b6 as u64) << 48u64) | ((b7 as u64)
        << 56u64) == v) by (bit_vector)
        requires
            b0 == (v & 0xff) as u8,
            b1 == ((v >> 8) & 0xff) as u8,
            b2 == ((v >> 16) & 0xff) as u8,
            b3 == ((v >> 24) & 0xff) as u8,
            b4 == ((v >> 32) & 0xff) as u8,
            b5 == ((v >> 40) & 0xff) as u8,
            b6 == ((v >> 48) & 0xff) as u8,
            b7 == ((v >> 56) & 0xff) as u8,
    ;
    assert(b.skip(8) =~= rest);
}

proof fn lemma_bytes_round_trip(b: Seq<u8>, rest: Seq<u8>)
    requires
        b.len() <= MAX_FRAME,
    ensures
        take_bytes(field(b) + rest) == Ok::<(Seq<u8>, Seq<u8>), ProtoError>((b, rest)),
{
    assert(field(b) + rest =~= le32(b.len() as u32) + (b + rest));
    lemma_u32_round_trip(b.len() as u32, b + rest);
    assert((b + rest).take(b.len() as int) =~= b);
    assert((b + rest).skip(b.len() as int) =~= rest);
}

proof fn lemma_text_round_trip(t: Seq<char>, rest: Seq<u8>)
    requires
        encode_utf8(t).len() <= MAX_FRAME,
    ensures
        take_text(text_field(t) + rest) == Ok::<(Seq<char>, Seq<u8>), ProtoError>((t, rest)),
{
    reveal(take_text);
    lemma_bytes_round_trip(encode_utf8(t), rest);
    vstd::utf8::encode_utf8_valid_utf8(t);
    vstd::utf8::encode_utf8_decode_utf8(t);
}

proof fn lemma_exited_round_trip(exited: Option<u32>, rest: Seq<u8>)
    ensures
        take_exited(
            match exited {
                Some(code) => seq![1u8] + le32(code),
                None => seq![0u8],
            } + rest,
        ) == Ok::<(Option<u32>, Seq<u8>), ProtoError>((exited, rest)),
{
    match exited {
        Some(code) => {
            let b = seq![1u8] + le32(code) + rest;
            assert(b.skip(1) =~= le32(code) + rest);
            lemma_u32_round_trip(code, rest);
        },
        None => {
            let b = seq![0u8] + rest;
            assert(b.skip(1) =~= rest);
        },
    }
}

proof fn lemma_pane_round_trip(p: HelloPaneView, rest: Seq<u8>)
    requires
        encode_utf8(p.command).len() <= MAX_FRAME,
    ensures
        take_pane(pane_bytes(p) + rest) == Ok::<(HelloPaneView, Seq<u8>), ProtoError>((p, rest)),
{
    let flag_and_code = match p.exited {
        Some(code) => seq![1u8] + le32(code),
        None => seq![0u8],
    };
    let last = seq![bool_byte(p.auto_approve)] + rest;
    let tail = flag_and_code + last;
    let after_pane = text_field(p.command) + tail;
    assert(pane_bytes(p) + rest =~= le64(p.pane) + after_pane);
    lemma_u64_round_trip(p.pane, after_pane);
    lemma_text_round_trip(p.command, tail);
    lemma_exited_round_trip(p.exited, last);
    assert(last.skip(1) =~= rest);
}

/// The panes' bytes read front to back: the first pane, then the others.
proof fn lemma_panes_bytes_front(ps: Seq<HelloPaneView>)
    requires
        ps.len() > 0,
    ensures
        panes_bytes(ps) == pane_bytes(ps[0]) + panes_bytes(ps.skip(1)),
    decreases ps.len(),
{
    if ps.len() == 1 {
        assert(ps.drop_last() =~= Seq::<HelloPaneView>::empty());
        assert(ps.skip(1) =~= Seq::<HelloPaneView>::empty());
        assert(panes_bytes(ps) =~= pane_bytes(ps[0]) + panes_bytes(ps.skip(1)));
    } else {
        lemma_panes_bytes_front(ps.drop_last());
        assert(ps.drop_last().skip(1) =~= ps.skip(1).drop_last());
        assert(ps.skip(1).last() == ps.last());
        assert(panes_bytes(ps) =~= pane_bytes(ps[0]) + panes_bytes(ps.skip(1)));
    }
}

#[verifier::spinoff_prover]
proof fn lemma_panes_round_trip(ps: Seq<HelloPaneView>, rest: Seq<u8>)
    requires
        panes_bytes(ps).len() <= MAX_FRAME,
    ensures
        take_panes(panes_bytes(ps) + rest, ps.len()) == Ok::<
            (Seq<HelloPaneView>, Seq<u8>),
            ProtoError,
        >((ps, rest)),
    decreases ps.len(),
{
    if ps.len() == 0 {
        assert(panes_bytes(ps) + rest =~= rest);
        assert(ps =~= Seq::<HelloPaneView>::empty());
    } else {
        lemma_panes_bytes_front(ps);
        let others = panes_bytes(ps.skip(1)) + rest;
        assert(panes_bytes(ps) + rest =~= pane_bytes(ps[0]) + others);
        assert(encode_utf8(ps[0].command).len() <= pane_bytes(ps[0]).len());
        lemma_pane_round_trip(ps[0], others);
        lemma_panes_round_trip(ps.skip(1), rest);
        assert(seq![ps[0]] + ps.skip(1) =~= ps);
    }
}

/// Whether a frame can be read back: its payload fits [`MAX_FRAME`] and a
/// `Hello` claims at most [`MAX_HELLO_PANES`] panes.
pub open spec fn readable(f: FrameView) -> bool {
    &&& payload_of(f).len() + 1 <= MAX_FRAME
    &&& (f is Hello ==> f->Hello_panes.len() <= MAX_HELLO_PANES)
}

proof fn lemma_u64_then_end(v: u64)
    ensures
        take_u64(le64(v)) == Ok::<(u64, Seq<u8>), ProtoError>((v, Seq::empty())),
{
    lemma_u64_round_trip(v, Seq::empty());
    assert(le64(v) + Seq::<u8>::empty() =~= le64(v));
}

proof fn lemma_bytes_then_end(b: Seq<u8>)
    requires
        b.len() <= MAX_FRAME,
    ensures
        take_bytes(field(b)) == Ok::<(Seq<u8>, Seq<u8>), ProtoError>((b, Seq::empty())),
{
    lemma_bytes_round_trip(b, Seq::empty());
    assert(field(b) + Seq::<u8>::empty() =~= field(b));
}

proof fn lemma_text_then_end(t: Seq<char>)
    requires
        encode_utf8(t).len() <= MAX_FRAME,
    ensures
        take_text(text_field(t)) == Ok::<(Seq<char>, Seq<u8>), ProtoError>((t, Seq::empty())),
{
    lemma_text_round_trip(t, Seq::empty());
    assert(text_field(t) + Seq::<u8>::empty() =~= text_field(t));
}

proof fn lemma_parse_pane_fields(f: FrameView)
    requires
        readable(f),
        f is Input || f is Replay || f is Output || f is Resize || f is Close || f is Exited
            || f is SetAutoApprove,
    ensures
        parse_payload(tag_of(f), payload_of(f)) == Ok::<FrameView, ProtoError>(f),
{
    match f {
        FrameView::Input { pane, bytes } | FrameView::Replay { pane, bytes } | FrameView::Output {
            pane,
            bytes,
        } => {
            lemma_u64_round_trip(pane, field(bytes));
            lemma_bytes_then_end(bytes);
        },
        FrameView::Resize { pane, cols, rows } => {
            assert(payload_of(f) =~= le64(pane) + (le16(cols) + le16(rows)));
            lemma_u64_round_trip(pane, le16(cols) + le16(rows));
            lemma_u16_round_trip(cols, le16(rows));
            lemma_u16_round_trip(rows, Seq::empty());
            assert(le16(rows) + Seq::<u8>::empty() =~= le16(rows));
        },
        FrameView::Close { pane } => {
            lemma_u64_then_end(pane);
        },
        FrameView::Exited { pane, code } => {
            lemma_u64_round_trip(pane, le32(code));
            lemma_u32_round_trip(code, Seq::empty());
            assert(le32(code) + Seq::<u8>::empty() =~= le32(code));
        },
        FrameView::SetAutoApprove { pane, on } => {
            lemma_u64_round_trip(pane, seq![bool_byte(on)]);
            assert(seq![bool_byte(on)].skip(1) =~= Seq::<u8>::empty());
        },
        _ => {},
    }
}

proof fn lemma_parse_text_fields(f: FrameView)
    requires
        readable(f),
        f is Spawn || f is Shutdown || f is SpawnFailed || f is HookBlocked || f is HookClear
            || f is Statusline || f is PaneOpened,
    ensures
        parse_payload(tag_of(f), payload_of(f)) == Ok::<FrameView, ProtoError>(f),
{
    match f {
        FrameView::Spawn { command: t } | FrameView::Shutdown { reason: t }
        | FrameView::SpawnFailed { error: t } => {
            lemma_text_then_end(t);
        },
        FrameView::HookBlocked { pane, tool, reason } => {
            assert(payload_of(f) =~= le64(pane) + (text_field(tool) + text_field(reason)));
            lemma_u64_round_trip(pane, text_field(tool) + text_field(reason));
            lemma_text_round_trip(tool, text_field(reason));
            lemma_text_then_end(reason);
        },
        FrameView::HookClear { pane, tool: t } | FrameView::Statusline { pane, json: t }
        | FrameView::PaneOpened { pane, command: t } => {
            lemma_u64_round_trip(pane, text_field(t));
            lemma_text_then_end(t);
        },
        _ => {},
    }
}

proof fn lemma_parse_hello(f: FrameView)
    requires
        readable(f),
        f is Hello,
    ensures
        parse_payload(tag_of(f), payload_of(f)) == Ok::<FrameView, ProtoError>(f),
{
    let panes = f->Hello_panes;
    let layout = f->Hello_layout;
    assert(payload_of(f) =~= le64(panes.len() as u64) + (panes_bytes(panes) + field(layout)));
    lemma_u64_round_trip(panes.len() as u64, panes_bytes(panes) + field(layout));
    lemma_panes_round_trip(panes, field(layout));
    lemma_bytes_then_end(layout);
}

/// Every frame that can be read back reads back as itself.
proof fn lemma_parse_payload(f: FrameView)
    requires
        readable(f),
    ensures
        parse_payload(tag_of(f), payload_of(f)) == Ok::<FrameView, ProtoError>(f),
{
    if f is Input || f is Replay || f is Output || f is Resize || f is Close || f is Exited
        || f is SetAutoApprove {
        lemma_parse_pane_fields(f);
    } else if f is Spawn || f is Shutdown || f is SpawnFailed || f is HookBlocked || f is HookClear
        || f is Statusline || f is PaneOpened {
        lemma_parse_text_fields(f);
    } else if f is Hello {
        lemma_parse_hello(f);
    } else if f is SetLayout {
        lemma_bytes_then_end(f->SetLayout_blob);
    } else if f is HookDecision {
        assert(payload_of(f).skip(1) =~= Seq::<u8>::empty());
    }
}

/// A frame written by [`write_frame`] reads back by [`read_frame`] as the
/// same frame, taking exactly its own bytes off the front of the stream,
/// whatever follows it. This holds of every frame whose payload fits
/// [`MAX_FRAME`] and, for a `Hello`, that claims at most
/// [`MAX_HELLO_PANES`] panes.
#[verifier::spinoff_prover]
#[verifier::rlimit(40)]
pub proof fn lemma_frame_round_trip(f: FrameView, rest: Seq<u8>)
    requires
        readable(f),
    ensures
        wire_fits(f),
        read_spec(encoding(f) + rest) == Ok::<Option<(FrameView, nat)>, ProtoError>(
            Some((f, encoding(f).len())),
        ),
        consumed(encoding(f) + rest) == encoding(f).len(),
{
    let p = payload_of(f);
    let len = (p.len() + 1) as u32;
    let input = encoding(f) + rest;
    assert(input =~= le32(len) + (seq![tag_of(f)] + p + rest));
    lemma_u32_round_trip(len, seq![tag_of(f)] + p + rest);
    assert(from_le32(input) == len);
    assert(input[4] == tag_of(f));
    assert(input.subrange(5, 4 + len as int) =~= p);
    lemma_parse_payload(f);
}

} // verus!
