//! What a pseudo-terminal operation reports: why one failed, and how a
//! child process ended. The terminal itself is driven from outside.

use vstd::prelude::*;

use crate::text::chars_of;

verus! {

/// Why a PTY operation failed: what was being done, and the system's
/// message.
#[derive(Debug)]
pub struct PtyError {
    context: String,
    message: String,
}

impl PtyError {
    /// An error from the step `context` with the system's `message`.
    pub fn new(context: &str, message: String) -> (e: Self)
        ensures
            e.context_view() == context@,
            e.message_view() == message@,
    {
        PtyError { context: context.to_string(), message }
    }

    /// What was being done.
    pub closed spec fn context_view(&self) -> Seq<char> {
        self.context@
    }

    /// The system's message.
    pub closed spec fn message_view(&self) -> Seq<char> {
        self.message@
    }

    /// The error as one line: `<context>: <message>`.
    pub fn describe(&self) -> (s: String)
        ensures
            s@ == self.context_view() + ": "@ + self.message_view(),
    {
        let mut out = chars_of(self.context.as_str());
        let mut sep = chars_of(": ");
        let mut msg = chars_of(self.message.as_str());
        out.append(&mut sep);
        out.append(&mut msg);
        crate::text::string_from_chars(out.as_slice())
    }
}

/// How a child process ended.
#[derive(Clone, Copy, Debug, PartialEq, Eq, Structural)]
pub struct ExitStatus {
    /// The process exit code.
    pub code: u32,
    /// Whether the process exited cleanly with code zero.
    pub success: bool,
}

impl ExitStatus {
    /// The status of a child that ended with `code`, or was stopped by a
    /// signal (then never a success, whatever the code).
    pub fn from_exit(code: u32, signalled: bool) -> (s: Self)
        ensures
            s.code == code,
            s.success == (!signalled && code == 0),
    {
        ExitStatus { code, success: !signalled && code == 0 }
    }
}

} // verus!
