//! Locating this process's own window for screen captures.

use vstd::prelude::*;

use crate::text::{append_str, has_prefix, push_signed, signed_decimal};

verus! {

#[verifier::external_type_specification]
#[verifier::external_body]
pub struct ExIoError(std::io::Error);

/// Why a window capture failed.
#[derive(Debug)]
pub enum CaptureError {
    /// No on-screen window belongs to this process.
    WindowNotFound,
    Io(std::io::Error),
    /// The capture tool ran but reported failure.
    ScreencaptureFailed { status: Option<i32>, stderr: String },
}

/// The text of an I/O error (its `Display` form, which for an operating
/// system error comes from the system and is not stated here).
#[verifier::external_body]
fn io_error_text(e: &std::io::Error) -> String {
    format!("{}", e)
}

/// How `Option<i32>` prints with `{:?}`.
pub open spec fn debug_opt_i32(o: Option<i32>) -> Seq<char> {
    match o {
        Some(n) => "Some("@ + signed_decimal(n as int) + ")"@,
        None => "None"@,
    }
}

impl CaptureError {
    /// The message shown to the user.
    pub fn message(&self) -> (r: String)
        ensures
            match self {
                CaptureError::WindowNotFound => r@ == "no on-screen window found for this PID"@,
                CaptureError::Io(_) => has_prefix(r@, "io error: "@),
                CaptureError::ScreencaptureFailed { status, stderr } => r@ == "screencapture exited with "@
                    + debug_opt_i32(*status) + ": "@ + stderr@,
            },
    {
        let mut out = String::new();
        match self {
            CaptureError::WindowNotFound => append_str(&mut out, "no on-screen window found for this PID"),
            CaptureError::Io(e) => {
                append_str(&mut out, "io error: ");
                let ghost head = out@;
                let t = io_error_text(e);
                append_str(&mut out, t.as_str());
                assert(out@.subrange(0, head.len() as int) =~= head);
            },
            CaptureError::ScreencaptureFailed { status, stderr } => {
                append_str(&mut out, "screencapture exited with ");
                match status {
                    Some(n) => {
                        append_str(&mut out, "Some(");
                        push_signed(&mut out, *n);
                        append_str(&mut out, ")");
                    },
                    None => append_str(&mut out, "None"),
                }
                append_str(&mut out, ": ");
                append_str(&mut out, stderr.as_str());
            },
        }
        out
    }
}

/// The id of an on-screen window owned by this process, where no window
/// list is available (off macOS): no window can be found.
pub fn find_own_window_id() -> (r: Result<u32, CaptureError>)
    ensures
        r matches Err(CaptureError::WindowNotFound),
{
    Err(CaptureError::WindowNotFound)
}

/// The number of the first window in `windows` that `pid` owns and that
/// has a number; each window is (owner process id, window number), either
/// missing when the window list did not give it as a number.
pub open spec fn first_owned_window(windows: Seq<(Option<i64>, Option<i64>)>, pid: i64) -> Option<i64>
    decreases windows.len(),
{
    if windows.len() == 0 {
        None
    } else if windows[0].0 == Some(pid) && windows[0].1 is Some {
        windows[0].1
    } else {
        first_owned_window(windows.drop_first(), pid)
    }
}

/// Picks this process's window from an on-screen window list (as the
/// macOS window server reports it): the first window owned by `pid` that
/// has a number, as `u32` (`as`-converted), or `WindowNotFound`.
pub fn own_window_id(windows: &Vec<(Option<i64>, Option<i64>)>, pid: i64) -> (r: Result<u32, CaptureError>)
    ensures
        match first_owned_window(windows@, pid) {
            Some(n) => r matches Ok(x) && x == n as u32,
            None => r matches Err(CaptureError::WindowNotFound),
        },
{
    let mut i: usize = 0;
    assert(windows@.skip(0) =~= windows@);
    while i < windows.len()
        invariant
            i <= windows@.len(),
            first_owned_window(windows@.skip(i as int), pid) == first_owned_window(windows@, pid),
        decreases windows.len() - i,
    {
        let ghost rest = windows@.skip(i as int);
        assert(rest[0] == windows@[i as int]);
        assert(rest.drop_first() =~= windows@.skip(i + 1));
        let (owner, number) = windows[i];
        if owner == Some(pid) {
            match number {
                Some(n) => {
                    return Ok(n as u32);
                },
                None => {},
            }
        }
        i = i + 1;
    }
    assert(windows@.skip(i as int).len() == 0);
    Err(CaptureError::WindowNotFound)
}

} // verus!
