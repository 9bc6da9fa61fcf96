//! Output errors, and the decisions taken on the results of the system calls
//! that write to a borrowed file descriptor.
use vstd::prelude::*;

verus! {

/// Errors of writing output.
#[derive(Debug)]
pub enum OutputError {
    InvalidFileDescriptor,
    Io(std::io::Error),
}

impl OutputError {
    /// The message a command reports for this error; an I/O error is
    /// reported with this prefix followed by the error itself.
    pub fn message(&self) -> (m: &'static str)
        ensures
            m@ == match self {
                OutputError::InvalidFileDescriptor => "invalid output file descriptor"@,
                OutputError::Io(_) => "I/O error"@,
            },
    {
        match self {
            OutputError::InvalidFileDescriptor => "invalid output file descriptor",
            OutputError::Io(_) => "I/O error",
        }
    }
}

/// `errno` for a bad file descriptor.
pub const EBADF: i32 = 9;

/// `errno` for an interrupted system call.
pub const EINTR: i32 = 4;

/// What the status flags query on a file descriptor says about it.
#[derive(Clone, Copy, Debug, Eq, PartialEq)]
pub enum FdCheck {
    /// The descriptor is open.
    Valid,
    /// The descriptor is not open (`EBADF`).
    Invalid,
    /// The query failed for another reason, reported as an I/O error.
    OsError,
}

/// Classifies the result of querying a descriptor's status flags: `-1`
/// means failure, with `errno` telling why.
pub fn classify_fd_check(flags: i32, errno: Option<i32>) -> (res: FdCheck)
    ensures
        res == (if flags != -1 {
            FdCheck::Valid
        } else if errno == Some(EBADF) {
            FdCheck::Invalid
        } else {
            FdCheck::OsError
        }),
{
    if flags != -1 {
        FdCheck::Valid
    } else if errno == Some(EBADF) {
        FdCheck::Invalid
    } else {
        FdCheck::OsError
    }
}

/// What to do after one `write` call on a descriptor.
#[derive(Clone, Copy, Debug, Eq, PartialEq)]
pub enum WriteStep {
    /// The call was interrupted: write the same bytes again.
    Retry,
    /// The call failed: report the system error.
    Failed,
    /// The call reported a negative count other than `-1`.
    NegativeCount,
    /// The call wrote nothing although bytes remain.
    WroteZero,
    /// The call wrote this many bytes; this many remain.
    Wrote(usize, usize),
}

/// Decides what follows a `write` call that was asked to write `remaining`
/// bytes and returned `written` (`-1` on failure, with `errno`). A count
/// above `remaining` is never returned by the system.
pub fn write_step(remaining: usize, written: isize, errno: Option<i32>) -> (res: WriteStep)
    requires
        written <= remaining,
    ensures
        res == (if written == -1 {
            if errno == Some(EINTR) {
                WriteStep::Retry
            } else {
                WriteStep::Failed
            }
        } else if written < 0 {
            WriteStep::NegativeCount
        } else if written == 0 {
            WriteStep::WroteZero
        } else {
            WriteStep::Wrote(written as usize, (remaining - written) as usize)
        }),
{
    if written == -1 {
        if errno == Some(EINTR) {
            WriteStep::Retry
        } else {
            WriteStep::Failed
        }
    } else if written < 0 {
        WriteStep::NegativeCount
    } else if written == 0 {
        WriteStep::WroteZero
    } else {
        let w = written as usize;
        WriteStep::Wrote(w, remaining - w)
    }
}

/// Writing `remaining` bytes to a descriptor through a run of `write`
/// results (the count, and `errno` when the count is `-1`), each decided as
/// `write_step` decides it: the bytes written and the bytes still left once
/// the run is used up or nothing remains, or `None` when a step fails.
pub open spec fn write_run(remaining: nat, results: Seq<(isize, Option<i32>)>) -> Option<(nat, nat)>
    decreases results.len(),
{
    if remaining == 0 || results.len() == 0 {
        Some((0, remaining))
    } else {
        let (w, errno) = results[0];
        if w == -1 {
            if errno == Some(EINTR) {
                write_run(remaining, results.drop_first())
            } else {
                None
            }
        } else if w <= 0 || w > remaining {
            None
        } else {
            match write_run((remaining - w) as nat, results.drop_first()) {
                Some((done, left)) => Some((done + w as nat, left)),
                None => None,
            }
        }
    }
}

/// Over a whole run of `write` calls no byte is lost or written twice: the
/// bytes written and the bytes left add up to what was to be written, and a
/// run that ends with nothing left has written every byte.
pub proof fn lemma_write_run_accounts(remaining: nat, results: Seq<(isize, Option<i32>)>)
    ensures
        write_run(remaining, results) matches Some((done, left)) ==> done + left == remaining,
    decreases results.len(),
{
    if remaining > 0 && results.len() > 0 {
        let (w, errno) = results[0];
        if w == -1 {
            lemma_write_run_accounts(remaining, results.drop_first());
        } else if w > 0 && w <= remaining {
            lemma_write_run_accounts((remaining - w) as nat, results.drop_first());
        }
    }
}

} // verus!
