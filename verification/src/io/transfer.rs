//! Transfers of bytes: what to do after each step.

use vstd::prelude::*;

verus! {

/// What to do after some bytes of a buffer were transferred.
#[derive(Debug, Clone, Copy, PartialEq, Eq, Structural)]
pub enum Step {
    /// All bytes are there.
    Done,
    /// Go on behind this many bytes.
    More { total: usize },
    /// No more bytes come.
    Short,
}

/// What to do before anything was transferred.
pub fn first_step(len: usize) -> (r: Step)
    ensures
        r == (if len == 0 {
            Step::Done
        } else {
            Step::More { total: 0 }
        }),
{
    if len == 0 {
        Step::Done
    } else {
        Step::More { total: 0 }
    }
}

/// What to do after `n` more of the `len` bytes were transferred.
pub fn next_step(total: usize, n: usize, len: usize) -> (r: Step)
    requires
        total + n <= len,
    ensures
        r == (if n == 0 {
            Step::Short
        } else if total + n == len {
            Step::Done
        } else {
            Step::More { total: (total + n) as usize }
        }),
{
    if n == 0 {
        Step::Short
    } else if total + n == len {
        Step::Done
    } else {
        Step::More { total: total + n }
    }
}

/// Can a buffer at this address be transferred directly?
pub fn is_direct(address: usize, len: usize, offset: u64) -> (r: bool)
    ensures
        r == (address % 4096 == 0 && len % 4096 == 0 && offset % 4096 == 0),
{
    address % 4096 == 0 && len % 4096 == 0 && offset % 4096 == 0
}

/// What became of submitting an operation to a ring.
#[derive(Debug, Clone, Copy, PartialEq, Eq, Structural)]
pub enum Submitted {
    /// A completion is there.
    Completed,
    /// A signal came in between.
    Interrupted,
    /// The kernel refused.
    Refused,
}

/// What to do after an operation was submitted.
#[derive(Debug, Clone, Copy, PartialEq, Eq, Structural)]
pub enum AfterSubmit {
    /// Take the completion.
    Reap,
    /// Wait again.
    Retry,
    /// Drop all completions and fail.
    DrainAndFail,
}

/// What to do after an operation was submitted. A signal is no failure.
pub fn after_submit(submitted: Submitted) -> (r: AfterSubmit)
    ensures
        r == (match submitted {
            Submitted::Completed => AfterSubmit::Reap,
            Submitted::Interrupted => AfterSubmit::Retry,
            Submitted::Refused => AfterSubmit::DrainAndFail,
        }),
{
    match submitted {
        Submitted::Completed => AfterSubmit::Reap,
        Submitted::Interrupted => AfterSubmit::Retry,
        Submitted::Refused => AfterSubmit::DrainAndFail,
    }
}

/// Why a transfer through a ring failed.
#[derive(Debug, Clone, Copy, PartialEq, Eq, Structural)]
pub enum RingError {
    /// There is no completion.
    NoCompletion,
    /// The completion is that of another operation: all completions are dropped.
    Stale { expected_tag: u64, got_tag: u64 },
    /// The operating system reported an error.
    Os { code: i32 },
    /// Fewer or more bytes than expected were transferred.
    Short { expected: usize, got: usize },
}

/// The result of an operation, out of its completion: the tag that it was submitted
/// with, and what the kernel returned.
pub fn reaped(completion: Option<(u64, i32)>, expected_tag: u64) -> (r: Result<i32, RingError>)
    ensures
        r == (match completion {
            None => Err::<i32, RingError>(RingError::NoCompletion),
            Some((tag, res)) => if tag == expected_tag {
                Ok::<i32, RingError>(res)
            } else {
                Err::<i32, RingError>(RingError::Stale { expected_tag, got_tag: tag })
            },
        }),
{
    match completion {
        None => Err(RingError::NoCompletion),
        Some((tag, res)) => {
            if tag == expected_tag {
                Ok(res)
            } else {
                Err(RingError::Stale { expected_tag, got_tag: tag })
            }
        },
    }
}

/// Was the operation done?
pub fn check_done(res: i32) -> (r: Result<(), RingError>)
    requires
        res > i32::MIN,
    ensures
        r is Ok == (res >= 0),
        r matches Err(e) ==> e == (RingError::Os { code: (-res) as i32 }),
{
    if res < 0 {
        Err(RingError::Os { code: -res })
    } else {
        Ok(())
    }
}

/// Were all bytes transferred?
pub fn check_transfer(res: i32, expected: usize) -> (r: Result<(), RingError>)
    requires
        res > i32::MIN,
    ensures
        r is Ok == (res == expected),
        r matches Err(e) ==> e == (if res < 0 {
            RingError::Os { code: (-res) as i32 }
        } else {
            RingError::Short { expected, got: res as usize }
        }),
{
    if res < 0 {
        return Err(RingError::Os { code: -res });
    }
    let got: usize = res as usize;
    if got != expected {
        Err(RingError::Short { expected, got })
    } else {
        Ok(())
    }
}

} // verus!
