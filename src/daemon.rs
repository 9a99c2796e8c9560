//! Decisions taken while detaching the process: what a `fork` return value
//! means, and when a system call's return value is a failure.

use vstd::prelude::*;

verus! {

/// Why detaching from the terminal failed, with the value the system gave.
#[derive(Debug, Clone, Copy, PartialEq, Eq, Structural)]
pub enum DaemonizeError {
    /// `fork` returned this negative value.
    Fork(i32),
    /// Redirecting a standard stream failed with this error number.
    RedirectStreams(i32),
    /// Starting a new session failed with this error number.
    Detach(i32),
}

/// Which side of a successful `fork` the process is on.
#[derive(Debug, Clone, Copy, PartialEq, Eq, Structural)]
pub enum ForkSide {
    /// The new process, which goes on.
    Child,
    /// The calling process, which exits.
    Parent,
}

/// The meaning of the value `fork` returned: zero in the child, a negative
/// value on failure, the child's id in the parent.
pub fn fork_side(ret: i32) -> (r: Result<ForkSide, DaemonizeError>)
    ensures
        ret == 0 ==> r == Ok::<ForkSide, DaemonizeError>(ForkSide::Child),
        ret < 0 ==> r == Err::<ForkSide, DaemonizeError>(DaemonizeError::Fork(ret)),
        ret > 0 ==> r == Ok::<ForkSide, DaemonizeError>(ForkSide::Parent),
{
    if ret == 0 {
        Ok(ForkSide::Child)
    } else if ret < 0 {
        Err(DaemonizeError::Fork(ret))
    } else {
        Ok(ForkSide::Parent)
    }
}

/// The result of `setsid`: a negative return is a failure with `errno`.
pub fn detach_result(ret: i32, errno: i32) -> (r: Result<(), DaemonizeError>)
    ensures
        ret < 0 ==> r == Err::<(), DaemonizeError>(DaemonizeError::Detach(errno)),
        ret >= 0 ==> r is Ok,
{
    if ret < 0 {
        Err(DaemonizeError::Detach(errno))
    } else {
        Ok(())
    }
}

/// The result of one `dup2` onto a standard stream: a negative return is a
/// failure with `errno`.
pub fn redirect_result(ret: i32, errno: i32) -> (r: Result<(), DaemonizeError>)
    ensures
        ret < 0 ==> r == Err::<(), DaemonizeError>(DaemonizeError::RedirectStreams(errno)),
        ret >= 0 ==> r is Ok,
{
    if ret < 0 {
        Err(DaemonizeError::RedirectStreams(errno))
    } else {
        Ok(())
    }
}

} // verus!
