use zoo::daemon::{detach_result, fork_side, redirect_result, DaemonizeError, ForkSide};

#[test]
fn fork_return_values() {
    assert_eq!(fork_side(0), Ok(ForkSide::Child));
    assert_eq!(fork_side(1234), Ok(ForkSide::Parent));
    assert_eq!(fork_side(-1), Err(DaemonizeError::Fork(-1)));
}

#[test]
fn call_results() {
    assert_eq!(detach_result(5, 0), Ok(()));
    assert_eq!(detach_result(-1, 13), Err(DaemonizeError::Detach(13)));
    assert_eq!(redirect_result(0, 0), Ok(()));
    assert_eq!(redirect_result(-1, 9), Err(DaemonizeError::RedirectStreams(9)));
}
