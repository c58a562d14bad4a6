use echanger::shutdown::{Cause, Shutdown};

#[test]
fn nobody_asked_means_success() {
    let s = Shutdown::new();
    assert!(!s.is_stopping());
    assert_eq!(s.cause(), None);
    assert_eq!(s.exit_code(), 0);
}

#[test]
fn signal_means_success() {
    for signal in [1, 2, 3, 15] {
        let mut s = Shutdown::new();
        assert!(s.request(Cause::Signal(signal)));
        assert!(s.is_stopping());
        assert_eq!(s.cause(), Some(Cause::Signal(signal)));
        assert_eq!(s.exit_code(), 0);
    }
}

#[test]
fn failures_mean_failure() {
    let mut s = Shutdown::new();
    assert!(s.request(Cause::ConnectFailed));
    assert_eq!(s.exit_code(), 1);
    let mut s = Shutdown::new();
    assert!(s.request(Cause::PipelineClosed));
    assert_eq!(s.exit_code(), 2);
}

#[test]
fn only_the_first_request_counts() {
    let mut s = Shutdown::new();
    assert!(s.request(Cause::Signal(15)));
    assert!(!s.request(Cause::Signal(2)));
    assert!(!s.request(Cause::PipelineClosed));
    assert!(!s.request(Cause::ConnectFailed));
    assert_eq!(s.cause(), Some(Cause::Signal(15)));
    assert_eq!(s.exit_code(), 0);

    let mut s = Shutdown::new();
    assert!(s.request(Cause::PipelineClosed));
    assert!(!s.request(Cause::Signal(2)));
    assert_eq!(s.cause(), Some(Cause::PipelineClosed));
    assert_eq!(s.exit_code(), 2);
}
