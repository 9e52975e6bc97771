use graphshell::browser_host::{epoch_millis, now_ms, on_browser_message, BrowserAction, BrowserMessageKind};
use graphshell::identity_ui::NativeIdentityFailure;

#[test]
fn requests_are_forwarded_with_their_closing_flag() {
    assert_eq!(
        on_browser_message(&BrowserMessageKind::Request { closes: true }, "s1"),
        BrowserAction::Forward { closes: true }
    );
    assert_eq!(
        on_browser_message(&BrowserMessageKind::Request { closes: false }, "s1"),
        BrowserAction::Forward { closes: false }
    );
}

#[test]
fn a_native_identity_request_for_another_session_is_refused() {
    assert_eq!(
        on_browser_message(
            &BrowserMessageKind::NativeIdentity { session: "s1".to_string() },
            "s1"
        ),
        BrowserAction::ApplyNativeIdentity
    );
    assert_eq!(
        on_browser_message(
            &BrowserMessageKind::NativeIdentity { session: "s2".to_string() },
            "s1"
        ),
        BrowserAction::RejectNativeIdentity(NativeIdentityFailure::WrongSession)
    );
}

#[test]
fn a_second_connect_is_answered_with_a_failure() {
    assert_eq!(
        on_browser_message(&BrowserMessageKind::Connect, "s1"),
        BrowserAction::Fail {
            message: "the browser session is already connected".to_string()
        }
    );
}

#[test]
fn the_clock_reads_milliseconds_since_the_epoch() {
    let expected = std::time::SystemTime::now()
        .duration_since(std::time::UNIX_EPOCH)
        .unwrap()
        .as_millis() as u64;
    let read = now_ms().expect("the clock reads after the epoch");
    assert!(read + 1000 > expected && read < expected + 60_000);
}

#[test]
fn a_span_since_the_epoch_reads_as_its_whole_milliseconds() {
    assert_eq!(epoch_millis(Some(std::time::Duration::from_millis(1_712_345_678_901))), Some(1_712_345_678_901));
    assert_eq!(epoch_millis(Some(std::time::Duration::from_nanos(1_999_999))), Some(1));
    assert_eq!(epoch_millis(None), None);
}
