//! Signing in.
use pylon::transport::fanout::SocketId;
use pylon::user::registry::{ConnectionHandle, UserRegistry};
use pylon::ws::signin::{ConnectionContext, SelfEvent};

fn ctx() -> ConnectionContext {
    ConnectionContext {
        app_id: "app".into(),
        handle: ConnectionHandle {
            socket_id: SocketId { hi: 123, lo: 456 },
            mailbox: 1,
        },
        user: None,
        outbox: vec![],
    }
}

fn error_and_close(message: &str) -> Vec<SelfEvent> {
    vec![
        SelfEvent::Error {
            code: 4009,
            message: message.into(),
        },
        SelfEvent::Close {
            code: 4009,
            reason: message.into(),
        },
    ]
}

#[test]
fn valid_signin_acks_and_registers() {
    let mut c = ctx();
    let mut r = UserRegistry::new();
    c.signin(&mut r, r#"{"id":"7"}"#.into(), true, Some("7".into()));
    assert_eq!(
        c.outbox,
        vec![SelfEvent::SigninSuccess {
            user_data: r#"{"id":"7"}"#.into()
        }]
    );
    assert!(c.user.is_some());
    assert!(
        r.signout("app", "7", &c.handle.socket_id).last_for_user
    );
}

#[test]
fn bad_signature_errors_4009_and_closes() {
    let mut c = ctx();
    let mut r = UserRegistry::new();
    c.signin(&mut r, r#"{"id":"7"}"#.into(), false, Some("7".into()));
    assert_eq!(c.outbox, error_and_close("Connection not authorized."));
    assert!(c.user.is_none());
    assert!(!r.is_online("app", "7"));
}

#[test]
fn missing_id_errors_4009_and_closes() {
    let mut c = ctx();
    let mut r = UserRegistry::new();
    c.signin(&mut r, r#"{"name":"x"}"#.into(), true, None);
    assert_eq!(
        c.outbox,
        error_and_close("The returned user data must contain the \"id\" field.")
    );
}

#[test]
fn a_second_sign_in_is_acknowledged_or_fatal() {
    let mut c = ctx();
    let mut r = UserRegistry::new();
    let data = r#"{"id":"7"}"#;
    c.signin(&mut r, data.into(), true, Some("7".into()));
    // The same data again, even without a good signature.
    c.signin(&mut r, data.into(), false, None);
    assert_eq!(c.outbox.len(), 2);
    assert_eq!(c.outbox[1], c.outbox[0]);
    assert_eq!(r.handles("app", "7").len(), 1);
    // Other data.
    c.outbox.clear();
    c.signin(&mut r, r#"{"id":"8"}"#.into(), true, Some("8".into()));
    assert_eq!(c.outbox, error_and_close("Connection not authorized."));
    assert!(!r.is_online("app", "8"));
    assert_eq!(c.user.as_ref().unwrap().id, "7");
}
