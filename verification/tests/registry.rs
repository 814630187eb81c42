//! Signed-in users and their watchers.
use pylon::transport::fanout::SocketId;
use pylon::user::registry::{ConnectionHandle, UserRegistry};

fn handle(n: u64) -> ConnectionHandle {
    ConnectionHandle {
        socket_id: SocketId { hi: n, lo: n },
        mailbox: n,
    }
}

#[test]
fn first_and_subsequent_signin_flags() {
    let mut r = UserRegistry::new();
    let h1 = handle(1);
    let h2 = handle(2);
    assert!(r.signin("app", "u", h1).first_for_user);
    assert!(!r.signin("app", "u", h2).first_for_user);
    assert!(r.is_online("app", "u"));
    assert_eq!(r.handles("app", "u").len(), 2);
}

#[test]
fn signout_reports_last_and_clears() {
    let mut r = UserRegistry::new();
    let h1 = handle(1);
    let h2 = handle(2);
    r.signin("app", "u", h1);
    r.signin("app", "u", h2);
    assert!(!r.signout("app", "u", &h1.socket_id).last_for_user);
    assert!(r.signout("app", "u", &h2.socket_id).last_for_user);
    assert!(!r.is_online("app", "u"));
}

#[test]
fn watch_returns_online_subset_and_watchers_resolve() {
    let mut r = UserRegistry::new();
    r.signin("app", "b", handle(1));
    let watcher = handle(2);
    let online = r.watch("app", watcher, vec!["b".into(), "c".into()]);
    assert_eq!(online, vec!["b".to_string()]);
    assert_eq!(r.watchers_of("app", "b").len(), 1);
    r.unwatch("app", &watcher.socket_id);
    assert!(r.watchers_of("app", "b").is_empty());
}

#[test]
fn rewatch_replaces_prior_watchlist_without_leak() {
    let mut r = UserRegistry::new();
    let watcher = handle(1);
    r.watch("app", watcher, vec!["a".into(), "b".into()]);
    assert_eq!(r.watchers_of("app", "a").len(), 1);
    assert_eq!(r.watchers_of("app", "b").len(), 1);
    r.watch("app", watcher, vec!["c".into()]);
    assert!(
        r.watchers_of("app", "a").is_empty(),
        "stale watcher for a leaked"
    );
    assert!(
        r.watchers_of("app", "b").is_empty(),
        "stale watcher for b leaked"
    );
    assert_eq!(r.watchers_of("app", "c").len(), 1);
    r.unwatch("app", &watcher.socket_id);
    assert!(r.watchers_of("app", "c").is_empty());
}

#[test]
fn signing_out_undoes_signing_in() {
    let mut r = UserRegistry::new();
    r.signin("app", "u", handle(1));
    r.signin("app", "u", handle(2));
    r.signout("app", "u", &handle(2).socket_id);
    assert_eq!(r.handles("app", "u"), vec![handle(1)]);
}

#[test]
fn signing_out_an_unknown_user_is_not_the_last_sign_out() {
    let mut r = UserRegistry::new();
    assert!(!r.signout("app", "u", &handle(1).socket_id).last_for_user);
}

#[test]
fn a_second_sign_in_of_one_connection_takes_the_place_of_the_first() {
    let mut r = UserRegistry::new();
    r.signin("app", "u", handle(1));
    let moved = ConnectionHandle {
        socket_id: handle(1).socket_id,
        mailbox: 9,
    };
    assert!(!r.signin("app", "u", moved).first_for_user);
    assert_eq!(r.handles("app", "u"), vec![moved]);
}

#[test]
fn apps_and_watchers_are_kept_apart() {
    let mut r = UserRegistry::new();
    r.signin("one", "u", handle(1));
    assert!(!r.is_online("two", "u"));
    r.watch("one", handle(2), vec!["u".into(), "u".into()]);
    r.watch("one", handle(3), vec!["u".into()]);
    r.unwatch("one", &handle(2).socket_id);
    assert_eq!(r.watchers_of("one", "u"), vec![handle(3)]);
    assert!(r.watchers_of("two", "u").is_empty());
}
