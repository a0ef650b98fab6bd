use wanna::client::{base_url, classify_status, parse_i64, sse_rev, url, Rejected, Reply};
use wanna::config::Config;
use wanna::model::{SyncResponse, Want};
use wanna::store::Op;
use wanna::sync::{since, FromSync, SendOutcome, SyncRound};

#[test]
fn status_classes() {
    assert_eq!(classify_status(200), Reply::Success);
    assert_eq!(classify_status(204), Reply::Success);
    assert_eq!(classify_status(404), Reply::Refused);
    assert_eq!(classify_status(500), Reply::Failure);
    assert_eq!(classify_status(302), Reply::Failure);
    assert_eq!(Rejected("400 bad".into()).message(), "サーバーが拒否しました: 400 bad");
}

#[test]
fn urls() {
    assert_eq!(base_url("http://h:8787//"), "http://h:8787");
    assert_eq!(base_url("http://h"), "http://h");
    assert_eq!(url("http://h", "/api/sync"), "http://h/api/sync");
}

#[test]
fn event_lines() {
    assert_eq!(sse_rev("data: 42"), Some(42));
    assert_eq!(sse_rev("data:7 "), Some(7));
    assert_eq!(sse_rev("event: rev"), None);
    assert_eq!(sse_rev("data: x"), None);
    assert_eq!(sse_rev(""), None);
}

#[test]
fn parse_like_std() {
    for s in ["0", "-0", "+5", "-9223372036854775808", "9223372036854775807", "9223372036854775808", "", "-", "+", "1 ", "12a", "00012", "-00"] {
        assert_eq!(parse_i64(s), s.parse::<i64>().ok(), "{s}");
    }
}

#[test]
fn remote_needs_both() {
    let c = Config { server: Some("http://h".into()), token: Some("t".into()) };
    assert_eq!(c.remote(), Some(("http://h", "t")));
    let c = Config { server: Some("http://h".into()), token: None };
    assert_eq!(c.remote(), None);
    assert_eq!(Config::default().remote(), None);
}

#[test]
fn op_ids() {
    let w = Want::new("a".into(), true, true, "V".into());
    let id = w.id.clone();
    assert_eq!(Op::Create { want: w }.id(), id);
    assert_eq!(Op::Delete { id: "x".into() }.id(), "x");
    assert_eq!(Op::Patch { id: "y".into(), patch: Default::default() }.id(), "y");
}

#[test]
fn sync_round_stops_at_first_failure() {
    let mut r = SyncRound::new();
    assert!(r.record(1, SendOutcome::Sent));
    assert!(r.record(2, SendOutcome::Refused));
    assert!(!r.record(3, SendOutcome::Failed("down".into())));
    assert!(!r.should_pull());
    match r.finish(None) {
        FromSync::Done { acked, rejected, pulled, error } => {
            assert_eq!(acked, vec![1]);
            assert_eq!(rejected, vec![2]);
            assert!(pulled.is_none());
            assert_eq!(error.as_deref(), Some("down"));
        }
        _ => panic!(),
    }
    let r = SyncRound::new();
    assert!(r.should_pull());
    match r.finish(Some(Ok(SyncResponse { rev: 3, wants: vec![] }))) {
        FromSync::Done { pulled, error, .. } => {
            assert_eq!(pulled.map(|p| p.rev), Some(3));
            assert!(error.is_none());
        }
        _ => panic!(),
    }
    match SyncRound::new().finish(Some(Err("timeout".into()))) {
        FromSync::Done { pulled, error, .. } => {
            assert!(pulled.is_none());
            assert_eq!(error.as_deref(), Some("timeout"));
        }
        _ => panic!(),
    }
}

#[test]
fn never_synced_fetches_everything() {
    assert_eq!(since(0), None);
    assert_eq!(since(7), Some(7));
}
