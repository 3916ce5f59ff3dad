use mempool_client::codec::Decoder;
use mempool_client::encode::encode_frame;
use mempool_client::endpoint::{incremental_path, snapshot_path};
use mempool_client::settings::{AuthSelection, BitcoindClient, Settings};
use mempool_client::sink::{SubmissionLog, SubmitOutcome};
use mempool_client::sync::{Controller, FetchRequest, SyncState};

#[test]
fn counter_progression_three_fetches() {
    // A simulated incremental endpoint returning N, N+1, N+1: exactly three
    // incremental fetches are issued, and the repeat at the third completes
    // the run.
    let n: u64 = 41;
    let mut c = Controller::new();
    c.begin();
    assert_eq!(c.next_fetch(), Some(FetchRequest::Full));
    c.on_fetch_success(n - 1); // full snapshot observed an older sequence
    let responses = [n, n + 1, n + 1];
    let mut issued = Vec::new();
    for r in responses {
        match c.next_fetch() {
            Some(FetchRequest::Incremental { from }) => issued.push(from),
            other => panic!("expected an incremental fetch, got {:?}", other),
        }
        c.on_fetch_success(r);
    }
    assert_eq!(issued, vec![n - 1, n, n + 1]);
    assert_eq!(c.state(), SyncState::Done);
    assert_eq!(c.next_fetch(), None);
}

#[test]
fn undefined_sentinel_ends_run() {
    // The reserved sentinel counter terminates the loop whatever the prior
    // last observed sequence was.
    for last in [0u64, 1, 999, u64::MAX - 1] {
        let mut c = Controller::new();
        c.begin();
        c.on_fetch_success(last);
        c.on_fetch_success(u64::MAX);
        assert_eq!(c.state(), SyncState::Done);
        assert_eq!(c.next_fetch(), None);
    }
}

#[test]
fn full_snapshot_always_enters_incremental() {
    // Even a full snapshot that observed the sentinel (or nothing) moves to
    // incremental catch-up unconditionally.
    let mut c = Controller::new();
    c.begin();
    c.on_fetch_success(u64::MAX);
    assert_eq!(
        c.next_fetch(),
        Some(FetchRequest::Incremental { from: u64::MAX })
    );
}

#[test]
fn fetch_failure_is_terminal() {
    let mut c = Controller::new();
    c.begin();
    c.on_fetch_success(10);
    c.on_fetch_failure();
    assert_eq!(c.state(), SyncState::Failed);
    assert_eq!(c.next_fetch(), None);
}

#[test]
fn rejected_submission_does_not_stop_the_run() {
    // A stream of 3 transactions where the 2nd is rejected: one error
    // record, all 3 attempted in order, and the run still reaches Done.
    let txs: Vec<Vec<u8>> = vec![vec![1], vec![2], vec![3]];
    let bytes = encode_frame(Some(3), 50, &txs);

    let mut controller = Controller::new();
    controller.begin();
    assert_eq!(controller.next_fetch(), Some(FetchRequest::Full));

    let mut log = SubmissionLog::new();
    let mut decoder = Decoder::new(true);
    let mut submitted: Vec<Vec<u8>> = Vec::new();
    let decoded = decoder.feed(&bytes).expect("valid stream");
    for tx in decoded {
        // The node rejects the payload [2] and accepts the others.
        let outcome = if tx == vec![2] {
            SubmitOutcome::Rejected { message: "txn-already-known".to_string() }
        } else {
            SubmitOutcome::Accepted
        };
        submitted.push(tx);
        log.record(outcome);
    }
    controller.on_fetch_success(decoder.counter_or_undefined());

    // incremental fetch reports no progress: the run completes
    assert_eq!(
        controller.next_fetch(),
        Some(FetchRequest::Incremental { from: 50 })
    );
    controller.on_fetch_success(50);

    assert_eq!(submitted, vec![vec![1], vec![2], vec![3]]);
    assert_eq!(log.attempted(), 3);
    assert_eq!(log.error_count(), 1);
    assert_eq!(log.errors(), &vec!["txn-already-known".to_string()]);
    assert_eq!(controller.state(), SyncState::Done);
}

#[test]
fn snapshot_and_incremental_paths() {
    assert_eq!(snapshot_path(), "/mempoolServer/txsdata");
    assert_eq!(incremental_path(0), "/mempoolServer/txsdatafrom/0");
    assert_eq!(incremental_path(12345), "/mempoolServer/txsdatafrom/12345");
    assert_eq!(
        incremental_path(u64::MAX),
        "/mempoolServer/txsdatafrom/18446744073709551615"
    );
}

#[test]
fn cookie_auth_takes_precedence() {
    let bcc = BitcoindClient {
        cookie_auth_path: Some("/home/user/.bitcoin/.cookie".to_string()),
        ip_addr: "localhost".to_string(),
        user: Some("u".to_string()),
        passwd: Some("p".to_string()),
    };
    match bcc.auth_selection() {
        Some(AuthSelection::CookieFile { path }) => {
            assert_eq!(path, "/home/user/.bitcoin/.cookie");
        }
        other => panic!("expected cookie auth, got {:?}", other.is_some()),
    }
}

#[test]
fn user_password_auth_when_no_cookie() {
    let bcc = BitcoindClient {
        cookie_auth_path: None,
        ip_addr: "localhost".to_string(),
        user: Some("anon".to_string()),
        passwd: Some("secret".to_string()),
    };
    match bcc.auth_selection() {
        Some(AuthSelection::UserPass { user, passwd }) => {
            assert_eq!(user, "anon");
            assert_eq!(passwd, "secret");
        }
        _ => panic!("expected user/password auth"),
    }
}

#[test]
fn incomplete_auth_is_rejected() {
    let bcc = BitcoindClient {
        cookie_auth_path: None,
        ip_addr: "localhost".to_string(),
        user: Some("anon".to_string()),
        passwd: None,
    };
    assert!(bcc.auth_selection().is_none());
    let settings = Settings { bitcoind_client: bcc };
    assert!(!settings.check_auth());
}
