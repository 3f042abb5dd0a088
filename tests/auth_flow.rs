use umbra_relay::feeds::{issue_to_item, IssueFields};
use umbra_relay::form::{get_text_list, read_json_object};
use umbra_relay::oauth::{interpret_device_code_response, interpret_poll_response, interpret_refresh_response};
use umbra_relay::sync::{
    adopt_source_token, after_ingest, apply_refresh_failure, apply_refresh_success, save_device_flow_tokens, sync_precheck,
    IngestStatus, SyncError, SyncStep,
};
use umbra_relay::{
    Database, DeviceCodeResponse, DevicePoller, OAuthError, PollResult, PollerAction, SecretStore,
    TokenPair, TtlKind,
};

fn device(interval: u64, expires_in: u64) -> DeviceCodeResponse {
    DeviceCodeResponse {
        device_code: "dc".into(),
        user_code: "UC".into(),
        verification_uri: "https://github.com/login/device".into(),
        verification_uri_complete: None,
        expires_in,
        interval,
    }
}

#[test]
fn device_flow_slow_down_then_success() {
    let mut db = Database::new();
    let mut vault = SecretStore::new();
    let mut poller = DevicePoller::new(&device(5, 900));
    let mut waits = Vec::new();
    let answers = [
        (400u16, "{\"error\":\"slow_down\",\"interval\":5}"),
        (400u16, "{\"error\":\"authorization_pending\"}"),
        (200u16, "{\"access_token\":\"tok\",\"refresh_token\":\"r\"}"),
    ];
    let mut tokens = None;
    for (status, body) in answers.iter() {
        let result = interpret_poll_response(*status, body).unwrap();
        match poller.step(result) {
            PollerAction::Wait(n) => waits.push(n),
            PollerAction::Finish(p) => tokens = Some(p),
            PollerAction::Abort(m) => panic!("aborted: {}", m),
        }
    }
    assert_eq!(waits, vec![10, 10]);
    let pair = tokens.unwrap();
    assert_eq!(pair.access_token, "tok");
    assert_eq!(pair.refresh_token.as_deref(), Some("r"));
    let id = save_device_flow_tokens(&mut db, &mut vault, &pair, 1000).unwrap();
    assert_eq!(vault.get(id).as_deref(), Some("tok"));
    assert_eq!(vault.get_refresh_token(id).as_deref(), Some("r"));
    assert_eq!(db.get_secret(id).unwrap().refresh_token_id, Some(id));
    let again = save_device_flow_tokens(
        &mut db,
        &mut vault,
        &TokenPair { access_token: "tok3".into(), refresh_token: None },
        2000,
    )
    .unwrap();
    assert_eq!(again, id);
    assert_eq!(vault.get(id).as_deref(), Some("tok3"));
    assert_eq!(db.get_secret(id).unwrap().refresh_token_id, None);
}

#[test]
fn poll_answers_in_form_encoding() {
    match interpret_poll_response(400, "error=slow_down&interval=7").unwrap() {
        PollResult::SlowDown { new_interval } => assert_eq!(new_interval, 12),
        other => panic!("{:?}", other),
    }
    match interpret_poll_response(400, "error=slow_down").unwrap() {
        PollResult::SlowDown { new_interval } => assert_eq!(new_interval, 5),
        other => panic!("{:?}", other),
    }
    match interpret_poll_response(400, "error=authorization_pending").unwrap() {
        PollResult::Pending => {}
        other => panic!("{:?}", other),
    }
    match interpret_poll_response(200, "access_token=a%20b&scope=repo&refresh_token=r1").unwrap() {
        PollResult::Success(p) => {
            assert_eq!(p.access_token, "a b");
            assert_eq!(p.refresh_token.as_deref(), Some("r1"));
        }
        other => panic!("{:?}", other),
    }
    assert_eq!(
        interpret_poll_response(200, "scope=repo").err(),
        Some(OAuthError::MissingAccessToken)
    );
}

#[test]
fn poll_errors_have_messages() {
    match interpret_poll_response(400, "{\"error\":\"expired_token\"}").unwrap() {
        PollResult::Error(m) => {
            assert_eq!(m, "Device code has expired. Please start a new authorization.")
        }
        other => panic!("{:?}", other),
    }
    match interpret_poll_response(200, "{\"error\":\"weird\",\"error_description\":\"Odd\"}").unwrap() {
        PollResult::Error(m) => assert_eq!(m, "Token request failed: Odd"),
        other => panic!("{:?}", other),
    }
    match interpret_poll_response(500, "oops").unwrap() {
        PollResult::Error(m) => assert_eq!(m, "Token request failed with status: 500"),
        other => panic!("{:?}", other),
    }
    match interpret_poll_response(400, "nonsense").unwrap() {
        PollResult::Error(m) => assert_eq!(m, "Token request failed: nonsense"),
        other => panic!("{:?}", other),
    }
}

#[test]
fn poller_gives_up_when_the_code_expires() {
    let mut poller = DevicePoller::new(&device(5, 12));
    assert!(matches!(poller.step(PollResult::Pending), PollerAction::Wait(5)));
    assert!(matches!(poller.step(PollResult::Pending), PollerAction::Wait(5)));
    assert!(matches!(poller.step(PollResult::Pending), PollerAction::Abort(_)));
}

#[test]
fn device_code_answers() {
    let d = interpret_device_code_response(
        200,
        "{\"device_code\":\"d\",\"user_code\":\"U\",\"verification_uri\":\"https://v\",\"expires_in\":899,\"interval\":6}",
    )
    .unwrap();
    assert_eq!(d.device_code, "d");
    assert_eq!(d.interval, 6);
    assert_eq!(d.verification_uri_complete, None);
    let f = interpret_device_code_response(200, "device_code=d2&user_code=AB-CD").unwrap();
    assert_eq!(f.verification_uri, "https://github.com/login/device");
    assert_eq!(
        f.verification_uri_complete.as_deref(),
        Some("https://github.com/login/device?user_code=AB-CD")
    );
    assert_eq!(f.expires_in, 900);
    assert_eq!(f.interval, 5);
    assert_eq!(
        interpret_device_code_response(404, "").err(),
        Some(OAuthError::DeviceFlowUnavailable)
    );
    assert_eq!(
        interpret_device_code_response(200, "user_code=x").err(),
        Some(OAuthError::MissingDeviceCode)
    );
    assert_eq!(
        interpret_device_code_response(200, "device_code=x").err(),
        Some(OAuthError::MissingUserCode)
    );
    assert_eq!(
        interpret_device_code_response(500, "down").err(),
        Some(OAuthError::RequestFailed(500, "down".into()))
    );
}

fn github_setup() -> (Database, SecretStore, i64, i64) {
    let mut db = Database::new();
    let mut vault = SecretStore::new();
    let sec = db.create_secret("gh".into(), TtlKind::Forever, None, 1).unwrap();
    vault.set_tokens(sec, "tok", Some("r"));
    let src = db
        .create_source("github".into(), "repo".into(), "{}".into(), vec![], Some(sec), 1)
        .unwrap();
    (db, vault, sec, src)
}

#[test]
fn refresh_recovers_from_unauthorized() {
    let (mut db, mut vault, sec, src) = github_setup();
    db.increment_refresh_failure_count(sec, 2).unwrap();
    assert_eq!(sync_precheck(&db, src, 10), Ok(Some(sec)));
    assert_eq!(after_ingest(true, IngestStatus::Unauthorized, true), SyncStep::RefreshAndRetry);
    let fresh = interpret_refresh_response(200, "{\"access_token\":\"tok2\",\"refresh_token\":\"r2\"}").unwrap();
    apply_refresh_success(&mut db, &mut vault, sec, &fresh, 10).unwrap();
    assert_eq!(after_ingest(false, IngestStatus::Succeeded, true), SyncStep::Store);
    assert_eq!(db.get_secret(sec).unwrap().refresh_failure_count, 0);
    assert_eq!(vault.get(sec).as_deref(), Some("tok2"));
    assert_eq!(vault.get_refresh_token(sec).as_deref(), Some("r2"));
    assert_eq!(after_ingest(false, IngestStatus::Unauthorized, true), SyncStep::Fail);
}

#[test]
fn refresh_keeps_old_refresh_token_when_none_comes() {
    let (mut db, mut vault, sec, _) = github_setup();
    let fresh = interpret_refresh_response(200, "access_token=tok9").unwrap();
    apply_refresh_success(&mut db, &mut vault, sec, &fresh, 10).unwrap();
    assert_eq!(vault.get(sec).as_deref(), Some("tok9"));
    assert_eq!(vault.get_refresh_token(sec).as_deref(), Some("r"));
    assert!(matches!(
        interpret_refresh_response(401, "bad"),
        Err(OAuthError::RequestFailed(401, _))
    ));
}

#[test]
fn three_refresh_failures_force_reauthorization() {
    let (mut db, _vault, sec, src) = github_setup();
    let src2 = db
        .create_source("github_notifications".into(), "n".into(), "{}".into(), vec![], Some(sec), 1)
        .unwrap();
    assert_eq!(apply_refresh_failure(&mut db, sec, 100), Ok(1));
    assert_eq!(apply_refresh_failure(&mut db, sec, 200), Ok(2));
    assert!(db.get_source(src).unwrap().enabled);
    assert_eq!(apply_refresh_failure(&mut db, sec, 300), Ok(3));
    let s = db.get_secret(sec).unwrap();
    assert!(s.expires_at.unwrap() <= 300);
    assert!(!db.get_source(src).unwrap().enabled);
    assert!(!db.get_source(src2).unwrap().enabled);
    assert_eq!(sync_precheck(&db, src, 301), Err(SyncError::ReauthorizeRequired));
    assert_eq!(sync_precheck(&db, src2, 301), Err(SyncError::ReauthorizeRequired));
}

#[test]
fn precheck_needs_a_credential_for_code_forge_sources() {
    let mut db = Database::new();
    let gh = db.create_source("github".into(), "g".into(), "{}".into(), vec![], None, 1).unwrap();
    let rss = db.create_source("rss".into(), "r".into(), "{}".into(), vec![], None, 1).unwrap();
    assert_eq!(sync_precheck(&db, gh, 5), Err(SyncError::MissingCredential));
    assert_eq!(sync_precheck(&db, rss, 5), Ok(None));
    assert_eq!(sync_precheck(&db, 999, 5), Err(SyncError::SourceNotFound));
}

#[test]
fn vault_operations() {
    let mut vault = SecretStore::new();
    vault.set_tokens(1, "a", Some("ra"));
    vault.set(1, "a2");
    assert_eq!(vault.get(1).as_deref(), Some("a2"));
    assert_eq!(vault.get_refresh_token(1).as_deref(), Some("ra"));
    vault.set(2, "b");
    assert_eq!(vault.get_refresh_token(2), None);
    vault.delete(1);
    assert_eq!(vault.get(1), None);
    assert_eq!(vault.get(2).as_deref(), Some("b"));
    assert_eq!(vault.entries().len(), 1);
}

#[test]
fn source_tokens_move_into_the_vault() {
    let mut db = Database::new();
    let mut vault = SecretStore::new();
    let src = db.create_source("github".into(), "g".into(), "{}".into(), vec![], None, 1).unwrap();
    let id = adopt_source_token(&mut db, &mut vault, src, "pat123", 5).unwrap();
    assert_eq!(db.get_source(src).unwrap().secret_id, Some(id));
    assert_eq!(db.get_secret(id).unwrap().name, format!("Source {} token", src));
    assert_eq!(vault.get(id).as_deref(), Some("pat123"));
    assert_eq!(sync_precheck(&db, src, 6), Ok(Some(id)));
    db.delete_secret(id).unwrap();
    assert_eq!(sync_precheck(&db, src, 6), Err(SyncError::MissingCredential));
    db.set_source_secret(src, None, 7).unwrap();
    assert_eq!(db.get_source(src).unwrap().secret_id, None);
    assert!(adopt_source_token(&mut db, &mut vault, 999, "x", 8).is_err());
}

#[test]
fn config_lists_are_read() {
    let cfg = read_json_object("{\"repositories\":[\"o/r\",7,\"a/b\"],\"endpoints\":\"issues\"}");
    assert_eq!(get_text_list(&cfg, "repositories"), vec!["o/r".to_string(), "a/b".to_string()]);
    assert!(get_text_list(&cfg, "endpoints").is_empty());
    assert!(get_text_list(&cfg, "missing").is_empty());
}

#[test]
fn issue_summaries_are_cut_by_bytes() {
    let body = "é".repeat(501);
    let i = IssueFields {
        number: 1,
        title: "t".into(),
        body: Some(body),
        html_url: "u".into(),
        is_pull_request: true,
        updated_at: "x".into(),
    };
    let it = issue_to_item("o", "r", &i);
    let s = it.summary.unwrap();
    assert_eq!(s, format!("{}...", "é".repeat(250)));
    assert_eq!(it.item_type, "pr");
    assert_eq!(it.occurred_at, None);
    let short = IssueFields { body: Some("a".repeat(500)), ..i };
    assert_eq!(issue_to_item("o", "r", &short).summary, Some("a".repeat(500)));
}
