use tungsten::roblox::{Creator, UploadRequest};
use tungsten::upload::{parse_u64, PollOutcome, PollState, RetryAction, RetryState, MAX_POLLS};

#[test]
fn fatal_failure_blocks_requests() {
    assert!(RetryState::start(true).is_none());
    assert!(RetryState::start(false).is_some());
}

#[test]
fn ok_is_accepted() {
    let mut s = RetryState::start(false).unwrap();
    assert!(matches!(s.on_response(200, None), RetryAction::Accept));
}

#[test]
fn other_status_is_rejected() {
    let mut s = RetryState::start(false).unwrap();
    assert!(matches!(s.on_response(401, None), RetryAction::Reject));
    let mut s = RetryState::start(false).unwrap();
    assert!(matches!(s.on_response(500, Some("3")), RetryAction::Reject));
}

#[test]
fn rate_limit_uses_reset_header() {
    let mut s = RetryState::start(false).unwrap();
    assert!(matches!(s.on_response(429, Some("7")), RetryAction::Wait(7)));
    assert!(matches!(s.on_response(429, Some("+12")), RetryAction::Wait(12)));
}

#[test]
fn rate_limit_backoff_doubles_without_header() {
    let mut s = RetryState::start(false).unwrap();
    assert!(matches!(s.on_response(429, None), RetryAction::Wait(1)));
    assert!(matches!(s.on_response(429, Some("soon")), RetryAction::Wait(2)));
    assert!(matches!(s.on_response(429, Some("")), RetryAction::Wait(4)));
    assert!(matches!(s.on_response(429, Some("-1")), RetryAction::Wait(8)));
    assert!(matches!(s.on_response(429, None), RetryAction::Wait(16)));
    // a sixth rate limit is fatal
    assert!(matches!(s.on_response(429, None), RetryAction::Reject));
}

#[test]
fn poll_waits_double_and_time_out() {
    let mut p = PollState::new();
    let mut waits = Vec::new();
    while let Some(w) = p.next_wait() {
        waits.push(w);
        assert!(matches!(p.on_operation(false, None), PollOutcome::Pending));
    }
    assert_eq!(waits, vec![1, 2, 4, 8, 16, 32, 64, 128, 256, 512]);
    assert_eq!(waits.len() as u32, MAX_POLLS);
}

#[test]
fn poll_finishes_with_asset_id() {
    let mut p = PollState::new();
    assert_eq!(p.next_wait(), Some(1));
    assert!(matches!(p.on_operation(false, Some("123")), PollOutcome::Pending));
    assert_eq!(p.next_wait(), Some(2));
    assert!(matches!(p.on_operation(true, Some("123456789")), PollOutcome::Finished(123456789)));
}

#[test]
fn poll_reports_missing_or_bad_asset_id() {
    let mut p = PollState::new();
    assert!(matches!(p.on_operation(true, None), PollOutcome::MissingAssetId));
    assert!(matches!(p.on_operation(true, Some("12a")), PollOutcome::BadAssetId));
    assert!(matches!(
        p.on_operation(true, Some("99999999999999999999")),
        PollOutcome::BadAssetId
    ));
}

#[test]
fn creator_from_config() {
    assert!(matches!(Creator::from_config("user", 5), Ok(Creator::User(5))));
    assert!(matches!(Creator::from_config("group", 9), Ok(Creator::Group(9))));
    match Creator::from_config("team", 1) {
        Err(e) => assert_eq!(e.creator_type, "team"),
        Ok(_) => panic!("team is not a creator type"),
    }
    assert!(Creator::from_config("User", 1).is_err());
}

#[test]
fn decal_upload_request() {
    let r = UploadRequest::decal("tungsten_icons_0", Creator::Group(3));
    assert_eq!(r.asset_type, "Decal");
    assert_eq!(r.display_name, "tungsten_icons_0");
    assert_eq!(r.description, "Uploaded by Tungsten");
    assert!(matches!(r.creator, Creator::Group(3)));
}

#[test]
fn parse_u64_follows_std() {
    for s in ["", "+", "-", "-1", "+0", "007", " 1", "1 ", "18446744073709551615",
              "18446744073709551616", "12a", "+-1", "++1", "٣"] {
        assert_eq!(parse_u64(s), s.parse::<u64>().ok(), "input {:?}", s);
    }
}
