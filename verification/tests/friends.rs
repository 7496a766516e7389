use pomme::friends::{
    map_error, normalize_presence, parse_retry_after, settings_from_preferences, strip_dashes, toggle_str,
    FriendsApi, FriendsApiError, FriendsList, PresenceEntry, PresenceJoinInfo, UpdateType,
    DEFAULT_RETRY_AFTER_SECS,
};
use pomme::text::decimal_string;

fn message(e: &FriendsApiError) -> String {
    match e {
        FriendsApiError::Message { message } => message.clone(),
        FriendsApiError::RateLimited { .. } => panic!("not a message"),
    }
}

#[test]
fn rate_limit_keeps_wait() {
    match map_error(FriendsApi::Presence, 429, 17) {
        FriendsApiError::RateLimited { retry_after_secs } => assert_eq!(retry_after_secs, 17),
        _ => panic!("expected a rate limit"),
    }
}

#[test]
fn bad_request_depends_on_endpoint() {
    assert_eq!(message(&map_error(FriendsApi::FriendByName, 400, 60)), "Unknown profile name");
    assert_eq!(message(&map_error(FriendsApi::FriendById, 400, 60)), "Invalid request");
    assert_eq!(
        message(&map_error(FriendsApi::Attributes, 403, 60)),
        "Account does not have an active Java profile"
    );
    assert_eq!(
        message(&map_error(FriendsApi::FriendById, 503, 60)),
        "Friends service unavailable, try again later"
    );
    assert_eq!(message(&map_error(FriendsApi::FriendById, 404, 60)), "Friends service returned HTTP 404");
    assert_eq!(message(&map_error(FriendsApi::FriendById, 0, 60)), "Friends service returned HTTP 0");
}

#[test]
fn error_text() {
    assert_eq!(
        FriendsApiError::RateLimited { retry_after_secs: 30 }.to_string(),
        "Rate limited, try again in 30s"
    );
    assert_eq!(FriendsApiError::msg("boom".to_string()).to_string(), "boom");
    let e: FriendsApiError = String::from("x").into();
    assert_eq!(e.to_string(), "x");
}

#[test]
fn retry_after_parses_trimmed_seconds() {
    assert_eq!(parse_retry_after(Some(b" 120 ")), 120);
    assert_eq!(parse_retry_after(Some(b"\t7")), 7);
    assert_eq!(parse_retry_after(Some(b"+5")), 5);
    assert_eq!(parse_retry_after(Some(b"0")), 0);
    assert_eq!(parse_retry_after(Some(b"4294967295")), u32::MAX);
}

#[test]
fn retry_after_falls_back() {
    assert_eq!(parse_retry_after(None), DEFAULT_RETRY_AFTER_SECS);
    assert_eq!(parse_retry_after(Some(b"")), 60);
    assert_eq!(parse_retry_after(Some(b"soon")), 60);
    assert_eq!(parse_retry_after(Some(b"-5")), 60);
    assert_eq!(parse_retry_after(Some(b"+")), 60);
    assert_eq!(parse_retry_after(Some(b"4294967296")), 60);
    assert_eq!(parse_retry_after(Some(b"1 2")), 60);
    assert_eq!(parse_retry_after(Some(b"12\x01")), 60);
    assert_eq!(parse_retry_after(Some(b"Wed, 21 Oct 2015 07:28:00 GMT")), 60);
}

#[test]
fn dashes_are_removed() {
    assert_eq!(strip_dashes("069a79f4-44e9-4726-a5be-fca90e38aaf5"), "069a79f444e94726a5befca90e38aaf5");
    assert_eq!(strip_dashes("plain"), "plain");
}

#[test]
fn presence_ids_are_undashed() {
    let entries = vec![
        PresenceEntry {
            profile_id: "a-b-c".to_string(),
            status: "ONLINE".to_string(),
            join_info: Some(PresenceJoinInfo { value: "v".to_string(), invited: true }),
            last_updated: None,
        },
        PresenceEntry { profile_id: "d".to_string(), status: "OFFLINE".to_string(), join_info: None, last_updated: Some("t".to_string()) },
    ];
    let out = normalize_presence(entries);
    assert_eq!(out.len(), 2);
    assert_eq!(out[0].profile_id, "abc");
    assert_eq!(out[0].status, "ONLINE");
    assert!(out[0].join_info.as_ref().unwrap().invited);
    assert_eq!(out[1].profile_id, "d");
    assert_eq!(out[1].last_updated.as_deref(), Some("t"));
}

#[test]
fn settings_are_on_unless_disabled() {
    let s = settings_from_preferences(None, Some("DISABLED"));
    assert!(s.show_in_list);
    assert!(!s.accept_invites);
    let s = settings_from_preferences(Some("ENABLED"), Some("disabled"));
    assert!(s.show_in_list);
    assert!(s.accept_invites);
}

#[test]
fn wire_names() {
    assert_eq!(toggle_str(true), "ENABLED");
    assert_eq!(toggle_str(false), "DISABLED");
    assert_eq!(UpdateType::Add.as_str(), "ADD");
    assert_eq!(UpdateType::Remove.as_str(), "REMOVE");
}

#[test]
fn decimal_text() {
    assert_eq!(decimal_string(0), "0");
    assert_eq!(decimal_string(7), "7");
    assert_eq!(decimal_string(1234567), "1234567");
    assert_eq!(decimal_string(u32::MAX), "4294967295");
}

#[test]
fn empty_friends_list() {
    let l = FriendsList::default();
    assert!(l.friends.is_empty() && l.incoming_requests.is_empty() && l.outgoing_requests.is_empty());
}

#[test]
fn retry_after_reads_back_any_decimal() {
    for n in [0u32, 1, 9, 10, 60, 3600, 99999, u32::MAX] {
        let text = decimal_string(n);
        assert_eq!(parse_retry_after(Some(text.as_bytes())), n);
    }
}
