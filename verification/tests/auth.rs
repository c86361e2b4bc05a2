//! Logins.

use hashcards_web::serve::auth::{
    check_callback, claimed_user, read_session, redirect_uri, require_auth, return_target,
    safe_return_to, secure_cookies, session_needs_renewal, set_flow_cookie, set_session_cookie,
    take_flow_cookie, AuthDecision, FlowPayload, OidcFlowState, SessionPayload, FLOW_COOKIE,
    FLOW_LIFETIME_MINUTES, SESSION_COOKIE, SESSION_LIFETIME_MINUTES,
    SESSION_RENEW_WITHIN_MINUTES,
};
use hashcards_web::types::timestamp::Timestamp;

fn now() -> Timestamp {
    Timestamp { millis: chrono::Utc::now().timestamp_millis() }
}

fn after(t: Timestamp, minutes: i64) -> Timestamp {
    Timestamp { millis: t.millis + minutes * 60_000 }
}

fn flow() -> OidcFlowState {
    OidcFlowState {
        csrf_token: "csrf".to_string(),
        nonce: "nonce".to_string(),
        pkce_verifier: "verifier".to_string(),
        return_to: "/collection/japanese".to_string(),
    }
}

fn query(pairs: &[(&str, &str)]) -> Vec<(String, String)> {
    pairs.iter().map(|(k, v)| (k.to_string(), v.to_string())).collect()
}

#[test]
fn test_session_round_trip() {
    let now = now();
    let (payload, _) = set_session_cookie("me@example.com", true, now);
    let user = read_session(&Some(payload), now)
        .expect("session should be readable immediately after set");
    assert_eq!(user.email, "me@example.com");
}

#[test]
fn test_expired_session_is_rejected() {
    let now = now();
    let payload = SessionPayload {
        email: "me@example.com".to_string(),
        expires_at: now.minus_minutes(60 * 24),
    };
    assert!(read_session(&Some(payload), now).is_none());
    assert!(read_session(&None, now).is_none());
}

#[test]
fn test_flow_round_trip() {
    let now = now();
    let (payload, plan) = set_flow_cookie(flow(), true, now);
    assert_eq!(plan.name, FLOW_COOKIE);
    assert_eq!(plan.max_age_minutes, FLOW_LIFETIME_MINUTES);
    let taken = take_flow_cookie(Some(Some(payload)), now).1.expect("flow cookie should be readable");
    assert_eq!(taken.csrf_token, "csrf");
    assert_eq!(taken.return_to, "/collection/japanese");
}

/// `return_to` must never carry the user off this server after a successful
/// login: an absolute or protocol-relative target falls back to the site root.
#[test]
fn test_return_to_rejects_offsite_targets() {
    assert_eq!(safe_return_to("/collection/japanese"), "/collection/japanese");
    assert_eq!(safe_return_to("/a?b=c#d"), "/a?b=c#d");
    assert_eq!(safe_return_to("https://evil.example/"), "/");
    assert_eq!(safe_return_to("//evil.example/"), "/");
    assert_eq!(safe_return_to("/\\evil.example/"), "/");
    assert_eq!(safe_return_to("evil.example"), "/");
    assert_eq!(safe_return_to(""), "/");
    // Control characters cannot go in a `Location` header.
    assert_eq!(safe_return_to("/ok\r\nSet-Cookie: x=1"), "/");
}

/// The session cookie must outlive the browser process.
#[test]
fn test_session_cookie_carries_its_lifetime_and_secure_flag() {
    let (_, plan) = set_session_cookie("me@example.com", true, now());
    assert_eq!(plan.name, SESSION_COOKIE);
    assert_eq!(plan.max_age_minutes, SESSION_LIFETIME_MINUTES);
    assert!(plan.secure);
}

/// A plain-HTTP deployment must not set `Secure`, or the cookie is never sent
/// back and login loops forever.
#[test]
fn test_session_cookie_is_not_secure_over_plain_http() {
    let (_, plan) = set_session_cookie("me@example.com", false, now());
    assert!(!plan.secure);
    assert!(secure_cookies("https://hashcards.example.com"));
    assert!(!secure_cookies("http://hashcards.example.com"));
}

#[test]
fn test_expired_flow_cookie_is_still_removed() {
    let now = now();
    let payload = FlowPayload { state: flow(), expires_at: now.minus_minutes(60) };
    let (removed, state) = take_flow_cookie(Some(Some(payload)), now);
    assert!(state.is_none(), "an expired flow cookie must not be accepted");
    assert!(removed, "the stale cookie must be removed from the jar");
}

#[test]
fn test_missing_flow_cookie_returns_the_jar() {
    let (removed, state) = take_flow_cookie(None, now());
    assert!(state.is_none());
    assert!(!removed);
    let (removed, state) = take_flow_cookie(Some(None), now());
    assert!(state.is_none());
    assert!(removed);
}

/// A non-GET request with no session must not be redirected: that would
/// silently discard the submitted form data.
#[test]
fn test_unauthenticated_post_gets_401_not_a_redirect() {
    let now = now();
    let decision = require_auth(&None, false, "/collection/test-collection/start", now);
    assert!(matches!(decision, AuthDecision::Expired));
    match require_auth(&None, true, "/collection/a b?x=1", now) {
        AuthDecision::Login(url) => {
            assert_eq!(url, "/auth/login?return_to=%2Fcollection%2Fa%20b%3Fx%3D1")
        }
        _ => panic!("a page is asked for again after the login"),
    }
}

#[test]
fn a_session_slides_in_its_last_week() {
    let start = now();
    let (payload, _) = set_session_cookie("me@example.com", true, start);
    let payload = Some(payload);
    assert!(!session_needs_renewal(&payload, start));
    assert!(matches!(require_auth(&payload, true, "/", start), AuthDecision::Pass(None)));
    let late = after(start, SESSION_LIFETIME_MINUTES - SESSION_RENEW_WITHIN_MINUTES + 1);
    assert!(session_needs_renewal(&payload, late));
    match require_auth(&payload, false, "/", late) {
        AuthDecision::Pass(Some(user)) => assert_eq!(user.email, "me@example.com"),
        _ => panic!("the session must be issued anew"),
    }
    let over = after(start, SESSION_LIFETIME_MINUTES + 1);
    assert!(matches!(require_auth(&payload, false, "/", over), AuthDecision::Expired));
}

#[test]
fn a_callback_answers_its_own_login() {
    let flow = Some(flow());
    let good = query(&[("state", "csrf"), ("code", "c0de")]);
    assert_eq!(check_callback(&flow, &good), Ok("c0de".to_string()));
    assert!(check_callback(&None, &good).is_err());
    assert!(check_callback(&flow, &query(&[("state", "other"), ("code", "c0de")])).is_err());
    assert!(check_callback(&flow, &query(&[("code", "c0de")])).is_err());
    assert!(check_callback(&flow, &query(&[("state", "csrf")])).is_err());
}

#[test]
fn a_user_is_their_email_in_small_letters() {
    match claimed_user(Some("Me@Example.com")) {
        Ok(user) => assert_eq!(user.email, "me@example.com"),
        Err(e) => panic!("unexpected error: {e}"),
    }
    assert!(claimed_user(None).is_err());
}

#[test]
fn the_way_back_is_kept() {
    assert_eq!(return_target(&query(&[("return_to", "/a?b=c")])), "/a?b=c");
    assert_eq!(return_target(&query(&[("return_to", "//evil")])), "/");
    assert_eq!(return_target(&Vec::new()), "/");
    assert_eq!(redirect_uri("https://h.example/"), "https://h.example/auth/callback");
}
