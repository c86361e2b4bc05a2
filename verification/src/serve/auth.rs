//! Logins.

use vstd::prelude::*;
use crate::flash;
use crate::percent;
use crate::percent::{percent_encode, Safe};
use crate::text;
use crate::types::timestamp::{Timestamp, MILLIS_PER_MINUTE};

verus! {

/// The name of the cookie that holds a session.
pub const SESSION_COOKIE: &'static str = "hc_session";

/// The name of the cookie that holds a login under way.
pub const FLOW_COOKIE: &'static str = "hc_oidc_flow";

/// How long a session lasts: thirty days.
pub const SESSION_LIFETIME_MINUTES: i64 = 43_200;

/// A session with less time than this left is issued anew: seven days.
pub const SESSION_RENEW_WITHIN_MINUTES: i64 = 10_080;

/// How long a login may take.
pub const FLOW_LIFETIME_MINUTES: i64 = 10;

/// The user that a request comes from.
pub struct CurrentUser {
    pub email: String,
}

/// What the cookie of a session holds.
pub struct SessionPayload {
    pub email: String,
    pub expires_at: Timestamp,
}

/// What a login under way has to remember.
pub struct OidcFlowState {
    pub csrf_token: String,
    pub nonce: String,
    pub pkce_verifier: String,
    pub return_to: String,
}

/// What the cookie of a login under way holds.
pub struct FlowPayload {
    pub state: OidcFlowState,
    pub expires_at: Timestamp,
}

/// How a cookie is set. Every cookie here is sent for the whole site, kept
/// from scripts, and not sent along with requests that other sites make.
pub struct CookiePlan {
    pub name: &'static str,
    pub max_age_minutes: i64,
    /// Whether the cookie is sent over secure connections only.
    pub secure: bool,
}

/// Whether a lifetime from `now` on can be reckoned.
pub open spec fn in_time(now: Timestamp, minutes: i64) -> bool {
    now.millis + minutes * MILLIS_PER_MINUTE <= i64::MAX
}

/// The cookie of a new session. It and what it holds expire together.
pub fn set_session_cookie(email: &str, secure: bool, now: Timestamp) -> (result: (
    SessionPayload,
    CookiePlan,
))
    requires
        in_time(now, SESSION_LIFETIME_MINUTES),
    ensures
        result.0.email@ == email@,
        result.0.expires_at.millis == now.millis + SESSION_LIFETIME_MINUTES * MILLIS_PER_MINUTE,
        result.1.name@ == SESSION_COOKIE@,
        result.1.max_age_minutes == SESSION_LIFETIME_MINUTES,
        result.1.secure == secure,
{
    let expires_at = now.minus_minutes(-SESSION_LIFETIME_MINUTES);
    (
        SessionPayload { email: email.to_owned(), expires_at },
        CookiePlan { name: SESSION_COOKIE, max_age_minutes: SESSION_LIFETIME_MINUTES, secure },
    )
}

/// The user of a session that has not expired.
pub open spec fn user_of(payload: Option<SessionPayload>, now: Timestamp) -> Option<Seq<char>> {
    match payload {
        Some(p) => if p.expires_at.millis < now.millis {
            None
        } else {
            Some(p.email@)
        },
        None => None,
    }
}

/// The user that a session belongs to, if it has not expired. A cookie that
/// cannot be read is none.
pub fn read_session(payload: &Option<SessionPayload>, now: Timestamp) -> (result: Option<
    CurrentUser,
>)
    ensures
        match result {
            Some(user) => user_of(*payload, now) == Some(user.email@),
            None => user_of(*payload, now) is None,
        },
{
    match payload {
        Some(p) => if p.expires_at.millis < now.millis {
            None
        } else {
            Some(CurrentUser { email: p.email.clone() })
        },
        None => None,
    }
}

/// Whether a session is to be issued anew.
pub open spec fn ends_soon(payload: Option<SessionPayload>, now: Timestamp) -> bool {
    payload matches Some(p) && p.expires_at.millis < now.millis + SESSION_RENEW_WITHIN_MINUTES
        * MILLIS_PER_MINUTE
}

/// Whether a session is to be issued anew, so that an active user is never
/// logged out.
pub fn session_needs_renewal(payload: &Option<SessionPayload>, now: Timestamp) -> (result: bool)
    requires
        in_time(now, SESSION_RENEW_WITHIN_MINUTES),
    ensures
        result == ends_soon(*payload, now),
{
    match payload {
        Some(p) => {
            let threshold = now.minus_minutes(-SESSION_RENEW_WITHIN_MINUTES);
            p.expires_at.millis < threshold.millis
        },
        None => false,
    }
}

/// The cookie of a login that begins.
pub fn set_flow_cookie(state: OidcFlowState, secure: bool, now: Timestamp) -> (result: (
    FlowPayload,
    CookiePlan,
))
    requires
        in_time(now, FLOW_LIFETIME_MINUTES),
    ensures
        result.0.state == state,
        result.0.expires_at.millis == now.millis + FLOW_LIFETIME_MINUTES * MILLIS_PER_MINUTE,
        result.1.name@ == FLOW_COOKIE@,
        result.1.max_age_minutes == FLOW_LIFETIME_MINUTES,
        result.1.secure == secure,
{
    let expires_at = now.minus_minutes(-FLOW_LIFETIME_MINUTES);
    (
        FlowPayload { state, expires_at },
        CookiePlan { name: FLOW_COOKIE, max_age_minutes: FLOW_LIFETIME_MINUTES, secure },
    )
}

/// Takes the cookie of a login out of a request: whether it is to be removed
/// from the browser, and the login that it holds. A cookie that is there is
/// removed in any case, be it good, expired or unreadable; one that has expired
/// or cannot be read (`Some(None)`) holds no login.
pub fn take_flow_cookie(cookie: Option<Option<FlowPayload>>, now: Timestamp) -> (result: (
    bool,
    Option<OidcFlowState>,
))
    ensures
        result.0 == (cookie is Some),
        result.1 == match cookie {
            Some(Some(p)) => if p.expires_at.millis < now.millis {
                None
            } else {
                Some(p.state)
            },
            _ => None,
        },
{
    match cookie {
        Some(Some(p)) => if p.expires_at.millis < now.millis {
            (true, None)
        } else {
            (true, Some(p.state))
        },
        Some(None) => (true, None),
        None => (false, None),
    }
}

/// A session is good from the moment it is set until its lifetime is over, and
/// in the last week of that it is issued anew.
pub proof fn law_sessions_last_their_time(
    email: Seq<char>,
    payload: SessionPayload,
    set_at: Timestamp,
    now: Timestamp,
)
    requires
        payload.email@ == email,
        payload.expires_at.millis == set_at.millis + SESSION_LIFETIME_MINUTES * MILLIS_PER_MINUTE,
    ensures
        now.millis <= set_at.millis + SESSION_LIFETIME_MINUTES * MILLIS_PER_MINUTE ==> user_of(
            Some(payload),
            now,
        ) == Some(email),
        now.millis > set_at.millis + SESSION_LIFETIME_MINUTES * MILLIS_PER_MINUTE ==> user_of(
            Some(payload),
            now,
        ) is None,
        ends_soon(Some(payload), now) <==> now.millis > set_at.millis + (SESSION_LIFETIME_MINUTES
            - SESSION_RENEW_WITHIN_MINUTES) * MILLIS_PER_MINUTE,
{
}

/// Whether a target is a path on this server. Browsers take two slashes, or a
/// slash and a backslash, for the start of another server's address.
pub open spec fn is_local(target: Seq<char>) -> bool {
    &&& text::starts_with(target, "/"@)
    &&& !text::starts_with(target, "//"@)
    &&& !text::starts_with(target, "/\\"@)
    &&& forall|i: int| 0 <= i < target.len() ==> !text::is_control_code(#[trigger] target[i])
}

/// The target itself, if it is a path on this server, or the start page.
pub open spec fn safe_target(raw: Seq<char>) -> Seq<char> {
    if is_local(raw) {
        raw
    } else {
        "/"@
    }
}

/// Where to go after a login. A target that is not a path on this server is
/// not followed.
pub fn safe_return_to(raw: &str) -> (result: String)
    ensures
        result@ == safe_target(raw@),
{
    let v = text::chars_of(raw);
    let mut plain = true;
    let mut i: usize = 0;
    while i < v.len()
        invariant
            v@ == raw@,
            i <= v@.len(),
            plain == forall|k: int| 0 <= k < i ==> !text::is_control_code(#[trigger] v@[k]),
        decreases v@.len() - i,
    {
        if v[i].is_control() {
            plain = false;
        }
        i += 1;
    }
    if plain && text::has_prefix(raw, "/") && !text::has_prefix(raw, "//") && !text::has_prefix(
        raw,
        "/\\",
    ) {
        raw.to_owned()
    } else {
        "/".to_owned()
    }
}

/// A login never leads off this server: where it goes begins with one slash,
/// which neither another slash nor a backslash follows, and holds nothing that
/// could end a header.
pub proof fn law_logins_stay_on_this_server(raw: Seq<char>)
    ensures
        ({
            let target = safe_target(raw);
            &&& is_local(target)
            &&& target.len() > 0 && target[0] == '/'
            &&& target.len() > 1 ==> target[1] != '/' && target[1] != '\\'
            &&& !target.contains('\r') && !target.contains('\n')
        }),
{
    let target = safe_target(raw);
    reveal_strlit("/");
    reveal_strlit("//");
    reveal_strlit("/\\");
    if is_local(raw) {
        assert(raw.subrange(0, 1)[0] == raw[0]);
        if raw.len() > 1 {
            assert(raw.subrange(0, 2) =~= seq![raw[0], raw[1]]);
            assert("//"@ =~= seq!['/', '/']);
            assert("/\\"@ =~= seq!['/', '\\']);
        }
    } else {
        assert(target.subrange(0, 1) =~= "/"@);
    }
    assert forall|i: int| 0 <= i < target.len() implies target[i] != '\r' && target[i] != '\n' by {
        assert(!text::is_control_code(target[i]));
    }
}

/// Where a login that is asked for returns to.
pub fn return_target(query: &Vec<(String, String)>) -> (result: String)
    ensures
        result@ == match flash::query_get(flash::pair_views(query@), "return_to"@) {
            Some(raw) => safe_target(raw),
            None => "/"@,
        },
{
    match flash::query_value_of(query, "return_to") {
        Some(raw) => safe_return_to(raw.as_str()),
        None => "/".to_owned(),
    }
}

/// Where the provider of logins sends a user back to.
pub fn redirect_uri(external_url: &str) -> (result: String)
    ensures
        result@ == text::strip_end(external_url@, text::being('/')) + "/auth/callback"@,
{
    text::cat2(text::strip_end_char(external_url, '/'), "/auth/callback")
}

/// Whether cookies are sent over secure connections only. A server without
/// such connections could not log anybody in otherwise.
pub fn secure_cookies(external_url: &str) -> (result: bool)
    ensures
        result == text::starts_with(external_url@, "https://"@),
{
    text::has_prefix(external_url, "https://")
}

/// What is answered to somebody who comes back from the provider in vain.
pub open spec fn callback_error(
    flow: Option<OidcFlowState>,
    query: Seq<(Seq<char>, Seq<char>)>,
) -> Option<Seq<char>> {
    match flow {
        None => Some("Login session expired or was not started here. Try logging in again."@),
        Some(f) => if flash::query_get(query, "code"@) is None {
            Some("Missing authorization code"@)
        } else if f.csrf_token@ != match flash::query_get(query, "state"@) {
            Some(s) => s,
            None => ""@,
        } {
            Some("Login state mismatch \u{2014} please try again"@)
        } else {
            None
        },
    }
}

/// Checks that somebody who comes back from the provider has set out from here,
/// and gives the code they bring.
pub fn check_callback(flow: &Option<OidcFlowState>, query: &Vec<(String, String)>) -> (result:
    Result<String, &'static str>)
    ensures
        match result {
            Ok(code) => {
                &&& callback_error(*flow, flash::pair_views(query@)) is None
                &&& flash::query_get(flash::pair_views(query@), "code"@) == Some(code@)
            },
            Err(message) => callback_error(*flow, flash::pair_views(query@)) == Some(message@),
        },
{
    let f = match flow {
        Some(f) => f,
        None => return Err(
            "Login session expired or was not started here. Try logging in again.",
        ),
    };
    let code = match flash::query_value_of(query, "code") {
        Some(code) => code,
        None => return Err("Missing authorization code"),
    };
    let returned = match flash::query_value_of(query, "state") {
        Some(s) => s,
        None => "".to_owned(),
    };
    if !text::same(f.csrf_token.as_str(), returned.as_str()) {
        return Err("Login state mismatch \u{2014} please try again");
    }
    Ok(code)
}

/// The user that a provider vouches for.
pub fn claimed_user(email: Option<&str>) -> (result: Result<CurrentUser, &'static str>)
    ensures
        match email {
            Some(e) => result matches Ok(user) && user.email@ == text::lowercase(e@),
            None => result matches Err(m) && m@
                == "OIDC provider did not return an email claim; add the `email` scope on the provider side"@,
        },
{
    match email {
        Some(e) => Ok(CurrentUser { email: e.to_lowercase() }),
        None => Err(
            "OIDC provider did not return an email claim; add the `email` scope on the provider side",
        ),
    }
}

/// What is done with a request where logins are configured.
pub enum AuthDecision {
    /// The request is served. The session of the user is issued anew if there
    /// is one given.
    Pass(Option<CurrentUser>),
    /// The request is refused: it cannot be made again after a login, and what
    /// it carried would be lost.
    Expired,
    /// The user is sent to this address first.
    Login(String),
}

/// Where a user is sent to log in and come back to `uri`.
pub open spec fn login_url(uri: Seq<char>) -> Seq<char> {
    "/auth/login?return_to="@ + flash::query_value(uri)
}

/// Decides on a request.
pub fn require_auth(
    payload: &Option<SessionPayload>,
    is_get: bool,
    uri: &str,
    now: Timestamp,
) -> (result: AuthDecision)
    requires
        in_time(now, SESSION_RENEW_WITHIN_MINUTES),
    ensures
        match user_of(*payload, now) {
            Some(email) => match result {
                AuthDecision::Pass(Some(user)) => ends_soon(*payload, now) && user.email@ == email,
                AuthDecision::Pass(None) => !ends_soon(*payload, now),
                _ => false,
            },
            None => if is_get {
                result matches AuthDecision::Login(url) && url@ == login_url(uri@)
            } else {
                result is Expired
            },
        },
{
    match read_session(payload, now) {
        Some(user) => if session_needs_renewal(payload, now) {
            AuthDecision::Pass(Some(user))
        } else {
            AuthDecision::Pass(None)
        },
        None => if is_get {
            let encoded = percent_encode(uri, Safe::Alphanumeric);
            AuthDecision::Login(text::cat2("/auth/login?return_to=", encoded.as_str()))
        } else {
            AuthDecision::Expired
        },
    }
}

/// A user who is sent to log in comes back to where they wanted to go: the
/// address carries it unchanged.
pub proof fn law_the_way_back_is_kept(uri: Seq<char>)
    ensures
        percent::decoded(flash::query_value(uri)) == vstd::utf8::encode_utf8(uri),
        forall|i: int|
            0 <= i < flash::query_value(uri).len() ==> text::ascii_alphanumeric(
                #[trigger] flash::query_value(uri)[i],
            ) || flash::query_value(uri)[i] == '%',
{
    percent::law_encoding_can_be_undone(uri, percent::safe_in(Safe::Alphanumeric));
    percent::law_query_values_are_plain(uri);
}

/// A login lasts 30 days and is issued anew in its last week; it tells the user
/// that it was issued for, and nobody after that or without one.
pub proof fn law_logins_last_thirty_days(
    payload: SessionPayload,
    set_at: Timestamp,
    now: Timestamp,
)
    requires
        payload.expires_at.millis == set_at.millis + 30 * 24 * 60 * 60 * 1000,
    ensures
        set_at.millis + SESSION_LIFETIME_MINUTES * MILLIS_PER_MINUTE == payload.expires_at.millis,
        user_of(Some(payload), now) == if now.millis <= set_at.millis + 30 * 24 * 60 * 60 * 1000 {
            Some(payload.email@)
        } else {
            None
        },
        user_of(None, now) is None,
        ends_soon(Some(payload), now) <==> now.millis > set_at.millis + 23 * 24 * 60 * 60 * 1000,
        !ends_soon(None, now),
        FLOW_LIFETIME_MINUTES == 10,
{
}

/// A callback is accepted if and only if this browser began the login, the
/// provider sent a code, and the state that it sent back is the one that was
/// given to it.
pub proof fn law_callbacks_must_match_their_login(
    flow: Option<OidcFlowState>,
    query: Seq<(Seq<char>, Seq<char>)>,
)
    ensures
        callback_error(flow, query) is None <==> {
            &&& flow is Some
            &&& flash::query_get(query, "code"@) is Some
            &&& match flash::query_get(query, "state"@) {
                Some(s) => flow->0.csrf_token@ == s,
                None => flow->0.csrf_token@ == ""@,
            }
        },
{
}

/// A target on this server is kept, and any other gives way to the start page.
pub proof fn law_targets_on_this_server_are_kept(raw: Seq<char>)
    ensures
        raw.len() > 0 && raw[0] == '/' && (raw.len() > 1 ==> raw[1] != '/' && raw[1] != '\\') && (
        forall|i: int| 0 <= i < raw.len() ==> !text::is_control_code(#[trigger] raw[i]))
            <==> is_local(raw),
        is_local(raw) ==> safe_target(raw) == raw,
        !is_local(raw) ==> safe_target(raw) == seq!['/'],
{
    reveal_strlit("/");
    reveal_strlit("//");
    reveal_strlit("/\\");
    assert("/"@ =~= seq!['/']);
    if raw.len() > 0 {
        assert(raw.subrange(0, 1) =~= seq![raw[0]]);
        assert(text::starts_with(raw, "/"@) <==> raw[0] == '/') by {
            if text::starts_with(raw, "/"@) {
                assert(raw.subrange(0, 1)[0] == '/');
            }
        }
    }
    if raw.len() > 1 {
        let two = raw.subrange(0, 2);
        assert(two[0] == raw[0] && two[1] == raw[1]);
        if raw[0] == '/' && raw[1] == '/' {
            assert(two =~= "//"@);
        }
        if raw[0] == '/' && raw[1] == '\\' {
            assert(two =~= "/\\"@);
        }
    }
}

/// Whoever has to log in first comes back to where they were going.
pub proof fn law_logins_lead_back(uri: Seq<char>)
    ensures
        exists|value: Seq<char>|
            #[trigger] percent::decoded(value) == vstd::utf8::encode_utf8(uri) && login_url(uri)
                == "/auth/login?return_to="@ + value,
{
    let value = flash::query_value(uri);
    percent::law_encoding_can_be_undone(uri, percent::safe_in(Safe::Alphanumeric));
    assert(percent::decoded(value) == vstd::utf8::encode_utf8(uri));
}

} // verus!
