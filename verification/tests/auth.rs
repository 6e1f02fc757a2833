use wiki_rs::auth::{
    authenticate, get_cookie_map, is_cookie_header_ok, is_within_lifetime, jwt_of_cookies,
    session_verdict, verdict_message, AuthError, SessionStore, SessionVerdict,
};
use wiki_rs::controllers::login::{login_user, Claims, JWT_COOKIE_KEY, TOKEN_LIFETIME_SECS};
use wiki_rs::time::Timestamp;
use wiki_rs::usecases::users::User;

fn ts(secs: i64, nanos: u32) -> Timestamp {
    Timestamp { secs, nanos }
}

const HOUR: i64 = 3600;

#[test]
fn login_is_valid_for_a_day() {
    let t0 = ts(1_000_000, 0);
    assert!(is_within_lifetime(t0, ts(1_000_000 + 23 * HOUR, 999_999_999)));
    assert!(!is_within_lifetime(t0, ts(1_000_000 + 24 * HOUR, 0)));
    assert!(is_within_lifetime(t0, ts(0, 0)));
}

#[test]
fn sessions_and_verdicts() {
    let mut store = SessionStore::new();
    let t0 = ts(1_000_000, 0);
    assert_eq!(store.last_login(1), None);
    store.login(1, t0);
    assert_eq!(store.last_login(1).map(|t| t.secs), Some(1_000_000));
    assert!(store.is_valid_time(1, ts(1_000_000 + HOUR, 0)));
    assert!(!store.is_valid_time(1, ts(1_000_000 + 25 * HOUR, 0)));
    assert!(!store.is_valid_time(2, ts(1_000_000 + HOUR, 0)));
    assert_eq!(session_verdict(true, &store, 1, ts(1_000_000 + HOUR, 0)), SessionVerdict::Valid);
    assert_eq!(session_verdict(true, &store, 1, ts(1_000_000 + 25 * HOUR, 0)), SessionVerdict::InvalidTime);
    assert_eq!(session_verdict(true, &store, 2, t0), SessionVerdict::InvalidTime);
    assert_eq!(session_verdict(false, &store, 1, t0), SessionVerdict::InvalidToken);
    store.login(1, ts(1_000_000 + 24 * HOUR, 0));
    assert!(store.is_valid_time(1, ts(1_000_000 + 25 * HOUR, 0)));
    assert_eq!(verdict_message(SessionVerdict::InvalidToken), Some("invalid token."));
    assert_eq!(verdict_message(SessionVerdict::InvalidTime), Some("invalid time"));
    assert_eq!(verdict_message(SessionVerdict::Valid), None);
}

#[test]
fn opened_session_is_valid_now() {
    let mut store = SessionStore::new();
    let (id, at) = store.open_session();
    assert_eq!(store.last_login(id).map(|t| (t.secs, t.nanos)), Some((at.secs, at.nanos)));
    assert_eq!(store.check_session(true, id), SessionVerdict::Valid);
    assert_eq!(store.check_session(false, id), SessionVerdict::InvalidToken);
    assert_eq!(store.check_session(true, id ^ 1), SessionVerdict::InvalidTime);
    let (id2, _) = store.open_session();
    assert_ne!(id, id2);
    assert_eq!(uuid::Uuid::from_u128(id).get_version_num(), 4);
}

#[test]
fn basic_authentication() {
    let u = || Some(User::create("foo", "bar"));
    assert_eq!(authenticate(u(), "foo", "bar"), Ok(()));
    assert_eq!(authenticate(u(), "foo", "baz"), Err(AuthError::Unauthorized));
    assert_eq!(authenticate(u(), "fo", "bar"), Err(AuthError::Unauthorized));
    assert_eq!(authenticate(None, "foo", "bar"), Err(AuthError::Unauthorized));
}

#[test]
fn login_form_check() {
    let u = login_user(Some(User::create("foo", "bar")), "bar").unwrap();
    assert_eq!(u.name, "foo");
    assert!(login_user(Some(User::create("foo", "bar")), "baz").is_none());
    assert!(login_user(None, "bar").is_none());
}

#[test]
fn token_claims() {
    let u = User::create("a b", "pw");
    let c: Claims = Claims::for_user(&u, ts(100, 7));
    assert_eq!(c.exp, 100 + TOKEN_LIFETIME_SECS);
    assert_eq!(c.exp, 28_900);
    assert_eq!(c.uuid, "a%20b");
}

#[test]
fn cookie_header() {
    assert!(is_cookie_header_ok("a=1;jwt=tok"));
    assert!(!is_cookie_header_ok("a=1;b"));
    assert!(!is_cookie_header_ok(""));
    let pairs = get_cookie_map(Some("a=1;b=2=3; c=4"));
    let expected: Vec<(String, String)> = [("a", "1"), ("b", "2"), (" c", "4")]
        .iter()
        .map(|(k, v)| (k.to_string(), v.to_string()))
        .collect();
    assert_eq!(pairs, expected);
    assert!(get_cookie_map(None).is_empty());
    assert_eq!(JWT_COOKIE_KEY, "jwt");
    assert_eq!(jwt_of_cookies(Some("a=1;jwt=tok")), "tok");
    assert_eq!(jwt_of_cookies(Some("jwt=old;jwt=new")), "new");
    assert_eq!(jwt_of_cookies(Some("a=1; jwt=tok")), "");
    assert_eq!(jwt_of_cookies(None), "");
}
