//! Staying logged in: the table of open sessions with the time of their
//! login, the 24-hour session lifetime, the verdict on a request, basic
//! authentication, and reading the login token from the `Cookie` header.

use vstd::prelude::*;
use std::collections::HashMap;
use crate::text::{chars_of, split_chars, split_on, string_of, views};
use crate::time::{nanos_of, now, Timestamp};
use crate::uuids::{is_v4_value, new_uuid_value};
use crate::controllers::login::JWT_COOKIE_KEY;
use crate::usecases::users::{has_login, User};

verus! {

broadcast use vstd::std_specs::hash::group_hash_axioms;

/// How long a login stays valid: 24 hours, in nanoseconds.
pub open spec fn session_lifetime_nanos() -> int {
    86_400_000_000_000
}

/// A session logged in at `last` is still valid at `now`: less than 24 hours
/// have passed (a clock that went back counts as no time passed).
pub open spec fn within_lifetime(last: Timestamp, now: Timestamp) -> bool {
    nanos_of(now) - nanos_of(last) < session_lifetime_nanos()
}

/// Whether a session logged in at `last` is still valid at `now`.
pub fn is_within_lifetime(last: Timestamp, now: Timestamp) -> (b: bool)
    ensures
        b == within_lifetime(last, now),
{
    let a = (now.secs as i128) * 1_000_000_000 + (now.nanos as i128);
    let b = (last.secs as i128) * 1_000_000_000 + (last.nanos as i128);
    a - b < 86_400_000_000_000
}

/// The open sessions: session id (a UUID as its 128-bit value) to the time
/// of the login.
pub struct SessionStore {
    logins: HashMap<u128, Timestamp>,
}

impl View for SessionStore {
    type V = Map<u128, Timestamp>;

    closed spec fn view(&self) -> Map<u128, Timestamp> {
        self.logins@
    }
}

impl SessionStore {
    /// No open session.
    pub fn new() -> (s: SessionStore)
        ensures
            s@ == Map::<u128, Timestamp>::empty(),
    {
        SessionStore { logins: HashMap::new() }
    }

    /// Records a login of session `id` at `at` (a later login of the same id
    /// replaces the earlier one).
    pub fn login(&mut self, id: u128, at: Timestamp)
        ensures
            final(self)@ == old(self)@.insert(id, at),
    {
        self.logins.insert(id, at);
    }

    /// The time of the login of session `id`, if it is open.
    pub fn last_login(&self, id: u128) -> (r: Option<Timestamp>)
        ensures
            r == (if self@.contains_key(id) {
                Some(self@[id])
            } else {
                None::<Timestamp>
            }),
    {
        match self.logins.get(&id) {
            Some(t) => Some(*t),
            None => None,
        }
    }

    /// Opens a session for a user who has just logged in: a fresh random
    /// session id, logged in at the current time.
    pub fn open_session(&mut self) -> (r: (u128, Timestamp))
        ensures
            final(self)@ == old(self)@.insert(r.0, r.1),
            is_v4_value(r.0),
            r.1.secs >= 0,
            r.1.nanos < 1_000_000_000,
    {
        let id = new_uuid_value();
        let at = now();
        self.login(id, at);
        (id, at)
    }

    /// The verdict on a request for session `id` at the current time of the
    /// clock, given whether its login token is valid.
    pub fn check_session(&self, token_valid: bool, id: u128) -> (v: SessionVerdict)
        ensures
            exists|t: Timestamp| t.secs >= 0 && v == verdict(token_valid, self@, id, t),
    {
        let t = now();
        session_verdict(token_valid, self, id, t)
    }

    /// The session `id` is open and was logged in less than 24 hours before
    /// `now`.
    pub fn is_valid_time(&self, id: u128, now: Timestamp) -> (b: bool)
        ensures
            b == (self@.contains_key(id) && within_lifetime(self@[id], now)),
    {
        match self.last_login(id) {
            Some(t) => is_within_lifetime(t, now),
            None => false,
        }
    }
}

/// The answer to a request that must come from a logged-in user.
#[derive(Debug, PartialEq, Eq, Structural, Clone, Copy)]
pub enum SessionVerdict {
    /// The login token is missing or does not decode.
    InvalidToken,
    /// The session is unknown or older than 24 hours.
    InvalidTime,
    /// The session is open.
    Valid,
}

/// The verdict on a request: the token must be valid, and the session it
/// names must be open and less than 24 hours old.
pub open spec fn verdict(token_valid: bool, sessions: Map<u128, Timestamp>, id: u128, now: Timestamp) -> SessionVerdict {
    if !token_valid {
        SessionVerdict::InvalidToken
    } else if sessions.contains_key(id) && within_lifetime(sessions[id], now) {
        SessionVerdict::Valid
    } else {
        SessionVerdict::InvalidTime
    }
}

/// Decides whether a request comes from a logged-in user.
pub fn session_verdict(token_valid: bool, store: &SessionStore, id: u128, now: Timestamp) -> (v: SessionVerdict)
    ensures
        v == verdict(token_valid, store@, id, now),
{
    if !token_valid {
        SessionVerdict::InvalidToken
    } else if store.is_valid_time(id, now) {
        SessionVerdict::Valid
    } else {
        SessionVerdict::InvalidTime
    }
}

/// Sessions over time: once session `id` has logged in at `at`, a request
/// for it that holds a valid token is accepted until 24 hours have passed
/// since `at`, and turned away from that moment on. Recording that login
/// does not change how requests for any other session are answered, and a
/// request whose token is not valid is always turned away.
pub proof fn lemma_login_then_verdict(
    sessions: Map<u128, Timestamp>,
    id: u128,
    at: Timestamp,
    other: u128,
    now: Timestamp,
    token_valid: bool,
)
    ensures
        nanos_of(at) <= nanos_of(now) < nanos_of(at) + session_lifetime_nanos() ==> verdict(
            true,
            sessions.insert(id, at),
            id,
            now,
        ) == SessionVerdict::Valid,
        nanos_of(now) >= nanos_of(at) + session_lifetime_nanos() ==> verdict(
            true,
            sessions.insert(id, at),
            id,
            now,
        ) == SessionVerdict::InvalidTime,
        other != id ==> verdict(token_valid, sessions.insert(id, at), other, now) == verdict(
            token_valid,
            sessions,
            other,
            now,
        ),
        verdict(false, sessions, other, now) == SessionVerdict::InvalidToken,
{
}

/// The text of a 203 answer for a verdict that refuses the request.
pub fn verdict_message(v: SessionVerdict) -> (m: Option<&'static str>)
    ensures
        match v {
            SessionVerdict::InvalidToken => m matches Some(t) && t@ == "invalid token."@,
            SessionVerdict::InvalidTime => m matches Some(t) && t@ == "invalid time"@,
            SessionVerdict::Valid => m is None,
        },
{
    match v {
        SessionVerdict::InvalidToken => Some("invalid token."),
        SessionVerdict::InvalidTime => Some("invalid time"),
        SessionVerdict::Valid => None,
    }
}

/// A failed authentication.
#[derive(Debug, PartialEq, Eq, Structural, Clone, Copy)]
pub enum AuthError {
    /// No user with that id, or the password does not match.
    Unauthorized,
}

/// Basic authentication: the user stored under the given user id must exist
/// and have that name and password.
pub fn authenticate(user: Option<User>, user_id: &str, password: &str) -> (r: Result<(), AuthError>)
    ensures
        r is Ok <==> (user matches Some(u) && has_login(u, user_id@, password@)),
{
    match user {
        Some(u) => {
            if u.check(user_id, password) {
                Ok(())
            } else {
                Err(AuthError::Unauthorized)
            }
        },
        None => Err(AuthError::Unauthorized),
    }
}

// ---------------------------------------------------------------------------
// The Cookie header
// ---------------------------------------------------------------------------
/// Every `;`-separated part of the header holds a `=`.
pub open spec fn cookie_header_ok(header: Seq<char>) -> bool {
    forall|i: int|
        0 <= i < split_on(header, ';').len() ==> split_on(#[trigger] split_on(header, ';')[i], '=').len() >= 2
}

/// The name and value of a part `name=value[=...]`: what comes before the
/// first `=` and between the first and the second.
pub open spec fn cookie_pair(part: Seq<char>) -> (Seq<char>, Seq<char>) {
    (split_on(part, '=')[0], split_on(part, '=')[1])
}

/// The name-value pairs of the header, in order.
pub open spec fn cookie_pairs(header: Seq<char>) -> Seq<(Seq<char>, Seq<char>)> {
    let parts = split_on(header, ';');
    Seq::new(parts.len(), |i: int| cookie_pair(parts[i]))
}

/// The cookies as a map; a later pair with the same name wins.
pub open spec fn pairs_map(pairs: Seq<(Seq<char>, Seq<char>)>) -> Map<Seq<char>, Seq<char>>
    decreases pairs.len(),
{
    if pairs.len() == 0 {
        Map::empty()
    } else {
        pairs_map(pairs.drop_last()).insert(pairs.last().0, pairs.last().1)
    }
}

/// The cookies of a `Cookie` header value.
pub open spec fn cookie_map(header: Seq<char>) -> Map<Seq<char>, Seq<char>> {
    pairs_map(cookie_pairs(header))
}

/// Whether every `;`-separated part of the header holds a `=`.
pub fn is_cookie_header_ok(header: &str) -> (b: bool)
    ensures
        b == cookie_header_ok(header@),
{
    let v = chars_of(header);
    let parts = split_chars(&v, ';');
    let mut i: usize = 0;
    while i < parts.len()
        invariant
            views(parts@) == split_on(header@, ';'),
            i <= parts.len(),
            forall|k: int| 0 <= k < i ==> split_on(#[trigger] split_on(header@, ';')[k], '=').len() >= 2,
        decreases parts.len() - i,
    {
        assert(views(parts@)[i as int] == parts@[i as int]@);
        let kv = split_chars(&parts[i], '=');
        if kv.len() < 2 {
            return false;
        }
        i += 1;
    }
    true
}

/// The name-value pairs of a `Cookie` header value, in order (a missing
/// header has none).
pub fn get_cookie_map(header: Option<&str>) -> (pairs: Vec<(String, String)>)
    requires
        header matches Some(h) ==> cookie_header_ok(h@),
    ensures
        header is None ==> pairs.len() == 0,
        header matches Some(h) ==> pairs@.map_values(|p: (String, String)| (p.0@, p.1@))
            == cookie_pairs(h@),
{
    let mut pairs: Vec<(String, String)> = Vec::new();
    match header {
        None => pairs,
        Some(h) => {
            let v = chars_of(h);
            let parts = split_chars(&v, ';');
            let ghost target = cookie_pairs(h@);
            let mut i: usize = 0;
            while i < parts.len()
                invariant
                    views(parts@) == split_on(h@, ';'),
                    cookie_header_ok(h@),
                    target == cookie_pairs(h@),
                    i <= parts.len(),
                    pairs@.map_values(|p: (String, String)| (p.0@, p.1@)) == target.take(i as int),
                decreases parts.len() - i,
            {
                assert(views(parts@)[i as int] == parts@[i as int]@);
                let kv = split_chars(&parts[i], '=');
                assert(split_on(split_on(h@, ';')[i as int], '=').len() >= 2);
                assert(views(kv@)[0] == kv@[0]@ && views(kv@)[1] == kv@[1]@);
                let ghost before = pairs@.map_values(|p: (String, String)| (p.0@, p.1@));
                pairs.push((string_of(&kv[0]), string_of(&kv[1])));
                assert(pairs@.map_values(|p: (String, String)| (p.0@, p.1@)) =~= before.push(
                    target[i as int],
                ));
                i += 1;
                assert(target.take(i as int) =~= before.push(target[i - 1]));
            }
            assert(target.take(i as int) =~= target);
            pairs
        },
    }
}

/// The value of the last pair named `name`, if any.
pub open spec fn last_value(pairs: Seq<(Seq<char>, Seq<char>)>, name: Seq<char>) -> Option<Seq<char>>
    decreases pairs.len(),
{
    if pairs.len() == 0 {
        None
    } else if pairs.last().0 == name {
        Some(pairs.last().1)
    } else {
        last_value(pairs.drop_last(), name)
    }
}

/// The login token that a `Cookie` header carries: the value of its last
/// `jwt` cookie, or the empty string.
pub fn jwt_of_cookies(header: Option<&str>) -> (token: String)
    requires
        header matches Some(h) ==> cookie_header_ok(h@),
    ensures
        header is None ==> token@.len() == 0,
        header matches Some(h) ==> token@ == (if cookie_map(h@).contains_key("jwt"@) {
            cookie_map(h@)["jwt"@]
        } else {
            Seq::<char>::empty()
        }),
{
    let pairs = get_cookie_map(header);
    let ghost ps = pairs@.map_values(|p: (String, String)| (p.0@, p.1@));
    let mut i = pairs.len();
    assert(ps.take(i as int) =~= ps);
    while i > 0
        invariant
            i <= pairs.len(),
            header is None ==> pairs.len() == 0,
            header matches Some(h) ==> ps == cookie_pairs(h@),
            ps == pairs@.map_values(|p: (String, String)| (p.0@, p.1@)),
            last_value(ps, "jwt"@) == last_value(ps.take(i as int), "jwt"@),
        decreases i,
    {
        assert(ps.take(i as int).drop_last() =~= ps.take(i - 1));
        assert(ps.take(i as int).last() == ps[i - 1]);
        assert(ps[i - 1] == (pairs@[i - 1].0@, pairs@[i - 1].1@));
        if crate::text::same_text(pairs[i - 1].0.as_str(), JWT_COOKIE_KEY) {
            assert(JWT_COOKIE_KEY@ == "jwt"@);
            proof {
                lemma_last_value_is_map_value(ps, "jwt"@);
            }
            return pairs[i - 1].1.clone();
        }
        i -= 1;
    }
    assert(ps.take(0) =~= Seq::<(Seq<char>, Seq<char>)>::empty());
    proof {
        lemma_last_value_is_map_value(ps, "jwt"@);
    }
    String::new()
}

/// The last pair named `name` decides what the cookie map holds for it.
pub proof fn lemma_last_value_is_map_value(pairs: Seq<(Seq<char>, Seq<char>)>, name: Seq<char>)
    ensures
        pairs_map(pairs).contains_key(name) <==> last_value(pairs, name) is Some,
        last_value(pairs, name) matches Some(v) ==> pairs_map(pairs)[name] == v,
    decreases pairs.len(),
{
    if pairs.len() > 0 {
        lemma_last_value_is_map_value(pairs.drop_last(), name);
    }
}

} // verus!
