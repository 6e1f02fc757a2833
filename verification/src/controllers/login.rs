//! Logging in: the login form, the claims of the login token and the
//! password check.

use vstd::prelude::*;
use crate::time::Timestamp;
use crate::usecases::users::{has_password, User};

verus! {

/// The key that signs login tokens.
pub const JWT_SECRET: &'static str = "secret";

/// The name of the cookie that holds the login token.
pub const JWT_COOKIE_KEY: &'static str = "jwt";

/// How long a login token stays valid: 8 hours, in seconds.
pub const TOKEN_LIFETIME_SECS: i64 = 28800;

/// The login form: a user name and a password.
#[derive(Debug, Clone)]
pub struct UserForm {
    pub name: String,
    pub password: String,
}

/// The claims of a login token: when it expires (seconds since the epoch)
/// and the id of the user.
#[derive(Debug)]
pub struct Claims {
    pub exp: i64,
    pub uuid: String,
}

impl Claims {
    /// The claims for a user logging in at `now`: valid for 8 hours.
    pub fn for_user(user: &User, now: Timestamp) -> (c: Claims)
        requires
            now.secs <= i64::MAX - TOKEN_LIFETIME_SECS,
        ensures
            c.exp == now.secs + TOKEN_LIFETIME_SECS,
            c.uuid@ == user.id@,
    {
        Claims { exp: now.secs + TOKEN_LIFETIME_SECS, uuid: user.id.clone() }
    }
}

/// The login form's check: the user found under the name is logged in when
/// the password matches.
pub fn login_user(user: Option<User>, password: &str) -> (r: Option<User>)
    ensures
        r matches Some(u) ==> user == Some(u) && has_password(u, password@),
        r is None ==> !(user matches Some(u) && has_password(u, password@)),
{
    match user {
        Some(u) => {
            if u.validate(password) {
                Some(u)
            } else {
                None
            }
        },
        None => None,
    }
}

} // verus!
