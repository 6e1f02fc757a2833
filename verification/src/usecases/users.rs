//! Users: a name, a password and the id under which the user is stored
//! (the percent-encoded name).

use vstd::prelude::*;
use vstd::utf8::encode_utf8;
use crate::text::same_text;
use crate::url::{decodable, encode, encoded_bytes, lemma_decode_encode, url_decoded};

verus! {

/// A user of the wiki.
#[derive(Debug)]
pub struct User {
    /// The id: the percent-encoded name.
    pub id: String,
    pub name: String,
    pub password: String,
}

/// What the store keeps of a user.
#[derive(Debug)]
pub struct UserData {
    pub name: String,
    pub password: String,
}

/// `u` is the user made from `name` and `password`: stored under the
/// percent-encoding of the name.
pub open spec fn created_from(u: User, name: Seq<char>, password: Seq<char>) -> bool {
    &&& encode_utf8(u.id@) == encoded_bytes(name)
    &&& u.name@ == name
    &&& u.password@ == password
}

/// The user has the given name and password.
pub open spec fn has_login(u: User, name: Seq<char>, password: Seq<char>) -> bool {
    name == u.name@ && password == u.password@
}

/// The user has the given password.
pub open spec fn has_password(u: User, password: Seq<char>) -> bool {
    password == u.password@
}

impl User {
    /// A user with the given name and password, stored under the
    /// percent-encoding of the name.
    pub fn create(user_name: &str, password: &str) -> (u: User)
        ensures
            created_from(u, user_name@, password@),
    {
        User {
            id: encode(user_name),
            name: String::from_str(user_name),
            password: String::from_str(password),
        }
    }

    /// The user has the given name and password.
    pub fn check(&self, user_name: &str, password: &str) -> (b: bool)
        ensures
            b == has_login(*self, user_name@, password@),
    {
        same_text(user_name, self.name.as_str()) && same_text(password, self.password.as_str())
    }

    /// The user has the given password.
    pub fn validate(&self, password: &str) -> (b: bool)
        ensures
            b == has_password(*self, password@),
    {
        same_text(password, self.password.as_str())
    }

    /// The user stored under `user_id` with the stored data.
    pub fn from_data(user_id: &str, data: UserData) -> (u: User)
        ensures
            u.id@ == user_id@,
            u.name == data.name,
            u.password == data.password,
    {
        User { id: String::from_str(user_id), name: data.name, password: data.password }
    }

    /// What the store keeps of the user.
    pub fn to_data(&self) -> (d: UserData)
        ensures
            d.name == self.name,
            d.password == self.password,
    {
        UserData { name: self.name.clone(), password: self.password.clone() }
    }
}

/// A user created from a name and a password passes the login check with
/// them and the password check with the password, and its id decodes back
/// to its name.
pub proof fn lemma_created_user(u: User, name: Seq<char>, password: Seq<char>)
    requires
        created_from(u, name, password),
    ensures
        has_login(u, name, password),
        has_password(u, password),
        decodable(u.id@),
        url_decoded(u.id@) == name,
{
    lemma_decode_encode(name, u.id@);
}

/// Passing the login check implies passing the password check.
pub proof fn lemma_login_implies_password(u: User, name: Seq<char>, password: Seq<char>)
    requires
        has_login(u, name, password),
    ensures
        has_password(u, password),
{
}

} // verus!
