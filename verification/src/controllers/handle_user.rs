//! Adding and removing users.

use vstd::prelude::*;

verus! {

/// The form of a new user.
#[derive(Debug)]
pub struct NewUserObj {
    pub name: String,
    pub password: String,
}

/// The query naming a user.
#[derive(Debug)]
pub struct QueryPath {
    pub name: String,
}

} // verus!
