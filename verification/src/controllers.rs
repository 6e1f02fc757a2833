//! What the request handlers decide, and the forms and queries they take.

pub mod handle_attach;
pub mod handle_page;
pub mod handle_user;
pub mod login;
