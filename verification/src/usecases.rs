//! Pages and users as the wiki works with them.

pub mod pages;
pub mod users;
