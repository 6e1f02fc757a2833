//! What the storage layer needs besides storing: record layout, the page
//! list order, the editor pages and the attached-file lists.

pub mod attaches;
pub mod db_memory;
pub mod pages;
pub mod users;
