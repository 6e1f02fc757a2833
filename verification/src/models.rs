//! The first page model: a page written to files, whose HTML is the plain
//! markdown rendering put into the page template.

pub mod pages;
