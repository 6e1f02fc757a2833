//! A small wiki: pages written in markdown, their headings and table of
//! contents, rendering to HTML, users, sessions and the record layout that
//! the storage layer uses.

pub mod text;
pub mod headings;
pub mod uuids;
pub mod url;
pub mod markdown;
pub mod time;
pub mod usecases;
pub mod auth;
pub mod models;
pub mod gateways;
pub mod controllers;
