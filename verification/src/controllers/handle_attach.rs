//! Attaching a file to a page.

use vstd::prelude::*;
use crate::text::concatenate;

verus! {

/// The query of an upload: the page the files are attached to.
#[derive(Debug)]
pub struct QueryPath {
    pub path: String,
}

/// The query naming one attached file of a page.
#[derive(Debug)]
pub struct AttachQueryPath {
    pub path: String,
    pub file: String,
}

/// The name an attached file is stored under: `{page}/{file name}`.
pub fn attach_path(page_path: &str, filename: &str) -> (p: String)
    ensures
        p@ == page_path@ + "/"@ + filename@,
{
    let mut p = concatenate(page_path, "/");
    p.append(filename);
    p
}

} // verus!
