//! Writing a page: which template it is made from, and where it is shown.

use vstd::prelude::*;
use vstd::utf8::encode_utf8;
use crate::headings::ids_needed;
use crate::text::{concatenate, same_text};
use crate::url::{encode, encoded_bytes, lemma_decode_encode};
use crate::usecases::pages::{page_made, Page};
use crate::time::{date_time_shape, local_formattable};
use crate::uuids::is_v4_uuid_text;

verus! {

/// The form of a written page: its name and its markdown.
#[derive(Debug)]
pub struct NewPageObj {
    pub path: String,
    pub body: String,
}

/// The query naming a page.
#[derive(Debug)]
pub struct QueryPath {
    pub path: String,
}

/// The template a page is made from.
#[derive(Debug, PartialEq, Eq, Structural, Clone, Copy)]
pub enum TemplateKind {
    /// The top page, `top`.
    Top,
    /// The side menu, `menu`.
    Menu,
    /// Any other page.
    Page,
}

/// The template of the page named `path`.
pub open spec fn template_of(path: Seq<char>) -> TemplateKind {
    if path == "top"@ {
        TemplateKind::Top
    } else if path == "menu"@ {
        TemplateKind::Menu
    } else {
        TemplateKind::Page
    }
}

/// The template that the page named `path` is made from: the top page's,
/// the menu's or the ordinary one.
pub fn template_kind(path: &str) -> (k: TemplateKind)
    ensures
        k == template_of(path@),
{
    if same_text(path, "top") {
        TemplateKind::Top
    } else if same_text(path, "menu") {
        TemplateKind::Menu
    } else {
        TemplateKind::Page
    }
}

/// The address where the page named `path` is shown.
pub fn page_url(path: &str) -> (url: String)
    ensures
        url@ == "/pages?path="@ + path@,
{
    concatenate("/pages?path=", path)
}

/// The page written from the form: stored under the percent-encoding of its
/// name, titled with the name, made from the template with the form's
/// markdown.
pub fn page_of_form(default_page: &str, form: &NewPageObj) -> (page: Page)
    ensures
        encode_utf8(page.path@) == encoded_bytes(form.path@),
        page.name@ == form.path@,
        exists|ids: Seq<Seq<char>>, date: Seq<char>|
            {
                &&& ids.len() == ids_needed(form.body@)
                &&& forall|i: int| 0 <= i < ids.len() ==> is_v4_uuid_text(#[trigger] ids[i])
                &&& page_made(page, default_page@, page.path@, form.body@, ids, page.modified, date)
                &&& local_formattable(page.modified) ==> date_time_shape(date)
            },
        page.modified.secs >= 0,
        page.modified.nanos < 1_000_000_000,
{
    let path = encode(form.path.as_str());
    proof {
        lemma_decode_encode(form.path@, path@);
    }
    Page::create(default_page, path.as_str(), form.body.as_str())
}

} // verus!
