//! A page kept as two files (its markdown and its HTML), made from the
//! page template.

use vstd::prelude::*;
use crate::markdown::{plain_html, plain_html_of_markdown};
use crate::text::{concatenate, join_strings, replace_all, replaced, seq_join};
use crate::url::{decodable, decode_name, url_decoded};

verus! {

/// A page of the first page model.
#[derive(Debug)]
pub struct Page {
    /// The id: the percent-encoded name.
    pub path: String,
    pub name: String,
    pub markdown: String,
    pub html: String,
}

/// The template with the name in place of `TITLE`, the id in place of
/// `PATH` and the HTML in place of `BODY`.
pub open spec fn filled(template: Seq<char>, name: Seq<char>, path: Seq<char>, body: Seq<char>) -> Seq<char> {
    replaced(replaced(replaced(template, "TITLE"@, name), "PATH"@, path), "BODY"@, body)
}

/// A list item of the page list: a link to the page under its name.
pub open spec fn item(entry: (Seq<char>, Seq<char>)) -> Seq<char> {
    "<li><a href=\"pages?path="@ + entry.1 + "\">"@ + entry.0 + "</a></li>"@
}

impl Page {
    /// Makes a page from the page template, its id and its markdown.
    pub fn create(default_page: &str, path: &str, markdown: &str) -> (page: Page)
        requires
            decodable(path@),
        ensures
            page.path@ == path@,
            page.name@ == url_decoded(path@),
            page.markdown@ == markdown@,
            page.html@ == filled(
                default_page@,
                url_decoded(path@),
                path@,
                plain_html(markdown@),
            ),
    {
        let html_buf = plain_html_of_markdown(markdown);
        let name = decode_name(path);
        proof {
            reveal_strlit("TITLE");
            reveal_strlit("PATH");
            reveal_strlit("BODY");
        }
        let h1 = replace_all(default_page, "TITLE", name.as_str());
        let h2 = replace_all(h1.as_str(), "PATH", path);
        let html = replace_all(h2.as_str(), "BODY", html_buf.as_str());
        Page {
            path: String::from_str(path),
            name,
            markdown: String::from_str(markdown),
            html,
        }
    }

    /// Fills the page list, given as `(name, id)` pairs, into `contents` in
    /// place of `INDEX_UL`.
    pub fn embed_pages_list(contents: &str, pages_list: &Vec<(String, String)>) -> (r: Option<String>)
        ensures
            r matches Some(s) && s@ == replaced(
                contents@,
                "INDEX_UL"@,
                seq_join(
                    pages_list@.map_values(|p: (String, String)| item((p.0@, p.1@))),
                    "\n"@,
                ),
            ),
    {
        let ghost target = pages_list@.map_values(|p: (String, String)| item((p.0@, p.1@)));
        let mut items: Vec<String> = Vec::new();
        let mut i: usize = 0;
        while i < pages_list.len()
            invariant
                i <= pages_list.len(),
                target == pages_list@.map_values(|p: (String, String)| item((p.0@, p.1@))),
                items.deep_view() == target.take(i as int),
            decreases pages_list.len() - i,
        {
            let mut it = concatenate("<li><a href=\"pages?path=", pages_list[i].1.as_str());
            it.append("\">");
            it.append(pages_list[i].0.as_str());
            it.append("</a></li>");
            let ghost before = items.deep_view();
            items.push(it);
            assert(items.deep_view() =~= before.push(target[i as int]));
            i += 1;
            assert(target.take(i as int) =~= before.push(target[i - 1]));
        }
        assert(target.take(pages_list.len() as int) =~= target);
        let joined = join_strings(&items, "\n");
        proof {
            reveal_strlit("INDEX_UL");
        }
        Some(replace_all(contents, "INDEX_UL", joined.as_str()))
    }
}

} // verus!
