//! A wiki page: its id (the percent-encoded name), its name, its markdown
//! with heading ids, its HTML and the time it was last written; how a page
//! is made from its template, and how its HTML is completed with the page
//! list, the side menu and the attached files.

use vstd::prelude::*;
use crate::headings::{
    add_heading_ids, add_heading_ids_with, annotated_headings, annotated_text, good_id,
    heading_view, ids_needed, lemma_headings_lack, HeadingView,
};
use crate::markdown::{html_of_markdown, page_html};
use crate::text::{
    concatenate, is_ws, join_strings, lacks, lemma_split_join, lemma_split_pieces_lack_sep,
    replace_all, replaced, seq_join, split_on,
};
use crate::time::{
    date_format, date_time_shape, local_formattable, local_time_text, now, simple_format, Timestamp,
};
use crate::url::{decodable, decode_name, url_decoded};
use crate::uuids::is_v4_uuid_text;

verus! {

/// A wiki page.
#[derive(Debug)]
pub struct Page {
    /// The id: the percent-encoded name.
    pub path: String,
    pub name: String,
    pub markdown: String,
    pub html: String,
    pub modified: Timestamp,
}

/// The indentation of a table-of-contents entry of a heading of `level`:
/// two spaces per level below the first.
pub open spec fn indent(level: int) -> Seq<char> {
    Seq::new(if level >= 1 { (2 * (level - 1)) as nat } else { 0 }, |i: int| ' ')
}

/// The table-of-contents entry of a heading: a list item linking to its
/// anchor.
pub open spec fn toc_line(h: HeadingView) -> Seq<char> {
    indent(h.1) + "- ["@ + h.2 + "](#"@ + h.0 + ")"@
}

/// The table of contents of the headings, as markdown.
pub open spec fn toc_markdown(toc: Seq<HeadingView>) -> Seq<char> {
    seq_join(toc.map_values(|h: HeadingView| toc_line(h)), "\n"@)
}

/// The table of contents of the headings, as a markdown list: one entry per
/// heading, `- [text](#id)`, indented by its level.
pub fn markdown_of_toc(toc: &Vec<(String, usize, String)>) -> (md: String)
    ensures
        md@ == toc_markdown(toc@.map_values(|h: (String, usize, String)| heading_view(h))),
{
    let ghost hs = toc@.map_values(|h: (String, usize, String)| heading_view(h));
    let mut lines: Vec<String> = Vec::new();
    let mut i: usize = 0;
    while i < toc.len()
        invariant
            i <= toc.len(),
            hs == toc@.map_values(|h: (String, usize, String)| heading_view(h)),
            lines.deep_view() == hs.take(i as int).map_values(|h: HeadingView| toc_line(h)),
        decreases toc.len() - i,
    {
        let (id, level, text) = (&toc[i].0, toc[i].1, &toc[i].2);
        let mut line = String::new();
        if level >= 1 {
            let mut k: usize = 0;
            while k < level - 1
                invariant
                    1 <= level,
                    k <= level - 1,
                    line@ == Seq::new(2 * k as nat, |j: int| ' '),
                decreases level - 1 - k,
            {
                line.append("  ");
                proof {
                    reveal_strlit("  ");
                }
                assert(line@ =~= Seq::new(2 * (k + 1) as nat, |j: int| ' '));
                k += 1;
            }
        }
        assert(line@ =~= indent(level as int));
        line.append("- [");
        line.append(text.as_str());
        line.append("](#");
        line.append(id.as_str());
        line.append(")");
        let ghost before = lines.deep_view();
        lines.push(line);
        assert(hs[i as int] == (id@, level as int, text@));
        assert(lines.deep_view() =~= before.push(toc_line(hs[i as int])));
        i += 1;
        assert(hs.take(i as int).map_values(|h: HeadingView| toc_line(h)) =~= before.push(
            toc_line(hs[i - 1]),
        ));
    }
    assert(hs.take(toc.len() as int) =~= hs);
    join_strings(&lines, "\n")
}

/// A table-of-contents entry holds no line break when the heading's id and
/// text hold none.
proof fn lemma_toc_line_single(h: HeadingView)
    requires
        lacks(h.0, '\n'),
        lacks(h.2, '\n'),
    ensures
        lacks(toc_line(h), '\n'),
{
    reveal_strlit("- [");
    reveal_strlit("](#");
    reveal_strlit(")");
    let x = toc_line(h);
    let a = indent(h.1);
    let n1 = a.len() + 3;
    let n2 = n1 + h.2.len();
    let n3 = n2 + 3;
    assert forall|k: int| 0 <= k < x.len() implies #[trigger] x[k] != '\n' by {
        if k < a.len() {
            assert(x[k] == a[k]);
        } else if n1 <= k < n2 {
            assert(x[k] == h.2[k - n1]);
        } else if n3 <= k < n3 + h.0.len() {
            assert(x[k] == h.0[k - n3]);
        }
    }
}

/// Each heading of level `L` (at least 1) is one line of the table of
/// contents, in order: exactly `2 * (L - 1)` spaces, then `- [text](#id)`;
/// so each level is indented two spaces more than the one above it.
pub proof fn lemma_toc_entries(toc: Seq<HeadingView>)
    requires
        toc.len() > 0,
        forall|i: int|
            0 <= i < toc.len() ==> (#[trigger] toc[i]).1 >= 1 && lacks(toc[i].0, '\n') && lacks(
                toc[i].2,
                '\n',
            ),
    ensures
        split_on(toc_markdown(toc), '\n').len() == toc.len(),
        forall|i: int|
            0 <= i < toc.len() ==> #[trigger] split_on(toc_markdown(toc), '\n')[i] == Seq::new(
                (2 * (toc[i].1 - 1)) as nat,
                |k: int| ' ',
            ) + "- ["@ + toc[i].2 + "](#"@ + toc[i].0 + ")"@,
        forall|i: int, k: int|
            0 <= i < toc.len() && 0 <= k < 2 * (toc[i].1 - 1) ==> #[trigger] split_on(
                toc_markdown(toc),
                '\n',
            )[i][k] == ' ',
        forall|i: int|
            0 <= i < toc.len() ==> #[trigger] split_on(toc_markdown(toc), '\n')[i][2 * (toc[i].1
                - 1)] == '-',
{
    reveal_strlit("- [");
    let lines = toc.map_values(|h: HeadingView| toc_line(h));
    assert forall|i: int| 0 <= i < lines.len() implies lacks(#[trigger] lines[i], '\n') by {
        lemma_toc_line_single(toc[i]);
    }
    reveal_strlit("\n");
    assert("\n"@ =~= seq!['\n']);
    lemma_split_join(lines, '\n');
    assert forall|i: int| 0 <= i < toc.len() implies #[trigger] lines[i] == Seq::new(
        (2 * (toc[i].1 - 1)) as nat,
        |k: int| ' ',
    ) + "- ["@ + toc[i].2 + "](#"@ + toc[i].0 + ")"@ by {
        assert(indent(toc[i].1) =~= Seq::new((2 * (toc[i].1 - 1)) as nat, |k: int| ' '));
    }
    assert forall|i: int, k: int| 0 <= i < toc.len() && 0 <= k < 2 * (toc[i].1 - 1) implies #[trigger] split_on(
        toc_markdown(toc),
        '\n',
    )[i][k] == ' ' by {
        assert(lines[i] == Seq::new((2 * (toc[i].1 - 1)) as nat, |k: int| ' ') + "- ["@ + toc[i].2
            + "](#"@ + toc[i].0 + ")"@);
    }
    assert forall|i: int| 0 <= i < toc.len() implies #[trigger] split_on(toc_markdown(toc), '\n')[i][2
        * (toc[i].1 - 1)] == '-' by {
        assert(lines[i] == Seq::new((2 * (toc[i].1 - 1)) as nat, |k: int| ' ') + "- ["@ + toc[i].2
            + "](#"@ + toc[i].0 + ")"@);
    }
}

/// The table of contents has one line per heading, in order: split at its
/// line breaks, it gives the entry of each heading of the text.
pub proof fn lemma_toc_one_line_per_heading(md: Seq<char>, ids: Seq<Seq<char>>)
    requires
        ids.len() >= ids_needed(md),
        forall|i: int| 0 <= i < ids.len() ==> good_id(#[trigger] ids[i]),
        annotated_headings(md, ids).len() > 0,
    ensures
        split_on(toc_markdown(annotated_headings(md, ids)), '\n') == annotated_headings(
            md,
            ids,
        ).map_values(|h: HeadingView| toc_line(h)),
{
    let ls = split_on(md, '\n');
    lemma_split_pieces_lack_sep(md, '\n');
    assert forall|i: int| 0 <= i < ids.len() implies lacks(#[trigger] ids[i], '\n') by {
        assert(good_id(ids[i]));
        assert forall|k: int| 0 <= k < ids[i].len() implies #[trigger] ids[i][k] != '\n' by {
            assert(!is_ws(ids[i][k]));
        }
    }
    lemma_headings_lack(ls, ids, '\n');
    let hs = annotated_headings(md, ids);
    let lines = hs.map_values(|h: HeadingView| toc_line(h));
    assert forall|i: int| 0 <= i < lines.len() implies lacks(#[trigger] lines[i], '\n') by {
        lemma_toc_line_single(hs[i]);
    }
    reveal_strlit("\n");
    assert("\n"@ =~= seq!['\n']);
    lemma_split_join(lines, '\n');
}

/// The body of a page: the table of contents in a collapsible menu, then
/// the page's own HTML.
pub open spec fn page_body(path: Seq<char>, markdown: Seq<char>, toc: Seq<HeadingView>) -> Seq<char> {
    "<div class=\"menu collapse\">"@ + page_html(path, toc_markdown(toc)) + "</div>\n"@
        + page_html(path, markdown)
}

/// The template with its placeholders filled: title, path, time of the
/// update, body.
pub open spec fn filled_template(
    template: Seq<char>,
    name: Seq<char>,
    path: Seq<char>,
    date: Seq<char>,
    body: Seq<char>,
) -> Seq<char> {
    replaced(
        replaced(
            replaced(replaced(template, "{{ TITLE }}"@, name), "{{ PATH }}"@, path),
            "{{ UPDATED_DATE }}"@,
            date,
        ),
        "{{ BODY }}"@,
        body,
    )
}

/// `page` is the page made at `modified` (shown as `date`) from `template`,
/// the id `path` and `markdown`, with `ids` as the fresh heading ids.
pub open spec fn page_made(
    page: Page,
    template: Seq<char>,
    path: Seq<char>,
    markdown: Seq<char>,
    ids: Seq<Seq<char>>,
    modified: Timestamp,
    date: Seq<char>,
) -> bool {
    let md = annotated_text(markdown, ids);
    let body = page_body(path, md, annotated_headings(markdown, ids));
    &&& page.path@ == path
    &&& page.name@ == url_decoded(path)
    &&& page.markdown@ == md
    &&& page.html@ == filled_template(template, url_decoded(path), path, date, body)
    &&& page.modified == modified
}

impl Page {
    /// Makes a page from its template, its id and its markdown, with the
    /// given fresh heading ids, time of writing and its local-time text.
    pub fn create_with(
        default_page: &str,
        path: &str,
        markdown: &str,
        fresh_ids: &Vec<String>,
        modified: Timestamp,
        updated_date: &str,
    ) -> (page: Page)
        requires
            decodable(path@),
            fresh_ids.len() >= ids_needed(markdown@),
        ensures
            page_made(
                page,
                default_page@,
                path@,
                markdown@,
                fresh_ids.deep_view(),
                modified,
                updated_date@,
            ),
    {
        let (md, toc) = add_heading_ids_with(markdown, fresh_ids);
        Page::assemble(default_page, path, md, &toc, modified, updated_date)
    }

    /// Fills the template of a page whose markdown already has its heading
    /// ids.
    fn assemble(
        default_page: &str,
        path: &str,
        md: String,
        toc: &Vec<(String, usize, String)>,
        modified: Timestamp,
        updated_date: &str,
    ) -> (page: Page)
        requires
            decodable(path@),
        ensures
            page.path@ == path@,
            page.name@ == url_decoded(path@),
            page.markdown == md,
            page.html@ == filled_template(
                default_page@,
                url_decoded(path@),
                path@,
                updated_date@,
                page_body(
                    path@,
                    md@,
                    toc@.map_values(|h: (String, usize, String)| heading_view(h)),
                ),
            ),
            page.modified == modified,
    {
        let toc_md = markdown_of_toc(toc);
        let toc_html = html_of_markdown(path, toc_md.as_str());
        let html_buf = html_of_markdown(path, md.as_str());
        let mut body = concatenate("<div class=\"menu collapse\">", toc_html.as_str());
        body.append("</div>\n");
        body.append(html_buf.as_str());
        let name = decode_name(path);
        proof {
            reveal_strlit("{{ TITLE }}");
            reveal_strlit("{{ PATH }}");
            reveal_strlit("{{ UPDATED_DATE }}");
            reveal_strlit("{{ BODY }}");
        }
        let h1 = replace_all(default_page, "{{ TITLE }}", name.as_str());
        let h2 = replace_all(h1.as_str(), "{{ PATH }}", path);
        let h3 = replace_all(h2.as_str(), "{{ UPDATED_DATE }}", updated_date);
        let html = replace_all(h3.as_str(), "{{ BODY }}", body.as_str());
        Page { path: String::from_str(path), name, markdown: md, html, modified }
    }

    /// Makes a page from its template, its id and its markdown: headings
    /// without an id get a fresh random one, and the page is stamped with
    /// the current time.
    pub fn create(default_page: &str, path: &str, markdown: &str) -> (page: Page)
        requires
            decodable(path@),
        ensures
            exists|ids: Seq<Seq<char>>, date: Seq<char>|
                {
                    &&& ids.len() == ids_needed(markdown@)
                    &&& forall|i: int| 0 <= i < ids.len() ==> is_v4_uuid_text(#[trigger] ids[i])
                    &&& page_made(page, default_page@, path@, markdown@, ids, page.modified, date)
                    &&& local_formattable(page.modified) ==> date_time_shape(date)
                },
            page.modified.secs >= 0,
            page.modified.nanos < 1_000_000_000,
    {
        let (md, toc) = add_heading_ids(markdown);
        let ghost ids = choose|ids: Seq<Seq<char>>|
            {
                &&& ids.len() == ids_needed(markdown@)
                &&& forall|i: int| 0 <= i < ids.len() ==> is_v4_uuid_text(#[trigger] ids[i])
                &&& md@ == annotated_text(markdown@, ids)
                &&& toc@.map_values(|h: (String, usize, String)| heading_view(h))
                    == annotated_headings(markdown@, ids)
            };
        let modified = now();
        proof {
            lemma_date_format_simple();
        }
        let date = match local_time_text(modified, "%Y-%m-%d %H:%M:%S") {
            Some(d) => d,
            None => String::new(),
        };
        let page = Page::assemble(default_page, path, md, &toc, modified, date.as_str());
        assert(page_made(page, default_page@, path@, markdown@, ids, page.modified, date@));
        page
    }
}

/// The page date format is made of text and simple fields.
proof fn lemma_date_format_simple()
    ensures
        simple_format(date_format()),
        "%Y-%m-%d %H:%M:%S"@ == date_format(),
{
    reveal_strlit("%Y-%m-%d %H:%M:%S");
    let f = date_format();
    assert(f.len() == 17);
    assert forall|i: int| 0 <= i < f.len() && #[trigger] f[i] == '%' implies i + 1 < f.len() && (f[i
        + 1] == 'Y' || f[i + 1] == 'm' || f[i + 1] == 'd' || f[i + 1] == 'H' || f[i + 1] == 'M'
        || f[i + 1] == 'S') by {
        assert(f =~= seq!['%', 'Y', '-', '%', 'm', '-', '%', 'd', ' ', '%', 'H', ':', '%', 'M', ':', '%', 'S']);
    }
}

/// A list item of the page list: a link to the page under its name.
pub open spec fn page_item(entry: (Seq<char>, Seq<char>)) -> Seq<char> {
    "<li><a href=\"pages?path="@ + entry.1 + "\">"@ + entry.0 + "</a></li>"@
}

/// The page list: `(name, id)` pairs as an HTML list.
pub open spec fn pages_ul(list: Seq<(Seq<char>, Seq<char>)>) -> Seq<char> {
    "<ul>"@ + seq_join(list.map_values(|e: (Seq<char>, Seq<char>)| page_item(e)), "\n"@) + "</ul>"@
}

/// The side menu: the menu page's HTML with the page list in place of
/// `{{ INDEX_UL }}`.
pub open spec fn side_menu(menu_markdown: Seq<char>, list: Seq<(Seq<char>, Seq<char>)>) -> Seq<char> {
    replaced(page_html(Seq::<char>::empty(), menu_markdown), "{{ INDEX_UL }}"@, pages_ul(list))
}

/// The HTML with the page list in place of `{{ INDEX_UL }}` and the side
/// menu in place of `{{ SIDE_MENU }}`.
pub open spec fn with_pages_list(
    contents: Seq<char>,
    menu_markdown: Seq<char>,
    list: Seq<(Seq<char>, Seq<char>)>,
) -> Seq<char> {
    replaced(
        replaced(contents, "{{ INDEX_UL }}"@, pages_ul(list)),
        "{{ SIDE_MENU }}"@,
        side_menu(menu_markdown, list),
    )
}

/// A list item of the attached files: the file name and a delete button.
pub open spec fn attach_item(entry: (Seq<char>, Seq<char>)) -> Seq<char> {
    "<li><span>"@ + entry.0 + "</span><span class=\"button btn-delete-attach\">delete</span></li>"@
}

/// The list of attached files is always an HTML list with one item per
/// file, holding its name and a delete button; with no file it is the empty
/// list `<ul class="attach-names"></ul>`, never the placeholder.
pub proof fn lemma_attach_list_form(list: Seq<(Seq<char>, Seq<char>)>)
    ensures
        attach_ul(list) == "<ul class=\"attach-names\">"@ + seq_join(
            list.map_values(
                |e: (Seq<char>, Seq<char>)|
                    "<li><span>"@ + e.0
                        + "</span><span class=\"button btn-delete-attach\">delete</span></li>"@,
            ),
            "\n"@,
        ) + "</ul>"@,
        list.len() == 0 ==> attach_ul(list) == "<ul class=\"attach-names\"></ul>"@,
        attach_ul(list) != "{{ ATTACH_NAMES }}"@,
{
    reveal_strlit("<ul class=\"attach-names\">");
    reveal_strlit("</ul>");
    reveal_strlit("<ul class=\"attach-names\"></ul>");
    reveal_strlit("{{ ATTACH_NAMES }}");
    assert(list.map_values(|e: (Seq<char>, Seq<char>)| attach_item(e)) =~= list.map_values(
        |e: (Seq<char>, Seq<char>)|
            "<li><span>"@ + e.0
                + "</span><span class=\"button btn-delete-attach\">delete</span></li>"@,
    ));
    let a = attach_ul(list);
    if list.len() == 0 {
        assert(a =~= "<ul class=\"attach-names\"></ul>"@);
    }
    assert(a[0] == '<');
    assert("{{ ATTACH_NAMES }}"@[0] == '{');
}

/// The list of attached files.
pub open spec fn attach_ul(list: Seq<(Seq<char>, Seq<char>)>) -> Seq<char> {
    "<ul class=\"attach-names\">"@ + seq_join(
        list.map_values(|e: (Seq<char>, Seq<char>)| attach_item(e)),
        "\n"@,
    ) + "</ul>"@
}

/// The views of a list of string pairs.
pub open spec fn pair_views(list: Seq<(String, String)>) -> Seq<(Seq<char>, Seq<char>)> {
    list.map_values(|p: (String, String)| (p.0@, p.1@))
}

/// The list items of the pairs, one per pair.
fn list_items(list: &[(String, String)], attach: bool) -> (items: Vec<String>)
    ensures
        items.deep_view() == (if attach {
            pair_views(list@).map_values(|e: (Seq<char>, Seq<char>)| attach_item(e))
        } else {
            pair_views(list@).map_values(|e: (Seq<char>, Seq<char>)| page_item(e))
        }),
{
    let ghost ps = pair_views(list@);
    let ghost target = if attach {
        ps.map_values(|e: (Seq<char>, Seq<char>)| attach_item(e))
    } else {
        ps.map_values(|e: (Seq<char>, Seq<char>)| page_item(e))
    };
    let mut items: Vec<String> = Vec::new();
    let mut i: usize = 0;
    while i < list.len()
        invariant
            i <= list.len(),
            ps == pair_views(list@),
            target == (if attach {
                ps.map_values(|e: (Seq<char>, Seq<char>)| attach_item(e))
            } else {
                ps.map_values(|e: (Seq<char>, Seq<char>)| page_item(e))
            }),
            items.deep_view() == target.take(i as int),
        decreases list.len() - i,
    {
        let item = if attach {
            let mut item = concatenate("<li><span>", list[i].0.as_str());
            item.append("</span><span class=\"button btn-delete-attach\">delete</span></li>");
            item
        } else {
            let mut item = concatenate("<li><a href=\"pages?path=", list[i].1.as_str());
            item.append("\">");
            item.append(list[i].0.as_str());
            item.append("</a></li>");
            item
        };
        let ghost before = items.deep_view();
        items.push(item);
        assert(ps[i as int] == (list@[i as int].0@, list@[i as int].1@));
        assert(items.deep_view() =~= before.push(target[i as int]));
        i += 1;
        assert(target.take(i as int) =~= before.push(target[i - 1]));
    }
    assert(target.take(list.len() as int) =~= target);
    items
}

/// The page list as HTML.
fn pages_ul_exec(pages_list: &[(String, String)]) -> (ul: String)
    ensures
        ul@ == pages_ul(pair_views(pages_list@)),
{
    let items = list_items(pages_list, false);
    let joined = join_strings(&items, "\n");
    let mut ul = concatenate("<ul>", joined.as_str());
    ul.append("</ul>");
    ul
}

impl Page {
    /// Fills the page list and the side menu into `contents`: the menu is
    /// the HTML of `menu_markdown` with the page list in it.
    pub fn embed_pages_list(
        contents: &str,
        menu_markdown: &str,
        pages_list: &[(String, String)],
    ) -> (r: Option<String>)
        ensures
            r matches Some(s) && s@ == with_pages_list(
                contents@,
                menu_markdown@,
                pair_views(pages_list@),
            ),
    {
        let ul = pages_ul_exec(pages_list);
        let menu = html_of_markdown("", menu_markdown);
        proof {
            reveal_strlit("");
            reveal_strlit("{{ INDEX_UL }}");
            reveal_strlit("{{ SIDE_MENU }}");
        }
        assert(""@ =~= Seq::<char>::empty());
        let menu = replace_all(menu.as_str(), "{{ INDEX_UL }}", ul.as_str());
        let contents = replace_all(contents, "{{ INDEX_UL }}", ul.as_str());
        let contents = replace_all(contents.as_str(), "{{ SIDE_MENU }}", menu.as_str());
        Some(contents)
    }

    /// The page's HTML completed with the page list, the side menu and the
    /// list of attached files.
    pub fn render(
        &self,
        menu_markdown: &str,
        pages_list: &[(String, String)],
        attach_names: &[(String, String)],
    ) -> (r: Option<String>)
        ensures
            r matches Some(s) && s@ == replaced(
                with_pages_list(self.html@, menu_markdown@, pair_views(pages_list@)),
                "{{ ATTACH_NAMES }}"@,
                attach_ul(pair_views(attach_names@)),
            ),
    {
        let contents = Page::embed_pages_list(self.html.as_str(), menu_markdown, pages_list);
        let contents = contents.unwrap();
        let items = list_items(attach_names, true);
        let joined = join_strings(&items, "\n");
        let mut ul = concatenate("<ul class=\"attach-names\">", joined.as_str());
        ul.append("</ul>");
        proof {
            reveal_strlit("{{ ATTACH_NAMES }}");
        }
        Some(replace_all(contents.as_str(), "{{ ATTACH_NAMES }}", ul.as_str()))
    }
}

} // verus!
