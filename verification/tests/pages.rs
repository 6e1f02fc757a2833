use wiki_rs::controllers::handle_page::{page_of_form, NewPageObj};
use wiki_rs::gateways::pages::{editor_html, page_html_with_lists, pages_by_recency, sort_by_recency, PageData};
use wiki_rs::models::pages::Page as FilePage;
use wiki_rs::time::Timestamp;
use wiki_rs::usecases::pages::{markdown_of_toc, Page};

fn ts(secs: i64, nanos: u32) -> Timestamp {
    Timestamp { secs, nanos }
}

#[test]
fn table_of_contents_as_markdown() {
    let toc = vec![
        ("id1".to_string(), 1, "a".to_string()),
        ("x".to_string(), 2, "b".to_string()),
        ("y".to_string(), 3, "c d".to_string()),
    ];
    let md = markdown_of_toc(&toc);
    assert_eq!(md, "- [a](#id1)\n  - [b](#x)\n    - [c d](#y)");
    assert_eq!(md.split('\n').count(), toc.len());
    assert_eq!(markdown_of_toc(&Vec::new()), "");
}

#[test]
fn page_made_from_template() {
    let template = "<title>{{ TITLE }}</title>{{ PATH }}|{{ UPDATED_DATE }}|{{ BODY }}";
    let page = Page::create_with(template, "my%20page", "hello", &Vec::new(), ts(5, 6), "2024-01-01 00:00:00");
    assert_eq!(page.path, "my%20page");
    assert_eq!(page.name, "my page");
    assert_eq!(page.markdown, "hello");
    assert_eq!(page.modified.secs, 5);
    assert_eq!(page.modified.nanos, 6);
    assert_eq!(
        page.html,
        "<title>my page</title>my%20page|2024-01-01 00:00:00|<div class=\"menu collapse\"></div>\n<p>hello</p>\n"
    );
}

#[test]
fn page_with_heading_has_a_table_of_contents() {
    let page = Page::create_with("{{ BODY }}", "p", "# A", &vec!["h".to_string()], ts(0, 0), "");
    assert_eq!(page.markdown, "# A { #h }");
    assert_eq!(
        page.html,
        "<div class=\"menu collapse\"><ul>\n<li><a href=\"#h\">A</a></li>\n</ul>\n</div>\n\
         <h1 id=\"h\"><a href=\"/pages?path=p#h\" title=\"/pages?path=p#h\"></a>A</h1>\n"
    );
}

#[test]
fn page_create_stamps_the_time_and_adds_ids() {
    let page = Page::create("{{ TITLE }}", "top", "# x\n## y { #z }");
    assert_eq!(page.name, "top");
    assert_eq!(page.html, "top");
    let lines: Vec<&str> = page.markdown.split('\n').collect();
    assert_eq!(lines.len(), 2);
    assert!(lines[0].starts_with("# x { #"));
    assert_eq!(lines[0].len(), "# x { #".len() + 36 + " }".len());
    assert_eq!(lines[1], "## y { #z }");
    assert!(page.modified.secs > 1_600_000_000);
}

#[test]
fn render_fills_lists_and_menu() {
    let page = Page::create_with(
        "A{{ INDEX_UL }}B{{ SIDE_MENU }}C{{ ATTACH_NAMES }}",
        "p",
        "",
        &Vec::new(),
        ts(0, 0),
        "",
    );
    let list = vec![("my page".to_string(), "my%20page".to_string())];
    let attach = vec![("p/f.png".to_string(), "p%2Ff.png".to_string())];
    let out = page.render("menu {{ INDEX_UL }}", &list, &attach).unwrap();
    let ul = "<ul><li><a href=\"pages?path=my%20page\">my page</a></li></ul>";
    let attach_ul = "<ul class=\"attach-names\"><li><span>p/f.png</span><span class=\"button btn-delete-attach\">delete</span></li></ul>";
    assert_eq!(out, format!("A{}B<p>menu {}</p>\nC{}", ul, ul, attach_ul));
    let embedded = Page::embed_pages_list("[{{ INDEX_UL }}]", "", &[]).unwrap();
    assert_eq!(embedded, "[<ul></ul>]");
}

#[test]
fn page_list_is_most_recent_first() {
    let infos = vec![
        (ts(10, 0), "a".to_string()),
        (ts(30, 0), "b%20c".to_string()),
        (ts(20, 5), "d".to_string()),
        (ts(20, 5), "e".to_string()),
        (ts(20, 4), "f".to_string()),
    ];
    let list = pages_by_recency(&infos);
    let expected: Vec<(String, String)> = [("b c", "b%20c"), ("d", "d"), ("e", "e"), ("f", "f"), ("a", "a")]
        .iter()
        .map(|(n, p)| (n.to_string(), p.to_string()))
        .collect();
    assert_eq!(list, expected);
    assert!(pages_by_recency(&Vec::new()).is_empty());
}

#[test]
fn editor_page_shows_markdown() {
    let t = "T={{ TITLE }} M={{ MARKDOWN }}";
    assert_eq!(editor_html(t, "pg", Some("# x")), "T=pg M=# x");
    assert_eq!(editor_html(t, "new", None), "T=new M=");
}

#[test]
fn stored_record_reads_back_as_the_page() {
    let page = Page::create_with("{{ BODY }}", "p", "text", &Vec::new(), ts(1_700_000_000, 123_000_000), "");
    let data = PageData::from_page(&page).unwrap();
    assert_eq!(data.modified_rfc3339, "2023-11-14T22:13:20.123+00:00");
    let back = data.into_page().unwrap();
    assert_eq!(back.path, page.path);
    assert_eq!(back.name, page.name);
    assert_eq!(back.markdown, page.markdown);
    assert_eq!(back.html, page.html);
    assert_eq!((back.modified.secs, back.modified.nanos), (1_700_000_000, 123_000_000));
    let bad = PageData {
        path: "p".to_string(),
        name: "p".to_string(),
        markdown: String::new(),
        html: String::new(),
        modified_rfc3339: "yesterday".to_string(),
    };
    assert!(bad.into_page().is_none());
}

#[test]
fn first_page_model() {
    let page = FilePage::create("TITLE|PATH|BODY", "a%20b", "*hi*");
    assert_eq!(page.name, "a b");
    assert_eq!(page.markdown, "*hi*");
    assert_eq!(page.html, "a b|a%20b|<p><em>hi</em></p>\n");
    let list = vec![("a b".to_string(), "a%20b".to_string()), ("c".to_string(), "c".to_string())];
    assert_eq!(
        FilePage::embed_pages_list("x INDEX_UL y", &list).unwrap(),
        "x <li><a href=\"pages?path=a%20b\">a b</a></li>\n<li><a href=\"pages?path=c\">c</a></li> y"
    );
}

#[test]
fn page_written_from_the_form() {
    let form = NewPageObj { path: "日記 1".to_string(), body: "text".to_string() };
    let page = page_of_form("{{ TITLE }}:{{ PATH }}", &form);
    assert_eq!(page.path, "%E6%97%A5%E8%A8%98%201");
    assert_eq!(page.name, "日記 1");
    assert_eq!(page.markdown, "text");
    assert_eq!(page.html, "日記 1:%E6%97%A5%E8%A8%98%201");
}

#[test]
fn stored_page_shown_with_its_lists() {
    let page = Page::create_with("[{{ INDEX_UL }}|{{ ATTACH_NAMES }}]", "p", "", &Vec::new(), ts(0, 0), "");
    let infos = vec![(ts(1, 0), "old".to_string()), (ts(2, 0), "new".to_string())];
    let files = vec![(ts(1, 0), "p%2Fa".to_string()), (ts(2, 0), "q%2Fb".to_string())];
    let html = page_html_with_lists(&page, "p", "", &infos, &files);
    assert_eq!(
        html,
        "[<ul><li><a href=\"pages?path=new\">new</a></li>\n<li><a href=\"pages?path=old\">old</a></li></ul>|\
         <ul class=\"attach-names\"><li><span>p/a</span><span class=\"button btn-delete-attach\">delete</span></li></ul>]"
    );
}

#[test]
fn leap_second_reads_back() {
    let page = Page::create_with("", "p", "", &Vec::new(), ts(59, 1_500_000_000), "");
    let data = PageData::from_page(&page).unwrap();
    assert_eq!(data.modified_rfc3339, "1970-01-01T00:00:60.500+00:00");
    let back = data.into_page().unwrap();
    assert_eq!((back.modified.secs, back.modified.nanos), (59, 1_500_000_000));
    let page = Page::create_with("", "p", "", &Vec::new(), ts(58, 1_500_000_000), "");
    assert!(PageData::from_page(&page).is_none());
}

#[test]
fn entries_sorted_by_recency() {
    let infos = vec![(ts(1, 0), "a".to_string()), (ts(3, 0), "b".to_string()), (ts(1, 0), "c".to_string())];
    let sorted = sort_by_recency(&infos);
    let names: Vec<&str> = sorted.iter().map(|(_, n)| n.as_str()).collect();
    assert_eq!(names, vec!["b", "a", "c"]);
    assert_eq!(sorted[0].0, ts(3, 0));
}
