use wiki_rs::markdown::{
    add_heading_anchors, autolink_urls, html_of_markdown, plain_html_of_markdown,
    rewrite_image_urls, strip_comment_lines, KeptKind, MdEvent,
};

#[test]
fn comment_lines_are_dropped() {
    assert_eq!(strip_comment_lines("a\n// c\nb"), "a\nb");
    assert_eq!(strip_comment_lines("// only"), "");
    assert_eq!(strip_comment_lines("a\n//c"), "a\n");
    assert_eq!(strip_comment_lines(" // kept\n/ kept"), " // kept\n/ kept");
    assert_eq!(strip_comment_lines(""), "");
}

#[test]
fn relative_image_addresses_get_the_files_prefix() {
    let img = |u: &str| MdEvent::InlineImage { url: u.to_string(), title: String::new() };
    let out = rewrite_image_urls(&vec![
        img("pic.png"),
        img("http://x/y.png"),
        img("https://x/y.png"),
        img("/abs.png"),
        MdEvent::Text("pic.png".to_string()),
    ]);
    assert_eq!(
        out,
        vec![
            img("/files/files/pic.png"),
            img("http://x/y.png"),
            img("https://x/y.png"),
            img("/abs.png"),
            MdEvent::Text("pic.png".to_string()),
        ]
    );
}

#[test]
fn bare_web_addresses_become_links() {
    let t = |s: &str| MdEvent::Text(s.to_string());
    let out = autolink_urls(&vec![t("http://a.b"), t("see http://a.b"), t("https://c")]);
    assert_eq!(
        out,
        vec![
            MdEvent::NewLinkOpen("http://a.b".to_string()),
            t("http://a.b"),
            MdEvent::NewLinkClose("http://a.b".to_string()),
            t("see http://a.b"),
            MdEvent::NewLinkOpen("https://c".to_string()),
            t("https://c"),
            MdEvent::NewLinkClose("https://c".to_string()),
        ]
    );
    let inside = vec![
        MdEvent::Kept(0, KeptKind::LinkOpen),
        t("http://a.b"),
        MdEvent::Kept(2, KeptKind::LinkClose),
        t("http://d"),
    ];
    let out = autolink_urls(&inside);
    assert_eq!(out.len(), 6);
    assert_eq!(out[1], t("http://a.b"));
    assert_eq!(out[3], MdEvent::NewLinkOpen("http://d".to_string()));
}

#[test]
fn headings_with_ids_get_an_anchor_link() {
    let out = add_heading_anchors(
        "my%20page",
        &vec![MdEvent::Kept(0, KeptKind::Heading("h1".to_string())), MdEvent::Kept(1, KeptKind::Other)],
    );
    assert_eq!(
        out,
        vec![
            MdEvent::Kept(0, KeptKind::Heading("h1".to_string())),
            MdEvent::NewLinkOpen("/pages?path=my%20page#h1".to_string()),
            MdEvent::NewLinkClose("/pages?path=my%20page#h1".to_string()),
            MdEvent::Kept(1, KeptKind::Other),
        ]
    );
}

#[test]
fn page_html_of_markdown() {
    assert_eq!(html_of_markdown("p", "hello *world*"), "<p>hello <em>world</em></p>\n");
    assert_eq!(html_of_markdown("p", "![alt](pic.png)"), "<p><img src=\"/files/files/pic.png\" alt=\"alt\" /></p>\n");
    assert_eq!(html_of_markdown("p", "![alt](/pic.png)"), "<p><img src=\"/pic.png\" alt=\"alt\" /></p>\n");
    assert_eq!(
        html_of_markdown("p", "http://example.com"),
        "<p><a href=\"http://example.com\" title=\"http://example.com\">http://example.com</a></p>\n"
    );
    assert_eq!(
        html_of_markdown("p", "# Hello { #h1 }"),
        "<h1 id=\"h1\"><a href=\"/pages?path=p#h1\" title=\"/pages?path=p#h1\"></a>Hello</h1>\n"
    );
    assert_eq!(html_of_markdown("p", "// hidden\nshown"), "<p>shown</p>\n");
    assert_eq!(html_of_markdown("p", "a\\b"), "<p>a\\b</p>\n");
    assert_eq!(html_of_markdown("p", "~~gone~~"), "<p><del>gone</del></p>\n");
    assert_eq!(html_of_markdown("p", ""), "");
}

#[test]
fn plain_html_has_no_extensions() {
    assert_eq!(plain_html_of_markdown("*hi*"), "<p><em>hi</em></p>\n");
    assert_eq!(plain_html_of_markdown("~~x~~"), "<p>~~x~~</p>\n");
    assert_eq!(plain_html_of_markdown("![a](b.png)"), "<p><img src=\"b.png\" alt=\"a\" /></p>\n");
}

#[test]
fn rewriting_images_twice_is_rewriting_once() {
    let img = |u: &str| MdEvent::InlineImage { url: u.to_string(), title: "t".to_string() };
    let evs = vec![img("a.png"), img("/b.png"), img("https://c/d.png")];
    let once = rewrite_image_urls(&evs);
    let twice = rewrite_image_urls(&once);
    assert_eq!(once, twice);
}

#[test]
fn link_rewrites_only_add_links() {
    let t = |s: &str| MdEvent::Text(s.to_string());
    let evs = vec![
        MdEvent::Kept(0, KeptKind::Heading("h".to_string())),
        t("http://a"),
        MdEvent::Kept(2, KeptKind::LinkOpen),
        t("https://b"),
        MdEvent::Kept(4, KeptKind::LinkClose),
        t("plain"),
    ];
    let keep = |v: Vec<MdEvent>| -> Vec<MdEvent> {
        v.into_iter()
            .filter(|e| !matches!(e, MdEvent::NewLinkOpen(_) | MdEvent::NewLinkClose(_)))
            .collect()
    };
    let linked = autolink_urls(&evs);
    assert_eq!(linked.len(), evs.len() + 2);
    assert_eq!(keep(linked), evs);
    let anchored = add_heading_anchors("p", &evs);
    assert_eq!(anchored.len(), evs.len() + 2);
    assert_eq!(keep(anchored), evs);
}

#[test]
fn dropping_comment_lines_twice_is_dropping_once() {
    for text in ["a\n// c\nb", "//x\n//y", "a\n//c", "// a\n// b\nc\n", "/\n//\n///"] {
        let once = strip_comment_lines(text);
        assert!(once.split('\n').all(|l| !l.starts_with("//")));
        assert_eq!(strip_comment_lines(&once), once);
    }
}
