use wiki_rs::headings::{add_heading_ids, add_heading_ids_with, count_headings_without_id};

fn ids(v: &[&str]) -> Vec<String> {
    v.iter().map(|s| s.to_string()).collect()
}

#[test]
fn heading_without_id_gets_the_fresh_one() {
    let md = "# a\ntext\n## b { #x }";
    assert_eq!(count_headings_without_id(md), 1);
    let (text, heads) = add_heading_ids_with(md, &ids(&["id1"]));
    assert_eq!(text, "# a { #id1 }\ntext\n## b { #x }");
    assert_eq!(
        heads,
        vec![
            ("id1".to_string(), 1, "a".to_string()),
            ("x".to_string(), 2, "b".to_string())
        ]
    );
}

#[test]
fn fresh_ids_are_taken_in_order() {
    let md = "# one\nplain # not a heading\n### three  \n# four { #}";
    assert_eq!(count_headings_without_id(md), 3);
    let (text, heads) = add_heading_ids_with(md, &ids(&["p", "q", "r"]));
    assert_eq!(
        text,
        "# one { #p }\nplain # not a heading\n### three   { #q }\n# four { #} { #r }"
    );
    assert_eq!(heads[0], ("p".to_string(), 1, "one".to_string()));
    assert_eq!(heads[1], ("q".to_string(), 3, "three  ".to_string()));
    assert_eq!(heads[2], ("r".to_string(), 1, "four { #}".to_string()));
}

#[test]
fn lines_that_are_not_headings() {
    for md in ["#tag", "####### seven", "    # code", "\\# escaped", "#\u{a0}nbsp"] {
        assert_eq!(count_headings_without_id(md), 0);
        let (text, heads) = add_heading_ids_with(md, &Vec::new());
        assert_eq!(text, md);
        assert!(heads.is_empty());
    }
}

#[test]
fn heading_forms() {
    let md = "#\n   ## indented\n######\ttab";
    let (text, heads) = add_heading_ids_with(md, &ids(&["a", "b", "c"]));
    assert_eq!(text, "# { #a }\n   ## indented { #b }\n######\ttab { #c }");
    assert_eq!(heads[0], ("a".to_string(), 1, "".to_string()));
    assert_eq!(heads[1], ("b".to_string(), 2, "indented".to_string()));
    assert_eq!(heads[2], ("c".to_string(), 6, "tab".to_string()));
}

#[test]
fn headings_in_fenced_code_are_left_alone() {
    let md = "```\n# c\n```";
    assert_eq!(count_headings_without_id(md), 0);
    let (text, heads) = add_heading_ids(md);
    assert_eq!(text, md);
    assert!(heads.is_empty());
    let md = "~~~~ rust\n# in\n~~~\n# still in\n  ~~~~~  \n# out";
    assert_eq!(count_headings_without_id(md), 1);
    let (text, heads) = add_heading_ids_with(md, &ids(&["x"]));
    assert_eq!(text, "~~~~ rust\n# in\n~~~\n# still in\n  ~~~~~  \n# out { #x }");
    assert_eq!(heads, vec![("x".to_string(), 1, "out".to_string())]);
    let md = "``` a`b\n# not code\n```\n# open\n";
    let (text, _) = add_heading_ids_with(md, &ids(&["y", "z"]));
    assert_eq!(text, "``` a`b\n# not code { #y }\n```\n# open\n");
    let (text, _) = add_heading_ids_with("```\n# never closed", &Vec::new());
    assert_eq!(text, "```\n# never closed");
}

#[test]
fn heading_with_id_is_left_alone() {
    let md = "## Title  {  #my-id  }  ";
    assert_eq!(count_headings_without_id(md), 0);
    let (text, heads) = add_heading_ids_with(md, &Vec::new());
    assert_eq!(text, md);
    assert_eq!(heads, vec![("my-id".to_string(), 2, "Title ".to_string())]);
}

#[test]
fn text_without_headings_is_unchanged() {
    let md = "just\ntext\n";
    let (text, heads) = add_heading_ids_with(md, &Vec::new());
    assert_eq!(text, md);
    assert!(heads.is_empty());
}

#[test]
fn adding_ids_twice_changes_nothing() {
    let md = "# a\n## b\ntext";
    let (once, heads1) = add_heading_ids(md);
    assert_eq!(count_headings_without_id(&once), 0);
    let (twice, heads2) = add_heading_ids(&once);
    assert_eq!(once, twice);
    assert_eq!(heads1, heads2);
    assert_eq!(heads1.len(), 2);
    for (id, _, _) in &heads1 {
        assert_eq!(id.len(), 36);
        assert!(uuid::Uuid::parse_str(id).is_ok());
    }
}
