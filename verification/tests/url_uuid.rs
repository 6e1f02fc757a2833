use wiki_rs::gateways::pages::page_id_of;
use wiki_rs::headings::add_heading_ids;
use wiki_rs::url::{decode, decode_name, get_path};

#[test]
fn encode_names() {
    assert_eq!(page_id_of("abc-._~XYZ09"), "abc-._~XYZ09");
    assert_eq!(page_id_of("a b/c"), "a%20b%2Fc");
    assert_eq!(page_id_of("é"), "%C3%A9");
    assert_eq!(page_id_of("100%"), "100%25");
    assert_eq!(page_id_of(""), "");
}

#[test]
fn decode_names() {
    assert_eq!(decode("a%20b%2Fc"), Some("a b/c".to_string()));
    assert_eq!(decode("%c3%a9"), Some("é".to_string()));
    assert_eq!(decode("%zz"), Some("%zz".to_string()));
    assert_eq!(decode("%4z"), Some("%4z".to_string()));
    assert_eq!(decode("50%"), Some("50%".to_string()));
    assert_eq!(decode("%FF"), None);
    assert_eq!(decode_name("top"), "top");
}

#[test]
fn decoding_the_encoding_gives_the_name_back() {
    for name in ["top", "my page", "日本語/ページ", "a%b", "~!*'()"] {
        assert_eq!(decode(&page_id_of(name)), Some(name.to_string()));
    }
}

#[test]
fn file_paths_under_a_directory() {
    assert_eq!(get_path("public/edit", "a b"), "public/edit/a%20b");
    assert_eq!(get_path("dir/", "x/y"), "dir/x%2Fy");
    assert_eq!(get_path("", "x"), "x");
}

#[test]
fn fresh_heading_ids_are_version_4_uuids() {
    let (text, heads) = add_heading_ids("# a\n# b");
    assert_eq!(heads.len(), 2);
    assert_ne!(heads[0].0, heads[1].0);
    for (id, _, _) in &heads {
        let u = uuid::Uuid::parse_str(id).unwrap();
        assert_eq!(u.to_string(), *id);
        assert_eq!(u.get_version_num(), 4);
        let v = u.as_u128();
        assert_eq!((v >> 76) & 15, 4);
        assert_eq!((v >> 62) & 3, 2);
        assert_eq!(&id[14..15], "4");
        assert!(text.contains(&format!("{{ #{} }}", id)));
    }
}
