use wiki_rs::controllers::handle_attach::attach_path;
use wiki_rs::controllers::handle_page::{page_url, template_kind, TemplateKind};
use wiki_rs::gateways::attaches::{attach_file_path, attach_names, attach_names_in_page};
use wiki_rs::gateways::db_memory::DatabaseImplOnMemory;
use wiki_rs::gateways::users::{user_id_of, users_editor_html, users_of_data};
use wiki_rs::gateways::pages::PageData;
use wiki_rs::time::{is_later, Timestamp};
use wiki_rs::usecases::pages::Page;
use wiki_rs::usecases::users::{User, UserData};

#[test]
fn users_in_the_store() {
    assert_eq!(user_id_of("a b"), "a%20b");
    let data = vec![
        UserData { name: "foo".to_string(), password: "x".to_string() },
        UserData { name: "b r".to_string(), password: "y".to_string() },
    ];
    let users = users_of_data(&data);
    assert_eq!(users.len(), 2);
    assert_eq!((users[1].id.as_str(), users[1].name.as_str(), users[1].password.as_str()), ("b%20r", "b r", "y"));
    assert_eq!(
        users_editor_html("<div>{{ USERS }}</div>", &users),
        "<div><ul><li>foo</li>\n<li>b r</li></ul></div>"
    );
    assert_eq!(users_editor_html("{{ USERS }}", &Vec::new()), "<ul></ul>");
    let u = User::from_data("foo", UserData { name: "foo".to_string(), password: "p".to_string() });
    let d = u.to_data();
    assert_eq!((u.id, d.name, d.password), ("foo".to_string(), "foo".to_string(), "p".to_string()));
}

#[test]
fn attached_files() {
    assert_eq!(attach_path("p", "f.png"), "p/f.png");
    assert_eq!(attach_file_path("p/f.png"), "public/db/attach/p%2Ff.png");
    let at = |secs: i64| Timestamp { secs, nanos: 0 };
    let files = vec![
        (at(10), "p%2Fa.png".to_string()),
        (at(30), "q%2Fb.png".to_string()),
        (at(20), "p%2Fc".to_string()),
        (at(10), "p%2Fd".to_string()),
    ];
    let own = attach_names_in_page(&files, "p");
    assert_eq!(
        own,
        vec![
            ("p/c".to_string(), "p%2Fc".to_string()),
            ("p/a.png".to_string(), "p%2Fa.png".to_string()),
            ("p/d".to_string(), "p%2Fd".to_string())
        ]
    );
    let all = attach_names(&files);
    assert_eq!(all.len(), 4);
    assert_eq!(all[0], ("q/b.png".to_string(), "q%2Fb.png".to_string()));
    assert!(attach_names(&Vec::new()).is_empty());
}

#[test]
fn record_files() {
    let db = DatabaseImplOnMemory {};
    assert_eq!(db.record_path("pages", "top"), "db/pages/top");
    assert_eq!(db.table_path("users"), "db/users");
}

#[test]
fn page_templates_and_urls() {
    assert_eq!(template_kind("top"), TemplateKind::Top);
    assert_eq!(template_kind("menu"), TemplateKind::Menu);
    assert_eq!(template_kind("topic"), TemplateKind::Page);
    assert_eq!(page_url("a b"), "/pages?path=a b");
}

#[test]
fn times_and_their_text() {
    let a = Timestamp { secs: 5, nanos: 1 };
    let b = Timestamp { secs: 5, nanos: 0 };
    assert!(is_later(a, b));
    assert!(!is_later(b, a));
    assert!(!is_later(a, a));
    let stored = |secs: i64, nanos: u32| {
        let page = Page::create_with("", "p", "", &Vec::new(), Timestamp { secs, nanos }, "");
        PageData::from_page(&page).map(|d| d.modified_rfc3339)
    };
    assert_eq!(stored(0, 0).unwrap(), "1970-01-01T00:00:00+00:00");
    assert_eq!(stored(0, 1500).unwrap(), "1970-01-01T00:00:00.000001500+00:00");
    assert_eq!(stored(-1, 0).unwrap(), "1969-12-31T23:59:59+00:00");
    assert!(stored(i64::MAX, 0).is_none());
    let read = |text: &str| {
        PageData {
            path: "p".to_string(),
            name: "p".to_string(),
            markdown: String::new(),
            html: String::new(),
            modified_rfc3339: text.to_string(),
        }
        .into_page()
        .map(|p| (p.modified.secs, p.modified.nanos))
    };
    assert_eq!(read("2024-02-29T12:00:00.5+09:00"), Some((1_709_175_600, 500_000_000)));
    assert_eq!(read("2024-13-01T00:00:00Z"), None);
}

#[test]
fn created_page_shows_its_local_time_of_writing() {
    let page = Page::create("[{{ UPDATED_DATE }}]", "p", "");
    assert_eq!(page.html.len(), 21);
    let d = &page.html[1..20];
    assert_eq!(&d[4..5], "-");
    assert_eq!(&d[10..11], " ");
    assert_eq!(&d[13..14], ":");
}
