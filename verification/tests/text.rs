use wiki_rs::text::chars_of;
use wiki_rs::text::concatenate;
use wiki_rs::text::has_prefix;
use wiki_rs::text::is_whitespace_char;
use wiki_rs::text::join_strings;
use wiki_rs::text::occurs_at;
use wiki_rs::text::push_chars;
use wiki_rs::text::replace_all;
use wiki_rs::text::same_text;
use wiki_rs::text::split_chars;
use wiki_rs::text::string_of;

#[test]
fn whitespace_characters() {
    assert!(is_whitespace_char(' '));
    assert!(is_whitespace_char('\t'));
    assert!(is_whitespace_char('\n'));
    assert!(is_whitespace_char('\u{3000}'));
    assert!(is_whitespace_char('\u{a0}'));
    assert!(!is_whitespace_char('a'));
    assert!(!is_whitespace_char('#'));
    assert!(!is_whitespace_char('\u{200b}'));
}

#[test]
fn replace_all_is_str_replace() {
    assert_eq!(replace_all("aaa", "aa", "b"), "ba");
    assert_eq!(replace_all("a-b-c", "-", "+"), "a+b+c");
    assert_eq!(replace_all("no match", "xyz", "q"), "no match");
    assert_eq!(replace_all("", "x", "y"), "");
    assert_eq!(replace_all("{{ A }}{{ A }}", "{{ A }}", "1"), "11");
    assert_eq!(replace_all("a\\b", "\\", "\\\\"), "a\\\\b");
    for (s, from, to) in [("abcabc", "bc", "X"), ("héllo wörld", "ö", "oe"), ("xx", "x", "")] {
        assert_eq!(replace_all(s, from, to), s.replace(from, to));
    }
}

#[test]
fn split_and_join() {
    let v = chars_of("a\nb\n\nc");
    let pieces = split_chars(&v, '\n');
    let texts: Vec<String> = pieces.iter().map(|p| p.iter().collect()).collect();
    assert_eq!(texts, vec!["a", "b", "", "c"]);
    assert_eq!(join_strings(&texts, "\n"), "a\nb\n\nc");
    let empty = split_chars(&chars_of(""), '\n');
    assert_eq!(empty.len(), 1);
    assert!(empty[0].is_empty());
    let trailing = split_chars(&chars_of("x;"), ';');
    assert_eq!(trailing.len(), 2);
    assert_eq!(join_strings(&Vec::new(), ","), "");
}

#[test]
fn small_string_helpers() {
    assert_eq!(concatenate("ab", "cd"), "abcd");
    assert!(same_text("abc", "abc"));
    assert!(!same_text("abc", "abd"));
    assert!(!same_text("abc", "ab"));
    let v = chars_of("https://x");
    assert!(has_prefix(&v, "https://"));
    assert!(!has_prefix(&v, "http://x/"));
    let pat = chars_of("//");
    assert!(occurs_at(&v, &pat, 6));
    assert!(!occurs_at(&v, &pat, 5));
    assert!(!occurs_at(&v, &pat, 9));
    let mut s = String::from("x");
    push_chars(&mut s, &chars_of("hello"), 1, 4);
    assert_eq!(s, "xell");
    assert_eq!(string_of(&chars_of("日本")), "日本");
}
