use wiki_rs::usecases::users::User;

#[test]
fn user_check_and_validate() {
    let u = User::create("foo", "bar");
    assert_eq!(u.id, "foo");
    assert!(u.check("foo", "bar"));
    assert!(!u.check("foo", "baz"));
    assert!(!u.check("fob", "bar"));
    assert!(u.validate("bar"));
    assert!(!u.validate("ba"));
}
