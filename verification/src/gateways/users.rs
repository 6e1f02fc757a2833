//! Users in the store: kept as `UserData` under their id; the users page.

use vstd::prelude::*;
use vstd::utf8::encode_utf8;
use crate::text::{concatenate, join_strings, replace_all, replaced, seq_join};
use crate::url::{encode, encoded_bytes};
use crate::usecases::users::{User, UserData};

verus! {

/// The id under which a user is stored: the percent-encoding of the name.
pub fn user_id_of(user_name: &str) -> (id: String)
    ensures
        encode_utf8(id@) == encoded_bytes(user_name@),
{
    encode(user_name)
}

/// The users of the stored data, each with the encoding of its name as id.
pub fn users_of_data(list: &Vec<UserData>) -> (users: Vec<User>)
    ensures
        users.len() == list.len(),
        forall|i: int|
            0 <= i < users.len() ==> {
                &&& encode_utf8((#[trigger] users@[i]).id@) == encoded_bytes(list@[i].name@)
                &&& users@[i].name@ == list@[i].name@
                &&& users@[i].password@ == list@[i].password@
            },
{
    let mut users: Vec<User> = Vec::new();
    let mut i: usize = 0;
    while i < list.len()
        invariant
            i <= list.len(),
            users.len() == i,
            forall|k: int|
                0 <= k < i ==> {
                    &&& encode_utf8((#[trigger] users@[k]).id@) == encoded_bytes(list@[k].name@)
                    &&& users@[k].name@ == list@[k].name@
                    &&& users@[k].password@ == list@[k].password@
                },
        decreases list.len() - i,
    {
        let d = &list[i];
        users.push(
            User {
                id: encode(d.name.as_str()),
                name: d.name.clone(),
                password: d.password.clone(),
            },
        );
        i += 1;
    }
    users
}

/// The list item of a user on the users page.
pub open spec fn user_item(name: Seq<char>) -> Seq<char> {
    "<li>"@ + name + "</li>"@
}

/// The users page: the template with `{{ USERS }}` replaced by the list of
/// user names.
pub open spec fn users_page(template: Seq<char>, users: Seq<User>) -> Seq<char> {
    let items = users.map_values(|u: User| user_item(u.name@));
    replaced(template, "{{ USERS }}"@, "<ul>"@ + seq_join(items, "\n"@) + "</ul>"@)
}

/// The users page from its template and the users.
pub fn users_editor_html(template: &str, users: &Vec<User>) -> (html: String)
    ensures
        html@ == users_page(template@, users@),
{
    let mut items: Vec<String> = Vec::new();
    let mut i: usize = 0;
    while i < users.len()
        invariant
            i <= users.len(),
            items.deep_view() == users@.take(i as int).map_values(|u: User| user_item(u.name@)),
        decreases users.len() - i,
    {
        let mut item = concatenate("<li>", users[i].name.as_str());
        item.append("</li>");
        let ghost before = items.deep_view();
        items.push(item);
        assert(items.deep_view() =~= before.push(user_item(users@[i as int].name@)));
        i += 1;
        assert(users@.take(i as int).map_values(|u: User| user_item(u.name@)) =~= before.push(
            user_item(users@[i - 1].name@),
        ));
    }
    assert(users@.take(users.len() as int) =~= users@);
    let joined = join_strings(&items, "\n");
    let mut list = concatenate("<ul>", joined.as_str());
    list.append("</ul>");
    proof {
        reveal_strlit("{{ USERS }}");
    }
    replace_all(template, "{{ USERS }}", list.as_str())
}

} // verus!
