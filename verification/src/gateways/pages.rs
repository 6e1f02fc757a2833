//! Pages in the store: the stored record of a page, the list of pages by
//! recency, and the editor page.

use vstd::prelude::*;
use crate::text::{replace_all, replaced};
use crate::time::{
    is_later, later, parse_rfc3339, parsed_rfc3339, rfc3339_text, rfc3339_writable, to_rfc3339,
    Timestamp,
};
use vstd::utf8::encode_utf8;
use crate::url::{decodable, decode_name, encode, encoded_bytes, url_decoded};
use crate::gateways::attaches::{attach_entries, attach_names_in_page, file_names};
use crate::usecases::pages::{attach_ul, pair_views, with_pages_list, Page};

verus! {

/// The stored record of a page: the time of writing as RFC 3339 text.
#[derive(Debug)]
pub struct PageData {
    pub path: String,
    pub name: String,
    pub markdown: String,
    pub html: String,
    pub modified_rfc3339: String,
}

impl PageData {
    /// The record of a page; `None` when its time lies outside chrono's
    /// range.
    pub fn from_page(page: &Page) -> (d: Option<PageData>)
        ensures
            match d {
                Some(d) => {
                    &&& d.path == page.path
                    &&& d.name == page.name
                    &&& d.markdown == page.markdown
                    &&& d.html == page.html
                    &&& rfc3339_text(page.modified.secs, page.modified.nanos) == Some(
                        d.modified_rfc3339@,
                    )
                },
                None => rfc3339_text(page.modified.secs, page.modified.nanos) is None,
            },
            rfc3339_writable(page.modified) ==> (d matches Some(d) && parsed_rfc3339(
                d.modified_rfc3339@,
            ) == Some((page.modified.secs, page.modified.nanos))),
    {
        match to_rfc3339(page.modified) {
            Some(m) => Some(
                PageData {
                    path: page.path.clone(),
                    name: page.name.clone(),
                    markdown: page.markdown.clone(),
                    html: page.html.clone(),
                    modified_rfc3339: m,
                },
            ),
            None => None,
        }
    }

    /// The page of a record; `None` when its time is not RFC 3339 text.
    pub fn into_page(self) -> (p: Option<Page>)
        ensures
            match p {
                Some(p) => {
                    &&& p.path == self.path
                    &&& p.name == self.name
                    &&& p.markdown == self.markdown
                    &&& p.html == self.html
                    &&& parsed_rfc3339(self.modified_rfc3339@) == Some(
                        (p.modified.secs, p.modified.nanos),
                    )
                },
                None => parsed_rfc3339(self.modified_rfc3339@) is None,
            },
    {
        match parse_rfc3339(self.modified_rfc3339.as_str()) {
            Some(t) => Some(
                Page {
                    path: self.path,
                    name: self.name,
                    markdown: self.markdown,
                    html: self.html,
                    modified: t,
                },
            ),
            None => None,
        }
    }
}

/// An entry of the page list before ordering: time of writing and id.
pub type PageInfoView = (Timestamp, Seq<char>);

/// `x` put into the list `s` (most recent first) before the first entry that
/// is older than it, so after all entries at least as recent.
pub open spec fn insert_desc(s: Seq<PageInfoView>, x: PageInfoView) -> Seq<PageInfoView>
    decreases s.len(),
{
    if s.len() == 0 {
        seq![x]
    } else if later(x.0, s[0].0) {
        seq![x] + s
    } else {
        seq![s[0]] + insert_desc(s.skip(1), x)
    }
}

/// The entries, most recent first; entries written at the same time keep
/// their order (a stable sort).
pub open spec fn sort_desc(s: Seq<PageInfoView>) -> Seq<PageInfoView>
    decreases s.len(),
{
    if s.len() == 0 {
        s
    } else {
        insert_desc(sort_desc(s.drop_last()), s.last())
    }
}

/// The page list: the entries most recent first, each as (name, id).
pub open spec fn page_list(infos: Seq<PageInfoView>) -> Seq<(Seq<char>, Seq<char>)> {
    sort_desc(infos).map_values(|e: PageInfoView| (url_decoded(e.1), e.1))
}

/// Every id decodes.
pub open spec fn all_decodable(infos: Seq<PageInfoView>) -> bool {
    forall|i: int| 0 <= i < infos.len() ==> decodable(#[trigger] infos[i].1)
}

/// The views of page-list entries.
pub open spec fn info_views(v: Seq<(Timestamp, String)>) -> Seq<PageInfoView> {
    v.map_values(|e: (Timestamp, String)| (e.0, e.1@))
}

proof fn lemma_insert_desc_at(s: Seq<PageInfoView>, x: PageInfoView, j: int)
    requires
        0 <= j <= s.len(),
        forall|k: int| 0 <= k < j ==> !later(x.0, #[trigger] s[k].0),
        j == s.len() || later(x.0, s[j].0),
    ensures
        insert_desc(s, x) == s.take(j).push(x) + s.skip(j),
    decreases j,
{
    if j == 0 {
        if s.len() == 0 {
            assert(s.take(0).push(x) + s.skip(0) =~= seq![x]);
        } else {
            assert(s.take(0).push(x) + s.skip(0) =~= seq![x] + s);
        }
    } else {
        let t = s.skip(1);
        assert forall|k: int| 0 <= k < j - 1 implies !later(x.0, #[trigger] t[k].0) by {
            assert(t[k] == s[k + 1]);
        }
        lemma_insert_desc_at(t, x, j - 1);
        assert(!later(x.0, s[0].0));
        assert(seq![s[0]] + (t.take(j - 1).push(x) + t.skip(j - 1)) =~= s.take(j).push(x) + s.skip(
            j,
        ));
    }
}

/// The entries, most recent first; entries written at the same time keep
/// their order (a stable sort). Names that decode still do.
pub fn sort_by_recency(infos: &Vec<(Timestamp, String)>) -> (sorted: Vec<(Timestamp, String)>)
    ensures
        info_views(sorted@) == sort_desc(info_views(infos@)),
        all_decodable(info_views(infos@)) ==> all_decodable(info_views(sorted@)),
{
    let ghost iv = info_views(infos@);
    let mut sorted: Vec<(Timestamp, String)> = Vec::new();
    let mut i: usize = 0;
    while i < infos.len()
        invariant
            i <= infos.len(),
            iv == info_views(infos@),
            info_views(sorted@) == sort_desc(iv.take(i as int)),
        decreases infos.len() - i,
    {
        let x = (infos[i].0, infos[i].1.clone());
        let ghost xv = (x.0, x.1@);
        let mut j: usize = 0;
        while j < sorted.len() && !is_later(x.0, sorted[j].0)
            invariant
                j <= sorted.len(),
                xv.0 == x.0,
                forall|k: int| 0 <= k < j ==> !later(xv.0, #[trigger] info_views(sorted@)[k].0),
            decreases sorted.len() - j,
        {
            assert(info_views(sorted@)[j as int] == (sorted@[j as int].0, sorted@[j as int].1@));
            j += 1;
        }
        let ghost before = info_views(sorted@);
        proof {
            if j < sorted.len() {
                assert(info_views(sorted@)[j as int] == (sorted@[j as int].0, sorted@[j as int].1@));
            }
            lemma_insert_desc_at(before, xv, j as int);
        }
        sorted.insert(j, x);
        assert(info_views(sorted@) =~= before.take(j as int).push(xv) + before.skip(j as int));
        assert(iv.take(i + 1).drop_last() =~= iv.take(i as int));
        assert(iv.take(i + 1).last() == xv);
        i += 1;
    }
    assert(iv.take(infos.len() as int) =~= iv);
    let ghost sv = info_views(sorted@);
    proof {
        lemma_sort_desc_elements(iv);
        if all_decodable(iv) {
            assert forall|m: int| 0 <= m < sv.len() implies decodable(#[trigger] sv[m].1) by {
                assert(iv.contains(sv[m]));
                let q = choose|q: int| 0 <= q < iv.len() && iv[q] == sv[m];
                assert(decodable(iv[q].1));
            }
        }
    }
    sorted
}

/// Orders the entries of the page list most recent first (a stable sort)
/// and names each by the decoding of its id.
pub fn pages_by_recency(infos: &Vec<(Timestamp, String)>) -> (list: Vec<(String, String)>)
    requires
        all_decodable(info_views(infos@)),
    ensures
        list@.map_values(|p: (String, String)| (p.0@, p.1@)) == page_list(info_views(infos@)),
{
    let ghost iv = info_views(infos@);
    let sorted = sort_by_recency(infos);
    let ghost sv = info_views(sorted@);
    let mut list: Vec<(String, String)> = Vec::new();
    let mut k: usize = 0;
    while k < sorted.len()
        invariant
            k <= sorted.len(),
            sv == info_views(sorted@),
            sv == sort_desc(iv),
            all_decodable(iv),
            forall|m: int| 0 <= m < sv.len() ==> decodable(#[trigger] sv[m].1),
            list@.map_values(|p: (String, String)| (p.0@, p.1@)) == sv.take(k as int).map_values(
                |e: PageInfoView| (url_decoded(e.1), e.1),
            ),
        decreases sorted.len() - k,
    {
        assert(sv[k as int] == (sorted@[k as int].0, sorted@[k as int].1@));
        assert(decodable(sv[k as int].1));
        let name = decode_name(sorted[k].1.as_str());
        let ghost before = list@.map_values(|p: (String, String)| (p.0@, p.1@));
        list.push((name, sorted[k].1.clone()));
        assert(list@.map_values(|p: (String, String)| (p.0@, p.1@)) =~= before.push(
            (url_decoded(sv[k as int].1), sv[k as int].1),
        ));
        k += 1;
        assert(sv.take(k as int).map_values(|e: PageInfoView| (url_decoded(e.1), e.1)) =~= before.push(
            (url_decoded(sv[k - 1].1), sv[k - 1].1),
        ));
    }
    assert(sv.take(sorted.len() as int) =~= sv);
    list
}

/// Every entry of the sorted list is an entry of the input.
proof fn lemma_sort_desc_elements(s: Seq<PageInfoView>)
    ensures
        sort_desc(s).len() == s.len(),
        forall|m: int| 0 <= m < s.len() ==> s.contains(#[trigger] sort_desc(s)[m]),
    decreases s.len(),
{
    if s.len() > 0 {
        let front = s.drop_last();
        lemma_sort_desc_elements(front);
        lemma_insert_desc_elements(sort_desc(front), s.last());
        assert forall|m: int| 0 <= m < s.len() implies s.contains(#[trigger] sort_desc(s)[m]) by {
            let e = sort_desc(s)[m];
            if e == s.last() {
                assert(s[s.len() - 1] == e);
            } else {
                assert(sort_desc(front).contains(e));
                let k = choose|k: int| 0 <= k < sort_desc(front).len() && sort_desc(front)[k] == e;
                assert(front.contains(sort_desc(front)[k]));
                let q = choose|q: int| 0 <= q < front.len() && front[q] == e;
                assert(s[q] == e);
            }
        }
    }
}

/// Inserting adds one entry and keeps the others.
proof fn lemma_insert_desc_elements(s: Seq<PageInfoView>, x: PageInfoView)
    ensures
        insert_desc(s, x).len() == s.len() + 1,
        forall|m: int|
            0 <= m < s.len() + 1 ==> (#[trigger] insert_desc(s, x)[m] == x || s.contains(
                insert_desc(s, x)[m],
            )),
    decreases s.len(),
{
    if s.len() > 0 && !later(x.0, s[0].0) {
        let t = s.skip(1);
        lemma_insert_desc_elements(t, x);
        assert forall|m: int|
            0 <= m < s.len() + 1 implies (#[trigger] insert_desc(s, x)[m] == x || s.contains(
            insert_desc(s, x)[m],
        )) by {
            if m == 0 {
                assert(insert_desc(s, x)[0] == s[0]);
            } else {
                assert(insert_desc(s, x)[m] == insert_desc(t, x)[m - 1]);
                if insert_desc(t, x)[m - 1] != x {
                    let k = choose|k: int| 0 <= k < t.len() && t[k] == insert_desc(t, x)[m - 1];
                    assert(s[k + 1] == t[k]);
                }
            }
        }
    } else if s.len() > 0 {
        assert forall|m: int|
            0 <= m < s.len() + 1 implies (#[trigger] insert_desc(s, x)[m] == x || s.contains(
            insert_desc(s, x)[m],
        )) by {
            if m > 0 {
                assert(insert_desc(s, x)[m] == s[m - 1]);
            }
        }
    }
}

/// Inserting an entry adds it to the entries, as a multiset.
proof fn lemma_insert_desc_multiset(s: Seq<PageInfoView>, x: PageInfoView)
    ensures
        insert_desc(s, x).to_multiset() =~= s.to_multiset().insert(x),
    decreases s.len(),
{
    broadcast use vstd::seq_lib::group_to_multiset_ensures;
    broadcast use vstd::multiset::group_multiset_axioms;

    if s.len() == 0 {
        assert(seq![x] =~= s.insert(0, x));
        vstd::seq_lib::to_multiset_insert(s, 0, x);
    } else if later(x.0, s[0].0) {
        assert(seq![x] + s =~= s.insert(0, x));
        vstd::seq_lib::to_multiset_insert(s, 0, x);
    } else {
        let t = s.skip(1);
        lemma_insert_desc_multiset(t, x);
        let r = insert_desc(t, x);
        assert(seq![s[0]] + r =~= r.insert(0, s[0]));
        vstd::seq_lib::to_multiset_insert(r, 0, s[0]);
        assert(s =~= t.insert(0, s[0]));
        vstd::seq_lib::to_multiset_insert(t, 0, s[0]);
    }
}

/// The page list holds each stored page once: ordering the entries keeps
/// them all, as many times as they occur.
pub proof fn lemma_sort_desc_permutation(s: Seq<PageInfoView>)
    ensures
        sort_desc(s).to_multiset() =~= s.to_multiset(),
    decreases s.len(),
{
    broadcast use vstd::seq_lib::group_to_multiset_ensures;

    if s.len() > 0 {
        let front = s.drop_last();
        lemma_sort_desc_permutation(front);
        lemma_insert_desc_multiset(sort_desc(front), s.last());
        assert(front.push(s.last()) =~= s);
    }
}

/// The page list is ordered most recent first.
pub proof fn lemma_sort_desc_sorted(s: Seq<PageInfoView>)
    ensures
        forall|a: int, b: int|
            0 <= a < b < sort_desc(s).len() ==> !later(
                #[trigger] sort_desc(s)[b].0,
                #[trigger] sort_desc(s)[a].0,
            ),
    decreases s.len(),
{
    if s.len() > 0 {
        lemma_sort_desc_sorted(s.drop_last());
        lemma_insert_desc_sorted(sort_desc(s.drop_last()), s.last());
    }
}

proof fn lemma_insert_desc_sorted(s: Seq<PageInfoView>, x: PageInfoView)
    requires
        forall|a: int, b: int| 0 <= a < b < s.len() ==> !later(#[trigger] s[b].0, #[trigger] s[a].0),
    ensures
        forall|a: int, b: int|
            0 <= a < b < insert_desc(s, x).len() ==> !later(
                #[trigger] insert_desc(s, x)[b].0,
                #[trigger] insert_desc(s, x)[a].0,
            ),
    decreases s.len(),
{
    lemma_insert_desc_elements(s, x);
    if s.len() > 0 {
        let t = s.skip(1);
        if !later(x.0, s[0].0) {
            assert forall|a: int, b: int| 0 <= a < b < t.len() implies !later(
                #[trigger] t[b].0,
                #[trigger] t[a].0,
            ) by {
                assert(t[a] == s[a + 1] && t[b] == s[b + 1]);
            }
            lemma_insert_desc_sorted(t, x);
            lemma_insert_desc_elements(t, x);
            let r = insert_desc(s, x);
            assert forall|a: int, b: int| 0 <= a < b < r.len() implies !later(
                #[trigger] r[b].0,
                #[trigger] r[a].0,
            ) by {
                if a == 0 {
                    let e = r[b];
                    assert(e == insert_desc(t, x)[b - 1]);
                    if e != x {
                        let k = choose|k: int| 0 <= k < t.len() && t[k] == e;
                        assert(s[k + 1] == e);
                    }
                } else {
                    assert(r[a] == insert_desc(t, x)[a - 1]);
                    assert(r[b] == insert_desc(t, x)[b - 1]);
                }
            }
        } else {
            let r = insert_desc(s, x);
            assert forall|a: int, b: int| 0 <= a < b < r.len() implies !later(
                #[trigger] r[b].0,
                #[trigger] r[a].0,
            ) by {
                if a == 0 {
                    assert(r[b] == s[b - 1]);
                    if b - 1 > 0 {
                        assert(!later(s[b - 1].0, s[0].0));
                    }
                } else {
                    assert(r[a] == s[a - 1] && r[b] == s[b - 1]);
                }
            }
        }
    }
}

/// The HTML of a stored page as it is shown: the page list made from the
/// stored pages' times of writing and ids, the side menu, and the page's
/// attached files among the stored files (given with their times of last
/// write), most recent first.
pub fn page_html_with_lists(
    page: &Page,
    page_id: &str,
    menu_markdown: &str,
    infos: &Vec<(Timestamp, String)>,
    attach_files: &Vec<(Timestamp, String)>,
) -> (html: String)
    requires
        all_decodable(info_views(infos@)),
        all_decodable(info_views(attach_files@)),
    ensures
        html@ == replaced(
            with_pages_list(page.html@, menu_markdown@, page_list(info_views(infos@))),
            "{{ ATTACH_NAMES }}"@,
            attach_ul(
                attach_entries(file_names(sort_desc(info_views(attach_files@))), page_id@, true),
            ),
        ),
{
    let list = pages_by_recency(infos);
    let attaches = attach_names_in_page(attach_files, page_id);
    assert(pair_views(list@) =~= list@.map_values(|p: (String, String)| (p.0@, p.1@)));
    page.render(menu_markdown, list.as_slice(), attaches.as_slice()).unwrap()
}

/// The test that keeps the entries written at `t`.
pub open spec fn written_at(t: Timestamp) -> spec_fn(PageInfoView) -> bool {
    |e: PageInfoView| e.0 == t
}

/// Filtering a one-entry sequence keeps the entry or drops it.
proof fn lemma_filter_single(x: PageInfoView, p: spec_fn(PageInfoView) -> bool)
    ensures
        seq![x].filter(p) == if p(x) {
            seq![x]
        } else {
            Seq::<PageInfoView>::empty()
        },
{
    let e = Seq::<PageInfoView>::empty();
    assert(e.filter(p) =~= e) by {
        reveal(Seq::filter);
    }
    e.lemma_filter_push(x, p);
    assert(e.push(x) =~= seq![x]);
}

/// Inserting `x` into a list ordered most recent first adds it after the
/// entries written at the same time as it.
proof fn lemma_insert_desc_stable(r: Seq<PageInfoView>, x: PageInfoView, t: Timestamp)
    requires
        forall|a: int, b: int| 0 <= a < b < r.len() ==> !later(#[trigger] r[b].0, #[trigger] r[a].0),
    ensures
        insert_desc(r, x).filter(written_at(t)) == if x.0 == t {
            r.filter(written_at(t)).push(x)
        } else {
            r.filter(written_at(t))
        },
    decreases r.len(),
{
    let p = written_at(t);
    lemma_filter_single(x, p);
    if r.len() == 0 {
        assert(r.filter(p) =~= r) by {
            reveal(Seq::filter);
        }
        assert(Seq::<PageInfoView>::empty().push(x) =~= seq![x]);
    } else if later(x.0, r[0].0) {
        Seq::filter_distributes_over_add(seq![x], r, p);
        if x.0 == t {
            assert(r.filter(p) =~= Seq::<PageInfoView>::empty()) by {
                assert forall|k: int| 0 <= k < r.len() implies !p(#[trigger] r[k]) by {
                    if k > 0 {
                        assert(!later(r[k].0, r[0].0));
                    }
                }
                lemma_filter_none(r, p);
            }
            assert(seq![x] + r.filter(p) =~= r.filter(p).push(x));
        } else {
            assert(Seq::<PageInfoView>::empty() + r.filter(p) =~= r.filter(p));
        }
    } else {
        let u = r.skip(1);
        assert forall|a: int, b: int| 0 <= a < b < u.len() implies !later(
            #[trigger] u[b].0,
            #[trigger] u[a].0,
        ) by {
            assert(u[a] == r[a + 1] && u[b] == r[b + 1]);
        }
        lemma_insert_desc_stable(u, x, t);
        lemma_filter_single(r[0], p);
        Seq::filter_distributes_over_add(seq![r[0]], insert_desc(u, x), p);
        Seq::filter_distributes_over_add(seq![r[0]], u, p);
        assert(seq![r[0]] + u =~= r);
        if x.0 == t {
            assert(seq![r[0]].filter(p) + u.filter(p).push(x) =~= (seq![r[0]].filter(p)
                + u.filter(p)).push(x));
        }
    }
}

/// Filtering out every entry leaves nothing.
proof fn lemma_filter_none(r: Seq<PageInfoView>, p: spec_fn(PageInfoView) -> bool)
    requires
        forall|k: int| 0 <= k < r.len() ==> !p(#[trigger] r[k]),
    ensures
        r.filter(p) =~= Seq::<PageInfoView>::empty(),
    decreases r.len(),
{
    reveal(Seq::filter);
    if r.len() > 0 {
        let front = r.drop_last();
        assert forall|k: int| 0 <= k < front.len() implies !p(#[trigger] front[k]) by {
            assert(front[k] == r[k]);
        }
        lemma_filter_none(front, p);
        assert(!p(r[r.len() - 1]));
    }
}

/// The page list keeps the order of pages written at the same time: for
/// every time, the entries written then come in the list in the order in
/// which they were given (the ordering is stable).
pub proof fn lemma_sort_desc_stable(s: Seq<PageInfoView>, t: Timestamp)
    ensures
        sort_desc(s).filter(written_at(t)) == s.filter(written_at(t)),
    decreases s.len(),
{
    if s.len() == 0 {
        assert(sort_desc(s) == s);
    } else {
        let front = s.drop_last();
        lemma_sort_desc_stable(front, t);
        lemma_sort_desc_sorted(front);
        lemma_insert_desc_stable(sort_desc(front), s.last(), t);
        front.lemma_filter_push(s.last(), written_at(t));
        assert(front.push(s.last()) =~= s);
    }
}

/// The id under which the page named `page_name` is stored: the
/// percent-encoding of the name.
pub fn page_id_of(page_name: &str) -> (id: String)
    ensures
        encode_utf8(id@) == encoded_bytes(page_name@),
{
    encode(page_name)
}

/// The editor page: the template with the page name in place of
/// `{{ TITLE }}` and the page's markdown (empty for a new page) in place of
/// `{{ MARKDOWN }}`.
pub open spec fn editor_page(template: Seq<char>, page_name: Seq<char>, markdown: Seq<char>) -> Seq<char> {
    replaced(replaced(template, "{{ TITLE }}"@, page_name), "{{ MARKDOWN }}"@, markdown)
}

/// The editor page for `page_name`, whose stored markdown is `markdown`
/// (`None` for a page not stored yet).
pub fn editor_html(template: &str, page_name: &str, markdown: Option<&str>) -> (html: String)
    ensures
        html@ == editor_page(
            template@,
            page_name@,
            match markdown {
                Some(m) => m@,
                None => Seq::<char>::empty(),
            },
        ),
{
    let contents = match markdown {
        Some(m) => m,
        None => "",
    };
    proof {
        reveal_strlit("");
        reveal_strlit("{{ TITLE }}");
        reveal_strlit("{{ MARKDOWN }}");
    }
    assert(""@ =~= Seq::<char>::empty());
    let h = replace_all(template, "{{ TITLE }}", page_name);
    replace_all(h.as_str(), "{{ MARKDOWN }}", contents)
}

} // verus!
