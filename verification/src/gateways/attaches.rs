//! Attached files: they are stored under the percent-encoding of
//! `{page id}/{file name}`; a page lists the files whose decoded name starts
//! with its id.

use vstd::prelude::*;
use crate::url::{decodable, decode_name, get_path, joined_path, encoded_bytes, url_decoded};
use vstd::utf8::encode_utf8;
use crate::gateways::pages::{all_decodable, info_views, sort_by_recency, sort_desc, PageInfoView};
use crate::time::Timestamp;
use crate::usecases::pages::pair_views;

verus! {

/// The directory of the attached files.
pub const ATTACH_DIR: &'static str = "public/db/attach";

/// The file path of an attached file stored as `path`.
pub fn attach_file_path(path: &str) -> (p: String)
    ensures
        exists|enc: Seq<char>|
            encode_utf8(enc) == encoded_bytes(path@) && p@ == joined_path(ATTACH_DIR@, enc),
{
    get_path(ATTACH_DIR, path)
}

/// The stored file names as `(decoded name, file name)`, keeping those whose
/// decoded name starts with `prefix` when `filter` holds.
pub open spec fn attach_entries(files: Seq<Seq<char>>, prefix: Seq<char>, filter: bool) -> Seq<
    (Seq<char>, Seq<char>),
>
    decreases files.len(),
{
    if files.len() == 0 {
        Seq::<(Seq<char>, Seq<char>)>::empty()
    } else {
        let prev = attach_entries(files.drop_last(), prefix, filter);
        let f = files.last();
        if !filter || prefix.is_prefix_of(url_decoded(f)) {
            prev.push((url_decoded(f), f))
        } else {
            prev
        }
    }
}

fn collect_entries(files: &Vec<(Timestamp, String)>, prefix: &str, filter: bool) -> (list: Vec<
    (String, String),
>)
    requires
        all_decodable(info_views(files@)),
    ensures
        pair_views(list@) == attach_entries(file_names(info_views(files@)), prefix@, filter),
{
    let ghost fs = file_names(info_views(files@));
    let p = crate::text::chars_of(prefix);
    let mut list: Vec<(String, String)> = Vec::new();
    let mut i: usize = 0;
    while i < files.len()
        invariant
            i <= files.len(),
            fs == file_names(info_views(files@)),
            p@ == prefix@,
            all_decodable(info_views(files@)),
            pair_views(list@) == attach_entries(fs.take(i as int), prefix@, filter),
        decreases files.len() - i,
    {
        assert(fs.take(i + 1).drop_last() =~= fs.take(i as int));
        assert(fs.take(i + 1).last() == files@[i as int].1@);
        assert(info_views(files@)[i as int].1 == files@[i as int].1@);
        assert(decodable(files@[i as int].1@));
        let name = decode_name(files[i].1.as_str());
        let keep = if filter {
            let nv = crate::text::chars_of(name.as_str());
            crate::text::occurs_at(&nv, &p, 0)
        } else {
            true
        };
        proof {
            if filter {
                assert(url_decoded(files@[i as int].1@).skip(0) =~= url_decoded(files@[i as int].1@));
            }
        }
        if keep {
            let ghost before = pair_views(list@);
            list.push((name, files[i].1.clone()));
            assert(pair_views(list@) =~= before.push(
                (url_decoded(files@[i as int].1@), files@[i as int].1@),
            ));
        }
        i += 1;
    }
    assert(fs.take(files.len() as int) =~= fs);
    list
}

/// The stored file names of entries `(time of last write, file name)`.
pub open spec fn file_names(files: Seq<PageInfoView>) -> Seq<Seq<char>> {
    files.map_values(|e: PageInfoView| e.1)
}

/// The attached files of the page `page_path`, most recently written first:
/// of the stored files, given as `(time of last write, file name)`, those
/// whose decoded name starts with `page_path`, as `(decoded name, file
/// name)`.
pub fn attach_names_in_page(files: &Vec<(Timestamp, String)>, page_path: &str) -> (list: Vec<
    (String, String),
>)
    requires
        all_decodable(info_views(files@)),
    ensures
        pair_views(list@) == attach_entries(
            file_names(sort_desc(info_views(files@))),
            page_path@,
            true,
        ),
{
    let sorted = sort_by_recency(files);
    collect_entries(&sorted, page_path, true)
}

/// All attached files, most recently written first, as `(decoded name,
/// file name)`; the stored files are given as `(time of last write, file
/// name)`.
pub fn attach_names(files: &Vec<(Timestamp, String)>) -> (list: Vec<(String, String)>)
    requires
        all_decodable(info_views(files@)),
    ensures
        pair_views(list@) == attach_entries(
            file_names(sort_desc(info_views(files@))),
            Seq::<char>::empty(),
            false,
        ),
{
    proof {
        reveal_strlit("");
    }
    let sorted = sort_by_recency(files);
    let l = collect_entries(&sorted, "", false);
    assert(""@ =~= Seq::<char>::empty());
    l
}

} // verus!
