//! Markdown to HTML.
//!
//! Backslashes are doubled and comment lines (`//...`) dropped, the text is
//! parsed by `pulldown_cmark` into events, three rewrites run over the
//! events, and `pulldown_cmark` writes the HTML:
//! - inline images with a relative address get the prefix `/files/files/`;
//! - a text that starts with `http://` or `https://`, outside any link or
//!   image, becomes a link to itself;
//! - a heading with an id is followed by an empty link to its anchor.

use vstd::prelude::*;
use pulldown_cmark::Event::{End, Start};
use pulldown_cmark::LinkType::Inline;
use pulldown_cmark::Tag::{Heading, Image, Link};
use pulldown_cmark::{html, Event, Options, Parser};
use crate::text::{
    chars_of, concatenate, has_prefix, lacks, lemma_join_split, lemma_split_join, lemma_split_nonempty,
    lemma_split_pieces_lack_sep, push_chars, replace_all, replaced, seq_join, split_chars, split_on,
    views,
};

verus! {

/// What the rewrites need to know of an event that they pass along as the
/// parser gave it.
#[derive(Debug, PartialEq, Eq)]
pub enum KeptKind {
    /// The start of a link, or of an image that is not inline.
    LinkOpen,
    /// The end of a link or of an image.
    LinkClose,
    /// The start of a heading that has an id.
    Heading(String),
    /// Any other event.
    Other,
}

/// A markdown event as the rewrites see it. Events that they pass along as
/// the parser gave them are kept as their position in the parse of the text.
#[derive(Debug, PartialEq, Eq)]
pub enum MdEvent {
    /// A text node.
    Text(String),
    /// The start of an inline image `![alt](url "title")`: its address and
    /// title (the alternative text follows as text events).
    InlineImage { url: String, title: String },
    /// The start of an inline link to `url` whose title is `url`.
    NewLinkOpen(String),
    /// The end of such a link.
    NewLinkClose(String),
    /// The event at this position of the parse.
    Kept(usize, KeptKind),
}

/// The mathematical view of a `KeptKind`.
pub enum KeptKindView {
    LinkOpen,
    LinkClose,
    Heading(Seq<char>),
    Other,
}

/// The mathematical view of an `MdEvent`: its strings as character
/// sequences.
pub enum MdEventView {
    Text(Seq<char>),
    InlineImage { url: Seq<char>, title: Seq<char> },
    NewLinkOpen(Seq<char>),
    NewLinkClose(Seq<char>),
    Kept(usize, KeptKindView),
}

impl View for KeptKind {
    type V = KeptKindView;

    open spec fn view(&self) -> KeptKindView {
        match self {
            KeptKind::LinkOpen => KeptKindView::LinkOpen,
            KeptKind::LinkClose => KeptKindView::LinkClose,
            KeptKind::Heading(id) => KeptKindView::Heading(id@),
            KeptKind::Other => KeptKindView::Other,
        }
    }
}

impl View for MdEvent {
    type V = MdEventView;

    open spec fn view(&self) -> MdEventView {
        match self {
            MdEvent::Text(t) => MdEventView::Text(t@),
            MdEvent::InlineImage { url, title } => MdEventView::InlineImage {
                url: url@,
                title: title@,
            },
            MdEvent::NewLinkOpen(u) => MdEventView::NewLinkOpen(u@),
            MdEvent::NewLinkClose(u) => MdEventView::NewLinkClose(u@),
            MdEvent::Kept(i, k) => MdEventView::Kept(*i, k@),
        }
    }
}

/// The views of a sequence of events.
pub open spec fn event_views(v: Seq<MdEvent>) -> Seq<MdEventView> {
    v.map_values(|e: MdEvent| e@)
}

/// The parse position that an event refers to, if any.
pub open spec fn index_of(e: MdEventView) -> Option<usize> {
    match e {
        MdEventView::Kept(i, _) => Some(i),
        _ => None,
    }
}

/// Every position that the events refer to is below `n`.
pub open spec fn indices_below(events: Seq<MdEventView>, n: nat) -> bool {
    forall|i: int|
        0 <= i < events.len() ==> (#[trigger] index_of(events[i]) matches Some(k) ==> k < n)
}

/// The parser options used for page text: strikethrough, tables,
/// footnotes, task lists, smart punctuation and heading attributes.
pub const WIKI_OPTIONS: u32 = 126;

/// The events that `pulldown_cmark::Parser::new_ext(text, options)` yields,
/// each seen as an `MdEvent`.
pub uninterp spec fn markdown_events(text: Seq<char>, options: u32) -> Seq<MdEventView>;

/// The HTML that `pulldown_cmark::html::push_html` writes for `events`,
/// where the events given by position are taken from the parse of `text`
/// with `options`.
pub uninterp spec fn rendered_html(
    text: Seq<char>,
    options: u32,
    events: Seq<MdEventView>,
) -> Seq<char>;

/// `pulldown_cmark::Parser::new_ext`: the events of `text`, each seen as an
/// `MdEvent`; an event that refers to a position refers to its own.
#[verifier::external_body]
fn parse_markdown(text: &str, options: u32) -> (events: Vec<MdEvent>)
    ensures
        event_views(events@) == markdown_events(text@, options),
        forall|i: int|
            0 <= i < events.len() ==> (#[trigger] index_of(events@[i]@) matches Some(k) ==> k == i),
{
    Parser::new_ext(text, Options::from_bits_truncate(options)).enumerate().map(|(i, e)| match e {
        Event::Text(t) => MdEvent::Text(t.to_string()),
        Start(Image(Inline, u, t)) => MdEvent::InlineImage { url: u.to_string(), title: t.to_string() },
        Start(Image(..) | Link(..)) => MdEvent::Kept(i, KeptKind::LinkOpen),
        End(Image(..) | Link(..)) => MdEvent::Kept(i, KeptKind::LinkClose),
        Start(Heading(_, Some(id), _)) => MdEvent::Kept(i, KeptKind::Heading(id.to_string())),
        _ => MdEvent::Kept(i, KeptKind::Other),
    }).collect()
}

/// `pulldown_cmark::html::push_html` over the events, those given by
/// position being taken from a new parse of `text` with `options`.
#[verifier::external_body]
fn render_markdown(text: &str, options: u32, events: Vec<MdEvent>) -> (html: String)
    requires
        indices_below(event_views(events@), markdown_events(text@, options).len()),
    ensures
        html@ == rendered_html(text@, options, event_views(events@)),
{
    let parsed: Vec<Event> = Parser::new_ext(text, Options::from_bits_truncate(options)).collect();
    let mut out = String::new();
    html::push_html(&mut out, events.into_iter().map(|e| match e {
        MdEvent::Text(t) => Event::Text(t.into()),
        MdEvent::InlineImage { url, title } => Start(Image(Inline, url.into(), title.into())),
        MdEvent::NewLinkOpen(u) => Start(Link(Inline, u.clone().into(), u.into())),
        MdEvent::NewLinkClose(u) => End(Link(Inline, u.clone().into(), u.into())),
        MdEvent::Kept(i, _) => parsed[i].clone(),
    }));
    out
}

/// A copy of an event.
fn copy_event(e: &MdEvent) -> (r: MdEvent)
    ensures
        r == *e,
{
    match e {
        MdEvent::Text(t) => MdEvent::Text(t.clone()),
        MdEvent::InlineImage { url, title } => MdEvent::InlineImage {
            url: url.clone(),
            title: title.clone(),
        },
        MdEvent::NewLinkOpen(u) => MdEvent::NewLinkOpen(u.clone()),
        MdEvent::NewLinkClose(u) => MdEvent::NewLinkClose(u.clone()),
        MdEvent::Kept(i, k) => MdEvent::Kept(
            *i,
            match k {
                KeptKind::LinkOpen => KeptKind::LinkOpen,
                KeptKind::LinkClose => KeptKind::LinkClose,
                KeptKind::Heading(id) => KeptKind::Heading(id.clone()),
                KeptKind::Other => KeptKind::Other,
            },
        ),
    }
}

// ---------------------------------------------------------------------------
// Text preparation
// ---------------------------------------------------------------------------
/// The concatenation of the pieces.
pub open spec fn concat_all(parts: Seq<Seq<char>>) -> Seq<char>
    decreases parts.len(),
{
    if parts.len() == 0 {
        Seq::<char>::empty()
    } else {
        concat_all(parts.drop_last()) + parts.last()
    }
}

/// A comment line: it starts with `//`.
pub open spec fn is_comment(line: Seq<char>) -> bool {
    "//"@.is_prefix_of(line)
}

/// What is kept of the `i`-th line: nothing for a comment line (its line
/// break goes with it), else the line with its line break.
pub open spec fn kept_piece(lines: Seq<Seq<char>>, i: int) -> Seq<char> {
    if is_comment(lines[i]) {
        Seq::<char>::empty()
    } else if i < lines.len() - 1 {
        lines[i].push('\n')
    } else {
        lines[i]
    }
}

/// The text without its comment lines (the pattern `(?m)^//.*$\n?`
/// replaced by nothing).
pub open spec fn without_comments(s: Seq<char>) -> Seq<char> {
    let lines = split_on(s, '\n');
    concat_all(Seq::new(lines.len(), |i: int| kept_piece(lines, i)))
}

/// Drops every line that starts with `//`, together with its line break.
pub fn strip_comment_lines(s: &str) -> (r: String)
    ensures
        r@ == without_comments(s@),
{
    let v = chars_of(s);
    let lines = split_chars(&v, '\n');
    let ghost ls = split_on(s@, '\n');
    let ghost pieces = Seq::new(ls.len(), |i: int| kept_piece(ls, i));
    let mut r = String::new();
    let mut i: usize = 0;
    while i < lines.len()
        invariant
            i <= lines.len(),
            views(lines@) == ls,
            pieces == Seq::new(ls.len(), |i: int| kept_piece(ls, i)),
            r@ == concat_all(pieces.take(i as int)),
        decreases lines.len() - i,
    {
        assert(pieces.take(i + 1).drop_last() =~= pieces.take(i as int));
        assert(lines@[i as int]@ == ls[i as int]);
        let line = &lines[i];
        let comment = has_prefix(line, "//");
        if !comment {
            push_chars(&mut r, line, 0, line.len());
            assert(line@.subrange(0, line@.len() as int) =~= line@);
            if i + 1 < lines.len() {
                r.append("\n");
                proof {
                    reveal_strlit("\n");
                }
                assert("\n"@ =~= seq!['\n']);
            }
        }
        assert(r@ =~= concat_all(pieces.take(i as int)) + kept_piece(ls, i as int));
        i += 1;
    }
    assert(pieces.take(lines.len() as int) =~= pieces);
    r
}

/// The test that keeps the lines that are not comments.
pub open spec fn not_comment() -> spec_fn(Seq<char>) -> bool {
    |l: Seq<char>| !is_comment(l)
}

/// The lines of the text once its comment lines are dropped: the lines
/// before the last that are not comments, then the last line, or an empty
/// line in its place when it is a comment.
pub open spec fn lines_without_comments(lines: Seq<Seq<char>>) -> Seq<Seq<char>> {
    lines.drop_last().filter(not_comment()).push(
        if is_comment(lines.last()) {
            Seq::<char>::empty()
        } else {
            lines.last()
        },
    )
}

/// What is kept of a line that is followed by a line break.
pub open spec fn inner_piece(l: Seq<char>) -> Seq<char> {
    if is_comment(l) {
        Seq::<char>::empty()
    } else {
        l.push('\n')
    }
}

/// What is kept of lines that are each followed by a line break.
pub open spec fn inner_text(xs: Seq<Seq<char>>) -> Seq<char> {
    concat_all(Seq::new(xs.len(), |i: int| inner_piece(xs[i])))
}

/// Joining a list with one more piece puts a separator before it.
proof fn lemma_join_push(list: Seq<Seq<char>>, t: Seq<char>, sep: Seq<char>)
    ensures
        seq_join(list.push(t), sep) == if list.len() == 0 {
            t
        } else {
            seq_join(list, sep) + sep + t
        },
{
    assert(list.push(t).drop_last() =~= list);
    if list.len() == 0 {
        assert(list.push(t)[0] == t);
    }
}

/// Kept lines followed by a last piece `t` are the kept lines and `t`
/// joined with line breaks.
proof fn lemma_inner_text_join(xs: Seq<Seq<char>>, t: Seq<char>)
    ensures
        inner_text(xs) + t == seq_join(xs.filter(not_comment()).push(t), seq!['\n']),
    decreases xs.len(),
{
    let nl = seq!['\n'];
    if xs.len() == 0 {
        assert(xs.filter(not_comment()) =~= xs) by {
            reveal(Seq::filter);
        }
        assert(inner_text(xs) =~= Seq::<char>::empty());
        lemma_join_push(xs, t, nl);
        assert(inner_text(xs) + t =~= t);
    } else {
        let ys = xs.drop_last();
        let x = xs.last();
        let parts = Seq::new(xs.len(), |i: int| inner_piece(xs[i]));
        assert(parts.drop_last() =~= Seq::new(ys.len(), |i: int| inner_piece(ys[i])));
        assert(inner_text(xs) == inner_text(ys) + inner_piece(x));
        ys.lemma_filter_push(x, not_comment());
        assert(ys.push(x) =~= xs);
        let f = ys.filter(not_comment());
        if is_comment(x) {
            lemma_inner_text_join(ys, t);
            assert(inner_text(xs) + t =~= inner_text(ys) + t);
        } else {
            lemma_inner_text_join(ys, x);
            lemma_join_push(f.push(x), t, nl);
            assert(inner_text(xs) + t =~= (inner_text(ys) + x) + nl + t);
        }
    }
}

/// A list without comment lines is kept whole by the filter.
proof fn lemma_filter_keeps_all(xs: Seq<Seq<char>>)
    requires
        forall|i: int| 0 <= i < xs.len() ==> !is_comment(#[trigger] xs[i]),
    ensures
        xs.filter(not_comment()) == xs,
    decreases xs.len(),
{
    if xs.len() == 0 {
        assert(xs.filter(not_comment()) =~= xs) by {
            reveal(Seq::filter);
        }
    } else {
        let ys = xs.drop_last();
        assert forall|i: int| 0 <= i < ys.len() implies !is_comment(#[trigger] ys[i]) by {
            assert(ys[i] == xs[i]);
        }
        lemma_filter_keeps_all(ys);
        ys.lemma_filter_push(xs.last(), not_comment());
        assert(!is_comment(xs[xs.len() - 1]));
        assert(ys.push(xs.last()) =~= xs);
    }
}

/// The text without its comment lines is the lines that remain, joined
/// with line breaks.
proof fn lemma_without_comments_join(s: Seq<char>)
    ensures
        without_comments(s) == seq_join(lines_without_comments(split_on(s, '\n')), seq!['\n']),
{
    let ls = split_on(s, '\n');
    lemma_split_nonempty(s, '\n');
    let parts = Seq::new(ls.len(), |i: int| kept_piece(ls, i));
    let front = ls.drop_last();
    assert(parts.drop_last() =~= Seq::new(front.len(), |i: int| inner_piece(front[i])));
    let last = if is_comment(ls.last()) {
        Seq::<char>::empty()
    } else {
        ls.last()
    };
    assert(parts.last() == last);
    lemma_inner_text_join(front, last);
}

/// Dropping comment lines leaves no comment line: the lines of the result
/// are the lines that are not comments (an empty line standing for a last
/// line that was one), so dropping comment lines again changes nothing.
pub proof fn lemma_without_comments_idempotent(s: Seq<char>)
    ensures
        split_on(without_comments(s), '\n') == lines_without_comments(split_on(s, '\n')),
        forall|i: int|
            0 <= i < split_on(without_comments(s), '\n').len() ==> !is_comment(
                #[trigger] split_on(without_comments(s), '\n')[i],
            ),
        without_comments(without_comments(s)) == without_comments(s),
{
    reveal_strlit("//");
    let ls = split_on(s, '\n');
    lemma_split_nonempty(s, '\n');
    lemma_split_pieces_lack_sep(s, '\n');
    let out = lines_without_comments(ls);
    let front = ls.drop_last();
    let kept = front.filter(not_comment());
    assert forall|i: int| 0 <= i < kept.len() implies lacks(#[trigger] kept[i], '\n')
        && !is_comment(kept[i]) by {
        assert(kept.contains(kept[i]));
        front.lemma_filter_contains_rev(not_comment(), kept[i]);
        let j = choose|j: int| 0 <= j < front.len() && front[j] == kept[i];
        assert(front[j] == ls[j]);
        front.lemma_filter_pred(not_comment(), i);
    }
    assert(!is_comment(Seq::<char>::empty()));
    assert(lacks(ls.last(), '\n')) by {
        assert(ls.last() == ls[ls.len() - 1]);
    }
    assert forall|i: int| 0 <= i < out.len() implies lacks(#[trigger] out[i], '\n') && !is_comment(
        out[i],
    ) by {
        if i < kept.len() {
            assert(out[i] == kept[i]);
        }
    }
    lemma_without_comments_join(s);
    lemma_split_join(out, '\n');
    let t = without_comments(s);
    lemma_without_comments_join(t);
    lemma_filter_keeps_all(out.drop_last());
    assert(!is_comment(out.last())) by {
        assert(out.last() == out[out.len() - 1]);
    }
    assert(lines_without_comments(out) =~= out);
}

// ---------------------------------------------------------------------------
// Event rewrites
// ---------------------------------------------------------------------------
/// An address that is used as it is: it starts with `http://`, `https://`
/// or `/` (the pattern `(^https?://[^\s]*)|^/`).
pub open spec fn is_rooted_url(u: Seq<char>) -> bool {
    "http://"@.is_prefix_of(u) || "https://"@.is_prefix_of(u) || "/"@.is_prefix_of(u)
}

/// A text that is a web address: it starts with `http://` or `https://`
/// (the pattern `^https?://[^\s]*`).
pub open spec fn is_web_url(t: Seq<char>) -> bool {
    "http://"@.is_prefix_of(t) || "https://"@.is_prefix_of(t)
}

/// The address of an inline image as it is written out.
pub open spec fn image_url(u: Seq<char>) -> Seq<char> {
    if is_rooted_url(u) {
        u
    } else {
        "/files/files/"@ + u
    }
}

/// An event after the image rewrite.
pub open spec fn image_rewrite(e: MdEventView) -> MdEventView {
    match e {
        MdEventView::InlineImage { url, title } => MdEventView::InlineImage {
            url: image_url(url),
            title,
        },
        _ => e,
    }
}

/// The events after the image rewrite.
pub open spec fn images_rewritten(evs: Seq<MdEventView>) -> Seq<MdEventView> {
    evs.map_values(|e: MdEventView| image_rewrite(e))
}

/// The image rewrite changes only the addresses of inline images: every
/// event keeps its place; an inline image keeps its title, and its address
/// is kept when it starts with `http://`, `https://` or `/` and gets the
/// prefix `/files/files/` otherwise; every other event is unchanged.
pub proof fn lemma_image_rewrite_changes_only_addresses(evs: Seq<MdEventView>)
    ensures
        images_rewritten(evs).len() == evs.len(),
        forall|i: int|
            0 <= i < evs.len() ==> match evs[i] {
                MdEventView::InlineImage { url, title } => #[trigger] images_rewritten(evs)[i]
                    == MdEventView::InlineImage {
                    url: if "http://"@.is_prefix_of(url) || "https://"@.is_prefix_of(url)
                        || "/"@.is_prefix_of(url) {
                        url
                    } else {
                        "/files/files/"@ + url
                    },
                    title: title,
                },
                _ => images_rewritten(evs)[i] == evs[i],
            },
{
}

/// Rewriting image addresses a second time changes nothing: a prefixed
/// address starts with `/` and is kept as it is.
pub proof fn lemma_images_rewritten_idempotent(evs: Seq<MdEventView>)
    ensures
        images_rewritten(images_rewritten(evs)) == images_rewritten(evs),
{
    reveal_strlit("/files/files/");
    reveal_strlit("/");
    let once = images_rewritten(evs);
    assert forall|i: int| 0 <= i < once.len() implies #[trigger] image_rewrite(once[i])
        == once[i] by {
        if let MdEventView::InlineImage { url, title } = evs[i] {
            if !is_rooted_url(url) {
                assert("/"@.is_prefix_of("/files/files/"@ + url)) by {
                    assert(("/files/files/"@ + url)[0] == '/');
                }
            }
        }
    }
    assert(images_rewritten(once) =~= once);
}

/// Whether a string holds an address that an inline image keeps.
fn rooted(u: &String) -> (b: bool)
    ensures
        b == is_rooted_url(u@),
{
    let v = chars_of(u.as_str());
    has_prefix(&v, "http://") || has_prefix(&v, "https://") || has_prefix(&v, "/")
}

/// Prefixes the address of every inline image that is neither a web address
/// nor rooted at `/` with `/files/files/`.
pub fn rewrite_image_urls(events: &Vec<MdEvent>) -> (r: Vec<MdEvent>)
    ensures
        event_views(r@) == images_rewritten(event_views(events@)),
{
    let mut r: Vec<MdEvent> = Vec::new();
    let mut i: usize = 0;
    while i < events.len()
        invariant
            i <= events.len(),
            event_views(r@) == images_rewritten(event_views(events@)).take(i as int),
        decreases events.len() - i,
    {
        let e = match &events[i] {
            MdEvent::InlineImage { url, title } => {
                let u = if rooted(url) {
                    url.clone()
                } else {
                    concatenate("/files/files/", url.as_str())
                };
                MdEvent::InlineImage { url: u, title: title.clone() }
            },
            other => copy_event(other),
        };
        let ghost before = event_views(r@);
        r.push(e);
        assert(event_views(r@) =~= before.push(image_rewrite(events@[i as int]@)));
        i += 1;
        assert(event_views(r@) =~= images_rewritten(event_views(events@)).take(i as int));
    }
    assert(images_rewritten(event_views(events@)).take(i as int) =~= images_rewritten(
        event_views(events@),
    ));
    r
}

/// How an event changes the link nesting depth: the start of a link or an
/// image opens one level, its end closes it.
pub open spec fn depth_change(e: MdEventView) -> int {
    match e {
        MdEventView::InlineImage { .. } => 1,
        MdEventView::Kept(_, KeptKindView::LinkOpen) => 1,
        MdEventView::NewLinkOpen(_) => 1,
        MdEventView::Kept(_, KeptKindView::LinkClose) => -1,
        MdEventView::NewLinkClose(_) => -1,
        _ => 0,
    }
}

/// The link nesting depth before the event at position `i`.
pub open spec fn depth_before(events: Seq<MdEventView>, i: int) -> int
    decreases i,
{
    if i <= 0 {
        0
    } else {
        depth_before(events, i - 1) + depth_change(events[i - 1])
    }
}

/// The events that the autolink rewrite writes for the event at `i`: a
/// text outside links that is a web address becomes a link to itself.
pub open spec fn autolink_piece(events: Seq<MdEventView>, i: int) -> Seq<MdEventView> {
    match events[i] {
        MdEventView::Text(t) => if depth_before(events, i) <= 0 && is_web_url(t) {
            seq![MdEventView::NewLinkOpen(t), MdEventView::Text(t), MdEventView::NewLinkClose(t)]
        } else {
            seq![events[i]]
        },
        _ => seq![events[i]],
    }
}

/// The concatenation of event pieces.
pub open spec fn flatten_events(parts: Seq<Seq<MdEventView>>) -> Seq<MdEventView>
    decreases parts.len(),
{
    if parts.len() == 0 {
        Seq::<MdEventView>::empty()
    } else {
        flatten_events(parts.drop_last()) + parts.last()
    }
}

/// The events after the autolink rewrite.
pub open spec fn autolinked(events: Seq<MdEventView>) -> Seq<MdEventView> {
    flatten_events(Seq::new(events.len(), |i: int| autolink_piece(events, i)))
}

/// The depth before `i` lies within `[-i, i]`.
proof fn lemma_depth_bounds(events: Seq<MdEventView>, i: int)
    requires
        0 <= i,
    ensures
        -i <= depth_before(events, i) <= i,
    decreases i,
{
    if i > 0 {
        lemma_depth_bounds(events, i - 1);
    }
}

/// Turns every text outside links and images that starts with `http://` or
/// `https://` into a link to itself.
pub fn autolink_urls(events: &Vec<MdEvent>) -> (r: Vec<MdEvent>)
    ensures
        event_views(r@) == autolinked(event_views(events@)),
{
    let ghost evs = event_views(events@);
    let ghost pieces = Seq::new(evs.len(), |i: int| autolink_piece(evs, i));
    let mut r: Vec<MdEvent> = Vec::new();
    let mut depth: i128 = 0;
    let mut i: usize = 0;
    while i < events.len()
        invariant
            i <= events.len(),
            evs == event_views(events@),
            pieces == Seq::new(evs.len(), |i: int| autolink_piece(evs, i)),
            depth == depth_before(evs, i as int),
            event_views(r@) == flatten_events(pieces.take(i as int)),
        decreases events.len() - i,
    {
        proof {
            lemma_depth_bounds(evs, i as int);
            lemma_depth_bounds(evs, i + 1);
        }
        assert(pieces.take(i + 1).drop_last() =~= pieces.take(i as int));
        let ghost before = event_views(r@);
        let ghost ev = evs[i as int];
        assert(ev == events@[i as int]@);
        match &events[i] {
            MdEvent::Text(t) => {
                let v = chars_of(t.as_str());
                if depth <= 0 && (has_prefix(&v, "http://") || has_prefix(&v, "https://")) {
                    r.push(MdEvent::NewLinkOpen(t.clone()));
                    r.push(MdEvent::Text(t.clone()));
                    r.push(MdEvent::NewLinkClose(t.clone()));
                } else {
                    r.push(MdEvent::Text(t.clone()));
                }
            },
            other => {
                r.push(copy_event(other));
            },
        }
        assert(event_views(r@) =~= before + autolink_piece(evs, i as int));
        depth = match &events[i] {
            MdEvent::InlineImage { .. } | MdEvent::Kept(_, KeptKind::LinkOpen)
            | MdEvent::NewLinkOpen(_) => depth + 1,
            MdEvent::Kept(_, KeptKind::LinkClose) | MdEvent::NewLinkClose(_) => depth - 1,
            _ => depth,
        };
        i += 1;
    }
    assert(pieces.take(i as int) =~= pieces);
    r
}

/// The address of the anchor of heading `id` on page `path`.
pub open spec fn anchor_url(path: Seq<char>, id: Seq<char>) -> Seq<char> {
    "/pages?path="@ + path + "#"@ + id
}

/// The heading-anchor rewrite of an event: a heading with an id is followed
/// by an empty link to `/pages?path={path}#{id}`.
pub open spec fn anchor_piece(path: Seq<char>, e: MdEventView) -> Seq<MdEventView> {
    match e {
        MdEventView::Kept(_, KeptKindView::Heading(id)) => seq![
            e,
            MdEventView::NewLinkOpen(anchor_url(path, id)),
            MdEventView::NewLinkClose(anchor_url(path, id)),
        ],
        _ => seq![e],
    }
}

/// The events after the heading-anchor rewrite.
pub open spec fn anchored(path: Seq<char>, events: Seq<MdEventView>) -> Seq<MdEventView> {
    flatten_events(Seq::new(events.len(), |i: int| anchor_piece(path, events[i])))
}

/// The start of a heading that has an id.
pub open spec fn is_heading_event(e: MdEventView) -> bool {
    e matches MdEventView::Kept(_, KeptKindView::Heading(_))
}

/// The number of heading starts with an id among the events.
pub open spec fn heading_events(evs: Seq<MdEventView>) -> nat
    decreases evs.len(),
{
    if evs.len() == 0 {
        0
    } else {
        heading_events(evs.drop_last()) + if is_heading_event(evs.last()) {
            1nat
        } else {
            0nat
        }
    }
}

/// The anchor rewrite of the events is that of all but the last, followed
/// by the rewrite of the last.
proof fn lemma_anchored_push(path: Seq<char>, evs: Seq<MdEventView>)
    requires
        evs.len() > 0,
    ensures
        anchored(path, evs) == anchored(path, evs.drop_last()) + anchor_piece(path, evs.last()),
{
    let parts = Seq::new(evs.len(), |i: int| anchor_piece(path, evs[i]));
    let front = evs.drop_last();
    assert(parts.drop_last() =~= Seq::new(front.len(), |i: int| anchor_piece(path, front[i])));
}

/// Every heading that has an id, whatever the id, is followed by an empty
/// link to `/pages?path={path}#{id}`, and nothing else is added or changed:
/// the result has two more events per such heading, the `i`-th event comes
/// at `i` plus twice the number of such headings before it, and right after
/// a heading with id `id` come the start and the end of the new link.
#[verifier::spinoff_prover]
#[verifier::rlimit(40)]
pub proof fn lemma_heading_anchors(path: Seq<char>, evs: Seq<MdEventView>)
    ensures
        anchored(path, evs).len() == evs.len() + 2 * heading_events(evs),
        forall|i: int|
            #![trigger evs[i]]
            0 <= i < evs.len() ==> {
                let j = i + 2 * heading_events(evs.take(i));
                &&& j + (if is_heading_event(evs[i]) {
                    2int
                } else {
                    0int
                }) < anchored(path, evs).len()
                &&& anchored(path, evs)[j] == evs[i]
                &&& (evs[i] matches MdEventView::Kept(_, KeptKindView::Heading(id)) ==> {
                    &&& anchored(path, evs)[j + 1] == MdEventView::NewLinkOpen(
                        "/pages?path="@ + path + "#"@ + id,
                    )
                    &&& anchored(path, evs)[j + 2] == MdEventView::NewLinkClose(
                        "/pages?path="@ + path + "#"@ + id,
                    )
                })
            },
    decreases evs.len(),
{
    if evs.len() == 0 {
        assert(anchored(path, evs) =~= Seq::<MdEventView>::empty());
    } else {
        let front = evs.drop_last();
        let x = evs.last();
        lemma_heading_anchors(path, front);
        lemma_anchored_push(path, evs);
        let a = anchored(path, front);
        let r = anchored(path, evs);
        assert(evs.take(evs.len() - 1) =~= front);
        assert forall|i: int| #![trigger evs[i]] 0 <= i < evs.len() implies {
            let j = i + 2 * heading_events(evs.take(i));
            &&& j + (if is_heading_event(evs[i]) {
                2int
            } else {
                0int
            }) < r.len()
            &&& r[j] == evs[i]
            &&& (evs[i] matches MdEventView::Kept(_, KeptKindView::Heading(id)) ==> {
                &&& r[j + 1] == MdEventView::NewLinkOpen("/pages?path="@ + path + "#"@ + id)
                &&& r[j + 2] == MdEventView::NewLinkClose("/pages?path="@ + path + "#"@ + id)
            })
        } by {
            if i < front.len() {
                assert(evs.take(i) =~= front.take(i));
                assert(evs[i] == front[i]);
                let j = i + 2 * heading_events(front.take(i));
                assert(a[j] == front[i]);
                assert(r[j] == a[j]);
                if is_heading_event(evs[i]) {
                    assert(r[j + 1] == a[j + 1]);
                    assert(r[j + 2] == a[j + 2]);
                }
            } else {
                assert(i == front.len());
                assert(evs[i] == x);
                let j = i + 2 * heading_events(front);
                assert(j == a.len());
                assert(r[j] == anchor_piece(path, x)[0]);
                if is_heading_event(x) {
                    assert(r[j + 1] == anchor_piece(path, x)[1]);
                    assert(r[j + 2] == anchor_piece(path, x)[2]);
                }
            }
        }
    }
}

/// Follows every heading that has an id with an empty link to its anchor on
/// page `path`.
pub fn add_heading_anchors(path: &str, events: &Vec<MdEvent>) -> (r: Vec<MdEvent>)
    ensures
        event_views(r@) == anchored(path@, event_views(events@)),
{
    let ghost evs = event_views(events@);
    let ghost pieces = Seq::new(evs.len(), |i: int| anchor_piece(path@, evs[i]));
    let mut r: Vec<MdEvent> = Vec::new();
    let mut i: usize = 0;
    while i < events.len()
        invariant
            i <= events.len(),
            evs == event_views(events@),
            pieces == Seq::new(evs.len(), |i: int| anchor_piece(path@, evs[i])),
            event_views(r@) == flatten_events(pieces.take(i as int)),
        decreases events.len() - i,
    {
        assert(pieces.take(i + 1).drop_last() =~= pieces.take(i as int));
        let ghost before = event_views(r@);
        assert(evs[i as int] == events@[i as int]@);
        match &events[i] {
            MdEvent::Kept(index, KeptKind::Heading(id)) => {
                let mut url = concatenate("/pages?path=", path);
                url.append("#");
                url.append(id.as_str());
                r.push(MdEvent::Kept(*index, KeptKind::Heading(id.clone())));
                r.push(MdEvent::NewLinkOpen(url.clone()));
                r.push(MdEvent::NewLinkClose(url));
            },
            other => {
                r.push(copy_event(other));
            },
        }
        assert(event_views(r@) =~= before + anchor_piece(path@, evs[i as int]));
        i += 1;
    }
    assert(pieces.take(i as int) =~= pieces);
    r
}

/// An event that the link rewrites add: the start or the end of a new link.
pub open spec fn is_new_link(e: MdEventView) -> bool {
    e is NewLinkOpen || e is NewLinkClose
}

/// The test that keeps the events that are not new links.
pub open spec fn not_new_link() -> spec_fn(MdEventView) -> bool {
    |e: MdEventView| !is_new_link(e)
}

/// The events other than new links, in order.
pub open spec fn source_events(evs: Seq<MdEventView>) -> Seq<MdEventView> {
    evs.filter(not_new_link())
}

/// Filtering a one-event sequence keeps the event or drops it.
proof fn lemma_filter_one(x: MdEventView)
    ensures
        source_events(seq![x]) == if is_new_link(x) {
            Seq::<MdEventView>::empty()
        } else {
            seq![x]
        },
{
    let e = Seq::<MdEventView>::empty();
    assert(e.filter(not_new_link()) =~= e) by {
        reveal(Seq::filter);
    }
    e.lemma_filter_push(x, not_new_link());
    assert(e.push(x) =~= seq![x]);
}

/// A piece that wraps `x` in a new link filters down to `x`.
proof fn lemma_filter_wrapped(o: MdEventView, x: MdEventView, c: MdEventView)
    requires
        is_new_link(o),
        is_new_link(c),
        !is_new_link(x),
    ensures
        source_events(seq![o, x, c]) == seq![x],
        source_events(seq![x, o, c]) == seq![x],
{
    lemma_filter_one(o);
    lemma_filter_one(x);
    lemma_filter_one(c);
    seq![o].lemma_filter_push(x, not_new_link());
    seq![o].push(x).lemma_filter_push(c, not_new_link());
    assert(seq![o].push(x).push(c) =~= seq![o, x, c]);
    assert(Seq::<MdEventView>::empty().push(x) =~= seq![x]);
    seq![x].lemma_filter_push(o, not_new_link());
    seq![x].push(o).lemma_filter_push(c, not_new_link());
    assert(seq![x].push(o).push(c) =~= seq![x, o, c]);
}

/// Pieces that each filter down to one event flatten to events that filter
/// down to those events.
proof fn lemma_flatten_source(parts: Seq<Seq<MdEventView>>, evs: Seq<MdEventView>)
    requires
        parts.len() == evs.len(),
        forall|i: int| 0 <= i < parts.len() ==> source_events(#[trigger] parts[i]) == seq![evs[i]],
    ensures
        source_events(flatten_events(parts)) == evs,
    decreases parts.len(),
{
    if parts.len() == 0 {
        assert(flatten_events(parts).filter(not_new_link()) =~= evs) by {
            reveal(Seq::filter);
        }
    } else {
        let front = parts.drop_last();
        let ef = evs.drop_last();
        assert forall|i: int| 0 <= i < front.len() implies source_events(#[trigger] front[i])
            == seq![ef[i]] by {
            assert(front[i] == parts[i] && ef[i] == evs[i]);
        }
        lemma_flatten_source(front, ef);
        Seq::filter_distributes_over_add(flatten_events(front), parts.last(), not_new_link());
        assert(source_events(parts.last()) == seq![evs.last()]) by {
            assert(parts.last() == parts[parts.len() - 1]);
        }
        assert(ef + seq![evs.last()] =~= evs);
    }
}

/// The link rewrites only add links: leaving out the new links from their
/// result gives back the events they were given, whenever those hold no new
/// link (as the events of the parser do not).
pub proof fn lemma_rewrites_only_add_links(path: Seq<char>, evs: Seq<MdEventView>)
    requires
        forall|i: int| 0 <= i < evs.len() ==> !is_new_link(#[trigger] evs[i]),
    ensures
        source_events(autolinked(evs)) == evs,
        source_events(anchored(path, evs)) == evs,
{
    let p1 = Seq::new(evs.len(), |i: int| autolink_piece(evs, i));
    assert forall|i: int| 0 <= i < p1.len() implies source_events(#[trigger] p1[i])
        == seq![evs[i]] by {
        assert(!is_new_link(evs[i]));
        if let MdEventView::Text(t) = evs[i] {
            if depth_before(evs, i) <= 0 && is_web_url(t) {
                lemma_filter_wrapped(MdEventView::NewLinkOpen(t), evs[i], MdEventView::NewLinkClose(t));
            } else {
                lemma_filter_one(evs[i]);
            }
        } else {
            lemma_filter_one(evs[i]);
        }
    }
    lemma_flatten_source(p1, evs);
    let p2 = Seq::new(evs.len(), |i: int| anchor_piece(path, evs[i]));
    assert forall|i: int| 0 <= i < p2.len() implies source_events(#[trigger] p2[i])
        == seq![evs[i]] by {
        assert(!is_new_link(evs[i]));
        if let MdEventView::Kept(_, KeptKindView::Heading(id)) = evs[i] {
            lemma_filter_wrapped(
                MdEventView::NewLinkOpen(anchor_url(path, id)),
                evs[i],
                MdEventView::NewLinkClose(anchor_url(path, id)),
            );
        } else {
            lemma_filter_one(evs[i]);
        }
    }
    lemma_flatten_source(p2, evs);
}

/// The text as it is handed to the parser: backslashes doubled, comment
/// lines dropped.
pub open spec fn prepared(markdown: Seq<char>) -> Seq<char> {
    without_comments(replaced(markdown, "\\"@, "\\\\"@))
}

/// The text with every backslash written twice, character by character.
pub open spec fn doubled_backslashes(s: Seq<char>) -> Seq<char>
    decreases s.len(),
{
    if s.len() == 0 {
        s
    } else {
        (if s[0] == '\\' {
            seq!['\\', '\\']
        } else {
            seq![s[0]]
        }) + doubled_backslashes(s.skip(1))
    }
}

/// Replacing each backslash by two doubles every backslash.
proof fn lemma_replace_doubles(s: Seq<char>)
    ensures
        replaced(s, "\\"@, "\\\\"@) == doubled_backslashes(s),
        lacks(s, '/') ==> lacks(doubled_backslashes(s), '/'),
    decreases s.len(),
{
    reveal_strlit("\\");
    reveal_strlit("\\\\");
    if s.len() > 0 {
        lemma_replace_doubles(s.skip(1));
        assert("\\"@ =~= seq!['\\']);
        assert("\\\\"@ =~= seq!['\\', '\\']);
        if s[0] == '\\' {
            assert("\\"@.is_prefix_of(s));
        } else {
            assert(s.subrange(0, 1)[0] == s[0]);
            assert(!"\\"@.is_prefix_of(s));
        }
        if lacks(s, '/') {
            assert(lacks(s.skip(1), '/')) by {
                assert forall|k: int| 0 <= k < s.skip(1).len() implies #[trigger] s.skip(1)[k] != '/' by {
                    assert(s.skip(1)[k] == s[k + 1]);
                }
            }
            let d = doubled_backslashes(s);
            let h = if s[0] == '\\' {
                seq!['\\', '\\']
            } else {
                seq![s[0]]
            };
            assert forall|k: int| 0 <= k < d.len() implies #[trigger] d[k] != '/' by {
                if k >= h.len() {
                    assert(d[k] == doubled_backslashes(s.skip(1))[k - h.len()]);
                }
            }
        }
    }
}

/// The pieces of a split hold no character that the text does not hold.
proof fn lemma_split_pieces_lack(s: Seq<char>, sep: char, c: char)
    requires
        lacks(s, c),
    ensures
        forall|i: int| 0 <= i < split_on(s, sep).len() ==> lacks(#[trigger] split_on(s, sep)[i], c),
    decreases s.len(),
{
    if s.len() > 0 {
        let s0 = s.drop_last();
        assert(lacks(s0, c)) by {
            assert forall|k: int| 0 <= k < s0.len() implies #[trigger] s0[k] != c by {
                assert(s0[k] == s[k]);
            }
        }
        lemma_split_pieces_lack(s0, sep, c);
        lemma_split_nonempty(s0, sep);
        let p = split_on(s0, sep);
        assert(s.last() != c) by {
            assert(s.last() == s[s.len() - 1]);
        }
        if s.last() != sep {
            let q = p.last().push(s.last());
            assert(lacks(p[p.len() - 1], c));
            assert forall|k: int| 0 <= k < q.len() implies #[trigger] q[k] != c by {
                if k < p.last().len() {
                    assert(q[k] == p[p.len() - 1][k]);
                }
            }
            assert forall|i: int| 0 <= i < split_on(s, sep).len() implies lacks(
                #[trigger] split_on(s, sep)[i],
                c,
            ) by {
                if i < p.len() - 1 {
                    assert(split_on(s, sep)[i] == p[i]);
                }
            }
        } else {
            assert forall|i: int| 0 <= i < split_on(s, sep).len() implies lacks(
                #[trigger] split_on(s, sep)[i],
                c,
            ) by {
                if i < p.len() {
                    assert(split_on(s, sep)[i] == p[i]);
                }
            }
        }
    }
}

/// A text without `/` has no comment line, so dropping comment lines keeps
/// it whole.
proof fn lemma_without_comments_no_slash(s: Seq<char>)
    requires
        lacks(s, '/'),
    ensures
        without_comments(s) == s,
{
    reveal_strlit("//");
    let ls = split_on(s, '\n');
    lemma_split_nonempty(s, '\n');
    lemma_split_pieces_lack(s, '\n', '/');
    assert forall|i: int| 0 <= i < ls.len() implies !is_comment(#[trigger] ls[i]) by {
        assert(lacks(ls[i], '/'));
        if ls[i].len() >= 2 {
            assert(ls[i][0] != '/');
            assert(ls[i].subrange(0, 2)[0] == ls[i][0]);
            assert("//"@[0] == '/');
        }
    }
    let front = ls.drop_last();
    assert forall|i: int| 0 <= i < front.len() implies !is_comment(#[trigger] front[i]) by {
        assert(front[i] == ls[i]);
    }
    lemma_filter_keeps_all(front);
    assert(!is_comment(ls[ls.len() - 1]));
    assert(lines_without_comments(ls) =~= ls);
    lemma_without_comments_join(s);
    lemma_join_split(s, '\n');
}

/// Backslashes reach the parser doubled, so that each one is shown as it is
/// written and none is taken as a markdown escape: the text handed to the
/// parser is the markdown with every backslash written twice, less its
/// comment lines; for markdown without `/` (so without comment lines) the
/// page's HTML is the rendering of exactly the markdown with every
/// backslash written twice.
pub proof fn lemma_backslashes_doubled(path: Seq<char>, md: Seq<char>)
    ensures
        prepared(md) == without_comments(doubled_backslashes(md)),
        lacks(md, '/') ==> page_html(path, md) == rendered_html(
            doubled_backslashes(md),
            WIKI_OPTIONS,
            page_events(path, doubled_backslashes(md)),
        ),
{
    lemma_replace_doubles(md);
    if lacks(md, '/') {
        lemma_without_comments_no_slash(doubled_backslashes(md));
    }
}

/// The events written out for a page at `path` whose prepared text is
/// `text`.
pub open spec fn page_events(path: Seq<char>, text: Seq<char>) -> Seq<MdEventView> {
    anchored(path, autolinked(images_rewritten(markdown_events(text, WIKI_OPTIONS))))
}

/// The HTML of the markdown of the page at `path`.
pub open spec fn page_html(path: Seq<char>, markdown: Seq<char>) -> Seq<char> {
    rendered_html(prepared(markdown), WIKI_OPTIONS, page_events(path, prepared(markdown)))
}

/// The rewrites keep every position that an event refers to.
proof fn lemma_rewrites_keep_indices(path: Seq<char>, evs: Seq<MdEventView>, n: nat)
    requires
        indices_below(evs, n),
    ensures
        indices_below(anchored(path, autolinked(images_rewritten(evs))), n),
{
    let e1 = images_rewritten(evs);
    assert(indices_below(e1, n)) by {
        assert forall|i: int| 0 <= i < e1.len() implies (#[trigger] index_of(e1[i]) matches Some(
            k,
        ) ==> k < n) by {
            assert(index_of(evs[i]) matches Some(k) ==> k < n);
        }
    }
    let p1 = Seq::new(e1.len(), |i: int| autolink_piece(e1, i));
    lemma_flatten_indices(p1, n);
    let e2 = autolinked(e1);
    let p2 = Seq::new(e2.len(), |i: int| anchor_piece(path, e2[i]));
    lemma_flatten_indices(p2, n);
}

/// Pieces whose positions are below `n` flatten to events whose positions
/// are below `n`.
proof fn lemma_flatten_indices(parts: Seq<Seq<MdEventView>>, n: nat)
    requires
        forall|i: int| 0 <= i < parts.len() ==> indices_below(#[trigger] parts[i], n),
    ensures
        indices_below(flatten_events(parts), n),
    decreases parts.len(),
{
    if parts.len() > 0 {
        let front = parts.drop_last();
        assert forall|i: int| 0 <= i < front.len() implies indices_below(#[trigger] front[i], n) by {
            assert(front[i] == parts[i]);
        }
        lemma_flatten_indices(front, n);
        let a = flatten_events(front);
        let b = parts.last();
        assert(indices_below(b, n)) by {
            assert(b == parts[parts.len() - 1]);
        }
        assert forall|i: int| 0 <= i < (a + b).len() implies (#[trigger] index_of((a + b)[i]) matches Some(
            k,
        ) ==> k < n) by {
            if i < a.len() {
                assert((a + b)[i] == a[i]);
                assert(index_of(a[i]) matches Some(k) ==> k < n);
            } else {
                assert((a + b)[i] == b[i - a.len()]);
                assert(index_of(b[i - a.len()]) matches Some(k) ==> k < n);
            }
        }
    }
}

/// Converts the markdown of the page at `path` to HTML: backslashes are
/// doubled, comment lines dropped, the text parsed with the wiki's options,
/// images, bare web addresses and heading anchors rewritten, and the HTML
/// written.
pub fn html_of_markdown(path: &str, markdown: &str) -> (html: String)
    ensures
        html@ == page_html(path@, markdown@),
{
    proof {
        reveal_strlit("\\");
    }
    let escaped = replace_all(markdown, "\\", "\\\\");
    let text = strip_comment_lines(escaped.as_str());
    let events = parse_markdown(text.as_str(), WIKI_OPTIONS);
    let ghost n = markdown_events(text@, WIKI_OPTIONS).len();
    assert(indices_below(event_views(events@), n)) by {
        assert forall|i: int| 0 <= i < event_views(events@).len() implies (#[trigger] index_of(
            event_views(events@)[i],
        ) matches Some(k) ==> k < n) by {
            assert(event_views(events@)[i] == events@[i]@);
            assert(index_of(events@[i]@) matches Some(k) ==> k == i);
        }
    }
    let e1 = rewrite_image_urls(&events);
    let e2 = autolink_urls(&e1);
    let e3 = add_heading_anchors(path, &e2);
    proof {
        lemma_rewrites_keep_indices(path@, event_views(events@), n);
    }
    render_markdown(text.as_str(), WIKI_OPTIONS, e3)
}

/// The HTML of a markdown text parsed without extensions and written as it
/// is parsed.
pub open spec fn plain_html(markdown: Seq<char>) -> Seq<char> {
    rendered_html(markdown, 0, markdown_events(markdown, 0))
}

/// Converts markdown to HTML with the parser's default options and no
/// rewrite.
pub fn plain_html_of_markdown(markdown: &str) -> (html: String)
    ensures
        html@ == plain_html(markdown@),
{
    let events = parse_markdown(markdown, 0);
    let ghost n = markdown_events(markdown@, 0).len();
    assert(indices_below(event_views(events@), n)) by {
        assert forall|i: int| 0 <= i < event_views(events@).len() implies (#[trigger] index_of(
            event_views(events@)[i],
        ) matches Some(k) ==> k < n) by {
            assert(event_views(events@)[i] == events@[i]@);
            assert(index_of(events@[i]@) matches Some(k) ==> k == i);
        }
    }
    render_markdown(markdown, 0, events)
}

} // verus!
