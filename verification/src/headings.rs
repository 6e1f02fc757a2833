//! Heading anchors: every markdown heading gets an explicit `{ #id }`
//! attribute, and the headings are collected for the table of contents.
//!
//! A line is a heading when, as CommonMark has it for ATX headings, it has
//! at most three spaces of indentation, then one to six `#`, then a space, a
//! tab or the end of the line, and it lies outside fenced code blocks (a
//! fence opens with three or more backticks or tildes after at most three
//! spaces, and closes with at least as many of the same character followed
//! only by whitespace). Its level is the number of `#`. A heading already
//! carries an id when it ends with `<ws>{ <ws>* #id <ws>* } <ws>*`, `id`
//! being non-empty and free of whitespace (the pattern
//! `\s*(.*)\s+\{\s*#(\S+)\s*\}\s*$` after the `#`s, taken with
//! leftmost-first, greedy matching). The spec functions below state which
//! parts of the line that pattern captures.

use vstd::prelude::*;
use crate::uuids::{is_v4_uuid_text, lemma_uuid_text_no_ws, new_uuid_value, uuid_string, uuid_text};
use crate::text::{lacks, lemma_split_join, lemma_split_nonempty, lemma_split_pieces_lack_sep, chars_of, is_whitespace_char, is_ws, no_ws, push_chars, seq_join, split_chars, split_on, string_of, views, join_strings};

verus! {

/// End of the run of `#` that starts at `i`.
pub open spec fn hash_run(l: Seq<char>, i: int) -> int
    decreases l.len() - i,
{
    if 0 <= i < l.len() && l[i] == '#' {
        hash_run(l, i + 1)
    } else {
        i
    }
}

/// End of the run of whitespace that starts at `i`.
pub open spec fn ws_run(l: Seq<char>, i: int) -> int
    decreases l.len() - i,
{
    if 0 <= i < l.len() && is_ws(l[i]) {
        ws_run(l, i + 1)
    } else {
        i
    }
}

/// Start of the run of whitespace that ends at `j` (trailing whitespace of
/// `l[..j]` dropped).
pub open spec fn ws_back(l: Seq<char>, j: int) -> int
    decreases j,
{
    if 0 < j <= l.len() && is_ws(l[j - 1]) {
        ws_back(l, j - 1)
    } else {
        j
    }
}

/// End of the run of spaces that starts at `i`.
pub open spec fn space_run(l: Seq<char>, i: int) -> int
    decreases l.len() - i,
{
    if 0 <= i < l.len() && l[i] == ' ' {
        space_run(l, i + 1)
    } else {
        i
    }
}

/// The indentation of a line: its number of leading spaces.
pub open spec fn indent_of(l: Seq<char>) -> int {
    space_run(l, 0)
}

/// End of the run of `#` that follows the indentation.
pub open spec fn hashes_end(l: Seq<char>) -> int {
    hash_run(l, indent_of(l))
}

/// The heading level of a line: the number of `#` after its indentation.
pub open spec fn level_of(l: Seq<char>) -> int {
    hashes_end(l) - indent_of(l)
}

/// The span `[start, end)` of the id in the text that follows a `{` at
/// `a - 1`: whitespace, `#`, the id, whitespace, `}`, whitespace, end of line.
pub open spec fn id_span(l: Seq<char>, a: int) -> Option<(int, int)> {
    let b = ws_run(l, a);
    let e = ws_back(l, l.len() as int);
    if b < l.len() && l[b] == '#' && e > b + 1 && l[e - 1] == '}' {
        let g = ws_back(l, e - 1);
        if g > b + 1 && no_ws(l.subrange(b + 1, g)) {
            Some((b + 1, g))
        } else {
            None
        }
    } else {
        None
    }
}

/// A `{` at `p`, after the leading `#`s and right after whitespace, that
/// opens a well-formed id attribute reaching the end of the line.
pub open spec fn brace_ok(l: Seq<char>, p: int) -> bool {
    &&& hashes_end(l) + 1 <= p < l.len()
    &&& is_ws(l[p - 1])
    &&& l[p] == '{'
    &&& id_span(l, p + 1) is Some
}

/// The last position below `j` at which `brace_ok` holds, or -1.
pub open spec fn last_brace(l: Seq<char>, j: int) -> int
    decreases j,
{
    if j <= 0 {
        -1
    } else if brace_ok(l, j - 1) {
        j - 1
    } else {
        last_brace(l, j - 1)
    }
}

/// The `{` of the id attribute that the pattern selects (the last one), or -1
/// when the line carries no id.
pub open spec fn brace_of(l: Seq<char>) -> int {
    last_brace(l, l.len() as int)
}

/// A heading line (an ATX heading of CommonMark): at most three spaces of
/// indentation, one to six `#`, then a space, a tab or the end of the line.
pub open spec fn is_heading(l: Seq<char>) -> bool {
    &&& indent_of(l) <= 3
    &&& 1 <= level_of(l) <= 6
    &&& (hashes_end(l) == l.len() || l[hashes_end(l)] == ' ' || l[hashes_end(l)] == '\t')
}

/// End of the run of `c` that starts at `i`.
pub open spec fn char_run(l: Seq<char>, i: int, c: char) -> int
    decreases l.len() - i,
{
    if 0 <= i < l.len() && l[i] == c {
        char_run(l, i + 1, c)
    } else {
        i
    }
}

/// The fence that a line opens, as its character and length: at most three
/// spaces of indentation, then three or more backticks or tildes; after
/// backticks the rest of the line holds no backtick.
pub open spec fn opening_fence(l: Seq<char>) -> Option<(char, nat)> {
    let i = indent_of(l);
    if i <= 3 && i < l.len() && (l[i] == '`' || l[i] == '~') {
        let c = l[i];
        let e = char_run(l, i, c);
        if e - i >= 3 && (c == '~' || lacks(l.skip(e), '`')) {
            Some((c, (e - i) as nat))
        } else {
            None
        }
    } else {
        None
    }
}

/// A line that closes the fence of `n` characters `c`: at most three spaces
/// of indentation, at least `n` characters `c`, then only whitespace.
pub open spec fn closes_fence(l: Seq<char>, c: char, n: nat) -> bool {
    let i = indent_of(l);
    let e = char_run(l, i, c);
    &&& i <= 3
    &&& e - i >= n
    &&& forall|k: int| e <= k < l.len() ==> is_ws(#[trigger] l[k])
}

/// The open fence after a line, given the open fence before it.
pub open spec fn fence_step(state: Option<(char, nat)>, l: Seq<char>) -> Option<(char, nat)> {
    match state {
        None => opening_fence(l),
        Some((c, n)) => if closes_fence(l, c, n) {
            None
        } else {
            state
        },
    }
}

/// The fenced code block open after the lines, if any.
pub open spec fn fence_state(lines: Seq<Seq<char>>) -> Option<(char, nat)>
    decreases lines.len(),
{
    if lines.len() == 0 {
        None
    } else {
        fence_step(fence_state(lines.drop_last()), lines.last())
    }
}

/// The line `l`, coming after the lines `front`, is a heading: it is a
/// heading line outside any fenced code block.
pub open spec fn heading_at(front: Seq<Seq<char>>, l: Seq<char>) -> bool {
    fence_state(front) is None && is_heading(l)
}

/// The line `l`, coming after `front`, is a heading without an id.
pub open spec fn needs_id_at(front: Seq<Seq<char>>, l: Seq<char>) -> bool {
    fence_state(front) is None && needs_id(l)
}

/// The line as it is written back after `front`.
pub open spec fn line_out_at(front: Seq<Seq<char>>, l: Seq<char>, fresh: Seq<char>) -> Seq<char> {
    if fence_state(front) is None {
        line_out(l, fresh)
    } else {
        l
    }
}

/// A heading line without an id attribute.
pub open spec fn needs_id(l: Seq<char>) -> bool {
    is_heading(l) && brace_of(l) < 0
}

/// The id that a heading line carries (defined when it carries one).
pub open spec fn carried_id(l: Seq<char>) -> Seq<char> {
    let (a, g) = id_span(l, brace_of(l) + 1)->0;
    l.subrange(a, g)
}

/// The heading text that the pattern captures on a line that carries an id:
/// what lies between the leading `#`s and their following whitespace, and
/// the whitespace before the `{`.
pub open spec fn carried_text(l: Seq<char>) -> Seq<char> {
    let q = brace_of(l) - 1;
    let w = ws_run(l, hashes_end(l));
    let start = if w < q {
        w
    } else {
        q
    };
    l.subrange(start, q)
}

/// The heading text of a line without an id: the rest of the line after the
/// leading `#`s and the whitespace that follows them.
pub open spec fn plain_text(l: Seq<char>) -> Seq<char> {
    l.skip(ws_run(l, hashes_end(l)))
}

/// A heading entry: id, level, text.
pub type HeadingView = (Seq<char>, int, Seq<char>);

/// The heading entry of a heading line; `fresh` is the id given to a line
/// without one.
pub open spec fn heading_of(l: Seq<char>, fresh: Seq<char>) -> HeadingView {
    if needs_id(l) {
        (fresh, level_of(l), plain_text(l))
    } else {
        (carried_id(l), level_of(l), carried_text(l))
    }
}

/// The line as it is written back: a heading without an id gets
/// ` { #fresh }` appended.
pub open spec fn line_out(l: Seq<char>, fresh: Seq<char>) -> Seq<char> {
    if needs_id(l) {
        l + " { #"@ + fresh + " }"@
    } else {
        l
    }
}

/// The number of lines among `lines` that need a fresh id.
pub open spec fn count_needing(lines: Seq<Seq<char>>) -> nat
    decreases lines.len(),
{
    if lines.len() == 0 {
        0
    } else {
        count_needing(lines.drop_last()) + if needs_id_at(lines.drop_last(), lines.last()) {
            1nat
        } else {
            0nat
        }
    }
}

/// The lines written back, the `k`-th line needing an id taking `ids[k]`.
pub open spec fn lines_out(lines: Seq<Seq<char>>, ids: Seq<Seq<char>>) -> Seq<Seq<char>>
    decreases lines.len(),
{
    if lines.len() == 0 {
        Seq::<Seq<char>>::empty()
    } else {
        let front = lines.drop_last();
        lines_out(front, ids).push(
            line_out_at(front, lines.last(), ids[count_needing(front) as int]),
        )
    }
}

/// The heading entries of the heading lines, in order.
pub open spec fn headings_of(lines: Seq<Seq<char>>, ids: Seq<Seq<char>>) -> Seq<HeadingView>
    decreases lines.len(),
{
    if lines.len() == 0 {
        Seq::<HeadingView>::empty()
    } else {
        let front = lines.drop_last();
        let prev = headings_of(front, ids);
        if heading_at(front, lines.last()) {
            prev.push(heading_of(lines.last(), ids[count_needing(front) as int]))
        } else {
            prev
        }
    }
}

/// The markdown text with ids added, given the fresh ids to use.
pub open spec fn annotated_text(md: Seq<char>, ids: Seq<Seq<char>>) -> Seq<char> {
    seq_join(lines_out(split_on(md, '\n'), ids), seq!['\n'])
}

/// The headings of a markdown text, given the fresh ids to use.
pub open spec fn annotated_headings(md: Seq<char>, ids: Seq<Seq<char>>) -> Seq<HeadingView> {
    headings_of(split_on(md, '\n'), ids)
}

/// The number of fresh ids that a markdown text needs.
pub open spec fn ids_needed(md: Seq<char>) -> nat {
    count_needing(split_on(md, '\n'))
}

/// An id that can be written into a heading: non-empty, no whitespace.
pub open spec fn good_id(id: Seq<char>) -> bool {
    id.len() > 0 && no_ws(id)
}

/// The view of a heading entry.
pub open spec fn heading_view(h: (String, usize, String)) -> HeadingView {
    (h.0@, h.1 as int, h.2@)
}

// ---------------------------------------------------------------------------
// Executable scanning functions
// ---------------------------------------------------------------------------
/// `hash_run(l, i)`.
fn hash_run_exec(l: &Vec<char>, i: usize) -> (r: usize)
    requires
        i <= l.len(),
    ensures
        r == hash_run(l@, i as int),
        i <= r <= l.len(),
{
    let mut j = i;
    while j < l.len() && l[j] == '#'
        invariant
            i <= j <= l.len(),
            hash_run(l@, j as int) == hash_run(l@, i as int),
        decreases l.len() - j,
    {
        j += 1;
    }
    j
}

/// `ws_run(l, i)`.
fn ws_run_exec(l: &Vec<char>, i: usize) -> (r: usize)
    requires
        i <= l.len(),
    ensures
        r == ws_run(l@, i as int),
        i <= r <= l.len(),
{
    let mut j = i;
    while j < l.len() && is_whitespace_char(l[j])
        invariant
            i <= j <= l.len(),
            ws_run(l@, j as int) == ws_run(l@, i as int),
        decreases l.len() - j,
    {
        j += 1;
    }
    j
}

/// `ws_back(l, j)`.
fn ws_back_exec(l: &Vec<char>, j: usize) -> (r: usize)
    requires
        j <= l.len(),
    ensures
        r == ws_back(l@, j as int),
        r <= j,
{
    let mut k = j;
    while k > 0 && is_whitespace_char(l[k - 1])
        invariant
            k <= j <= l.len(),
            ws_back(l@, k as int) == ws_back(l@, j as int),
        decreases k,
    {
        k -= 1;
    }
    k
}

/// A run of whitespace ends no later than a non-whitespace character.
proof fn lemma_ws_run_stops(l: Seq<char>, i: int, k: int)
    requires
        0 <= i <= k < l.len(),
        !is_ws(l[k]),
    ensures
        i <= ws_run(l, i) <= k,
    decreases k - i,
{
    if i < k && is_ws(l[i]) {
        lemma_ws_run_stops(l, i + 1, k);
    }
}

/// A backward run of whitespace stops after a non-whitespace character.
proof fn lemma_ws_back_stops(l: Seq<char>, j: int, k: int)
    requires
        0 <= k < j <= l.len(),
        !is_ws(l[k]),
    ensures
        k + 1 <= ws_back(l, j) <= j,
    decreases j,
{
    if j - 1 > k && is_ws(l[j - 1]) {
        lemma_ws_back_stops(l, j - 1, k);
    }
}

/// Bounds of `ws_back`.
proof fn lemma_ws_back_bounds(l: Seq<char>, j: int)
    requires
        0 <= j <= l.len(),
    ensures
        0 <= ws_back(l, j) <= j,
        ws_back(l, j) > 0 ==> !is_ws(l[ws_back(l, j) - 1]),
    decreases j,
{
    if 0 < j && is_ws(l[j - 1]) {
        lemma_ws_back_bounds(l, j - 1);
    }
}

/// `id_span(l, a)`.
fn id_span_exec(l: &Vec<char>, a: usize) -> (r: Option<(usize, usize)>)
    requires
        a <= l.len(),
    ensures
        match r {
            Some((s, e)) => id_span(l@, a as int) == Some((s as int, e as int)) && a < s < e
                <= l.len(),
            None => id_span(l@, a as int) is None,
        },
{
    let b = ws_run_exec(l, a);
    let e = ws_back_exec(l, l.len());
    if b < l.len() && l[b] == '#' && e > b + 1 && l[e - 1] == '}' {
        let g = ws_back_exec(l, e - 1);
        if g > b + 1 {
            let mut k = b + 1;
            while k < g
                invariant
                    b + 1 <= k <= g <= l.len(),
                    b == ws_run(l@, a as int),
                    e == ws_back(l@, l@.len() as int),
                    g == ws_back(l@, e - 1),
                    b < l.len() && l@[b as int] == '#' && e > b + 1 && l@[e - 1] == '}',
                    forall|m: int| b + 1 <= m < k ==> !is_ws(#[trigger] l@[m]),
                decreases g - k,
            {
                if is_whitespace_char(l[k]) {
                    assert(l@.subrange(b + 1, g as int)[k - (b + 1)] == l@[k as int]);
                    assert(!no_ws(l@.subrange(b + 1, g as int)));
                    assert(ws_run(l@, a as int) == b);
                    assert(ws_back(l@, l@.len() as int) == e);
                    assert(ws_back(l@, e - 1) == g);
                    assert(id_span(l@, a as int) is None);
                    return None;
                }
                k += 1;
            }
            assert forall|m: int| 0 <= m < l@.subrange(b + 1, g as int).len() implies !is_ws(
                #[trigger] l@.subrange(b + 1, g as int)[m],
            ) by {
                assert(l@.subrange(b + 1, g as int)[m] == l@[b + 1 + m]);
            }
            return Some((b + 1, g));
        }
    }
    None
}

/// `brace_ok(l, p)`, given `h == hashes_end(l)`.
fn brace_ok_exec(l: &Vec<char>, h: usize, p: usize) -> (b: bool)
    requires
        h == hashes_end(l@),
    ensures
        b == brace_ok(l@, p as int),
{
    if h < p && p < l.len() && is_whitespace_char(l[p - 1]) && l[p] == '{' {
        id_span_exec(l, p + 1).is_some()
    } else {
        false
    }
}

/// `brace_of(l)` as an option.
fn brace_of_exec(l: &Vec<char>, h: usize) -> (r: Option<usize>)
    requires
        h == hashes_end(l@),
    ensures
        match r {
            Some(p) => brace_of(l@) == p && brace_ok(l@, p as int),
            None => brace_of(l@) == -1,
        },
{
    let mut j = l.len();
    while j > 0
        invariant
            j <= l.len(),
            h == hashes_end(l@),
            last_brace(l@, j as int) == brace_of(l@),
        decreases j,
    {
        if brace_ok_exec(l, h, j - 1) {
            return Some(j - 1);
        }
        j -= 1;
    }
    None
}

/// The characters `v[from..to]` as a string.
fn substring(v: &Vec<char>, from: usize, to: usize) -> (s: String)
    requires
        from <= to <= v.len(),
    ensures
        s@ == v@.subrange(from as int, to as int),
{
    let mut s = String::new();
    push_chars(&mut s, v, from, to);
    s
}

/// `space_run(l, i)`.
fn space_run_exec(l: &Vec<char>, i: usize) -> (r: usize)
    requires
        i <= l.len(),
    ensures
        r == space_run(l@, i as int),
        i <= r <= l.len(),
{
    let mut j = i;
    while j < l.len() && l[j] == ' '
        invariant
            i <= j <= l.len(),
            space_run(l@, j as int) == space_run(l@, i as int),
        decreases l.len() - j,
    {
        j += 1;
    }
    j
}

/// `char_run(l, i, c)`.
fn char_run_exec(l: &Vec<char>, i: usize, c: char) -> (r: usize)
    requires
        i <= l.len(),
    ensures
        r == char_run(l@, i as int, c),
        i <= r <= l.len(),
{
    let mut j = i;
    while j < l.len() && l[j] == c
        invariant
            i <= j <= l.len(),
            char_run(l@, j as int, c) == char_run(l@, i as int, c),
        decreases l.len() - j,
    {
        j += 1;
    }
    j
}

/// For a heading line, the end of its `#` run and its level.
fn heading_level_exec(l: &Vec<char>) -> (r: Option<(usize, usize)>)
    ensures
        is_heading(l@) <==> r is Some,
        r matches Some((h, lv)) ==> h == hashes_end(l@) && lv == level_of(l@) && h <= l.len(),
{
    let i = space_run_exec(l, 0);
    let h = hash_run_exec(l, i);
    if i <= 3 && h - i >= 1 && h - i <= 6 && (h == l.len() || l[h] == ' ' || l[h] == '\t') {
        Some((h, h - i))
    } else {
        None
    }
}

/// The open fence as a mathematical value.
pub open spec fn fence_view(f: Option<(char, usize)>) -> Option<(char, nat)> {
    match f {
        Some((c, n)) => Some((c, n as nat)),
        None => None,
    }
}

/// `opening_fence(l)`.
fn opening_fence_exec(l: &Vec<char>) -> (r: Option<(char, usize)>)
    ensures
        fence_view(r) == opening_fence(l@),
{
    let i = space_run_exec(l, 0);
    if i <= 3 && i < l.len() && (l[i] == '`' || l[i] == '~') {
        let c = l[i];
        let e = char_run_exec(l, i, c);
        if e - i >= 3 {
            if c == '~' {
                return Some((c, e - i));
            }
            let mut k = e;
            while k < l.len()
                invariant
                    e <= k <= l.len(),
                    i == space_run(l@, 0),
                    i <= 3 && i < l.len() && l@[i as int] == c && c == '`',
                    e == char_run(l@, i as int, c),
                    e - i >= 3,
                    forall|m: int| e <= m < k ==> l@[m] != '`',
                decreases l.len() - k,
            {
                if l[k] == '`' {
                    assert(l@.skip(e as int)[k - e] == '`');
                    assert(!lacks(l@.skip(e as int), '`'));
                    return None;
                }
                k += 1;
            }
            assert forall|m: int| 0 <= m < l@.skip(e as int).len() implies #[trigger] l@.skip(
                e as int,
            )[m] != '`' by {
                assert(l@.skip(e as int)[m] == l@[e + m]);
            }
            return Some((c, e - i));
        }
    }
    None
}

/// `closes_fence(l, c, n)`.
fn closes_fence_exec(l: &Vec<char>, c: char, n: usize) -> (b: bool)
    ensures
        b == closes_fence(l@, c, n as nat),
{
    let i = space_run_exec(l, 0);
    let e = char_run_exec(l, i, c);
    if i > 3 || e - i < n {
        return false;
    }
    let mut k = e;
    while k < l.len()
        invariant
            e <= k <= l.len(),
            i == space_run(l@, 0),
            i <= 3 && e - i >= n,
            e == char_run(l@, i as int, c),
            forall|m: int| e <= m < k ==> is_ws(#[trigger] l@[m]),
        decreases l.len() - k,
    {
        if !is_whitespace_char(l[k]) {
            assert(!is_ws(l@[k as int]));
            assert(!closes_fence(l@, c, n as nat));
            return false;
        }
        k += 1;
    }
    true
}

/// `fence_step(state, l)`.
fn fence_step_exec(state: Option<(char, usize)>, l: &Vec<char>) -> (r: Option<(char, usize)>)
    ensures
        fence_view(r) == fence_step(fence_view(state), l@),
{
    match state {
        None => opening_fence_exec(l),
        Some((c, n)) => if closes_fence_exec(l, c, n) {
            None
        } else {
            state
        },
    }
}

/// One line written back, with its heading entry if it is a heading;
/// `fresh` is the id for a heading without one.
fn process_line(l: &Vec<char>, fresh: &str) -> (r: (String, Option<(String, usize, String)>))
    ensures
        r.0@ == line_out(l@, fresh@),
        is_heading(l@) <==> r.1 is Some,
        r.1 matches Some(h) ==> heading_view(h) == heading_of(l@, fresh@),
{
    let (h, lv) = match heading_level_exec(l) {
        Some(x) => x,
        None => {
            return (string_of(l), None);
        },
    };
    let w = ws_run_exec(l, h);
    match brace_of_exec(l, h) {
        Some(p) => {
            let span = id_span_exec(l, p + 1);
            let (a, g) = span.unwrap();
            let q = p - 1;
            let start = if w < q {
                w
            } else {
                q
            };
            let id = substring(l, a, g);
            let text = substring(l, start, q);
            (string_of(l), Some((id, lv, text)))
        },
        None => {
            let mut line = string_of(l);
            line.append(" { #");
            line.append(fresh);
            line.append(" }");
            let text = substring(l, w, l.len());
            assert(l@.subrange(w as int, l@.len() as int) =~= l@.skip(w as int));
            (line, Some((String::from_str(fresh), lv, text)))
        },
    }
}

/// Counts the heading lines without an id: the number of fresh ids that
/// `add_heading_ids_with` needs for `markdown`.
pub fn count_headings_without_id(markdown: &str) -> (n: usize)
    ensures
        n == ids_needed(markdown@),
{
    let v = chars_of(markdown);
    let lines = split_chars(&v, '\n');
    let ghost ls = views(lines@);
    let mut n: usize = 0;
    let mut fence: Option<(char, usize)> = None;
    let mut i: usize = 0;
    while i < lines.len()
        invariant
            i <= lines.len(),
            ls == views(lines@),
            n == count_needing(ls.take(i as int)),
            fence_view(fence) == fence_state(ls.take(i as int)),
            n <= i,
        decreases lines.len() - i,
    {
        assert(ls.take(i + 1).drop_last() =~= ls.take(i as int));
        assert(ls.take(i + 1).last() == lines@[i as int]@);
        if fence.is_none() {
            if let Some((h, _)) = heading_level_exec(&lines[i]) {
                if brace_of_exec(&lines[i], h).is_none() {
                    n += 1;
                }
            }
        }
        fence = fence_step_exec(fence, &lines[i]);
        i += 1;
    }
    assert(ls.take(lines.len() as int) =~= ls);
    n
}

/// Adds ` { #id }` to every heading line that has no id, the `k`-th such
/// line taking `fresh_ids[k]`, and returns the text together with the
/// headings `(id, level, text)` in the order of their lines.
pub fn add_heading_ids_with(markdown: &str, fresh_ids: &Vec<String>) -> (r: (
    String,
    Vec<(String, usize, String)>,
))
    requires
        fresh_ids.len() >= ids_needed(markdown@),
    ensures
        r.0@ == annotated_text(markdown@, fresh_ids.deep_view()),
        r.1@.map_values(|h: (String, usize, String)| heading_view(h)) == annotated_headings(
            markdown@,
            fresh_ids.deep_view(),
        ),
{
    let v = chars_of(markdown);
    let lines = split_chars(&v, '\n');
    let ghost ls = views(lines@);
    let ghost ids = fresh_ids.deep_view();
    let mut out: Vec<String> = Vec::new();
    let mut heads: Vec<(String, usize, String)> = Vec::new();
    let mut used: usize = 0;
    let mut fence: Option<(char, usize)> = None;
    let mut i: usize = 0;
    while i < lines.len()
        invariant
            i <= lines.len(),
            ls == views(lines@),
            ls == split_on(markdown@, '\n'),
            fence_view(fence) == fence_state(ls.take(i as int)),
            ids == fresh_ids.deep_view(),
            fresh_ids.len() >= count_needing(ls),
            used == count_needing(ls.take(i as int)),
            out.deep_view() == lines_out(ls.take(i as int), ids),
            heads@.map_values(|h: (String, usize, String)| heading_view(h)) == headings_of(
                ls.take(i as int),
                ids,
            ),
        decreases lines.len() - i,
    {
        let ghost front = ls.take(i as int);
        assert(ls.take(i + 1).drop_last() =~= front);
        assert(ls.take(i + 1).last() == lines@[i as int]@);
        proof {
            lemma_count_needing_prefix(ls, (i + 1) as int);
        }
        let outside = fence.is_none();
        let needs = outside && match heading_level_exec(&lines[i]) {
            Some((h, _)) => brace_of_exec(&lines[i], h).is_none(),
            None => false,
        };
        let fresh: &str = if needs {
            fresh_ids[used].as_str()
        } else {
            ""
        };
        let ghost chosen = ids[used as int];
        let (line, head) = if outside {
            process_line(&lines[i], fresh)
        } else {
            (string_of(&lines[i]), None)
        };
        proof {
            if outside && !needs {
                assert(line_out(lines@[i as int]@, fresh@) == line_out(
                    lines@[i as int]@,
                    chosen,
                ));
                assert(heading_of(lines@[i as int]@, fresh@) == heading_of(
                    lines@[i as int]@,
                    chosen,
                ));
            }
        }
        let ghost old_out = out.deep_view();
        let ghost old_heads = heads@.map_values(|h: (String, usize, String)| heading_view(h));
        out.push(line);
        assert(out.deep_view() =~= old_out.push(line_out_at(front, lines@[i as int]@, chosen)));
        match head {
            Some(hd) => {
                heads.push(hd);
                assert(heads@.map_values(|h: (String, usize, String)| heading_view(h))
                    =~= old_heads.push(heading_of(lines@[i as int]@, chosen)));
            },
            None => {},
        }
        if needs {
            used += 1;
        }
        fence = fence_step_exec(fence, &lines[i]);
        i += 1;
    }
    assert(ls.take(lines.len() as int) =~= ls);
    proof {
        reveal_strlit("\n");
    }
    assert("\n"@ =~= seq!['\n']);
    (join_strings(&out, "\n"), heads)
}

/// The count of lines needing ids grows along prefixes.
proof fn lemma_count_needing_prefix(ls: Seq<Seq<char>>, k: int)
    requires
        0 <= k <= ls.len(),
    ensures
        count_needing(ls.take(k)) <= count_needing(ls),
    decreases ls.len() - k,
{
    if k < ls.len() {
        lemma_count_needing_prefix(ls, k + 1);
        assert(ls.take(k + 1).drop_last() =~= ls.take(k));
    } else {
        assert(ls.take(k) =~= ls);
    }
}

/// Adds ` { #id }` with a fresh random UUID as id to every heading line that
/// has no id, and returns the text together with the headings
/// `(id, level, text)` in the order of their lines.
pub fn add_heading_ids(markdown: &str) -> (r: (String, Vec<(String, usize, String)>))
    ensures
        exists|ids: Seq<Seq<char>>|
            {
                &&& ids.len() == ids_needed(markdown@)
                &&& forall|i: int| 0 <= i < ids.len() ==> is_v4_uuid_text(#[trigger] ids[i])
                &&& r.0@ == annotated_text(markdown@, ids)
                &&& r.1@.map_values(|h: (String, usize, String)| heading_view(h))
                    == annotated_headings(markdown@, ids)
            },
{
    let n = count_headings_without_id(markdown);
    let mut ids: Vec<String> = Vec::new();
    for k in 0..n
        invariant
            ids.len() == k,
            forall|i: int| 0 <= i < ids.len() ==> is_v4_uuid_text(#[trigger] ids@[i]@),
    {
        let v = new_uuid_value();
        let id = uuid_string(v);
        ids.push(id);
        assert(ids@[k as int]@ == uuid_text(v));
    }
    let r = add_heading_ids_with(markdown, &ids);
    assert forall|i: int| 0 <= i < ids.deep_view().len() implies is_v4_uuid_text(
        #[trigger] ids.deep_view()[i],
    ) by {
        assert(ids.deep_view()[i] == ids@[i]@);
    }
    r
}

// ---------------------------------------------------------------------------
// Laws
// ---------------------------------------------------------------------------
/// A UUID text is a good id.
pub proof fn lemma_uuid_text_good(s: Seq<char>)
    requires
        is_v4_uuid_text(s),
    ensures
        good_id(s),
{
    let v = choose|v: u128| s == uuid_text(v);
    lemma_uuid_text_no_ws(v);
}

proof fn lemma_hash_run_bounds(l: Seq<char>, i: int)
    requires
        0 <= i <= l.len(),
    ensures
        i <= hash_run(l, i) <= l.len(),
    decreases l.len() - i,
{
    if i < l.len() && l[i] == '#' {
        lemma_hash_run_bounds(l, i + 1);
    }
}

proof fn lemma_ws_run_bounds(l: Seq<char>, i: int)
    requires
        0 <= i <= l.len(),
    ensures
        i <= ws_run(l, i) <= l.len(),
    decreases l.len() - i,
{
    if i < l.len() && is_ws(l[i]) {
        lemma_ws_run_bounds(l, i + 1);
    }
}

/// The run of `#` is unchanged by text appended after a character that is
/// not `#`.
proof fn lemma_hash_run_extend(l: Seq<char>, t: Seq<char>, i: int)
    requires
        0 <= i <= l.len(),
        t.len() > 0,
        t[0] != '#',
    ensures
        hash_run(l + t, i) == hash_run(l, i),
    decreases l.len() - i,
{
    let x = l + t;
    if i < l.len() {
        assert(x[i] == l[i]);
        if l[i] == '#' {
            lemma_hash_run_extend(l, t, i + 1);
        }
    } else {
        assert(x[i] == t[0]);
    }
}

/// A run of whitespace that ends inside `l` is unchanged by appended text;
/// one that reaches the end of `l` reaches at least as far in `l + t`.
proof fn lemma_ws_run_extend(l: Seq<char>, t: Seq<char>, i: int)
    requires
        0 <= i <= l.len(),
    ensures
        ws_run(l, i) < l.len() ==> ws_run(l + t, i) == ws_run(l, i),
        ws_run(l, i) == l.len() ==> ws_run(l + t, i) >= l.len(),
    decreases l.len() - i,
{
    let x = l + t;
    lemma_ws_run_bounds(x, i);
    if i < l.len() {
        assert(x[i] == l[i]);
        if is_ws(l[i]) {
            lemma_ws_run_extend(l, t, i + 1);
        }
    }
}

/// With no `brace_ok` position in `[k, j)`, the last one below `j` is the last
/// one below `k`.
proof fn lemma_last_brace_skip(l: Seq<char>, k: int, j: int)
    requires
        0 <= k <= j,
        forall|p: int| k <= p < j ==> !brace_ok(l, p),
    ensures
        last_brace(l, j) == last_brace(l, k),
    decreases j,
{
    if j > k {
        lemma_last_brace_skip(l, k, j - 1);
    }
}

/// Bounds of `space_run`.
proof fn lemma_space_run_bounds(l: Seq<char>, i: int)
    requires
        0 <= i <= l.len(),
    ensures
        i <= space_run(l, i) <= l.len(),
    decreases l.len() - i,
{
    if i < l.len() && l[i] == ' ' {
        lemma_space_run_bounds(l, i + 1);
    }
}

/// A run of spaces that ends inside `l` is unchanged by appended text.
proof fn lemma_space_run_extend(l: Seq<char>, t: Seq<char>, i: int)
    requires
        0 <= i <= l.len(),
        space_run(l, i) < l.len(),
    ensures
        space_run(l + t, i) == space_run(l, i),
    decreases l.len() - i,
{
    let x = l + t;
    if i < l.len() {
        assert(x[i] == l[i]);
        if l[i] == ' ' {
            lemma_space_run_extend(l, t, i + 1);
        }
    }
}

/// A heading line has its indentation, then at least one `#`.
proof fn lemma_heading_shape(l: Seq<char>)
    requires
        is_heading(l),
    ensures
        0 <= indent_of(l) < hashes_end(l) <= l.len(),
        l[indent_of(l)] == '#',
{
    lemma_space_run_bounds(l, 0);
    lemma_hash_run_bounds(l, indent_of(l));
}

/// A heading line without an id, written back with a good fresh id, carries
/// that id: nothing is added on a second pass, and it reads back as the same
/// heading entry.
proof fn lemma_line_out_stable(l: Seq<char>, f: Seq<char>, g: Seq<char>)
    requires
        good_id(f),
    ensures
        !needs_id(line_out(l, f)),
        line_out(line_out(l, f), g) == line_out(l, f),
        is_heading(line_out(l, f)) == is_heading(l),
        is_heading(l) ==> heading_of(line_out(l, f), g) == heading_of(l, f),
        opening_fence(line_out(l, f)) == opening_fence(l),
{
    if needs_id(l) {
        reveal_strlit(" { #");
        reveal_strlit(" }");
        let n = l.len() as int;
        let m = f.len() as int;
        let tail = seq![' ', '{', ' ', '#'] + f + seq![' ', '}'];
        let x = l + tail;
        assert(l + " { #"@ + f + " }"@ =~= x);
        assert(x.len() == n + m + 6);
        assert(x[n] == ' ' && x[n + 1] == '{' && x[n + 2] == ' ' && x[n + 3] == '#');
        assert(x[n + 4 + m] == ' ' && x[n + 5 + m] == '}');
        assert(forall|k: int| 0 <= k < m ==> #[trigger] x[n + 4 + k] == f[k]);
        assert(forall|k: int| 0 <= k < n ==> #[trigger] x[k] == l[k]);
        // the indentation and the `#` run are unchanged
        assert(tail[0] == ' ');
        lemma_heading_shape(l);
        let i0 = indent_of(l);
        lemma_space_run_extend(l, tail, 0);
        assert(indent_of(x) == i0);
        lemma_hash_run_extend(l, tail, i0);
        let lv = hashes_end(l);
        assert(hashes_end(x) == lv);
        assert(level_of(x) == level_of(l));
        assert(is_heading(x)) by {
            if lv < n {
                assert(x[lv] == l[lv]);
            }
        }
        assert(x[i0] == '#');
        // the appended brace opens a well-formed id
        let p = n + 1;
        assert(ws_run(x, n + 3) == n + 3);
        assert(ws_run(x, n + 2) == n + 3);
        assert(ws_back(x, n + m + 6) == n + m + 6);
        assert(ws_back(x, n + m + 4) == n + m + 4) by {
            assert(x[n + m + 3] == f[m - 1]);
        }
        assert(ws_back(x, n + m + 5) == n + m + 4);
        assert(x.subrange(n + 4, n + 4 + m) =~= f);
        assert(id_span(x, p + 1) == Some((n + 4, n + 4 + m)));
        assert(brace_ok(x, p));
        // and no later brace does
        assert forall|q: int| p + 1 <= q < x.len() implies !brace_ok(x, q) by {
            if q >= n + 4 && q < n + 4 + m {
                if q == n + 4 {
                    assert(x[q - 1] == '#');
                } else {
                    assert(x[q - 1] == f[q - 1 - n - 4]);
                }
            }
        }
        lemma_last_brace_skip(x, p + 1, x.len() as int);
        assert(brace_of(x) == p);
        assert(carried_id(x) == f);
        // the text read back is the text recorded
        lemma_ws_run_extend(l, tail, lv);
        lemma_ws_run_bounds(l, lv);
        let w = ws_run(l, lv);
        if w < n {
            assert(carried_text(x) =~= l.skip(w));
        } else {
            assert(carried_text(x) =~= l.skip(w));
        }
        assert(heading_of(x, g) == heading_of(l, f));
    }
}

/// Writing back lines a second time changes nothing, takes no fresh id, and
/// reads back the same headings; the fenced code blocks stay where they were.
proof fn lemma_lines_out_stable(ls: Seq<Seq<char>>, ids: Seq<Seq<char>>, more: Seq<Seq<char>>)
    requires
        ids.len() >= count_needing(ls),
        forall|i: int| 0 <= i < ids.len() ==> good_id(#[trigger] ids[i]),
    ensures
        lines_out(ls, ids).len() == ls.len(),
        count_needing(lines_out(ls, ids)) == 0,
        lines_out(lines_out(ls, ids), more) == lines_out(ls, ids),
        headings_of(lines_out(ls, ids), more) == headings_of(ls, ids),
        fence_state(lines_out(ls, ids)) == fence_state(ls),
    decreases ls.len(),
{
    if ls.len() > 0 {
        let front = ls.drop_last();
        let c = count_needing(front);
        lemma_lines_out_stable(front, ids, more);
        let out = lines_out(ls, ids);
        let f = ids[c as int];
        let l = ls.last();
        let x = line_out_at(front, l, f);
        if fence_state(front) is None {
            if needs_id(l) {
                assert(good_id(f));
                lemma_line_out_stable(l, f, more[0]);
            } else {
                assert(line_out(l, f) == l);
                if is_heading(l) {
                    assert(heading_of(l, more[0]) == heading_of(l, f));
                }
            }
        }
        assert(out.drop_last() =~= lines_out(front, ids));
        assert(out.last() == x);
    }
}

/// Adding heading ids is idempotent: a text that went through it has an id
/// on every heading, so a second pass takes no fresh id, returns the text
/// unchanged and reads back the same headings with the same ids.
pub proof fn lemma_add_heading_ids_idempotent(
    md: Seq<char>,
    ids: Seq<Seq<char>>,
    more: Seq<Seq<char>>,
)
    requires
        ids.len() >= ids_needed(md),
        forall|i: int| 0 <= i < ids.len() ==> good_id(#[trigger] ids[i]),
    ensures
        ids_needed(annotated_text(md, ids)) == 0,
        annotated_text(annotated_text(md, ids), more) == annotated_text(md, ids),
        annotated_headings(annotated_text(md, ids), more) == annotated_headings(md, ids),
{
    let ls = split_on(md, '\n');
    lemma_split_nonempty(md, '\n');
    lemma_split_pieces_lack_sep(md, '\n');
    lemma_lines_out_stable(ls, ids, more);
    let out = lines_out(ls, ids);
    lemma_lines_out_lack_newline(ls, ids);
    lemma_split_join(out, '\n');
}

/// The `i`-th line written back is the `i`-th line with the id that the
/// lines before it leave for it.
proof fn lemma_lines_out_index(ls: Seq<Seq<char>>, ids: Seq<Seq<char>>, i: int)
    requires
        0 <= i < ls.len(),
    ensures
        lines_out(ls, ids).len() == ls.len(),
        lines_out(ls, ids)[i] == line_out_at(
            ls.take(i),
            ls[i],
            ids[count_needing(ls.take(i)) as int],
        ),
    decreases ls.len(),
{
    let front = ls.drop_last();
    if front.len() > 0 {
        lemma_lines_out_index(front, ids, 0);
    } else {
        assert(lines_out(front, ids) =~= Seq::<Seq<char>>::empty());
    }
    if i < ls.len() - 1 {
        lemma_lines_out_index(front, ids, i);
        assert(front.take(i) =~= ls.take(i));
    } else {
        assert(front =~= ls.take(i));
    }
}

/// Adding heading ids keeps every line: the text has as many lines as
/// before, each line begins with the line it was, and a line that is not a
/// heading without an id (a heading being a heading line outside fenced
/// code) is unchanged; such a heading gets ` { #id }` appended, `id` being
/// the next fresh id.
pub proof fn lemma_add_heading_ids_keeps_lines(md: Seq<char>, ids: Seq<Seq<char>>)
    requires
        ids.len() >= ids_needed(md),
        forall|i: int| 0 <= i < ids.len() ==> good_id(#[trigger] ids[i]),
    ensures
        split_on(annotated_text(md, ids), '\n').len() == split_on(md, '\n').len(),
        forall|i: int|
            0 <= i < split_on(md, '\n').len() ==> {
                let ls = split_on(md, '\n');
                let after = #[trigger] split_on(annotated_text(md, ids), '\n')[i];
                &&& ls[i].is_prefix_of(after)
                &&& !needs_id_at(ls.take(i), ls[i]) ==> after == ls[i]
                &&& needs_id_at(ls.take(i), ls[i]) ==> after == ls[i] + " { #"@ + ids[count_needing(
                    ls.take(i),
                ) as int] + " }"@
            },
{
    let ls = split_on(md, '\n');
    lemma_split_nonempty(md, '\n');
    lemma_split_pieces_lack_sep(md, '\n');
    lemma_lines_out_stable(ls, ids, ids);
    let out = lines_out(ls, ids);
    lemma_lines_out_lack_newline(ls, ids);
    lemma_split_join(out, '\n');
    assert forall|i: int| 0 <= i < ls.len() implies {
        let after = #[trigger] split_on(annotated_text(md, ids), '\n')[i];
        &&& ls[i].is_prefix_of(after)
        &&& !needs_id_at(ls.take(i), ls[i]) ==> after == ls[i]
        &&& needs_id_at(ls.take(i), ls[i]) ==> after == ls[i] + " { #"@ + ids[count_needing(
            ls.take(i),
        ) as int] + " }"@
    } by {
        lemma_lines_out_index(ls, ids, i);
        let f = ids[count_needing(ls.take(i)) as int];
        if needs_id_at(ls.take(i), ls[i]) {
            assert((ls[i] + " { #"@ + f + " }"@).subrange(0, ls[i].len() as int) =~= ls[i]);
        } else {
            assert(line_out_at(ls.take(i), ls[i], f) == ls[i]);
            assert(ls[i].subrange(0, ls[i].len() as int) =~= ls[i]);
        }
    }
}

/// The last position below `j` that `last_brace` finds opens an id.
proof fn lemma_last_brace_ok(l: Seq<char>, j: int)
    ensures
        last_brace(l, j) >= 0 ==> last_brace(l, j) < j && brace_ok(l, last_brace(l, j)),
        last_brace(l, j) >= -1,
    decreases j,
{
    if j > 0 && !brace_ok(l, j - 1) {
        lemma_last_brace_ok(l, j - 1);
    }
}

/// A part of a text without line breaks has none.
proof fn lemma_subrange_lacks(l: Seq<char>, a: int, b: int, c: char)
    requires
        0 <= a <= b <= l.len(),
        lacks(l, c),
    ensures
        lacks(l.subrange(a, b), c),
{
    assert forall|k: int| 0 <= k < b - a implies #[trigger] l.subrange(a, b)[k] != c by {
        assert(l.subrange(a, b)[k] == l[a + k]);
    }
}

/// The id and the text of the heading entry of a line hold no character
/// that the line and the fresh id do not hold.
proof fn lemma_heading_lacks(l: Seq<char>, f: Seq<char>, c: char)
    requires
        is_heading(l),
        lacks(l, c),
        lacks(f, c),
    ensures
        lacks(heading_of(l, f).0, c),
        lacks(heading_of(l, f).2, c),
{
    let lv = hashes_end(l);
    lemma_heading_shape(l);
    lemma_ws_run_bounds(l, lv);
    if needs_id(l) {
        lemma_subrange_lacks(l, ws_run(l, lv), l.len() as int, c);
        assert(l.skip(ws_run(l, lv)) =~= l.subrange(ws_run(l, lv), l.len() as int));
    } else {
        let p = brace_of(l);
        lemma_last_brace_ok(l, l.len() as int);
        assert(brace_ok(l, p));
        let b = ws_run(l, p + 1);
        lemma_ws_run_bounds(l, p + 1);
        let e = ws_back(l, l.len() as int);
        lemma_ws_back_bounds(l, l.len() as int);
        lemma_ws_back_bounds(l, e - 1);
        let (a, g) = id_span(l, p + 1)->0;
        lemma_subrange_lacks(l, a, g, c);
        lemma_subrange_lacks(l, if ws_run(l, lv) < p - 1 { ws_run(l, lv) } else { p - 1 }, p - 1, c);
    }
}

/// The heading entries of lines without the character `c`, with fresh ids
/// without it, have ids and texts without it.
pub proof fn lemma_headings_lack(lines: Seq<Seq<char>>, ids: Seq<Seq<char>>, c: char)
    requires
        ids.len() >= count_needing(lines),
        forall|i: int| 0 <= i < ids.len() ==> lacks(#[trigger] ids[i], c),
        forall|i: int| 0 <= i < lines.len() ==> lacks(#[trigger] lines[i], c),
    ensures
        forall|k: int|
            0 <= k < headings_of(lines, ids).len() ==> lacks((#[trigger] headings_of(lines, ids)[k]).0, c)
                && lacks(headings_of(lines, ids)[k].2, c),
    decreases lines.len(),
{
    if lines.len() > 0 {
        let front = lines.drop_last();
        assert forall|i: int| 0 <= i < front.len() implies lacks(#[trigger] front[i], c) by {
            assert(front[i] == lines[i]);
        }
        lemma_count_needing_prefix(lines, front.len() as int);
        assert(lines.take(front.len() as int) =~= front);
        lemma_headings_lack(front, ids, c);
        let l = lines.last();
        assert(lacks(l, c)) by {
            assert(l == lines[lines.len() - 1]);
        }
        if heading_at(front, l) {
            let f = ids[count_needing(front) as int];
            if needs_id_at(front, l) {
                assert(count_needing(front) < count_needing(lines));
            }
            if count_needing(front) < ids.len() {
                assert(lacks(f, c));
            }
            lemma_heading_lacks_any(l, f, c, count_needing(front) < ids.len());
            let prev = headings_of(front, ids);
            let hs = headings_of(lines, ids);
            assert(hs == prev.push(heading_of(l, f)));
            assert forall|k: int| 0 <= k < hs.len() implies lacks((#[trigger] hs[k]).0, c) && lacks(
                hs[k].2,
                c,
            ) by {
                if k < prev.len() {
                    assert(hs[k] == prev[k]);
                }
            }
        }
    }
}

/// `lemma_heading_lacks` where the fresh id matters only for a heading that
/// needs one.
proof fn lemma_heading_lacks_any(l: Seq<char>, f: Seq<char>, c: char, f_ok: bool)
    requires
        is_heading(l),
        lacks(l, c),
        f_ok ==> lacks(f, c),
        needs_id(l) ==> f_ok,
    ensures
        lacks(heading_of(l, f).0, c),
        lacks(heading_of(l, f).2, c),
{
    if needs_id(l) {
        lemma_heading_lacks(l, f, c);
    } else {
        lemma_heading_lacks(l, Seq::<char>::empty(), c);
        assert(heading_of(l, f) == heading_of(l, Seq::<char>::empty()));
    }
}

/// Written-back lines hold no line break.
proof fn lemma_lines_out_lack_newline(ls: Seq<Seq<char>>, ids: Seq<Seq<char>>)
    requires
        ids.len() >= count_needing(ls),
        forall|i: int| 0 <= i < ids.len() ==> good_id(#[trigger] ids[i]),
        forall|i: int| 0 <= i < ls.len() ==> lacks(#[trigger] ls[i], '\n'),
    ensures
        forall|i: int|
            0 <= i < lines_out(ls, ids).len() ==> lacks(#[trigger] lines_out(ls, ids)[i], '\n'),
    decreases ls.len(),
{
    if ls.len() > 0 {
        let front = ls.drop_last();
        assert forall|i: int| 0 <= i < front.len() implies lacks(#[trigger] front[i], '\n') by {
            assert(front[i] == ls[i]);
        }
        lemma_lines_out_lack_newline(front, ids);
        lemma_lines_out_stable(front, ids, ids);
        let c = count_needing(front);
        let l = ls.last();
        let f = ids[c as int];
        let x = line_out_at(front, l, f);
        assert(lacks(l, '\n')) by {
            assert(l == ls[ls.len() - 1]);
        }
        if needs_id_at(front, l) {
            assert(good_id(f));
            reveal_strlit(" { #");
            reveal_strlit(" }");
            let tail = seq![' ', '{', ' ', '#'] + f + seq![' ', '}'];
            assert(l + " { #"@ + f + " }"@ =~= l + tail);
            assert forall|k: int| 0 <= k < x.len() implies #[trigger] x[k] != '\n' by {
                if k < l.len() {
                    assert(x[k] == l[k]);
                } else if l.len() + 4 <= k < l.len() + 4 + f.len() {
                    assert(x[k] == f[k - l.len() - 4]);
                    assert(!is_ws(f[k - l.len() - 4]));
                }
            }
        }
        assert(lines_out(ls, ids) =~= lines_out(front, ids).push(x));
    }
}

} // verus!
