//! Squire protocol sigils: `§!TokenID` inline references, `§^TokenID … §^`
//! spans and `§^name§^` bare bookmarks.

use vstd::prelude::*;
use crate::types::ComplianceFailure;
use crate::text::{
    byte_len, char_width, dec, lemma_byte_len_prefix, lemma_encode_push, push_dec,
    str_byte_len,
    all_ws, find_from, find_from_exec, is_ws, char_is_ws, join, join_exec, lemma_find_from,
    lemma_trim_empty_iff, lex_compare, lex_lt, lemma_lex_trichotomy, lemma_lex_transitive,
    match_at, push_all, push_range, trim, trim_bounds, chars_of, is_ascii_alnum, slice_vec, split, split_exec, string_of, sviews, vviews,
};

verus! {

// ───────────────────────────── token ids ─────────────────────────────

/// Characters allowed in a token id: ASCII alphanumerics, `_` and `-`.
pub open spec fn is_id_char(c: char) -> bool {
    is_ascii_alnum(c) || c == '_' || c == '-'
}

pub fn is_valid_token_id_char(c: char) -> (r: bool)
    ensures
        r == is_id_char(c),
{
    ('a' <= c && c <= 'z') || ('A' <= c && c <= 'Z') || ('0' <= c && c <= '9') || c == '_' || c
        == '-'
}

/// End of the run of token-id characters that starts at position `i`.
pub open spec fn id_end(s: Seq<char>, i: int) -> int
    decreases s.len() - i,
{
    if 0 <= i < s.len() && is_id_char(s[i]) {
        id_end(s, i + 1)
    } else {
        i
    }
}

pub proof fn lemma_id_end(s: Seq<char>, i: int)
    requires
        0 <= i <= s.len(),
    ensures
        i <= id_end(s, i) <= s.len(),
        forall|k: int| i <= k < id_end(s, i) ==> is_id_char(#[trigger] s[k]),
        id_end(s, i) < s.len() ==> !is_id_char(s[id_end(s, i)]),
    decreases s.len() - i,
{
    if i < s.len() && is_id_char(s[i]) {
        lemma_id_end(s, i + 1);
    }
}

/// The token id at the start of `s`: its longest prefix of token-id characters.
pub open spec fn token_id_of(s: Seq<char>) -> Seq<char> {
    s.subrange(0, id_end(s, 0))
}

pub fn id_end_exec(s: &Vec<char>, i: usize) -> (r: usize)
    requires
        i <= s.len(),
    ensures
        r == id_end(s@, i as int),
        i <= r <= s.len(),
{
    proof {
        lemma_id_end(s@, i as int);
    }
    let mut k = i;
    while k < s.len() && is_valid_token_id_char(s[k])
        invariant
            i <= k <= s.len(),
            id_end(s@, i as int) == id_end(s@, k as int),
        decreases s.len() - k,
    {
        k = k + 1;
    }
    k
}

/// The token id at the start of `s` (terminated by the first character that
/// is not an ASCII alphanumeric, `_` or `-`).
pub fn take_token_id(s: &str) -> (r: String)
    ensures
        r@ == token_id_of(s@),
{
    let v = chars_of(s);
    let e = id_end_exec(&v, 0);
    let id = slice_vec(&v, 0, e);
    string_of(id.as_slice())
}

// ───────────────────────────── inline references ─────────────────────────────

/// The token id of one `§`-separated piece that starts with `!`, or empty.
pub open spec fn inline_ref_of(part: Seq<char>) -> Seq<char> {
    if part.len() > 0 && part[0] == '!' {
        part.subrange(1, id_end(part, 1))
    } else {
        Seq::empty()
    }
}

/// Non-empty inline references of the given `§`-separated pieces, in order.
pub open spec fn inline_refs_of(parts: Seq<Seq<char>>) -> Seq<Seq<char>>
    decreases parts.len(),
{
    if parts.len() == 0 {
        Seq::empty()
    } else {
        let r = inline_refs_of(parts.drop_last());
        let id = inline_ref_of(parts.last());
        if id.len() > 0 {
            r.push(id)
        } else {
            r
        }
    }
}

pub open spec fn section_sign() -> Seq<char> {
    seq!['§']
}

pub open spec fn span_marker() -> Seq<char> {
    seq!['§', '^']
}

/// Every `§!TokenID` in `content`, in order of appearance.
pub open spec fn inline_refs(content: Seq<char>) -> Seq<Seq<char>> {
    inline_refs_of(split(content, section_sign()).drop_first())
}

/// `§!TokenID` occurrences in `content`, in order (empty ids are skipped).
pub fn extract_inline_refs(content: &str) -> (r: Vec<String>)
    ensures
        sviews(r@) == inline_refs(content@),
{
    let v = chars_of(content);
    let sep = vec!['§'];
    assert(sep@ == section_sign());
    let parts = split_exec(&v, &sep);
    let ghost ps = vviews(parts@);
    let mut out: Vec<String> = Vec::new();
    let mut i: usize = 1;
    while i < parts.len()
        invariant
            1 <= i <= parts.len(),
            ps == vviews(parts@),
            ps == split(content@, section_sign()),
            sviews(out@) == inline_refs_of(ps.subrange(1, i as int)),
        decreases parts.len() - i,
    {
        let part = &parts[i];
        assert(part@ == ps[i as int]);
        assert(ps.subrange(1, i + 1).drop_last() =~= ps.subrange(1, i as int));
        if part.len() > 0 && part[0] == '!' {
            let e = id_end_exec(part, 1);
            if e > 1 {
                let id = slice_vec(part, 1, e);
                let s = string_of(id.as_slice());
                let ghost old = sviews(out@);
                out.push(s);
                assert(sviews(out@) =~= old.push(s@));
            }
        }
        i = i + 1;
    }
    assert(ps.subrange(1, ps.len() as int) =~= ps.drop_first());
    out
}

// ───────────────────────────── spans ─────────────────────────────

/// Token id opening a `§^`-separated piece.
pub open spec fn opening_id(part: Seq<char>) -> Seq<char> {
    part.subrange(0, id_end(part, 0))
}

/// Body text of a `§^`-separated piece after its opening token id, trimmed.
pub open spec fn opening_body(part: Seq<char>) -> Seq<char> {
    trim(part.subrange(id_end(part, 0), part.len() as int))
}

/// Closed spans `(id, trimmed body)` and the unclosed span id found in the
/// `§^`-separated pieces from index `i` on.
pub open spec fn spans_from(parts: Seq<Seq<char>>, i: int) -> (
    Seq<(Seq<char>, Seq<char>)>,
    Option<Seq<char>>,
)
    decreases parts.len() - i,
{
    if i < 1 || i >= parts.len() {
        (Seq::empty(), None)
    } else if opening_id(parts[i]).len() == 0 {
        spans_from(parts, i + 1)
    } else if i + 1 < parts.len() {
        let rest = spans_from(parts, i + 2);
        (seq![(opening_id(parts[i]), opening_body(parts[i]))] + rest.0, rest.1)
    } else {
        (Seq::empty(), Some(opening_id(parts[i])))
    }
}

/// `§^TokenID content §^` spans of `content` and the id of a trailing unclosed span.
pub open spec fn spans(content: Seq<char>) -> (Seq<(Seq<char>, Seq<char>)>, Option<Seq<char>>) {
    spans_from(split(content, span_marker()), 1)
}

pub open spec fn pair_views(v: Seq<(String, String)>) -> Seq<(Seq<char>, Seq<char>)> {
    v.map_values(|p: (String, String)| (p.0@, p.1@))
}

pub open spec fn opt_view(o: Option<String>) -> Option<Seq<char>> {
    match o {
        Some(s) => Some(s@),
        None => None,
    }
}

/// Body bounds of a piece: `(e, a, b)` with `e` the id end and `[a, b)` the trimmed body.
fn opening_bounds(part: &Vec<char>) -> (r: (usize, usize, usize))
    ensures
        r.0 == id_end(part@, 0),
        r.0 <= r.1 <= r.2 <= part.len(),
        part@.subrange(r.1 as int, r.2 as int) == opening_body(part@),
{
    let e = id_end_exec(part, 0);
    let (a, b) = trim_bounds(part, e, part.len());
    (e, a, b)
}

/// `§^TokenID content §^` spans (spec §5.2). Returns the closed spans found
/// and, if the content ends mid-span, the token id of the unclosed one.
pub fn extract_spans(content: &str) -> (r: (Vec<(String, String)>, Option<String>))
    ensures
        (pair_views(r.0@), opt_view(r.1)) == spans(content@),
{
    let v = chars_of(content);
    let sep = vec!['§', '^'];
    assert(sep@ == span_marker());
    let parts = split_exec(&v, &sep);
    let ghost ps = vviews(parts@);
    let mut spans: Vec<(String, String)> = Vec::new();
    let mut unclosed: Option<String> = None;
    let mut i: usize = 1;
    while i < parts.len()
        invariant
            1 <= i,
            ps == vviews(parts@),
            ps == split(content@, span_marker()),
            unclosed is None,
            spans_from(ps, 1).0 == pair_views(spans@) + spans_from(ps, i as int).0,
            spans_from(ps, 1).1 == spans_from(ps, i as int).1,
        decreases parts.len() - i,
    {
        let opening = &parts[i];
        assert(opening@ == ps[i as int]);
        let (e, a, b) = opening_bounds(opening);
        if e == 0 {
            i = i + 1;
            continue;
        }
        let id = string_of(slice_vec(opening, 0, e).as_slice());
        if i + 1 < parts.len() {
            let body = string_of(slice_vec(opening, a, b).as_slice());
            let ghost old = pair_views(spans@);
            spans.push((id, body));
            assert(pair_views(spans@) =~= old.push((id@, body@)));
            assert(old.push((id@, body@)) + spans_from(ps, i + 2).0 =~= old + (seq![
                (id@, body@),
            ] + spans_from(ps, i + 2).0));
            i = i + 2;
        } else {
            unclosed = Some(id);
            assert(spans_from(ps, i + 1) == (Seq::<(Seq<char>, Seq<char>)>::empty(), None::<Seq<char>>));
            assert(pair_views(spans@) + Seq::<(Seq<char>, Seq<char>)>::empty() =~= pair_views(spans@));
            return (spans, unclosed);
        }
    }
    assert(pair_views(spans@) + spans_from(ps, i as int).0 =~= pair_views(spans@));
    (spans, unclosed)
}

// ───────────────────────────── span marker stripping ─────────────────────────────

/// Text of the `§^`-separated pieces from index `i` with span markers removed.
pub open spec fn stripped_from(parts: Seq<Seq<char>>, i: int) -> Seq<char>
    decreases parts.len() - i,
{
    if i < 1 || i >= parts.len() {
        Seq::empty()
    } else if opening_id(parts[i]).len() == 0 {
        stripped_from(parts, i + 1)
    } else if i + 1 < parts.len() {
        opening_body(parts[i]) + parts[i + 1] + stripped_from(parts, i + 2)
    } else {
        opening_body(parts[i])
    }
}

/// `content` with every span's markers and opening token id removed, keeping
/// span bodies (trimmed) and the text around them.
pub open spec fn stripped(content: Seq<char>) -> Seq<char> {
    let parts = split(content, span_marker());
    parts[0] + stripped_from(parts, 1)
}

/// Clean display prose: span markers and their token ids removed.
pub fn strip_span_markers(content: &str) -> (r: String)
    ensures
        r@ == stripped(content@),
{
    let v = chars_of(content);
    let sep = vec!['§', '^'];
    assert(sep@ == span_marker());
    let parts = split_exec(&v, &sep);
    let ghost ps = vviews(parts@);
    let mut out: Vec<char> = Vec::new();
    push_all(&mut out, &parts[0]);
    assert(out@ =~= ps[0]);
    let mut i: usize = 1;
    while i < parts.len()
        invariant
            1 <= i,
            ps == vviews(parts@),
            ps == split(content@, span_marker()),
            ps.len() >= 1,
            stripped(content@) == out@ + stripped_from(ps, i as int),
        decreases parts.len() - i,
    {
        let opening = &parts[i];
        assert(opening@ == ps[i as int]);
        let (e, a, b) = opening_bounds(opening);
        if e == 0 {
            i = i + 1;
            continue;
        }
        let ghost o = out@;
        push_range(&mut out, opening, a, b);
        if i + 1 < parts.len() {
            assert(parts[i + 1]@ == ps[i + 1]);
            push_all(&mut out, &parts[i + 1]);
            assert(o + stripped_from(ps, i as int) =~= out@ + stripped_from(ps, i + 2));
            i = i + 2;
        } else {
            assert(stripped_from(ps, i + 1) =~= Seq::<char>::empty());
            assert(o + stripped_from(ps, i as int) =~= out@ + stripped_from(ps, i + 1));
            i = i + 1;
        }
    }
    assert(out@ + stripped_from(ps, i as int) =~= out@);
    string_of(out.as_slice())
}

// ───────────────────────────── raw-partition residual ─────────────────────────────

/// Pieces of text lying outside every closed span, from piece `i` on.
pub open spec fn outside_from(parts: Seq<Seq<char>>, i: int) -> Seq<Seq<char>>
    decreases parts.len() - i,
{
    if i < 1 || i >= parts.len() {
        Seq::empty()
    } else if opening_id(parts[i]).len() == 0 {
        seq![parts[i]] + outside_from(parts, i + 1)
    } else if i + 1 < parts.len() {
        seq![parts[i + 1]] + outside_from(parts, i + 2)
    } else {
        Seq::empty()
    }
}

/// The trimmed, non-empty members of `segs`, in order.
pub open spec fn trimmed_nonempty(segs: Seq<Seq<char>>) -> Seq<Seq<char>>
    decreases segs.len(),
{
    if segs.len() == 0 {
        Seq::empty()
    } else {
        let r = trimmed_nonempty(segs.drop_last());
        if trim(segs.last()).len() > 0 {
            r.push(trim(segs.last()))
        } else {
            r
        }
    }
}

/// Text outside every closed `§^…§^` span: the outside pieces trimmed,
/// empty ones dropped, joined with single spaces.
pub open spec fn residual(content: Seq<char>) -> Seq<char> {
    let parts = split(content, span_marker());
    join(trimmed_nonempty(seq![parts[0]] + outside_from(parts, 1)), seq![' '])
}

/// Raw-partition extraction: the part of `content` the AI did not mark as a span.
pub fn unmarked_residual(content: &str) -> (r: String)
    ensures
        r@ == residual(content@),
{
    let v = chars_of(content);
    let sep = vec!['§', '^'];
    assert(sep@ == span_marker());
    let parts = split_exec(&v, &sep);
    let ghost ps = vviews(parts@);
    let mut segs: Vec<Vec<char>> = Vec::new();
    segs.push(parts[0].clone());
    assert(vviews(segs@) =~= seq![ps[0]]);
    let mut i: usize = 1;
    while i < parts.len()
        invariant
            1 <= i,
            ps == vviews(parts@),
            ps == split(content@, span_marker()),
            ps.len() >= 1,
            seq![ps[0]] + outside_from(ps, 1) == vviews(segs@) + outside_from(ps, i as int),
        decreases parts.len() - i,
    {
        let opening = &parts[i];
        assert(opening@ == ps[i as int]);
        let e = id_end_exec(opening, 0);
        let ghost o = vviews(segs@);
        if e == 0 {
            segs.push(opening.clone());
            assert(vviews(segs@) =~= o.push(ps[i as int]));
            assert(o + outside_from(ps, i as int) =~= vviews(segs@) + outside_from(ps, i + 1));
            i = i + 1;
            continue;
        }
        if i + 1 < parts.len() {
            segs.push(parts[i + 1].clone());
            assert(vviews(segs@) =~= o.push(ps[i + 1]));
            assert(o + outside_from(ps, i as int) =~= vviews(segs@) + outside_from(ps, i + 2));
            i = i + 2;
        } else {
            assert(o + outside_from(ps, i as int) =~= vviews(segs@) + outside_from(ps, i + 1));
            i = i + 1;
        }
    }
    assert(vviews(segs@) + outside_from(ps, i as int) =~= vviews(segs@));
    let ghost all = vviews(segs@);
    let mut kept: Vec<Vec<char>> = Vec::new();
    let mut k: usize = 0;
    while k < segs.len()
        invariant
            k <= segs.len(),
            all == vviews(segs@),
            vviews(kept@) == trimmed_nonempty(all.subrange(0, k as int)),
        decreases segs.len() - k,
    {
        assert(all.subrange(0, k + 1).drop_last() =~= all.subrange(0, k as int));
        assert(segs[k as int]@ == all[k as int]);
        let (a, b) = trim_bounds(&segs[k], 0, segs[k].len());
        assert(segs[k as int]@.subrange(0, segs[k as int]@.len() as int) =~= all[k as int]);
        if a < b {
            let t = slice_vec(&segs[k], a, b);
            let ghost o = vviews(kept@);
            kept.push(t);
            assert(vviews(kept@) =~= o.push(t@));
        }
        k = k + 1;
    }
    assert(all.subrange(0, all.len() as int) =~= all);
    let space = vec![' '];
    let out = join_exec(&kept, &space);
    assert(space@ =~= seq![' ']);
    string_of(out.as_slice())
}

// ───────────────────────────── bare bookmarks ─────────────────────────────

/// End of a bookmark name starting at `j`: the first whitespace or `§` at or after `j`.
pub open spec fn name_end(c: Seq<char>, j: int) -> int
    decreases c.len() - j,
{
    if 0 <= j < c.len() && !(is_ws(c[j]) || c[j] == '§') {
        name_end(c, j + 1)
    } else {
        j
    }
}

pub proof fn lemma_name_end(c: Seq<char>, j: int)
    requires
        0 <= j <= c.len(),
    ensures
        j <= name_end(c, j) <= c.len(),
    decreases c.len() - j,
{
    if j < c.len() && !(is_ws(c[j]) || c[j] == '§') {
        lemma_name_end(c, j + 1);
    }
}

/// Whether `c[i]`, `c[i + 1]` is the marker `§^`.
pub open spec fn marker_at(c: Seq<char>, i: int) -> bool {
    0 <= i && i + 1 < c.len() && c[i] == '§' && c[i + 1] == '^'
}

/// Bare bookmarks `(name, position)` found scanning `c` from position `i`;
/// the position is the character index right after the closing `§^`.
pub open spec fn bookmarks_from(c: Seq<char>, i: int) -> Seq<(Seq<char>, int)>
    decreases c.len() - i,
{
    if i < 0 || i >= c.len() {
        Seq::empty()
    } else if marker_at(c, i) {
        let st = i + 2;
        let ne = name_end(c, st);
        if st < ne <= c.len() {
            if marker_at(c, ne) {
                seq![(c.subrange(st, ne), ne + 2)] + bookmarks_from(c, ne + 2)
            } else {
                match find_from(c, span_marker(), ne) {
                    Some(k) => if ne <= k && k + 2 <= c.len() {
                        bookmarks_from(c, k + 2)
                    } else {
                        Seq::empty()
                    },
                    None => bookmarks_from(c, i + 1),
                }
            }
        } else {
            bookmarks_from(c, i + 1)
        }
    } else {
        bookmarks_from(c, i + 1)
    }
}

/// The bookmarks `s` of text `c` with each character index replaced by the
/// byte offset of that index.
pub open spec fn byte_offsets(c: Seq<char>, s: Seq<(Seq<char>, int)>) -> Seq<(Seq<char>, int)> {
    s.map_values(|b: (Seq<char>, int)| (b.0, crate::text::byte_len(c.take(b.1)) as int))
}

/// Bare bookmarks (`§^name§^` with nothing between the markers) of
/// `content`, each with the byte offset right after its closing `§^`.
pub open spec fn bare_bookmarks(content: Seq<char>) -> Seq<(Seq<char>, int)> {
    byte_offsets(content, bookmarks_from(content, 0))
}

pub open spec fn bookmark_views(v: Seq<(String, usize)>) -> Seq<(Seq<char>, int)> {
    v.map_values(|p: (String, usize)| (p.0@, p.1 as int))
}

fn name_end_exec(c: &Vec<char>, j: usize) -> (r: usize)
    requires
        j <= c.len(),
    ensures
        r == name_end(c@, j as int),
        j <= r <= c.len(),
{
    proof {
        lemma_name_end(c@, j as int);
    }
    let mut k = j;
    while k < c.len() && !(char_is_ws(c[k]) || c[k] == '§')
        invariant
            j <= k <= c.len(),
            name_end(c@, j as int) == name_end(c@, k as int),
        decreases c.len() - k,
    {
        k = k + 1;
    }
    k
}

/// Extract bare bookmarks (`§^name§^` with no content between markers), as
/// `(name, byte_offset)` pairs in order, the offset being the byte position
/// right after the closing `§^`.
pub fn extract_bare_bookmarks(content: &str) -> (r: Vec<(String, usize)>)
    ensures
        bookmark_views(r@) == bare_bookmarks(content@),
{
    let total = crate::text::str_byte_len(content);
    let c = chars_of(content);
    let marker = vec!['§', '^'];
    assert(marker@ == span_marker());
    let mut out: Vec<(String, usize)> = Vec::new();
    let mut i: usize = 0;
    while i < c.len()
        invariant
            marker@ == span_marker(),
            bare_bookmarks(content@) == bookmark_views(out@) + byte_offsets(c@, bookmarks_from(c@, i as int)),
            c@ == content@,
            crate::text::byte_len(c@) == total,
        decreases c.len() - i,
    {
        let ghost o = bookmark_views(out@);
        if i + 1 < c.len() && c[i] == '§' && c[i + 1] == '^' {
            let start = i + 2;
            let ne = name_end_exec(&c, start);
            if ne > start {
                if ne < c.len() - 1 && c[ne] == '§' && c[ne + 1] == '^' {
                    let name = string_of(slice_vec(&c, start, ne).as_slice());
                    let off = crate::ranges::prefix_bytes(&c, ne + 2);
                    out.push((name, off));
                    let ghost rest = bookmarks_from(c@, ne + 2);
                    assert(bookmarks_from(c@, i as int) == seq![(c@.subrange(start as int, ne as int), ne + 2)] + rest);
                    assert(byte_offsets(c@, bookmarks_from(c@, i as int)) =~= seq![(name@, off as int)] + byte_offsets(c@, rest));
                    assert(bookmark_views(out@) =~= o.push((name@, off as int)));
                    assert(o + byte_offsets(c@, bookmarks_from(c@, i as int)) =~= bookmark_views(out@)
                        + byte_offsets(c@, rest));
                    i = ne + 2;
                    continue;
                }
                let f = find_from_exec(&c, &marker, ne);
                proof {
                    lemma_find_from(c@, span_marker(), ne as int);
                }
                if let Some(k) = f {
                    i = k + 2;
                    continue;
                }
            }
        }
        i = i + 1;
    }
    assert(byte_offsets(c@, bookmarks_from(c@, i as int)) =~= Seq::<(Seq<char>, int)>::empty());
    assert(bookmark_views(out@) + byte_offsets(c@, bookmarks_from(c@, i as int)) =~= bookmark_views(out@));
    out
}

/// A name character: neither whitespace nor `§`.
pub open spec fn is_name_char(c: char) -> bool {
    !is_ws(c) && c != '§'
}

proof fn lemma_name_end_chars(c: Seq<char>, j: int)
    requires
        0 <= j <= c.len(),
    ensures
        forall|m: int| j <= m < name_end(c, j) ==> is_name_char(#[trigger] c[m]),
    decreases c.len() - j,
{
    if j < c.len() && !(is_ws(c[j]) || c[j] == '§') {
        lemma_name_end_chars(c, j + 1);
    }
}

/// Every entry of `bookmarks_from(c, i)` lies after `i` and within `c`, has
/// a non-empty name of name characters, and the positions strictly increase.
proof fn lemma_bookmarks_shape(c: Seq<char>, i: int)
    requires
        0 <= i,
    ensures
        forall|k: int|
            0 <= k < bookmarks_from(c, i).len() ==> {
                let b = #[trigger] bookmarks_from(c, i)[k];
                &&& i < b.1 <= c.len()
                &&& b.0.len() > 0
                &&& forall|m: int| 0 <= m < b.0.len() ==> is_name_char(#[trigger] b.0[m])
            },
        forall|k: int, l: int|
            0 <= k < l < bookmarks_from(c, i).len() ==> (#[trigger] bookmarks_from(c, i)[k]).1
                < (#[trigger] bookmarks_from(c, i)[l]).1,
    decreases c.len() - i,
{
    if i >= c.len() {
    } else if marker_at(c, i) {
        let st = i + 2;
        lemma_name_end(c, st);
        let ne = name_end(c, st);
        if st < ne <= c.len() {
            if marker_at(c, ne) {
                lemma_name_end_chars(c, st);
                lemma_bookmarks_shape(c, ne + 2);
                let head = (c.subrange(st, ne), ne + 2);
                let rest = bookmarks_from(c, ne + 2);
                assert(bookmarks_from(c, i) == seq![head] + rest);
                assert forall|k: int| 0 <= k < bookmarks_from(c, i).len() implies {
                    let b = #[trigger] bookmarks_from(c, i)[k];
                    &&& i < b.1 <= c.len()
                    &&& b.0.len() > 0
                    &&& forall|m: int| 0 <= m < b.0.len() ==> is_name_char(#[trigger] b.0[m])
                } by {
                    if k == 0 {
                        assert(bookmarks_from(c, i)[0] == head);
                        assert forall|m: int| 0 <= m < head.0.len() implies is_name_char(
                            #[trigger] head.0[m],
                        ) by {
                            assert(head.0[m] == c[st + m]);
                        }
                    } else {
                        assert(bookmarks_from(c, i)[k] == rest[k - 1]);
                    }
                }
                assert forall|k: int, l: int|
                    0 <= k < l < bookmarks_from(c, i).len() implies (#[trigger] bookmarks_from(
                    c,
                    i,
                )[k]).1 < (#[trigger] bookmarks_from(c, i)[l]).1 by {
                    assert(bookmarks_from(c, i)[l] == rest[l - 1]);
                    if k == 0 {
                        assert(bookmarks_from(c, i)[0] == head);
                    } else {
                        assert(bookmarks_from(c, i)[k] == rest[k - 1]);
                    }
                }
            } else {
                lemma_find_from(c, span_marker(), ne);
                match find_from(c, span_marker(), ne) {
                    Some(k) => {
                        if ne <= k && k + 2 <= c.len() {
                            lemma_bookmarks_shape(c, k + 2);
                            assert(bookmarks_from(c, i) == bookmarks_from(c, k + 2));
                        } else {
                            assert(bookmarks_from(c, i).len() == 0);
                        }
                    },
                    None => {
                        lemma_bookmarks_shape(c, i + 1);
                        assert(bookmarks_from(c, i) == bookmarks_from(c, i + 1));
                    },
                }
            }
        } else {
            lemma_bookmarks_shape(c, i + 1);
            assert(bookmarks_from(c, i) == bookmarks_from(c, i + 1));
        }
    } else {
        lemma_bookmarks_shape(c, i + 1);
        assert(bookmarks_from(c, i) == bookmarks_from(c, i + 1));
    }
}

proof fn lemma_encode_len(x: Seq<char>)
    ensures
        crate::text::byte_len(x) >= x.len(),
    decreases x.len(),
{
    if x.len() > 0 {
        lemma_encode_len(x.drop_first());
    }
}

/// A longer prefix takes more bytes.
proof fn lemma_prefix_bytes_increase(s: Seq<char>, p: int, q: int)
    requires
        0 <= p < q <= s.len(),
    ensures
        byte_len(s.take(p)) < byte_len(s.take(q)),
{
    assert(s.take(q) =~= s.take(p) + s.subrange(p, q));
    crate::text::lemma_encode_concat(s.take(p), s.subrange(p, q));
    lemma_encode_len(s.subrange(p, q));
}

/// The bare bookmarks of a text come in strictly increasing byte offset, and
/// each has a non-empty name holding no whitespace and no `§`.
pub proof fn law_bare_bookmarks_are_ordered_and_well_named(content: Seq<char>)
    ensures
        forall|k: int, l: int|
            0 <= k < l < bare_bookmarks(content).len() ==> (#[trigger] bare_bookmarks(content)[k]).1
                < (#[trigger] bare_bookmarks(content)[l]).1,
        forall|k: int|
            0 <= k < bare_bookmarks(content).len() ==> (#[trigger] bare_bookmarks(content)[k]).0.len()
                > 0 && forall|m: int|
                0 <= m < bare_bookmarks(content)[k].0.len() ==> is_name_char(
                    #[trigger] bare_bookmarks(content)[k].0[m],
                ),
{
    let bs = bookmarks_from(content, 0);
    lemma_bookmarks_shape(content, 0);
    assert forall|k: int, l: int|
        0 <= k < l < bare_bookmarks(content).len() implies (#[trigger] bare_bookmarks(content)[k]).1
        < (#[trigger] bare_bookmarks(content)[l]).1 by {
        assert(bs[k].1 < bs[l].1);
        lemma_prefix_bytes_increase(content, bs[k].1, bs[l].1);
    }
    assert forall|k: int| 0 <= k < bare_bookmarks(content).len() implies (#[trigger] bare_bookmarks(
        content,
    )[k]).0.len() > 0 && forall|m: int|
        0 <= m < bare_bookmarks(content)[k].0.len() ==> is_name_char(
            #[trigger] bare_bookmarks(content)[k].0[m],
        ) by {
        assert(bare_bookmarks(content)[k].0 == bs[k].0);
    }
}

// ───────────────────────────── span references ─────────────────────────────

/// Strictly increasing in lexicographic order (so sorted and duplicate-free).
pub open spec fn sorted_unique(s: Seq<Seq<char>>) -> bool {
    forall|i: int, j: int| 0 <= i < j < s.len() ==> lex_lt(s[i], s[j])
}

/// Every id referenced by a `§^` marker: closed span ids, the unclosed span id
/// and bare bookmark names.
pub open spec fn span_ref_candidates(content: Seq<char>) -> Seq<Seq<char>> {
    let sp = spans(content);
    let closed = sp.0.map_values(|p: (Seq<char>, Seq<char>)| p.0);
    let unclosed = match sp.1 {
        Some(u) => seq![u],
        None => Seq::empty(),
    };
    closed + unclosed + bare_bookmarks(content).map_values(|b: (Seq<char>, int)| b.0)
}

/// Inserts `x` into the sorted, duplicate-free `v`.
fn insert_sorted(v: &mut Vec<Vec<char>>, x: Vec<char>)
    requires
        sorted_unique(vviews(old(v)@)),
    ensures
        sorted_unique(vviews(final(v)@)),
        forall|y: Seq<char>| vviews(final(v)@).contains(y) <==> (vviews(old(v)@).contains(y) || y == x@),
{
    let ghost o = vviews(v@);
    let mut p: usize = 0;
    while p < v.len() && lex_compare(&v[p], &x) == -1
        invariant
            p <= v.len(),
            o == vviews(v@),
            forall|i: int| 0 <= i < p ==> lex_lt(o[i], x@),
        decreases v.len() - p,
    {
        p = p + 1;
    }
    if p < v.len() && lex_compare(&v[p], &x) == 0 {
        assert(o[p as int] == x@);
        return;
    }
    proof {
        if p < v.len() {
            lemma_lex_trichotomy(o[p as int], x@);
            assert forall|q: int| p <= q < o.len() implies lex_lt(x@, o[q]) by {
                if q > p {
                    lemma_lex_transitive(x@, o[p as int], o[q]);
                }
            }
        }
    }
    let ghost xv = x@;
    v.insert(p, x);
    let ghost n = vviews(v@);
    assert(n =~= o.insert(p as int, xv));
    assert forall|i: int, j: int| 0 <= i < j < n.len() implies lex_lt(n[i], n[j]) by {
        if j < p {
        } else if i < p && j == p {
        } else if i < p {
            lemma_lex_transitive(n[i], xv, n[j]);
        } else if i == p {
        } else {
        }
    }
    assert forall|y: Seq<char>| n.contains(y) <==> (o.contains(y) || y == xv) by {
        if n.contains(y) {
            let i = choose|i: int| 0 <= i < n.len() && n[i] == y;
            if i < p {
                assert(o[i] == y);
            } else if i > p {
                assert(o[i - 1] == y);
            }
        }
        if o.contains(y) {
            let i = choose|i: int| 0 <= i < o.len() && o[i] == y;
            if i < p {
                assert(n[i] == y);
            } else {
                assert(n[i + 1] == y);
            }
        }
        if y == xv {
            assert(n[p as int] == y);
        }
    }
}

proof fn lemma_push_contains(s: Seq<Seq<char>>, x: Seq<char>, y: Seq<char>)
    ensures
        s.push(x).contains(y) <==> (s.contains(y) || y == x),
{
    if s.contains(y) {
        let k = choose|k: int| 0 <= k < s.len() && s[k] == y;
        assert(s.push(x)[k] == y);
    }
    if y == x {
        assert(s.push(x)[s.len() as int] == y);
    }
    if s.push(x).contains(y) {
        let k = choose|k: int| 0 <= k < s.push(x).len() && s.push(x)[k] == y;
        if k < s.len() {
            assert(s[k] == y);
        }
    }
}

/// Records candidate `id` (already in `seen`'s order) in the sorted id set.
fn add_candidate(ids: Vec<Vec<char>>, id: Vec<char>, Ghost(seen): Ghost<Seq<Seq<char>>>) -> (r: Vec<
    Vec<char>,
>)
    requires
        sorted_unique(vviews(ids@)),
        forall|y: Seq<char>| vviews(ids@).contains(y) <==> (y.len() > 0 && seen.contains(y)),
    ensures
        sorted_unique(vviews(r@)),
        forall|y: Seq<char>| vviews(r@).contains(y) <==> (y.len() > 0 && seen.push(id@).contains(
            y,
        )),
{
    let ghost xv = id@;
    let ghost o = vviews(ids@);
    let mut ids = ids;
    if id.len() > 0 {
        insert_sorted(&mut ids, id);
    }
    assert forall|y: Seq<char>| vviews(ids@).contains(y) <==> (y.len() > 0 && seen.push(
        xv,
    ).contains(y)) by {
        lemma_push_contains(seen, xv, y);
        assert(o.contains(y) <==> (y.len() > 0 && seen.contains(y)));
    }
    ids
}

/// The candidates of `span_ref_candidates` that are non-empty, as a set.
pub open spec fn same_members(s: Seq<Seq<char>>, cands: Seq<Seq<char>>) -> bool {
    forall|y: Seq<char>|
        #![trigger s.contains(y)]
        #![trigger cands.contains(y)]
        s.contains(y) <==> (y.len() > 0 && cands.contains(y))
}

/// Two strictly increasing sequences with the same members are equal.
pub proof fn lemma_sorted_unique_eq(a: Seq<Seq<char>>, b: Seq<Seq<char>>)
    requires
        sorted_unique(a),
        sorted_unique(b),
        forall|y: Seq<char>| #![trigger a.contains(y)] #![trigger b.contains(y)] a.contains(y) <==> b.contains(y),
    ensures
        a == b,
    decreases a.len(),
{
    if a.len() == 0 {
        if b.len() > 0 {
            assert(b.contains(b[0]));
        }
        assert(a =~= b);
    } else {
        assert(a.contains(a[0]));
        assert(b.contains(a[0]));
        let j = choose|j: int| 0 <= j < b.len() && b[j] == a[0];
        assert(b.contains(b[0]));
        assert(a.contains(b[0]));
        let i = choose|i: int| 0 <= i < a.len() && a[i] == b[0];
        if j > 0 {
            lemma_lex_trichotomy(a[0], b[0]);
            assert(lex_lt(b[0], b[j]));
            if i > 0 {
                assert(lex_lt(a[0], a[i]));
            }
        }
        assert(a[0] == b[0]);
        let a1 = a.drop_first();
        let b1 = b.drop_first();
        assert forall|y: Seq<char>| #![trigger a1.contains(y)] #![trigger b1.contains(y)] a1.contains(y) <==> b1.contains(y) by {
            if a1.contains(y) {
                let k = choose|k: int| 0 <= k < a1.len() && a1[k] == y;
                assert(a[k + 1] == y);
                assert(lex_lt(a[0], a[k + 1]));
                lemma_lex_trichotomy(y, y);
                assert(b.contains(y));
                let m = choose|m: int| 0 <= m < b.len() && b[m] == y;
                assert(m != 0);
                assert(b1[m - 1] == y);
            }
            if b1.contains(y) {
                let k = choose|k: int| 0 <= k < b1.len() && b1[k] == y;
                assert(b[k + 1] == y);
                assert(lex_lt(b[0], b[k + 1]));
                lemma_lex_trichotomy(y, y);
                assert(a.contains(y));
                let m = choose|m: int| 0 <= m < a.len() && a[m] == y;
                assert(m != 0);
                assert(a1[m - 1] == y);
            }
        }
        lemma_sorted_unique_eq(a1, b1);
        assert(a =~= seq![a[0]] + a1);
        assert(b =~= seq![b[0]] + b1);
    }
}

/// The span references of `content`: every non-empty id referenced by a `§^`
/// marker, sorted and without duplicates.
pub open spec fn span_refs(content: Seq<char>) -> Seq<Seq<char>> {
    choose|s: Seq<Seq<char>>| sorted_unique(s) && same_members(s, span_ref_candidates(content))
}

/// Every token id referenced by `§^` spans (closed, unclosed) and bare
/// bookmarks in `content`, sorted and deduplicated.
pub fn extract_span_refs(content: &str) -> (r: Vec<String>)
    ensures
        sviews(r@) == span_refs(content@),
        sorted_unique(sviews(r@)),
        forall|y: Seq<char>| sviews(r@).contains(y) <==> (y.len() > 0 && span_ref_candidates(
            content@,
        ).contains(y)),
{
    let (spans, unclosed) = extract_spans(content);
    let marks = extract_bare_bookmarks(content);
    let ghost cands = span_ref_candidates(content@);
    let ghost closed = pair_views(spans@).map_values(|p: (Seq<char>, Seq<char>)| p.0);
    let ghost unc = match opt_view(unclosed) {
        Some(u) => seq![u],
        None => Seq::<Seq<char>>::empty(),
    };
    let ghost bm = bookmark_views(marks@).map_values(|b: (Seq<char>, int)| b.0);
    assert(cands =~= closed + unc + bm);
    // `seen` holds the candidates processed so far, as a plain sequence.
    let ghost mut seen: Seq<Seq<char>> = Seq::empty();
    let mut ids: Vec<Vec<char>> = Vec::new();
    let mut i: usize = 0;
    while i < spans.len()
        invariant
            i <= spans.len(),
            closed == pair_views(spans@).map_values(|p: (Seq<char>, Seq<char>)| p.0),
            seen == closed.subrange(0, i as int),
            sorted_unique(vviews(ids@)),
            forall|y: Seq<char>|
                #![trigger vviews(ids@).contains(y)]
                #![trigger seen.contains(y)]
                vviews(ids@).contains(y) <==> (y.len() > 0 && seen.contains(y)),
        decreases spans.len() - i,
    {
        let id = chars_of(spans[i].0.as_str());
        assert(id@ == closed[i as int]);
        let ghost idv = id@;
        ids = add_candidate(ids, id, Ghost(seen));
        proof {
            seen = seen.push(idv);
            assert(seen =~= closed.subrange(0, i + 1));
        }
        i = i + 1;
    }
    assert(seen =~= closed);
    if let Some(u) = &unclosed {
        let id = chars_of(u.as_str());
        let ghost idv = id@;
        ids = add_candidate(ids, id, Ghost(seen));
        proof {
            seen = seen.push(idv);
        }
    }
    assert(seen =~= closed + unc);
    let ghost base = seen;
    assert(base + bm.subrange(0, 0) =~= base);
    let mut j: usize = 0;
    while j < marks.len()
        invariant
            j <= marks.len(),
            bm == bookmark_views(marks@).map_values(|b: (Seq<char>, int)| b.0),
            seen == base + bm.subrange(0, j as int),
            sorted_unique(vviews(ids@)),
            forall|y: Seq<char>|
                #![trigger vviews(ids@).contains(y)]
                #![trigger seen.contains(y)]
                vviews(ids@).contains(y) <==> (y.len() > 0 && seen.contains(y)),
        decreases marks.len() - j,
    {
        let id = chars_of(marks[j].0.as_str());
        assert(id@ == bm[j as int]);
        let ghost idv = id@;
        ids = add_candidate(ids, id, Ghost(seen));
        proof {
            seen = seen.push(idv);
            assert(seen =~= base + bm.subrange(0, j + 1));
        }
        j = j + 1;
    }
    assert(seen =~= cands);
    assert(base + bm.subrange(0, j as int) =~= base + bm);
    let mut out: Vec<String> = Vec::new();
    let mut k: usize = 0;
    while k < ids.len()
        invariant
            k <= ids.len(),
            sviews(out@) == vviews(ids@).subrange(0, k as int),
        decreases ids.len() - k,
    {
        let s = string_of(ids[k].as_slice());
        assert(s@ == vviews(ids@)[k as int]);
        let ghost o = sviews(out@);
        out.push(s);
        assert(sviews(out@) =~= o.push(s@));
        assert(vviews(ids@).subrange(0, k + 1) =~= vviews(ids@).subrange(0, k as int).push(
            vviews(ids@)[k as int],
        ));
        k = k + 1;
    }
    assert(sviews(out@) =~= vviews(ids@));
    proof {
        let cands = span_ref_candidates(content@);
        let rs = sviews(out@);
        assert(seen =~= cands);
        assert(same_members(rs, cands));
        let c = span_refs(content@);
        assert(sorted_unique(c) && same_members(c, cands));
        assert forall|y: Seq<char>| #![trigger rs.contains(y)] #![trigger c.contains(y)] rs.contains(y) <==> c.contains(y) by {
            assert(rs.contains(y) <==> (y.len() > 0 && cands.contains(y)));
            assert(c.contains(y) <==> (y.len() > 0 && cands.contains(y)));
        }
        lemma_sorted_unique_eq(rs, c);
    }
    out
}

// ───────────────────────────── malformed sigils ─────────────────────────────

/// Reason for a `§` followed by a character that starts no sigil.
pub open spec fn stray_sigil_reason(next: char, pos: nat) -> Seq<char> {
    "malformed sigil: §"@ + seq![next] + " at position "@ + dec(pos)
        + " — expected §!/§^/§#"@
}

/// Reason for a `§` that ends the content.
pub open spec fn bare_sigil_reason(pos: nat) -> Seq<char> {
    "malformed sigil: bare § at end of content at position "@ + dec(pos)
}

/// First malformed `§` sigil at or after character `k` of `c`: the reason,
/// with the byte position of the `§`.
pub open spec fn sigil_error_from(c: Seq<char>, k: int) -> Option<Seq<char>>
    decreases c.len() - k,
{
    if k < 0 || k >= c.len() {
        None
    } else if c[k] == '§' {
        if k + 1 < c.len() {
            if c[k + 1] == '!' || c[k + 1] == '^' || c[k + 1] == '#' {
                sigil_error_from(c, k + 2)
            } else {
                Some(stray_sigil_reason(c[k + 1], byte_len(c.take(k))))
            }
        } else {
            Some(bare_sigil_reason(byte_len(c.take(k))))
        }
    } else {
        sigil_error_from(c, k + 1)
    }
}

/// Every `§` in `content` must begin one of the sigils `§!`, `§^` or `§#`.
pub fn check_malformed_sigils(content: &str) -> (r: Result<(), ComplianceFailure>)
    ensures
        r is Ok <==> sigil_error_from(content@, 0) is None,
        r matches Err(f) ==> sigil_error_from(content@, 0) == Some(f.reason@),
{
    let total = str_byte_len(content);
    let c = chars_of(content);
    let mut k: usize = 0;
    let mut pos: usize = 0;
    proof {
        assert(c@.take(0) =~= Seq::<char>::empty());
        assert(vstd::utf8::encode_utf8(Seq::<char>::empty()) =~= Seq::<u8>::empty());
    }
    while k < c.len()
        invariant
            c@ == content@,
            k <= c.len(),
            pos == byte_len(c@.take(k as int)),
            total == byte_len(c@),
            sigil_error_from(c@, 0) == sigil_error_from(c@, k as int),
        decreases c.len() - k,
    {
        proof {
            lemma_encode_push(c@.take(k as int), c@[k as int]);
            assert(c@.take(k + 1) =~= c@.take(k as int).push(c@[k as int]));
            lemma_byte_len_prefix(c@, k + 1);
        }
        if c[k] == '§' {
            if k + 1 < c.len() {
                let next = c[k + 1];
                if next == '!' || next == '^' || next == '#' {
                    let w = char_width(c[k]);
                    let w2 = char_width(next);
                    proof {
                        lemma_encode_push(c@.take(k + 1), c@[k + 1]);
                        assert(c@.take(k + 2) =~= c@.take(k + 1).push(c@[k + 1]));
                        lemma_byte_len_prefix(c@, k + 2);
                    }
                    pos = pos + w + w2;
                    k = k + 2;
                    continue;
                }
                let mut msg = chars_of("malformed sigil: §");
                msg.push(next);
                push_all(&mut msg, &chars_of(" at position "));
                push_dec(&mut msg, pos as u64);
                push_all(&mut msg, &chars_of(" — expected §!/§^/§#"));
                return Err(ComplianceFailure { reason: string_of(msg.as_slice()) });
            }
            let mut msg = chars_of("malformed sigil: bare § at end of content at position ");
            push_dec(&mut msg, pos as u64);
            return Err(ComplianceFailure { reason: string_of(msg.as_slice()) });
        }
        let w = char_width(c[k]);
        pos = pos + w;
        k = k + 1;
    }
    Ok(())
}


// ───────────────────────────── laws ─────────────────────────────

/// The token id read at the start of a text is its longest prefix made of
/// id characters: every character of it is one, and the character after
/// it (if any) is not.
pub proof fn law_token_id_is_longest_id_prefix(s: Seq<char>)
    ensures
        token_id_of(s).len() <= s.len(),
        token_id_of(s) == s.take(token_id_of(s).len() as int),
        forall|k: int| 0 <= k < token_id_of(s).len() ==> is_id_char(#[trigger] token_id_of(s)[k]),
        token_id_of(s).len() < s.len() ==> !is_id_char(s[token_id_of(s).len() as int]),
{
    lemma_id_end(s, 0);
    assert(token_id_of(s) =~= s.take(id_end(s, 0)));
    assert forall|k: int| 0 <= k < token_id_of(s).len() implies is_id_char(#[trigger] token_id_of(s)[k]) by {
        assert(token_id_of(s)[k] == s[k]);
    }
}

pub proof fn lemma_split_without_pattern(s: Seq<char>, pat: Seq<char>)
    requires
        pat.len() > 0,
        !crate::text::contains(s, pat),
    ensures
        split(s, pat) == seq![s],
{
    crate::text::lemma_contains_find(s, pat);
    assert(s.subrange(0, s.len() as int) =~= s);
}

/// Text without any `§^` marker has no span: stripping markers leaves it as
/// it is, and all of it (trimmed) is unmarked residual.
pub proof fn law_text_without_markers_is_unmarked(content: Seq<char>)
    requires
        !crate::text::contains(content, span_marker()),
    ensures
        spans(content) == (Seq::<(Seq<char>, Seq<char>)>::empty(), None::<Seq<char>>),
        stripped(content) == content,
        residual(content) == trim(content),
{
    lemma_split_without_pattern(content, span_marker());
    let parts = split(content, span_marker());
    assert(parts.len() == 1);
    assert(stripped(content) =~= content);
    let segs = seq![parts[0]] + outside_from(parts, 1);
    assert(segs =~= seq![content]);
    assert(segs.drop_last() =~= Seq::<Seq<char>>::empty());
    assert(trimmed_nonempty(segs.drop_last()) == Seq::<Seq<char>>::empty());
    assert(segs.last() == content);
    if trim(content).len() > 0 {
        assert(trimmed_nonempty(segs) =~= seq![trim(content)]);
    } else {
        assert(trimmed_nonempty(segs) =~= Seq::<Seq<char>>::empty());
    }
}


/// A well-formed token id: non-empty, of ASCII alphanumerics, `_` and `-`.
pub open spec fn well_formed_id(id: Seq<char>) -> bool {
    id.len() > 0 && forall|k: int| 0 <= k < id.len() ==> is_id_char(#[trigger] id[k])
}

proof fn lemma_inline_refs_of_well_formed(parts: Seq<Seq<char>>)
    ensures
        forall|k: int| 0 <= k < inline_refs_of(parts).len() ==> well_formed_id(#[trigger] inline_refs_of(parts)[k]),
    decreases parts.len(),
{
    if parts.len() > 0 {
        lemma_inline_refs_of_well_formed(parts.drop_last());
        let part = parts.last();
        let id = inline_ref_of(part);
        if part.len() > 0 && part[0] == '!' {
            lemma_id_end(part, 1);
            assert forall|k: int| 0 <= k < id.len() implies is_id_char(#[trigger] id[k]) by {
                assert(id[k] == part[k + 1]);
            }
        }
        let prev = inline_refs_of(parts.drop_last());
        if id.len() > 0 {
            assert forall|k: int| 0 <= k < prev.push(id).len() implies well_formed_id(#[trigger] prev.push(id)[k]) by {
                if k < prev.len() {
                    assert(prev.push(id)[k] == prev[k]);
                }
            }
        }
    }
}

/// Every inline reference of a text is a well-formed token id: non-empty,
/// of ASCII alphanumerics, `_` and `-`.
pub proof fn law_inline_refs_are_well_formed(content: Seq<char>)
    ensures
        forall|k: int| 0 <= k < inline_refs(content).len() ==> well_formed_id(#[trigger] inline_refs(content)[k]),
{
    lemma_inline_refs_of_well_formed(split(content, section_sign()).drop_first());
}

/// The sigil rule, character by character: every `§` from position `k` on
/// is followed by `!`, `^` or `#`.
pub open spec fn sigils_well_formed_from(c: Seq<char>, k: int) -> bool {
    forall|i: int|
        k <= i < c.len() && #[trigger] c[i] == '§' ==> i + 1 < c.len() && (c[i + 1] == '!' || c[i + 1]
            == '^' || c[i + 1] == '#')
}

proof fn lemma_sigil_error_from(c: Seq<char>, k: int)
    requires
        0 <= k,
    ensures
        (sigil_error_from(c, k) is None) == sigils_well_formed_from(c, k),
        sigil_error_from(c, k) matches Some(m) ==> crate::text::starts_with(m, "malformed sigil"@),
    decreases c.len() - k,
{
    reveal_strlit("malformed sigil");
    reveal_strlit("malformed sigil: §");
    reveal_strlit("malformed sigil: bare § at end of content at position ");
    if k >= c.len() {
    } else if c[k] == '§' {
        if k + 1 < c.len() && (c[k + 1] == '!' || c[k + 1] == '^' || c[k + 1] == '#') {
            lemma_sigil_error_from(c, k + 2);
            if sigils_well_formed_from(c, k + 2) {
                assert forall|i: int|
                    k <= i < c.len() && #[trigger] c[i] == '§' implies i + 1 < c.len() && (c[i + 1] == '!'
                        || c[i + 1] == '^' || c[i + 1] == '#') by {
                    if i == k + 1 {
                        assert(c[k + 1] != '§');
                    }
                }
            } else {
                let i = choose|i: int|
                    !(k + 2 <= i < c.len() && #[trigger] c[i] == '§' ==> i + 1 < c.len() && (c[i + 1] == '!'
                        || c[i + 1] == '^' || c[i + 1] == '#'));
                assert(!sigils_well_formed_from(c, k));
            }
        } else {
            assert(!sigils_well_formed_from(c, k)) by {
                assert(c[k] == '§');
            }
            if k + 1 < c.len() {
                let m = stray_sigil_reason(c[k + 1], byte_len(c.take(k)));
                assert(m.subrange(0, 15) =~= "malformed sigil"@);
            } else {
                let m = bare_sigil_reason(byte_len(c.take(k)));
                assert(m.subrange(0, 15) =~= "malformed sigil"@);
            }
        }
    } else {
        lemma_sigil_error_from(c, k + 1);
        if sigils_well_formed_from(c, k + 1) {
            assert forall|i: int|
                k <= i < c.len() && #[trigger] c[i] == '§' implies i + 1 < c.len() && (c[i + 1] == '!' || c[i
                    + 1] == '^' || c[i + 1] == '#') by {
                if i == k {
                    assert(c[k] != '§');
                }
            }
        } else {
            let i = choose|i: int|
                !(k + 1 <= i < c.len() && #[trigger] c[i] == '§' ==> i + 1 < c.len() && (c[i + 1] == '!' || c[i
                    + 1] == '^' || c[i + 1] == '#'));
            assert(!sigils_well_formed_from(c, k));
        }
    }
}

/// The sigil check passes exactly when every `§` of the text is followed by
/// `!`, `^` or `#`; a failure's reason starts with `malformed sigil`.
pub proof fn law_sigil_check_is_the_character_rule(content: Seq<char>)
    ensures
        (sigil_error_from(content, 0) is None) <==> forall|i: int|
            0 <= i < content.len() && #[trigger] content[i] == '§' ==> i + 1 < content.len() && (content[i
                + 1] == '!' || content[i + 1] == '^' || content[i + 1] == '#'),
        sigil_error_from(content, 0) matches Some(m) ==> crate::text::starts_with(m, "malformed sigil"@),
{
    lemma_sigil_error_from(content, 0);
}

} // verus!
