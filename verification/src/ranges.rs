//! Range specs `[namespace:]bookmark[:offset]→[namespace:]bookmark[:offset]`
//! and their resolution against a source token's text.

use vstd::prelude::*;
use crate::text::{
    parse_usize, parse_usize_range,
    byte_len, chars_of, contains, dec, find_from, find_from_exec, is_digit, lemma_byte_len_prefix,
    lemma_encode_push, lemma_find_from, match_at, push_all, push_dec, slice_vec, starts_with,
    starts_with_exec, str_byte_len, string_of, trim, trim_bounds, char_width, find_exec,
};
use crate::types::TokenRange;

verus! {

// ───────────────────────────── range positions ─────────────────────────────

/// A position `[namespace:]bookmark[:offset]`; an empty namespace means the
/// current turn's context.
#[derive(Debug, Clone, PartialEq)]
pub struct RangePosition {
    pub namespace: String,
    pub bookmark: String,
    pub offset: usize,
}

/// Text from `start` to `end`.
#[derive(Debug, Clone, PartialEq)]
pub struct RangeSpec {
    pub start: RangePosition,
    pub end: RangePosition,
}

/// `(namespace, bookmark, offset)` of a position.
pub open spec fn pos_view(p: RangePosition) -> (Seq<char>, Seq<char>, nat) {
    (p.namespace@, p.bookmark@, p.offset as nat)
}

pub open spec fn colon() -> Seq<char> {
    seq![':']
}

/// The position a string denotes, if any. After trimming: no colon means a
/// bare bookmark; one colon means `bookmark:offset` when the second piece
/// parses as a number and `namespace:bookmark` otherwise; two or more colons
/// mean `namespace:bookmark:rest` with `rest` parsed as the offset (0 when
/// it does not parse). Empty pieces are rejected.
pub open spec fn range_position(s: Seq<char>) -> Option<(Seq<char>, Seq<char>, nat)> {
    let t = trim(s);
    if t.len() == 0 {
        None
    } else {
        match find_from(t, colon(), 0) {
            None => Some((Seq::empty(), t, 0)),
            Some(c1) => {
                let first = t.subrange(0, c1);
                match find_from(t, colon(), c1 + 1) {
                    None => {
                        let second = t.subrange(c1 + 1, t.len() as int);
                        if first.len() == 0 || second.len() == 0 {
                            None
                        } else {
                            match parse_usize(second) {
                                Some(n) => Some((Seq::empty(), first, n)),
                                None => Some((first, second, 0)),
                            }
                        }
                    },
                    Some(c2) => {
                        let bm = t.subrange(c1 + 1, c2);
                        let off = match parse_usize(t.subrange(c2 + 1, t.len() as int)) {
                            Some(n) => n,
                            None => 0,
                        };
                        if first.len() == 0 || bm.len() == 0 {
                            None
                        } else {
                            Some((first, bm, off))
                        }
                    },
                }
            },
        }
    }
}

fn make_pos(v: &Vec<char>, ns: (usize, usize), bm: (usize, usize), offset: usize) -> (r:
    RangePosition)
    requires
        ns.0 <= ns.1 <= v.len(),
        bm.0 <= bm.1 <= v.len(),
    ensures
        r.namespace@ == v@.subrange(ns.0 as int, ns.1 as int),
        r.bookmark@ == v@.subrange(bm.0 as int, bm.1 as int),
        r.offset == offset,
{
    RangePosition {
        namespace: string_of(slice_vec(v, ns.0, ns.1).as_slice()),
        bookmark: string_of(slice_vec(v, bm.0, bm.1).as_slice()),
        offset,
    }
}

/// Parses the position `v[lo..hi]`.
fn parse_range_position_in(v: &Vec<char>, lo: usize, hi: usize) -> (r: Option<RangePosition>)
    requires
        lo <= hi <= v.len(),
    ensures
        r matches Some(p) ==> range_position(v@.subrange(lo as int, hi as int)) == Some(pos_view(p)),
        r is None ==> range_position(v@.subrange(lo as int, hi as int)) is None,
{
    let (a, b) = trim_bounds(v, lo, hi);
    let ghost t = v@.subrange(a as int, b as int);
    if a == b {
        return None;
    }
    let colon_v = vec![':'];
    assert(colon_v@ == colon());
    let tv = slice_vec(v, a, b);
    assert(tv@ == t);
    match find_from_exec(&tv, &colon_v, 0) {
        None => {
            let p = make_pos(&tv, (0, 0), (0, tv.len()), 0);
            assert(tv@.subrange(0, 0) =~= Seq::<char>::empty());
            assert(tv@.subrange(0, tv@.len() as int) =~= t);
            Some(p)
        },
        Some(c1) => {
            proof {
                lemma_find_from(t, colon(), 0);
            }
            match find_from_exec(&tv, &colon_v, c1 + 1) {
                None => {
                    if c1 == 0 || c1 + 1 == tv.len() {
                        return None;
                    }
                    match parse_usize_range(&tv, c1 + 1, tv.len()) {
                        Some(n) => {
                            let p = make_pos(&tv, (0, 0), (0, c1), n);
                            assert(tv@.subrange(0, 0) =~= Seq::<char>::empty());
                            Some(p)
                        },
                        None => Some(make_pos(&tv, (0, c1), (c1 + 1, tv.len()), 0)),
                    }
                },
                Some(c2) => {
                    proof {
                        lemma_find_from(t, colon(), c1 + 1);
                    }
                    let off = match parse_usize_range(&tv, c2 + 1, tv.len()) {
                        Some(n) => n,
                        None => 0,
                    };
                    if c1 == 0 || c2 == c1 + 1 {
                        return None;
                    }
                    Some(make_pos(&tv, (0, c1), (c1 + 1, c2), off))
                },
            }
        },
    }
}

/// Parses a single position `[namespace:]bookmark[:offset]`.
pub fn parse_range_position(s: &str) -> (r: Option<RangePosition>)
    ensures
        r matches Some(p) ==> range_position(s@) == Some(pos_view(p)),
        r is None ==> range_position(s@) is None,
{
    let v = chars_of(s);
    assert(v@.subrange(0, v@.len() as int) =~= s@);
    parse_range_position_in(&v, 0, v.len())
}

pub open spec fn arrow() -> Seq<char> {
    seq!['→']
}

/// The range spec a string denotes: after trimming, the positions before and
/// after the first `→`, both of which must parse.
pub open spec fn range_spec(s: Seq<char>) -> Option<
    ((Seq<char>, Seq<char>, nat), (Seq<char>, Seq<char>, nat)),
> {
    let t = trim(s);
    match find_from(t, arrow(), 0) {
        None => None,
        Some(k) => match (
            range_position(t.subrange(0, k)),
            range_position(t.subrange(k + 1, t.len() as int)),
        ) {
            (Some(a), Some(b)) => Some((a, b)),
            _ => None,
        },
    }
}

/// Parses a `→`-delimited range spec.
pub fn parse_range_spec(s: &str) -> (r: Option<RangeSpec>)
    ensures
        r matches Some(sp) ==> range_spec(s@) == Some((pos_view(sp.start), pos_view(sp.end))),
        r is None ==> range_spec(s@) is None,
{
    let v = chars_of(s);
    let (a, b) = trim_bounds(&v, 0, v.len());
    assert(v@.subrange(0, v@.len() as int) =~= s@);
    let tv = slice_vec(&v, a, b);
    let arrow_v = vec!['→'];
    assert(arrow_v@ == arrow());
    match find_from_exec(&tv, &arrow_v, 0) {
        None => None,
        Some(k) => {
            proof {
                lemma_find_from(tv@, arrow(), 0);
            }
            let start = parse_range_position_in(&tv, 0, k);
            let end = parse_range_position_in(&tv, k + 1, tv.len());
            match (start, end) {
                (Some(st), Some(en)) => Some(RangeSpec { start: st, end: en }),
                _ => None,
            }
        },
    }
}

/// Whether `s` looks like a range spec (contains `→`).
pub fn is_range_spec(s: &str) -> (r: bool)
    ensures
        r == contains(s@, arrow()),
{
    let arrow_v = vec!['→'];
    assert(arrow_v@ == arrow());
    crate::text::contains_exec(&chars_of(s), &arrow_v)
}

// ───────────────────────────── resolution ─────────────────────────────

pub open spec fn marker() -> Seq<char> {
    seq!['§', '^']
}

/// `s` with every leading `§^` removed (`str::trim_start_matches("§^")`).
pub open spec fn strip_leading_markers(s: Seq<char>) -> Seq<char>
    decreases s.len(),
{
    if s.len() >= 2 && starts_with(s, marker()) {
        strip_leading_markers(s.skip(2))
    } else {
        s
    }
}

/// The bare-bookmark tag `§^name§^` searched for in a source text.
pub open spec fn bookmark_tag(name: Seq<char>) -> Seq<char> {
    marker() + strip_leading_markers(name) + marker()
}

/// Byte position right after the first occurrence of the bookmark's tag.
pub open spec fn bookmark_end(text: Seq<char>, name: Seq<char>) -> Option<nat> {
    match find_from(text, bookmark_tag(name), 0) {
        Some(k) => Some(byte_len(text.take(k)) + byte_len(bookmark_tag(name))),
        None => None,
    }
}

/// Builds the tag `§^name§^`.
pub fn bookmark_tag_exec(name: &str) -> (r: Vec<char>)
    ensures
        r@ == bookmark_tag(name@),
{
    let v = chars_of(name);
    let m = vec!['§', '^'];
    assert(m@ == marker());
    let mut i: usize = 0;
    assert(v@.skip(0) =~= v@);
    while v.len() >= 2 && i < v.len() - 1 && v[i] == '§' && v[i + 1] == '^'
        invariant
            i <= v.len(),
            m@ == marker(),
            strip_leading_markers(v@) == strip_leading_markers(v@.skip(i as int)),
        decreases v.len() - i,
    {
        assert(v@.skip(i as int).subrange(0, 2) =~= marker());
        assert(v@.skip(i as int).skip(2) =~= v@.skip(i + 2));
        i = i + 2;
    }
    proof {
        let rest = v@.skip(i as int);
        if rest.len() >= 2 && starts_with(rest, marker()) {
            assert(rest[0] == v@[i as int] && rest[1] == v@[i + 1]);
        }
        assert(v@.skip(0) =~= v@);
    }
    let mut out = m.clone();
    push_all(&mut out, &slice_vec(&v, i, v.len()));
    push_all(&mut out, &m);
    assert(v@.subrange(i as int, v@.len() as int) =~= v@.skip(i as int));
    out
}

/// Byte length of `v[..k]`.
pub(crate) fn prefix_bytes(v: &Vec<char>, k: usize) -> (r: usize)
    requires
        k <= v.len(),
        byte_len(v@) <= usize::MAX,
    ensures
        r == byte_len(v@.take(k as int)),
{
    let mut i: usize = 0;
    let mut n: usize = 0;
    assert(v@.take(0) =~= Seq::<char>::empty());
    assert(vstd::utf8::encode_utf8(Seq::<char>::empty()) =~= Seq::<u8>::empty());
    while i < k
        invariant
            i <= k <= v.len(),
            byte_len(v@) <= usize::MAX,
            n == byte_len(v@.take(i as int)),
        decreases k - i,
    {
        proof {
            lemma_encode_push(v@.take(i as int), v@[i as int]);
            assert(v@.take(i + 1) =~= v@.take(i as int).push(v@[i as int]));
            lemma_byte_len_prefix(v@, i + 1);
        }
        n = n + char_width(v[i]);
        i = i + 1;
    }
    n
}

/// Byte length of `v`.
fn total_bytes(v: &Vec<char>) -> (r: usize)
    requires
        byte_len(v@) <= usize::MAX,
    ensures
        r == byte_len(v@),
{
    let r = prefix_bytes(v, v.len());
    assert(v@.take(v@.len() as int) =~= v@);
    r
}

/// Byte position right after the bookmark's tag in `text`, if present.
pub(crate) fn bookmark_end_exec(text: &Vec<char>, name: &str) -> (r: Option<usize>)
    requires
        byte_len(text@) <= usize::MAX,
    ensures
        r matches Some(n) ==> bookmark_end(text@, name@) == Some(n as nat),
        r is None ==> bookmark_end(text@, name@) is None,
{
    let tag = bookmark_tag_exec(name);
    match find_exec(text, &tag) {
        None => None,
        Some(k) => {
            proof {
                lemma_find_from(text@, tag@, 0);
                assert(text@.take(k + tag@.len()) =~= text@.take(k as int) + tag@);
                assert(text@.subrange(k as int, k + tag@.len()) =~= tag@);
                lemma_byte_len_prefix(text@, k + tag@.len());
                crate::text::lemma_encode_concat(text@.take(k as int), tag@);
            }
            let a = prefix_bytes(text, k);
            let b = total_bytes(&tag);
            Some(a + b)
        },
    }
}

/// Source namespace of a range: an explicit namespace on either side (both
/// must agree when both are given), or `None` when the bookmark has to be
/// searched for.
pub open spec fn range_namespace(sp: RangeSpec) -> Result<Option<Seq<char>>, Seq<char>> {
    let sn = sp.start.namespace@;
    let en = sp.end.namespace@;
    if sn.len() > 0 && en.len() > 0 && sn != en {
        Err("cross-namespace ranges not yet supported: "@ + sn + "→"@ + en)
    } else if sn.len() > 0 {
        Ok(Some(sn))
    } else if en.len() > 0 {
        Ok(Some(en))
    } else {
        Ok(None)
    }
}

pub open spec fn result_opt_view(r: Result<Option<String>, String>) -> Result<
    Option<Seq<char>>,
    Seq<char>,
> {
    match r {
        Ok(Some(s)) => Ok(Some(s@)),
        Ok(None) => Ok(None),
        Err(e) => Err(e@),
    }
}

fn concat3(a: &str, b: &String, c: &str) -> (r: Vec<char>)
    ensures
        r@ == a@ + b@ + c@,
{
    let mut v = chars_of(a);
    push_all(&mut v, &chars_of(b.as_str()));
    push_all(&mut v, &chars_of(c));
    v
}

/// Decides where a range's source text lives.
pub fn range_source_namespace(sp: &RangeSpec) -> (r: Result<Option<String>, String>)
    ensures
        result_opt_view(r) == range_namespace(*sp),
{
    let sn = &sp.start.namespace;
    let en = &sp.end.namespace;
    let s_has = !sn.as_str().is_empty();
    let e_has = !en.as_str().is_empty();
    if s_has && e_has && !(*sn == *en) {
        let mut v = concat3("cross-namespace ranges not yet supported: ", sn, "→");
        push_all(&mut v, &chars_of(en.as_str()));
        return Err(string_of(v.as_slice()));
    }
    if s_has {
        Ok(Some(sn.clone()))
    } else if e_has {
        Ok(Some(en.clone()))
    } else {
        Ok(None)
    }
}

/// Outcome of resolving a range against the source text `text` of namespace `ns`:
/// `(namespace, bookmark, offset, length)` in bytes, or the error text.
pub open spec fn resolution(sp: RangeSpec, ns: Seq<char>, text: Option<Seq<char>>) -> Result<
    (Seq<char>, Seq<char>, nat, nat),
    Seq<char>,
> {
    match text {
        None => Err("namespace "@ + ns + " not found or has no full_desc"@),
        Some(t) => match bookmark_end(t, sp.start.bookmark@) {
            None => Err("bookmark "@ + sp.start.bookmark@ + " not found in namespace "@ + ns),
            Some(sp_pos) => match bookmark_end(t, sp.end.bookmark@) {
                None => Err("bookmark "@ + sp.end.bookmark@ + " not found in namespace "@ + ns),
                Some(ep_pos) => {
                    let rs: nat = sp_pos + sp.start.offset as nat;
                    let re0: nat = ep_pos + sp.end.offset as nat;
                    let re: nat = if re0 <= rs && sp.start.bookmark@ == sp.end.bookmark@
                        && sp.start.namespace@ == sp.end.namespace@ {
                        byte_len(t)
                    } else {
                        re0
                    };
                    if re <= rs {
                        Err("empty or negative range: start="@ + dec(rs) + " end="@ + dec(re))
                    } else {
                        Ok((ns, sp.start.bookmark@, sp.start.offset as nat, (re - rs) as nat))
                    }
                },
            },
        },
    }
}

/// The arithmetic on positions stays within `usize`: a bookmark position
/// plus an offset that does not fit cannot be computed.
pub open spec fn resolution_fits(sp: RangeSpec, text: Option<Seq<char>>) -> bool {
    match text {
        None => true,
        Some(t) => {
            &&& (bookmark_end(t, sp.start.bookmark@) matches Some(p) ==> p + sp.start.offset
                <= usize::MAX)
            &&& (bookmark_end(t, sp.end.bookmark@) matches Some(p) ==> p + sp.end.offset
                <= usize::MAX)
        },
    }
}

pub open spec fn ranges_view(r: Result<Vec<TokenRange>, String>) -> Result<
    Seq<(Seq<char>, Seq<char>, nat, nat)>,
    Seq<char>,
> {
    match r {
        Ok(v) => Ok(
            v@.map_values(
                |t: TokenRange|
                    (t.namespace@, t.bookmark@, t.offset as nat, match t.length {
                        Some(l) => l as nat,
                        None => 0,
                    }),
            ),
        ),
        Err(e) => Err(e@),
    }
}

pub open spec fn text_view(t: Option<&str>) -> Option<Seq<char>> {
    match t {
        Some(s) => Some(s@),
        None => None,
    }
}

/// Resolves a range spec against the text of its source namespace `ns`,
/// computing the byte offset and length of the range.
pub fn resolve_range_in_text(sp: &RangeSpec, ns: &str, text: Option<&str>) -> (r: Result<
    Vec<TokenRange>,
    String,
>)
    requires
        resolution_fits(*sp, text_view(text)),
    ensures
        r matches Ok(v) ==> v@.len() == 1 && v@[0].length is Some,
        ranges_view(r) == match resolution(*sp, ns@, text_view(text)) {
            Ok(t) => Ok(seq![t]),
            Err(e) => Err(e),
        },
{
    let nsv = chars_of(ns);
    let nss = string_of(nsv.as_slice());
    let t = match text {
        None => {
            return Err(string_of(concat3("namespace ", &nss, " not found or has no full_desc").as_slice()));
        },
        Some(t) => t,
    };
    let total = str_byte_len(t);
    let tv = chars_of(t);
    let start_pos = match bookmark_end_exec(&tv, sp.start.bookmark.as_str()) {
        None => {
            let mut v = concat3("bookmark ", &sp.start.bookmark, " not found in namespace ");
            push_all(&mut v, &nsv);
            return Err(string_of(v.as_slice()));
        },
        Some(p) => p,
    };
    let end_pos = match bookmark_end_exec(&tv, sp.end.bookmark.as_str()) {
        None => {
            let mut v = concat3("bookmark ", &sp.end.bookmark, " not found in namespace ");
            push_all(&mut v, &nsv);
            return Err(string_of(v.as_slice()));
        },
        Some(p) => p,
    };
    let range_start = start_pos + sp.start.offset;
    let mut range_end = end_pos + sp.end.offset;
    if range_end <= range_start && sp.start.bookmark == sp.end.bookmark
        && sp.start.namespace == sp.end.namespace {
        range_end = total;
    }
    if range_end <= range_start {
        let mut v = chars_of("empty or negative range: start=");
        push_dec(&mut v, range_start as u64);
        push_all(&mut v, &chars_of(" end="));
        push_dec(&mut v, range_end as u64);
        return Err(string_of(v.as_slice()));
    }
    let tr = TokenRange {
        namespace: nss,
        bookmark: sp.start.bookmark.clone(),
        offset: sp.start.offset,
        length: Some(range_end - range_start),
    };
    let out = vec![tr];
    proof {
        let f = |t: TokenRange|
            (t.namespace@, t.bookmark@, t.offset as nat, match t.length {
                Some(l) => l as nat,
                None => 0,
            });
        assert(out@.map_values(f) =~= seq![f(tr)]);
    }
    Ok(out)
}

/// Whether `desc` contains the bare-bookmark tag for `bookmark`.
pub fn desc_has_bookmark(desc: &str, bookmark: &str) -> (r: bool)
    ensures
        r == contains(desc@, bookmark_tag(bookmark@)),
{
    let tag = bookmark_tag_exec(bookmark);
    crate::text::contains_exec(&chars_of(desc), &tag)
}

} // verus!
