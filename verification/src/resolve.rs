//! Resolving range specs against a store: finding the chunk that carries a
//! bookmark, and turning a spec into the byte range it names.

use vstd::prelude::*;
use crate::backend::SquireStore;
use crate::memory::StoredToken;
use crate::protocol::opt_view;
use crate::ranges::{bookmark_end, bookmark_end_exec, bookmark_tag, pos_view, range_namespace, resolution, resolution_fits, ranges_view, RangeSpec};
use crate::text::{byte_len, char_width, chars_of, contains, lex_lt, newline, push_all, push_range, slice_vec, split, split_exec, string_of, sviews, trim, vviews};
use crate::protocol::{id_end_exec, section_sign, strip_span_markers, stripped, token_id_of};
use crate::types::{NewTokenSpec, TokenRange};

verus! {

/// The stored full description of `id`, if there is one.
pub open spec fn full_text(m: Map<Seq<char>, StoredToken>, id: Seq<char>) -> Option<Seq<char>> {
    if m.contains_key(id) { opt_view(m[id].full_desc) } else { None }
}

/// Token `id` is stored with a full description holding the bookmark's tag.
pub open spec fn holds_bookmark(m: Map<Seq<char>, StoredToken>, id: Seq<char>, bookmark: Seq<char>) -> bool {
    full_text(m, id) matches Some(t) && contains(t, bookmark_tag(bookmark))
}

/// `r` is the least id of `pool` (in character order) whose token holds the
/// bookmark, or `None` when no such id exists.
pub open spec fn least_holder(r: Option<Seq<char>>, pool: Set<Seq<char>>, m: Map<Seq<char>, StoredToken>, bookmark: Seq<char>) -> bool {
    match r {
        None => forall|y: Seq<char>| pool.contains(y) ==> !holds_bookmark(m, y, bookmark),
        Some(x) => {
            &&& pool.contains(x)
            &&& holds_bookmark(m, x, bookmark)
            &&& forall|y: Seq<char>| pool.contains(y) && holds_bookmark(m, y, bookmark) ==> y == x || lex_lt(x, y)
        },
    }
}

fn holds_exec<S: SquireStore>(store: &S, id: &String, bookmark: &str) -> (r: bool)
    requires
        store.inv(),
    ensures
        r == holds_bookmark(store.tokens_view(), id@, bookmark@),
{
    match store.token_detail(id.as_str()) {
        None => false,
        Some(d) => match d.full_desc {
            None => false,
            Some(text) => crate::ranges::desc_has_bookmark(text.as_str(), bookmark),
        },
    }
}

proof fn lemma_push_to_set(s: Seq<Seq<char>>, x: Seq<char>)
    ensures
        s.push(x).to_set() =~= s.to_set().insert(x),
{
    assert forall|y: Seq<char>| s.push(x).to_set().contains(y) <==> s.to_set().insert(x).contains(y) by {
        if s.push(x).contains(y) {
            let j = choose|j: int| 0 <= j < s.push(x).len() && s.push(x)[j] == y;
            if j < s.len() {
                assert(s[j] == y);
                assert(s.contains(y));
            }
        }
        if s.contains(y) {
            let j = choose|j: int| 0 <= j < s.len() && s[j] == y;
            assert(s.push(x)[j] == y);
        }
        if y == x {
            assert(s.push(x)[s.len() as int] == y);
        }
    }
}

/// The least of `start` and the ids of `ids` whose tokens hold the bookmark.
fn least_holder_in<S: SquireStore>(store: &S, ids: &Vec<String>, bookmark: &str, start: Option<String>, Ghost(pool): Ghost<Set<Seq<char>>>) -> (r: Option<String>)
    requires
        store.inv(),
        least_holder(opt_view(start), pool, store.tokens_view(), bookmark@),
    ensures
        least_holder(opt_view(r), pool.union(sviews(ids@).to_set()), store.tokens_view(), bookmark@),
{
    let ghost m = store.tokens_view();
    let ghost b = bookmark@;
    let mut best = start;
    let mut i: usize = 0;
    while i < ids.len()
        invariant
            store.inv(),
            m == store.tokens_view(),
            b == bookmark@,
            i <= ids@.len(),
            least_holder(opt_view(best), pool.union(sviews(ids@.take(i as int)).to_set()), m, b),
        decreases ids.len() - i,
    {
        let ghost p0 = pool.union(sviews(ids@.take(i as int)).to_set());
        let ghost p1 = pool.union(sviews(ids@.take(i + 1)).to_set());
        let ghost x = ids@[i as int]@;
        assert(sviews(ids@.take(i + 1)) =~= sviews(ids@.take(i as int)).push(x));
        proof { lemma_push_to_set(sviews(ids@.take(i as int)), x); }
        assert(p1 =~= p0.insert(x));
        if holds_exec(store, &ids[i], bookmark) {
            let better = match &best {
                None => true,
                Some(cur) => {
                    let c = crate::text::lex_compare(&chars_of(ids[i].as_str()), &chars_of(cur.as_str()));
                    c == -1
                },
            };
            if better {
                proof {
                    assert forall|y: Seq<char>| p1.contains(y) && holds_bookmark(m, y, b) implies y == x || lex_lt(x, y) by {
                        if y != x {
                            assert(p0.contains(y));
                            match opt_view(best) {
                                None => {},
                                Some(c) => {
                                    crate::text::lemma_lex_trichotomy(y, c);
                                    if y != c {
                                        crate::text::lemma_lex_transitive(x, c, y);
                                    }
                                },
                            }
                        }
                    }
                }
                best = Some(ids[i].clone());
            } else {
                proof {
                    let c = opt_view(best)->0;
                    crate::text::lemma_lex_trichotomy(x, c);
                }
            }
        }
        i = i + 1;
    }
    assert(ids@.take(ids@.len() as int) =~= ids@);
    best
}

/// Where a bookmark lives when a range names no namespace: the least id, in
/// character order, among the tokens the session and the global session
/// may see whose full description holds the bookmark's tag.
pub fn find_token_with_bookmark<S: SquireStore>(bookmark: &str, store: &S, session_id: u128) -> (r: Result<String, String>)
    requires
        store.inv(),
    ensures
        ({
            let pool = store.session_ids_view(session_id).union(store.session_ids_view(0));
            &&& r matches Ok(id) ==> least_holder(Some(id@), pool, store.tokens_view(), bookmark@)
            &&& r matches Err(e) ==> least_holder(None, pool, store.tokens_view(), bookmark@)
                && e@ == "bookmark '"@ + bookmark@ + "' not found in any namespace in this session"@
        }),
{
    let mine = store.list_token_ids_by_session(session_id);
    let global = store.list_token_ids_by_session(0);
    let ghost empty = Set::<Seq<char>>::empty();
    let first = least_holder_in(store, &mine, bookmark, None, Ghost(empty));
    let ghost p1 = empty.union(sviews(mine@).to_set());
    let best = least_holder_in(store, &global, bookmark, first, Ghost(p1));
    proof {
        let pool = store.session_ids_view(session_id).union(store.session_ids_view(0));
        assert(p1.union(sviews(global@).to_set()) =~= pool);
    }
    match best {
        Some(id) => Ok(id),
        None => {
            let mut v = chars_of("bookmark '");
            push_all(&mut v, &chars_of(bookmark));
            push_all(&mut v, &chars_of("' not found in any namespace in this session"));
            Err(string_of(v.as_slice()))
        },
    }
}


/// Two least holders of a bookmark in one pool are the same.
pub proof fn lemma_least_holder_unique(a: Option<Seq<char>>, b: Option<Seq<char>>, pool: Set<Seq<char>>, m: Map<Seq<char>, StoredToken>, bookmark: Seq<char>)
    requires
        least_holder(a, pool, m, bookmark),
        least_holder(b, pool, m, bookmark),
    ensures
        a == b,
{
    match (a, b) {
        (Some(x), Some(y)) => {
            crate::text::lemma_lex_trichotomy(x, y);
        },
        (Some(x), None) => {
            assert(pool.contains(x));
        },
        (None, Some(y)) => {
            assert(pool.contains(y));
        },
        (None, None) => {},
    }
}

/// What a range spec resolves to once its source namespace `ns` is known.
pub open spec fn resolved_in(sp: RangeSpec, ns: Seq<char>, m: Map<Seq<char>, StoredToken>) -> Result<Seq<(Seq<char>, Seq<char>, nat, nat)>, Seq<char>> {
    match resolution(sp, ns, full_text(m, ns)) {
        Ok(t) => Ok(seq![t]),
        Err(e) => Err(e),
    }
}

/// The chunk a spec without a namespace is read from: the least holder of
/// its start bookmark, when one exists.
pub open spec fn source_of(sp: RangeSpec, m: Map<Seq<char>, StoredToken>, pool: Set<Seq<char>>) -> Option<Seq<char>> {
    choose|src: Option<Seq<char>>| least_holder(src, pool, m, sp.start.bookmark@)
}

/// What a range spec resolves to in a store with tokens `m` whose session
/// sees the ids `pool`.
pub open spec fn range_result(sp: RangeSpec, m: Map<Seq<char>, StoredToken>, pool: Set<Seq<char>>) -> Result<Seq<(Seq<char>, Seq<char>, nat, nat)>, Seq<char>> {
    match range_namespace(sp) {
        Err(e) => Err(e),
        Ok(Some(ns)) => resolved_in(sp, ns, m),
        Ok(None) => match source_of(sp, m, pool) {
            None => Err("bookmark '"@ + sp.start.bookmark@ + "' not found in any namespace in this session"@),
            Some(ns) => resolved_in(sp, ns, m),
        },
    }
}

/// Turn a range spec into the byte range it names in its source chunk: the
/// namespace it names, or else the chunk found by its start bookmark.
pub fn resolve_range_spec<S: SquireStore>(spec: &RangeSpec, store: &S, session_id: u128) -> (r: Result<Vec<TokenRange>, String>)
    requires
        store.inv(),
        forall|k: Seq<char>| resolution_fits(*spec, #[trigger] full_text(store.tokens_view(), k)),
    ensures
        ranges_view(r) == range_result(*spec, store.tokens_view(), store.session_ids_view(session_id).union(store.session_ids_view(0))),
{
    let ghost m = store.tokens_view();
    let ghost pool = store.session_ids_view(session_id).union(store.session_ids_view(0));
    let ns = match crate::ranges::range_source_namespace(spec) {
        Err(e) => { return Err(e); },
        Ok(Some(n)) => n,
        Ok(None) => match find_token_with_bookmark(spec.start.bookmark.as_str(), store, session_id) {
            Err(e) => {
                proof {
                    let src = source_of(*spec, m, pool);
                    assert(least_holder(None, pool, m, spec.start.bookmark@));
                    lemma_least_holder_unique(src, None, pool, m, spec.start.bookmark@);
                }
                return Err(e);
            },
            Ok(n) => {
                proof {
                    let src = source_of(*spec, m, pool);
                    assert(least_holder(Some(n@), pool, m, spec.start.bookmark@));
                    lemma_least_holder_unique(src, Some(n@), pool, m, spec.start.bookmark@);
                }
                n
            },
        },
    };
    let detail = store.token_detail(ns.as_str());
    let text: Option<String> = match detail {
        Some(d) => d.full_desc,
        None => None,
    };
    assert(opt_view(text) == full_text(m, ns@));
    assert(resolution_fits(*spec, full_text(m, ns@)));
    match &text {
        Some(t) => crate::ranges::resolve_range_in_text(spec, ns.as_str(), Some(t.as_str())),
        None => crate::ranges::resolve_range_in_text(spec, ns.as_str(), None),
    }
}


/// The offsets of positions `a` and `b`, added to where their bookmarks end
/// in `text`, fit in a `usize`.
pub open spec fn fits_view(a: (Seq<char>, Seq<char>, nat), b: (Seq<char>, Seq<char>, nat), text: Option<Seq<char>>) -> bool {
    match text {
        None => true,
        Some(t) => {
            &&& (bookmark_end(t, a.1) matches Some(p) ==> p + a.2 <= usize::MAX)
            &&& (bookmark_end(t, b.1) matches Some(p) ==> p + b.2 <= usize::MAX)
        },
    }
}

/// When `desc` is a range spec, its offsets fit in a `usize` against every
/// stored full description.
pub open spec fn spec_fits_store(desc: Seq<char>, m: Map<Seq<char>, StoredToken>) -> bool {
    match crate::ranges::range_spec(desc) {
        None => true,
        Some(pv) => forall|k: Seq<char>| fits_view(pv.0, pv.1, #[trigger] full_text(m, k)),
    }
}

/// `ranges` are the resolved ranges `rs`, by views.
pub open spec fn ranges_are(ranges: Seq<TokenRange>, rs: Seq<(Seq<char>, Seq<char>, nat, nat)>) -> bool {
    ranges.len() == rs.len()
        && forall|i: int| 0 <= i < ranges.len() ==> {
            let x = #[trigger] ranges[i];
            (x.namespace@, x.bookmark@, x.offset as nat, match x.length { Some(l) => l as nat, None => 0 }) == rs[i]
        }
}

/// A phase-2 token whose full description is a range spec: resolved, its
/// ranges stored and its description dropped; when the spec does not
/// resolve the description is still dropped and the problem reported; when
/// it does not parse the token is kept as it is and reported. Any other
/// token is left alone. Returns the problem to report, if any.
pub fn resolve_token_range<S: SquireStore>(token: &mut NewTokenSpec, store: &S, session_id: u128) -> (r: Option<String>)
    requires
        store.inv(),
        old(token).full_desc matches Some(d) ==> spec_fits_store(d@, store.tokens_view()),
    ensures
        ({
            let t = *old(token);
            let n = *final(token);
            let m = store.tokens_view();
            let pool = store.session_ids_view(session_id).union(store.session_ids_view(0));
            &&& n.id == t.id && n.token_type == t.token_type && n.short_desc == t.short_desc && n.endpoint == t.endpoint
            &&& (t.full_desc is None || !contains(t.full_desc->0@, crate::ranges::arrow())) ==> n == t && r is None
            &&& (t.full_desc is Some && contains(t.full_desc->0@, crate::ranges::arrow())
                && crate::ranges::range_spec(t.full_desc->0@) is None) ==> {
                &&& n == t
                &&& r matches Some(msg) && msg@ == t.id@ + ": invalid range spec syntax"@
            }
            &&& (t.full_desc is Some && contains(t.full_desc->0@, crate::ranges::arrow())
                && crate::ranges::range_spec(t.full_desc->0@) is Some) ==> exists|sp: RangeSpec| {
                &&& crate::ranges::range_spec(t.full_desc->0@) == Some((crate::ranges::pos_view(sp.start), crate::ranges::pos_view(sp.end)))
                &&& n.full_desc is None
                &&& match #[trigger] range_result(sp, m, pool) {
                    Ok(rs) => ranges_are(n.ranges@, rs) && r is None,
                    Err(e) => n.ranges == t.ranges && (r matches Some(msg) && msg@ == t.id@ + ": "@ + e),
                }
            }
        }),
{
    let desc = match &token.full_desc {
        None => { return None; },
        Some(d) => d.clone(),
    };
    if !crate::ranges::is_range_spec(desc.as_str()) {
        return None;
    }
    match crate::ranges::parse_range_spec(desc.as_str()) {
        None => {
            let mut v = chars_of(token.id.as_str());
            push_all(&mut v, &chars_of(": invalid range spec syntax"));
            Some(string_of(v.as_slice()))
        },
        Some(sp) => {
            let ghost m = store.tokens_view();
            let ghost pool = store.session_ids_view(session_id).union(store.session_ids_view(0));
            assert forall|k: Seq<char>| resolution_fits(sp, #[trigger] full_text(m, k)) by {
                assert(fits_view(pos_view(sp.start), pos_view(sp.end), full_text(m, k)));
            }
            let res = resolve_range_spec(&sp, store, session_id);
            token.full_desc = None;
            match res {
                Ok(ranges) => {
                    proof {
                        let rs = range_result(sp, m, pool)->Ok_0;
                        assert(ranges_are(ranges@, rs));
                    }
                    token.ranges = ranges;
                    None
                },
                Err(e) => {
                    let mut v = chars_of(token.id.as_str());
                    push_all(&mut v, &chars_of(": "));
                    push_all(&mut v, &chars_of(e.as_str()));
                    Some(string_of(v.as_slice()))
                },
            }
        },
    }
}


/// One token's step when every range spec of a response is resolved:
/// a token whose full description is no range spec stays as it is; one
/// whose spec does not parse, or does not resolve, stays as it is and stops
/// the pass with `res` as the error; one that resolves gets its ranges and
/// loses its full description.
pub open spec fn all_step(t: NewTokenSpec, n: NewTokenSpec, res: Result<(), Seq<char>>, m: Map<Seq<char>, StoredToken>, pool: Set<Seq<char>>) -> bool {
    if t.full_desc is None || !contains(t.full_desc->0@, crate::ranges::arrow()) {
        n == t && res is Ok
    } else if crate::ranges::range_spec(t.full_desc->0@) is None {
        n == t && res == Err::<(), Seq<char>>("invalid range spec in token "@ + t.id@ + ": "@ + t.full_desc->0@)
    } else {
        exists|sp: RangeSpec| {
            &&& crate::ranges::range_spec(t.full_desc->0@) == Some((pos_view(sp.start), pos_view(sp.end)))
            &&& match #[trigger] range_result(sp, m, pool) {
                Ok(rs) => {
                    &&& res is Ok
                    &&& n.id == t.id && n.token_type == t.token_type && n.short_desc == t.short_desc
                    &&& n.endpoint == t.endpoint && n.full_desc is None
                    &&& ranges_are(n.ranges@, rs)
                },
                Err(e) => n == t && res == Err::<(), Seq<char>>(e),
            }
        }
    }
}

fn resolve_one<S: SquireStore>(token: &mut NewTokenSpec, store: &S, session_id: u128) -> (r: Result<(), String>)
    requires
        store.inv(),
        old(token).full_desc matches Some(d) ==> spec_fits_store(d@, store.tokens_view()),
    ensures
        all_step(*old(token), *final(token), match r { Ok(()) => Ok(()), Err(e) => Err(e@) }, store.tokens_view(),
            store.session_ids_view(session_id).union(store.session_ids_view(0))),
{
    let ghost m = store.tokens_view();
    let ghost pool = store.session_ids_view(session_id).union(store.session_ids_view(0));
    let desc = match &token.full_desc {
        None => { return Ok(()); },
        Some(d) => d.clone(),
    };
    if !crate::ranges::is_range_spec(desc.as_str()) {
        return Ok(());
    }
    match crate::ranges::parse_range_spec(desc.as_str()) {
        None => {
            let mut v = chars_of("invalid range spec in token ");
            push_all(&mut v, &chars_of(token.id.as_str()));
            push_all(&mut v, &chars_of(": "));
            push_all(&mut v, &chars_of(desc.as_str()));
            Err(string_of(v.as_slice()))
        },
        Some(sp) => {
            assert forall|k: Seq<char>| resolution_fits(sp, #[trigger] full_text(m, k)) by {
                assert(fits_view(pos_view(sp.start), pos_view(sp.end), full_text(m, k)));
            }
            match resolve_range_spec(&sp, store, session_id) {
                Ok(ranges) => {
                    proof {
                        let rs = range_result(sp, m, pool)->Ok_0;
                        assert(ranges_are(ranges@, rs));
                    }
                    token.ranges = ranges;
                    token.full_desc = None;
                    Ok(())
                },
                Err(e) => Err(e),
            }
        },
    }
}

/// Resolves the range spec of every token in turn, stopping at the first
/// that does not parse or does not resolve. Tokens before it are resolved,
/// it and those after it are left as they were.
pub fn resolve_all_range_specs<S: SquireStore>(tokens: &mut Vec<NewTokenSpec>, store: &S, session_id: u128) -> (r: Result<(), String>)
    requires
        store.inv(),
        forall|i: int| 0 <= i < old(tokens)@.len() ==> ((#[trigger] old(tokens)@[i]).full_desc matches Some(d)
            ==> spec_fits_store(d@, store.tokens_view())),
    ensures
        ({
            let m = store.tokens_view();
            let pool = store.session_ids_view(session_id).union(store.session_ids_view(0));
            let o = old(tokens)@;
            let f = final(tokens)@;
            &&& f.len() == o.len()
            &&& r is Ok ==> forall|i: int| 0 <= i < o.len() ==> all_step(o[i], #[trigger] f[i], Ok(()), m, pool)
            &&& r matches Err(e) ==> exists|k: int| {
                &&& 0 <= k < o.len()
                &&& all_step(o[k], #[trigger] f[k], Err(e@), m, pool)
                &&& forall|i: int| 0 <= i < k ==> all_step(o[i], #[trigger] f[i], Ok(()), m, pool)
                &&& forall|i: int| k < i < o.len() ==> #[trigger] f[i] == o[i]
            }
        }),
{
    let ghost m = store.tokens_view();
    let ghost pool = store.session_ids_view(session_id).union(store.session_ids_view(0));
    let ghost o = tokens@;
    let n = tokens.len();
    let mut i: usize = 0;
    let mut failure: Option<String> = None;
    while i < n && failure.is_none()
        invariant
            store.inv(),
            m == store.tokens_view(),
            pool == store.session_ids_view(session_id).union(store.session_ids_view(0)),
            n == o.len(),
            tokens@.len() == n,
            i <= n,
            failure is None ==> forall|j: int| 0 <= j < i ==> all_step(o[j], #[trigger] tokens@[j], Ok(()), m, pool),
            failure is None ==> forall|j: int| i <= j < n ==> #[trigger] tokens@[j] == o[j],
            failure matches Some(e) ==> {
                &&& 0 <= i - 1 < n
                &&& all_step(o[i - 1], tokens@[i - 1], Err(e@), m, pool)
                &&& forall|j: int| 0 <= j < i - 1 ==> all_step(o[j], #[trigger] tokens@[j], Ok(()), m, pool)
                &&& forall|j: int| i - 1 < j < n ==> #[trigger] tokens@[j] == o[j]
            },
            forall|j: int| 0 <= j < o.len() ==> ((#[trigger] o[j]).full_desc matches Some(d)
                ==> spec_fits_store(d@, m)),
        decreases n - i,
    {
        let ghost before = tokens@;
        assert(before[i as int] == o[i as int]);
        let res = resolve_one(&mut tokens[i], store, session_id);
        assert forall|j: int| 0 <= j < n && j != i implies #[trigger] tokens@[j] == before[j] by {}
        match res {
            Ok(()) => {},
            Err(e) => {
                failure = Some(e);
            },
        }
        i = i + 1;
    }
    match failure {
        None => Ok(()),
        Some(e) => {
            proof {
                let k = i - 1;
                let f = tokens@;
                assert(0 <= k < o.len());
                assert(all_step(o[k], f[k], Err(e@), m, pool));
            }
            Err(e)
        },
    }
}

/// Prefixes of a text take strictly more bytes as they grow.
pub proof fn lemma_prefix_bytes_strict(t: Seq<char>, i: int, j: int)
    requires
        0 <= i < j <= t.len(),
    ensures
        byte_len(t.take(i)) < byte_len(t.take(j)),
    decreases j - i,
{
    assert(t.take(j) =~= t.take(j - 1).push(t[j - 1]));
    crate::text::lemma_encode_push(t.take(j - 1), t[j - 1]);
    assert(vstd::utf8::encode_scalar(t[j - 1] as u32).len() >= 1);
    if i < j - 1 {
        lemma_prefix_bytes_strict(t, i, j - 1);
    }
}

/// Byte position `b` of `t` falls between two characters.
pub open spec fn is_boundary(t: Seq<char>, b: int) -> bool {
    exists|k: int| 0 <= k <= t.len() && byte_len(#[trigger] t.take(k)) == b
}

/// The index of the character that starts at byte `b` of `t`.
pub open spec fn char_at_byte(t: Seq<char>, b: int) -> int {
    choose|k: int| 0 <= k <= t.len() && byte_len(#[trigger] t.take(k)) == b
}

/// What one range contributes to the expanded text: the bytes from its start
/// (just past its bookmark, plus its offset) to its end (its length later,
/// or the end of the text), cut at the end of the text and followed by a
/// newline; nothing when its namespace has no text, its bookmark is not
/// there, or it starts at or past the end.
pub open spec fn range_piece(r: TokenRange, m: Map<Seq<char>, StoredToken>) -> Seq<char> {
    match full_text(m, r.namespace@) {
        None => Seq::empty(),
        Some(t) => match bookmark_end(t, r.bookmark@) {
            None => Seq::empty(),
            Some(p) => {
                let start = p + r.offset;
                let total = byte_len(t);
                let end = match r.length { Some(l) => start + l, None => total as int };
                if start < total {
                    let e = if end < total { end } else { total as int };
                    t.subrange(char_at_byte(t, start), char_at_byte(t, e)) + newline()
                } else {
                    Seq::empty()
                }
            },
        },
    }
}

/// Slicing a range out of its text stays within `usize` and cuts the text
/// only between characters, the only places a `str` can be sliced.
pub open spec fn range_fits(r: TokenRange, m: Map<Seq<char>, StoredToken>) -> bool {
    match full_text(m, r.namespace@) {
        None => true,
        Some(t) => match bookmark_end(t, r.bookmark@) {
            None => true,
            Some(p) => {
                let start = p + r.offset;
                let total = byte_len(t);
                &&& start <= usize::MAX
                &&& (r.length matches Some(l) ==> start + l <= usize::MAX)
                &&& start < total ==> {
                    let end = match r.length { Some(l) => start + l, None => total as int };
                    let e = if end < total { end } else { total as int };
                    is_boundary(t, start) && is_boundary(t, e)
                }
            },
        },
    }
}

/// Where a range spec starts and ends in text `t` (in bytes), as
/// resolution computes them: just past the start bookmark plus its offset,
/// and just past the end bookmark plus its offset (or the end of the text
/// when both sides name the same bookmark and the span would be empty).
pub open spec fn spec_span(sp: RangeSpec, t: Seq<char>) -> (int, int) {
    let rs = bookmark_end(t, sp.start.bookmark@)->0 + sp.start.offset;
    let re0 = bookmark_end(t, sp.end.bookmark@)->0 + sp.end.offset;
    let re = if re0 <= rs && sp.start.bookmark@ == sp.end.bookmark@ && sp.start.namespace@ == sp.end.namespace@ {
        byte_len(t) as int
    } else {
        re0 as int
    };
    (rs as int, re)
}

/// A range that a spec resolved to reads back the text the spec spans:
/// from its start position to its end position, cut at the end of the
/// text (nothing when it starts past the end).
pub proof fn law_resolved_range_reads_back(sp: RangeSpec, ns: Seq<char>, m: Map<Seq<char>, StoredToken>, r: TokenRange)
    requires
        full_text(m, ns) is Some,
        r.namespace@ == ns,
        r.length is Some,
        resolution(sp, ns, full_text(m, ns)) == Ok::<(Seq<char>, Seq<char>, nat, nat), Seq<char>>(
            (ns, r.bookmark@, r.offset as nat, r.length->0 as nat)),
    ensures
        ({
            let t = full_text(m, ns)->0;
            let (rs, re) = spec_span(sp, t);
            let e = if re < byte_len(t) { re } else { byte_len(t) as int };
            &&& rs < byte_len(t) ==> range_piece(r, m) == t.subrange(char_at_byte(t, rs), char_at_byte(t, e)) + newline()
            &&& rs >= byte_len(t) ==> range_piece(r, m) == Seq::<char>::empty()
        }),
{
}

/// The pieces of `ranges`, one after the other.
pub open spec fn pieces_of(ranges: Seq<TokenRange>, m: Map<Seq<char>, StoredToken>) -> Seq<char>
    decreases ranges.len(),
{
    if ranges.len() == 0 {
        Seq::empty()
    } else {
        pieces_of(ranges.drop_last(), m) + range_piece(ranges.last(), m)
    }
}

/// The index of the character of `v` that starts at byte `b`.
fn char_index_at(v: &Vec<char>, b: usize) -> (r: usize)
    requires
        is_boundary(v@, b as int),
    ensures
        r == char_at_byte(v@, b as int),
        r <= v@.len(),
        byte_len(v@.take(r as int)) == b,
{
    let ghost k = char_at_byte(v@, b as int);
    let mut i: usize = 0;
    let mut n: usize = 0;
    assert(v@.take(0) =~= Seq::<char>::empty());
    assert(vstd::utf8::encode_utf8(Seq::<char>::empty()) =~= Seq::<u8>::empty());
    proof {
        if k > 0 {
            lemma_prefix_bytes_strict(v@, 0, k);
        }
    }
    while n < b
        invariant
            0 <= k <= v@.len(),
            byte_len(v@.take(k)) == b,
            i <= k,
            n == byte_len(v@.take(i as int)),
            n <= b,
        decreases k - i,
    {
        proof {
            if i == k {
                assert(false);
            }
            crate::text::lemma_encode_push(v@.take(i as int), v@[i as int]);
            assert(v@.take(i + 1) =~= v@.take(i as int).push(v@[i as int]));
            if i + 1 < k {
                lemma_prefix_bytes_strict(v@, i + 1, k);
            }
        }
        assert(i < v.len());
        n = n + char_width(v[i]);
        i = i + 1;
    }
    proof {
        if i < k {
            lemma_prefix_bytes_strict(v@, i as int, k);
        }
    }
    i
}

fn piece_of<S: SquireStore>(r: &TokenRange, store: &S, out: &mut Vec<char>)
    requires
        store.inv(),
        range_fits(*r, store.tokens_view()),
    ensures
        final(out)@ == old(out)@ + range_piece(*r, store.tokens_view()),
{
    let ghost m = store.tokens_view();
    let detail = store.token_detail(r.namespace.as_str());
    let text: String = match detail {
        Some(d) => match d.full_desc {
            Some(t) => t,
            None => {
                assert(range_piece(*r, m) =~= Seq::<char>::empty());
                assert(out@ + Seq::<char>::empty() =~= out@);
                return;
            },
        },
        None => {
            assert(out@ + Seq::<char>::empty() =~= out@);
            return;
        },
    };
    let total = crate::text::str_byte_len(text.as_str());
    let v = chars_of(text.as_str());
    let p = match bookmark_end_exec(&v, r.bookmark.as_str()) {
        None => {
            assert(out@ + Seq::<char>::empty() =~= out@);
            return;
        },
        Some(p) => p,
    };
    let start = p + r.offset;
    if start < total {
        let end = match r.length {
            Some(l) => start + l,
            None => total,
        };
        let e = if end < total { end } else { total };
        let a = char_index_at(&v, start);
        let b = char_index_at(&v, e);
        proof {
            if b < a {
                lemma_prefix_bytes_strict(v@, b as int, a as int);
            }
        }
        push_range(out, &v, a, b);
        out.push('\n');
        assert(newline() =~= seq!['\n']);
        assert(final(out)@ =~= old(out)@ + range_piece(*r, m));
    } else {
        assert(out@ + Seq::<char>::empty() =~= out@);
    }
}

/// The text a token's ranges stand for: each range's piece in turn, the
/// whole trimmed.
pub fn resolve_ranges<S: SquireStore>(ranges: &Vec<TokenRange>, store: &S) -> (r: String)
    requires
        store.inv(),
        forall|i: int| 0 <= i < ranges@.len() ==> range_fits(#[trigger] ranges@[i], store.tokens_view()),
    ensures
        r@ == trim(pieces_of(ranges@, store.tokens_view())),
{
    let ghost m = store.tokens_view();
    let mut out: Vec<char> = Vec::new();
    let mut i: usize = 0;
    while i < ranges.len()
        invariant
            store.inv(),
            m == store.tokens_view(),
            i <= ranges@.len(),
            forall|j: int| 0 <= j < ranges@.len() ==> range_fits(#[trigger] ranges@[j], m),
            out@ == pieces_of(ranges@.take(i as int), m),
        decreases ranges.len() - i,
    {
        assert(ranges@.take(i + 1).drop_last() =~= ranges@.take(i as int));
        piece_of(&ranges[i], store, &mut out);
        i = i + 1;
    }
    assert(ranges@.take(ranges@.len() as int) =~= ranges@);
    let t = crate::text::trim_vec(&out);
    string_of(t.as_slice())
}

/// Whether byte position `b` of `v` falls between two characters.
fn byte_boundary(v: &Vec<char>, b: usize) -> (r: bool)
    ensures
        r == is_boundary(v@, b as int),
{
    let mut i: usize = 0;
    let mut n: usize = 0;
    assert(v@.take(0) =~= Seq::<char>::empty());
    assert(vstd::utf8::encode_utf8(Seq::<char>::empty()) =~= Seq::<u8>::empty());
    while n < b && i < v.len()
        invariant
            i <= v@.len(),
            n == byte_len(v@.take(i as int)),
            n <= b,
            forall|k: int| 0 <= k < i ==> byte_len(#[trigger] v@.take(k)) < n,
        decreases v.len() - i,
    {
        proof {
            crate::text::lemma_encode_push(v@.take(i as int), v@[i as int]);
            assert(v@.take(i + 1) =~= v@.take(i as int).push(v@[i as int]));
            assert forall|k: int| 0 <= k < i + 1 implies byte_len(#[trigger] v@.take(k)) < byte_len(v@.take(i + 1)) by {
                lemma_prefix_bytes_strict(v@, k, i + 1);
            }
        }
        if b - n < char_width(v[i]) {
            proof {
                assert forall|k: int| 0 <= k <= v@.len() implies byte_len(#[trigger] v@.take(k)) != b by {
                    if k > i {
                        if k > i + 1 {
                            lemma_prefix_bytes_strict(v@, i + 1, k);
                        }
                    }
                }
            }
            return false;
        }
        n = n + char_width(v[i]);
        i = i + 1;
    }
    if n == b {
        true
    } else {
        proof {
            assert forall|k: int| 0 <= k <= v@.len() implies byte_len(#[trigger] v@.take(k)) != b by {
                if k > i {
                    lemma_prefix_bytes_strict(v@, i as int, k);
                }
            }
        }
        false
    }
}

fn range_fits_exec<S: SquireStore>(r: &TokenRange, store: &S) -> (ok: bool)
    requires
        store.inv(),
    ensures
        ok == range_fits(*r, store.tokens_view()),
{
    let detail = store.token_detail(r.namespace.as_str());
    let text: String = match detail {
        Some(d) => match d.full_desc {
            Some(t) => t,
            None => { return true; },
        },
        None => { return true; },
    };
    let total = crate::text::str_byte_len(text.as_str());
    let v = chars_of(text.as_str());
    let p = match bookmark_end_exec(&v, r.bookmark.as_str()) {
        None => { return true; },
        Some(p) => p,
    };
    if r.offset > usize::MAX - p {
        return false;
    }
    let start = p + r.offset;
    let end = match r.length {
        Some(l) => {
            if l > usize::MAX - start {
                return false;
            }
            start + l
        },
        None => total,
    };
    if start < total {
        let e = if end < total { end } else { total };
        byte_boundary(&v, start) && byte_boundary(&v, e)
    } else {
        true
    }
}

/// Whether every range of `ranges` can be sliced out of its text (see
/// `range_fits`).
pub fn ranges_fit<S: SquireStore>(ranges: &Vec<TokenRange>, store: &S) -> (r: bool)
    requires
        store.inv(),
    ensures
        r == forall|i: int| 0 <= i < ranges@.len() ==> range_fits(#[trigger] ranges@[i], store.tokens_view()),
{
    let mut i: usize = 0;
    while i < ranges.len()
        invariant
            store.inv(),
            i <= ranges@.len(),
            forall|j: int| 0 <= j < i ==> range_fits(#[trigger] ranges@[j], store.tokens_view()),
        decreases ranges.len() - i,
    {
        if !range_fits_exec(&ranges[i], store) {
            return false;
        }
        i = i + 1;
    }
    true
}

/// How a referenced token is shown: the text of its ranges when it has
/// some, else its short description; an unknown id is shown as itself.
pub open spec fn token_display(m: Map<Seq<char>, StoredToken>, id: Seq<char>) -> Seq<char> {
    if m.contains_key(id) {
        if m[id].ranges@.len() > 0 {
            trim(pieces_of(m[id].ranges@, m))
        } else {
            m[id].short_desc@
        }
    } else {
        id
    }
}

/// How one `§`-separated piece is shown: a `!TokenID` piece becomes the
/// token's display text and what follows the id; any other piece keeps its
/// `§`.
pub open spec fn display_part(m: Map<Seq<char>, StoredToken>, part: Seq<char>) -> Seq<char> {
    if part.len() > 0 && part[0] == '!' {
        let rest = part.skip(1);
        let id = token_id_of(rest);
        token_display(m, id) + rest.skip(id.len() as int)
    } else {
        section_sign() + part
    }
}

pub open spec fn display_parts(m: Map<Seq<char>, StoredToken>, parts: Seq<Seq<char>>) -> Seq<char>
    decreases parts.len(),
{
    if parts.len() == 0 {
        Seq::empty()
    } else {
        display_parts(m, parts.drop_last()) + display_part(m, parts.last())
    }
}

/// The text shown for a response: span markers stripped, then every
/// `§!TokenID` replaced by how the token is shown.
pub open spec fn displayed(content: Seq<char>, m: Map<Seq<char>, StoredToken>) -> Seq<char> {
    let parts = split(stripped(content), section_sign());
    parts[0] + display_parts(m, parts.drop_first())
}

/// Showing the piece slices the ranges of the token it references safely.
pub open spec fn part_fits(m: Map<Seq<char>, StoredToken>, part: Seq<char>) -> bool {
    (part.len() > 0 && part[0] == '!' && m.contains_key(token_id_of(part.skip(1))))
        ==> forall|j: int| 0 <= j < m[token_id_of(part.skip(1))].ranges@.len()
            ==> range_fits(#[trigger] m[token_id_of(part.skip(1))].ranges@[j], m)
}

/// Showing `content` slices every referenced token's ranges safely.
pub open spec fn display_fits(content: Seq<char>, m: Map<Seq<char>, StoredToken>) -> bool {
    let parts = split(stripped(content), section_sign());
    forall|i: int| 1 <= i < parts.len() ==> part_fits(m, #[trigger] parts[i])
}

fn part_fits_exec<S: SquireStore>(part: &Vec<char>, store: &S) -> (r: bool)
    requires
        store.inv(),
    ensures
        r == part_fits(store.tokens_view(), part@),
{
    if part.len() == 0 || part[0] != '!' {
        return true;
    }
    let rest = slice_vec(part, 1, part.len());
    assert(rest@ =~= part@.skip(1));
    let e = id_end_exec(&rest, 0);
    let id = string_of(slice_vec(&rest, 0, e).as_slice());
    match store.token_detail(id.as_str()) {
        None => true,
        Some(d) => ranges_fit(&d.ranges, store),
    }
}

/// Whether `content` can be shown without slicing a referenced token's
/// text off a character boundary (see `display_fits`).
pub fn display_fits_exec<S: SquireStore>(content: &str, store: &S) -> (r: bool)
    requires
        store.inv(),
    ensures
        r == display_fits(content@, store.tokens_view()),
{
    let stripped_text = strip_span_markers(content);
    let v = chars_of(stripped_text.as_str());
    let sep = vec!['§'];
    assert(sep@ == section_sign());
    let parts = split_exec(&v, &sep);
    let ghost ps = vviews(parts@);
    let mut i: usize = 1;
    while i < parts.len()
        invariant
            store.inv(),
            ps == vviews(parts@),
            ps == split(stripped(content@), section_sign()),
            1 <= i,
            forall|j: int| 1 <= j < i && j < ps.len() ==> part_fits(store.tokens_view(), #[trigger] ps[j]),
        decreases parts.len() - i,
    {
        assert(ps[i as int] == parts@[i as int]@);
        if !part_fits_exec(&parts[i], store) {
            return false;
        }
        i = i + 1;
    }
    true
}

fn display_part_exec<S: SquireStore>(part: &Vec<char>, store: &S, out: &mut Vec<char>)
    requires
        store.inv(),
        part_fits(store.tokens_view(), part@),
    ensures
        final(out)@ == old(out)@ + display_part(store.tokens_view(), part@),
{
    let ghost m = store.tokens_view();
    if part.len() == 0 || part[0] != '!' {
        out.push('§');
        push_all(out, part);
        assert(final(out)@ =~= old(out)@ + display_part(m, part@));
        return;
    }
    let rest = slice_vec(part, 1, part.len());
    assert(rest@ =~= part@.skip(1));
    let e = id_end_exec(&rest, 0);
    let idv = slice_vec(&rest, 0, e);
    let id = string_of(idv.as_slice());
    assert(id@ == token_id_of(rest@));
    match store.token_detail(id.as_str()) {
        None => push_all(out, &idv),
        Some(d) => {
            if d.ranges.len() > 0 {
                let text = resolve_ranges(&d.ranges, store);
                push_all(out, &chars_of(text.as_str()));
            } else {
                push_all(out, &chars_of(d.short_desc.as_str()));
            }
        },
    }
    push_range(out, &rest, e, rest.len());
    assert(rest@.subrange(e as int, rest@.len() as int) =~= rest@.skip(id@.len() as int));
    assert(final(out)@ =~= old(out)@ + display_part(m, part@));
}

/// The text shown for a response (see `displayed`).
pub fn expand_for_display<S: SquireStore>(content: &str, store: &S) -> (r: String)
    requires
        store.inv(),
        display_fits(content@, store.tokens_view()),
    ensures
        r@ == displayed(content@, store.tokens_view()),
{
    let ghost m = store.tokens_view();
    let stripped_text = strip_span_markers(content);
    let v = chars_of(stripped_text.as_str());
    let sep = vec!['§'];
    assert(sep@ == section_sign());
    let parts = split_exec(&v, &sep);
    let ghost ps = vviews(parts@);
    let mut out: Vec<char> = Vec::new();
    push_all(&mut out, &parts[0]);
    assert(out@ =~= ps[0]);
    let mut i: usize = 1;
    assert(ps.drop_first().take(0) =~= Seq::<Seq<char>>::empty());
    while i < parts.len()
        invariant
            store.inv(),
            m == store.tokens_view(),
            ps == vviews(parts@),
            ps == split(stripped(content@), section_sign()),
            ps.len() >= 1,
            1 <= i <= ps.len(),
            display_fits(content@, m),
            out@ == ps[0] + display_parts(m, ps.drop_first().take(i - 1)),
        decreases parts.len() - i,
    {
        assert(ps[i as int] == parts@[i as int]@);
        assert(part_fits(m, ps[i as int]));
        assert(ps.drop_first().take(i as int).drop_last() =~= ps.drop_first().take(i - 1));
        assert(ps.drop_first().take(i as int).last() == ps[i as int]);
        display_part_exec(&parts[i], store, &mut out);
        assert(out@ =~= ps[0] + display_parts(m, ps.drop_first().take(i as int)));
        i = i + 1;
    }
    assert(ps.drop_first().take(ps.len() - 1) =~= ps.drop_first());
    string_of(out.as_slice())
}

} // verus!
