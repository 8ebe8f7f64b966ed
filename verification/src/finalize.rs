//! What closing a turn does to the store, for any backend: the phase-1
//! checks that need the store and the phase-1 commit (hit credits, the raw
//! partition, the turn counter), and storing text chunks.

use vstd::prelude::*;
use crate::backend::{turn_in, with_upsert, SquireStore};
use crate::memory::{hit, RawPartitionRecord, StoredToken};
use crate::protocol::{inline_refs, opt_view, residual};
use crate::text::{chars_of, lit, push_all, string_of, sviews};
use crate::types::{NewTokenSpec, Relationship};

verus! {

// ───────────────────────────── phase 1 ─────────────────────────────

/// The first of `refs` that names no token of `m`.
pub open spec fn first_missing(refs: Seq<Seq<char>>, m: Map<Seq<char>, StoredToken>) -> Option<Seq<char>>
    decreases refs.len(),
{
    if refs.len() == 0 {
        None
    } else {
        match first_missing(refs.drop_last(), m) {
            Some(x) => Some(x),
            None => if m.contains_key(refs.last()) { None } else { Some(refs.last()) },
        }
    }
}

/// The reason a phase-1 response is refused for citing with `§!` a token
/// the store does not hold.
pub open spec fn undisplayable_reason(id: Seq<char>) -> Seq<char> {
    "undisplayable token §!"@ + id
}

/// The first `§!` reference of `content` that names no stored token.
pub fn undisplayable_ref<S: SquireStore>(store: &S, content: &str) -> (r: Option<String>)
    requires
        store.inv(),
    ensures
        opt_view(r) == first_missing(inline_refs(content@), store.tokens_view()),
{
    let refs = crate::protocol::extract_inline_refs(content);
    let ghost rv = sviews(refs@);
    let mut i: usize = 0;
    while i < refs.len()
        invariant
            i <= refs@.len(),
            rv == sviews(refs@),
            rv == inline_refs(content@),
            store.inv(),
            first_missing(rv.take(i as int), store.tokens_view()) is None,
        decreases refs.len() - i,
    {
        assert(rv.take(i + 1).drop_last() =~= rv.take(i as int));
        if !store.token_exists(refs[i].as_str()) {
            proof { lemma_first_missing_prefix(rv, store.tokens_view(), i + 1); }
            return Some(refs[i].clone());
        }
        i = i + 1;
    }
    assert(rv.take(refs@.len() as int) =~= rv);
    None
}

proof fn lemma_first_missing_prefix(refs: Seq<Seq<char>>, m: Map<Seq<char>, StoredToken>, k: int)
    requires
        0 < k <= refs.len(),
        first_missing(refs.take(k - 1), m) is None,
        !m.contains_key(refs[k - 1]),
    ensures
        first_missing(refs, m) == Some(refs[k - 1]),
    decreases refs.len() - k,
{
    assert(refs.take(k).drop_last() =~= refs.take(k - 1));
    if k < refs.len() {
        lemma_first_missing_extend(refs, m, k);
    } else {
        assert(refs.take(k) =~= refs);
    }
}

proof fn lemma_first_missing_extend(refs: Seq<Seq<char>>, m: Map<Seq<char>, StoredToken>, k: int)
    requires
        0 < k <= refs.len(),
        first_missing(refs.take(k), m) is Some,
    ensures
        first_missing(refs, m) == first_missing(refs.take(k), m),
    decreases refs.len() - k,
{
    if k < refs.len() {
        assert(refs.take(k + 1).drop_last() =~= refs.take(k));
        lemma_first_missing_extend(refs, m, k + 1);
    } else {
        assert(refs.take(k) =~= refs);
    }
}

/// The tokens of `m` after one hit for each stored token that `refs`
/// mentions, however often it is mentioned.
pub open spec fn credited(m: Map<Seq<char>, StoredToken>, refs: Seq<Seq<char>>) -> Map<Seq<char>, StoredToken> {
    Map::new(
        |k: Seq<char>| m.contains_key(k),
        |k: Seq<char>| if refs.contains(k) { hit(m[k]) } else { m[k] },
    )
}

/// The raw-partition log after a phase-1 commit of `content` in `turn`:
/// the text outside every span is appended when there is any.
pub open spec fn raw_after(old_log: Seq<RawPartitionRecord>, new_log: Seq<RawPartitionRecord>, session_id: u128, turn: u64, content: Seq<char>) -> bool {
    if residual(content).len() > 0 {
        &&& new_log.len() == old_log.len() + 1
        &&& new_log.drop_last() == old_log
        &&& new_log.last().session_id == session_id
        &&& new_log.last().turn == turn
        &&& new_log.last().content@ == residual(content)
    } else {
        new_log == old_log
    }
}

/// Commit an accepted phase-1 response: each distinct stored token cited
/// with `§!` gains exactly one hit, the unmarked text goes to the raw
/// partition under the current turn, and the session's turn advances.
/// Returns the turn the response belonged to.
pub fn commit_phase1<S: SquireStore>(store: &mut S, session_id: u128, content: &str) -> (turn: u64)
    requires
        old(store).inv(),
        turn_in(old(store).turns_view(), session_id) < u64::MAX,
        forall|k: Seq<char>| old(store).tokens_view().contains_key(k) && inline_refs(content@).contains(k)
            ==> old(store).tokens_view()[k].accumulated_hits < u64::MAX,
    ensures
        final(store).inv(),
        turn == turn_in(old(store).turns_view(), session_id),
        final(store).tokens_view() == credited(old(store).tokens_view(), inline_refs(content@)),
        raw_after(old(store).raw_view(), final(store).raw_view(), session_id, turn, content@),
        final(store).turns_view() == old(store).turns_view().insert(session_id, (turn + 1) as u64),
        final(store).rels_view() == old(store).rels_view(),
        final(store).preserve_view() == old(store).preserve_view(),
        final(store).failures_view() == old(store).failures_view(),
{
    let turn = store.current_turn(session_id);
    let refs = crate::protocol::extract_inline_refs(content);
    let ghost rv = sviews(refs@);
    let ghost m0 = store.tokens_view();
    let ghost others = (store.rels_view(), store.preserve_view(), store.turns_view(), store.raw_view(), store.failures_view());
    assert(credited(m0, rv.take(0)) =~= m0);
    let mut seen: Vec<String> = Vec::new();
    let mut i: usize = 0;
    while i < refs.len()
        invariant
            i <= refs@.len(),
            rv == sviews(refs@),
            rv == inline_refs(content@),
            store.inv(),
            store.tokens_view() == credited(m0, rv.take(i as int)),
            forall|k: Seq<char>| m0.contains_key(k) && rv.contains(k) ==> m0[k].accumulated_hits < u64::MAX,
            forall|k: Seq<char>| sviews(seen@).contains(k) <==> rv.take(i as int).contains(k),
            others == (store.rels_view(), store.preserve_view(), store.turns_view(), store.raw_view(), store.failures_view()),
        decreases refs.len() - i,
    {
        let ghost pre = rv.take(i as int);
        let ghost post = rv.take(i + 1);
        let ghost key = rv[i as int];
        assert(post =~= pre.push(key));
        assert forall|k: Seq<char>| post.contains(k) <==> (pre.contains(k) || k == key) by {
            if post.contains(k) {
                let j = choose|j: int| 0 <= j < post.len() && post[j] == k;
                if j < pre.len() {
                    assert(pre[j] == k);
                }
            }
            if pre.contains(k) {
                let j = choose|j: int| 0 <= j < pre.len() && pre[j] == k;
                assert(post[j] == k);
            }
            if k == key {
                assert(post[i as int] == k);
            }
        }
        let already = contains_string(&seen, &refs[i]);
        if !already {
            let ghost m1 = store.tokens_view();
            proof {
                assert(rv.contains(key)) by {
                    assert(rv[i as int] == key);
                }
            }
            store.record_hit(refs[i].as_str());
            let ghost before_seen = seen@;
            assert(forall|k: Seq<char>| sviews(before_seen).contains(k) <==> pre.contains(k));
            seen.push(refs[i].clone());
            proof {
                assert(sviews(seen@) =~= sviews(before_seen).push(key));
                assert forall|k: Seq<char>| sviews(seen@).contains(k) <==> post.contains(k) by {
                    if sviews(seen@).contains(k) {
                        let j = choose|j: int| 0 <= j < sviews(seen@).len() && sviews(seen@)[j] == k;
                        if j < sviews(before_seen).len() {
                            assert(sviews(before_seen)[j] == k);
                        }
                    }
                    if pre.contains(k) && k != key {
                        assert(sviews(before_seen).contains(k));
                        let j = choose|j: int| 0 <= j < sviews(before_seen).len() && sviews(before_seen)[j] == k;
                        assert(sviews(seen@)[j] == k);
                    }
                    if k == key {
                        assert(sviews(seen@)[sviews(before_seen).len() as int] == k);
                    }
                }
                assert(store.tokens_view() =~= credited(m0, post));
            }
        } else {
            assert(store.tokens_view() =~= credited(m0, post));
        }
        i = i + 1;
    }
    assert(rv.take(refs@.len() as int) =~= rv);
    let rest = crate::protocol::unmarked_residual(content);
    if chars_of(rest.as_str()).len() > 0 {
        store.record_raw_output(session_id, turn, rest);
    }
    store.increment_turn(session_id);
    turn
}

fn contains_string(v: &Vec<String>, s: &String) -> (r: bool)
    ensures
        r == sviews(v@).contains(s@),
{
    let mut i: usize = 0;
    while i < v.len()
        invariant
            i <= v@.len(),
            forall|j: int| 0 <= j < i ==> sviews(v@)[j] != s@,
        decreases v.len() - i,
    {
        if v[i] == *s {
            assert(sviews(v@)[i as int] == s@);
            return true;
        }
        i = i + 1;
    }
    false
}


/// Phase-1 store step of closing a turn: a response citing an unknown token
/// is refused and the store is left exactly as it was; otherwise the
/// response is committed as `commit_phase1` says. Returns the turn of the
/// response.
pub fn finalize_phase1_store<S: SquireStore>(store: &mut S, session_id: u128, content: &str) -> (r: Result<u64, String>)
    requires
        old(store).inv(),
        turn_in(old(store).turns_view(), session_id) < u64::MAX,
        forall|k: Seq<char>| old(store).tokens_view().contains_key(k) && inline_refs(content@).contains(k)
            ==> old(store).tokens_view()[k].accumulated_hits < u64::MAX,
    ensures
        final(store).inv(),
        first_missing(inline_refs(content@), old(store).tokens_view()) matches Some(id) ==> {
            &&& r matches Err(m) && m@ == undisplayable_reason(id)
            &&& *final(store) == *old(store)
        },
        first_missing(inline_refs(content@), old(store).tokens_view()) is None ==> {
            &&& r == Ok::<u64, String>(turn_in(old(store).turns_view(), session_id))
            &&& final(store).tokens_view() == credited(old(store).tokens_view(), inline_refs(content@))
            &&& raw_after(old(store).raw_view(), final(store).raw_view(), session_id, turn_in(old(store).turns_view(), session_id), content@)
            &&& final(store).turns_view() == old(store).turns_view().insert(session_id, (turn_in(old(store).turns_view(), session_id) + 1) as u64)
            &&& final(store).rels_view() == old(store).rels_view()
            &&& final(store).preserve_view() == old(store).preserve_view()
            &&& final(store).failures_view() == old(store).failures_view()
        },
{
    match undisplayable_ref(&*store, content) {
        Some(id) => {
            let mut v = chars_of("undisplayable token §!");
            push_all(&mut v, &chars_of(id.as_str()));
            Err(string_of(v.as_slice()))
        },
        None => Ok(commit_phase1(store, session_id, content)),
    }
}

/// Committing a phase-1 response credits each stored token it cites exactly
/// one hit, however often it is cited, leaves the other tokens as they were,
/// and creates no token.
pub proof fn law_phase1_credits_each_cited_token_once(m: Map<Seq<char>, StoredToken>, refs: Seq<Seq<char>>, k: Seq<char>)
    requires
        m.contains_key(k),
        m[k].accumulated_hits < u64::MAX,
    ensures
        credited(m, refs).dom() == m.dom(),
        credited(m, refs)[k].accumulated_hits == m[k].accumulated_hits + if refs.contains(k) { 1int } else { 0int },
        credited(m, refs)[k].short_desc == m[k].short_desc,
        credited(m, refs)[k].token_type == m[k].token_type,
        credited(m, refs.push(k).push(k)) == credited(m, refs.push(k)),
{
    assert(credited(m, refs).dom() =~= m.dom());
    assert forall|x: Seq<char>| refs.push(k).push(k).contains(x) <==> refs.push(k).contains(x) by {
        let a = refs.push(k);
        if a.push(k).contains(x) {
            let j = choose|j: int| 0 <= j < a.push(k).len() && a.push(k)[j] == x;
            if j < a.len() {
                assert(a[j] == x);
            } else {
                assert(a[a.len() - 1] == x);
            }
        }
        if a.contains(x) {
            let j = choose|j: int| 0 <= j < a.len() && a[j] == x;
            assert(a.push(k)[j] == x);
        }
    }
    assert(credited(m, refs.push(k).push(k)) =~= credited(m, refs.push(k)));
}

// ───────────────────────────── text chunks ─────────────────────────────

/// `m` after upserting each of `ts` in order.
pub open spec fn upsert_all(m: Map<Seq<char>, StoredToken>, ts: Seq<NewTokenSpec>, turn: u64, session: u128) -> Map<Seq<char>, StoredToken>
    decreases ts.len(),
{
    if ts.len() == 0 {
        m
    } else {
        with_upsert(upsert_all(m, ts.drop_last(), turn, session), ts.last(), turn, session)
    }
}

pub open spec fn spec_ids(ts: Seq<NewTokenSpec>) -> Seq<Seq<char>> {
    ts.map_values(|t: NewTokenSpec| t.id@)
}

// ───────────────────────────── storing again ─────────────────────────────

/// Some token of `ts` has id `k`.
pub open spec fn has_id(ts: Seq<NewTokenSpec>, k: Seq<char>) -> bool {
    exists|i: int| 0 <= i < ts.len() && (#[trigger] ts[i]).id@ == k
}

/// Some token of `ts` with id `k` carries a full description.
pub open spec fn has_full(ts: Seq<NewTokenSpec>, k: Seq<char>) -> bool {
    exists|i: int| 0 <= i < ts.len() && (#[trigger] ts[i]).id@ == k && ts[i].full_desc is Some
}

/// Some token of `ts` with id `k` carries an endpoint.
pub open spec fn has_endpoint(ts: Seq<NewTokenSpec>, k: Seq<char>) -> bool {
    exists|i: int| 0 <= i < ts.len() && (#[trigger] ts[i]).id@ == k && ts[i].endpoint is Some
}

/// `a` and `b` are the same stored token but for their hit counts.
pub open spec fn same_but_hits(a: StoredToken, b: StoredToken) -> bool {
    &&& a.token_type == b.token_type
    &&& a.short_desc == b.short_desc
    &&& a.full_desc == b.full_desc
    &&& a.creation_turn == b.creation_turn
    &&& a.endpoint == b.endpoint
    &&& a.ranges == b.ranges
    &&& a.session_id == b.session_id
}

proof fn lemma_has_id_init(ts: Seq<NewTokenSpec>, k: Seq<char>)
    requires
        ts.len() > 0,
    ensures
        has_id(ts, k) == (has_id(ts.drop_last(), k) || ts.last().id@ == k),
        has_full(ts, k) == (has_full(ts.drop_last(), k) || (ts.last().id@ == k
            && ts.last().full_desc is Some)),
        has_endpoint(ts, k) == (has_endpoint(ts.drop_last(), k) || (ts.last().id@ == k
            && ts.last().endpoint is Some)),
{
    let init = ts.drop_last();
    if has_id(ts, k) && ts.last().id@ != k {
        let i = choose|i: int| 0 <= i < ts.len() && (#[trigger] ts[i]).id@ == k;
        assert(init[i] == ts[i]);
    }
    if has_id(init, k) {
        let i = choose|i: int| 0 <= i < init.len() && (#[trigger] init[i]).id@ == k;
        assert(ts[i] == init[i]);
    }
    if has_full(ts, k) && !(ts.last().id@ == k && ts.last().full_desc is Some) {
        let i = choose|i: int|
            0 <= i < ts.len() && (#[trigger] ts[i]).id@ == k && ts[i].full_desc is Some;
        assert(init[i] == ts[i]);
    }
    if has_full(init, k) {
        let i = choose|i: int|
            0 <= i < init.len() && (#[trigger] init[i]).id@ == k && init[i].full_desc is Some;
        assert(ts[i] == init[i]);
    }
    if has_endpoint(ts, k) && !(ts.last().id@ == k && ts.last().endpoint is Some) {
        let i = choose|i: int|
            0 <= i < ts.len() && (#[trigger] ts[i]).id@ == k && ts[i].endpoint is Some;
        assert(init[i] == ts[i]);
    }
    if has_endpoint(init, k) {
        let i = choose|i: int|
            0 <= i < init.len() && (#[trigger] init[i]).id@ == k && init[i].endpoint is Some;
        assert(ts[i] == init[i]);
    }
    if ts.last().id@ == k {
        assert(ts[ts.len() - 1].id@ == k);
    }
}

/// The ids upserting `ts` leaves in the store: the old ones and those of `ts`.
proof fn lemma_upsert_all_keys(m: Map<Seq<char>, StoredToken>, ts: Seq<NewTokenSpec>, turn: u64, session: u128, k: Seq<char>)
    ensures
        upsert_all(m, ts, turn, session).contains_key(k) == (m.contains_key(k) || has_id(ts, k)),
        !has_id(ts, k) && m.contains_key(k) ==> upsert_all(m, ts, turn, session)[k] == m[k],
    decreases ts.len(),
{
    if ts.len() > 0 {
        lemma_upsert_all_keys(m, ts.drop_last(), turn, session, k);
        lemma_has_id_init(ts, k);
    }
}

/// A token already stored keeps its type, creation turn, ranges and session.
proof fn lemma_upsert_all_keeps_origin(m: Map<Seq<char>, StoredToken>, ts: Seq<NewTokenSpec>, turn: u64, session: u128, k: Seq<char>)
    requires
        m.contains_key(k),
    ensures
        upsert_all(m, ts, turn, session).contains_key(k),
        upsert_all(m, ts, turn, session)[k].token_type == m[k].token_type,
        upsert_all(m, ts, turn, session)[k].creation_turn == m[k].creation_turn,
        upsert_all(m, ts, turn, session)[k].ranges == m[k].ranges,
        upsert_all(m, ts, turn, session)[k].session_id == m[k].session_id,
    decreases ts.len(),
{
    if ts.len() > 0 {
        lemma_upsert_all_keeps_origin(m, ts.drop_last(), turn, session, k);
    }
}

/// Where `ts` names `k`, the stored short description of `k` is that of the
/// last token of `ts` with that id, whatever the store held before; likewise
/// the full description and the endpoint, where some token of `ts` with that
/// id carries one.
proof fn lemma_upsert_all_last_wins(
    m1: Map<Seq<char>, StoredToken>,
    m2: Map<Seq<char>, StoredToken>,
    ts: Seq<NewTokenSpec>,
    turn: u64,
    session: u128,
    k: Seq<char>,
)
    ensures
        has_id(ts, k) ==> upsert_all(m1, ts, turn, session)[k].short_desc == upsert_all(
            m2,
            ts,
            turn,
            session,
        )[k].short_desc,
        has_full(ts, k) ==> upsert_all(m1, ts, turn, session)[k].full_desc == upsert_all(
            m2,
            ts,
            turn,
            session,
        )[k].full_desc,
        has_endpoint(ts, k) ==> upsert_all(m1, ts, turn, session)[k].endpoint == upsert_all(
            m2,
            ts,
            turn,
            session,
        )[k].endpoint,
    decreases ts.len(),
{
    if ts.len() > 0 {
        let init = ts.drop_last();
        lemma_has_id_init(ts, k);
        lemma_upsert_all_last_wins(m1, m2, init, turn, session, k);
        lemma_upsert_all_keys(m1, init, turn, session, k);
        lemma_upsert_all_keys(m2, init, turn, session, k);
        if has_full(init, k) {
            let i = choose|i: int|
                0 <= i < init.len() && (#[trigger] init[i]).id@ == k && init[i].full_desc is Some;
            assert(has_id(init, k));
        }
        if has_endpoint(init, k) {
            let i = choose|i: int|
                0 <= i < init.len() && (#[trigger] init[i]).id@ == k && init[i].endpoint is Some;
            assert(has_id(init, k));
        }
    }
}

/// Without a token of `ts` carrying one, a stored token keeps its full
/// description and its endpoint.
proof fn lemma_upsert_all_keeps_optional(m: Map<Seq<char>, StoredToken>, ts: Seq<NewTokenSpec>, turn: u64, session: u128, k: Seq<char>)
    requires
        m.contains_key(k),
    ensures
        !has_full(ts, k) ==> upsert_all(m, ts, turn, session)[k].full_desc == m[k].full_desc,
        !has_endpoint(ts, k) ==> upsert_all(m, ts, turn, session)[k].endpoint == m[k].endpoint,
    decreases ts.len(),
{
    if ts.len() > 0 {
        lemma_has_id_init(ts, k);
        lemma_upsert_all_keeps_optional(m, ts.drop_last(), turn, session, k);
        lemma_upsert_all_keys(m, ts.drop_last(), turn, session, k);
    }
}

/// Storing the same tokens a second time (as ingesting the same tool
/// registry again does) adds no token and changes no stored token but for
/// its hit count.
pub proof fn law_storing_again_changes_only_hits(
    m: Map<Seq<char>, StoredToken>,
    ts: Seq<NewTokenSpec>,
    turn: u64,
    session: u128,
)
    ensures
        upsert_all(upsert_all(m, ts, turn, session), ts, turn, session).dom() == upsert_all(
            m,
            ts,
            turn,
            session,
        ).dom(),
        forall|k: Seq<char>|
            #[trigger] upsert_all(m, ts, turn, session).contains_key(k) ==> same_but_hits(
                upsert_all(upsert_all(m, ts, turn, session), ts, turn, session)[k],
                upsert_all(m, ts, turn, session)[k],
            ),
{
    let y = upsert_all(m, ts, turn, session);
    let z = upsert_all(y, ts, turn, session);
    assert forall|k: Seq<char>| #[trigger] z.contains_key(k) == y.contains_key(k) by {
        lemma_upsert_all_keys(y, ts, turn, session, k);
        lemma_upsert_all_keys(m, ts, turn, session, k);
    }
    assert(z.dom() =~= y.dom());
    assert forall|k: Seq<char>| #[trigger] y.contains_key(k) implies same_but_hits(z[k], y[k]) by {
        lemma_upsert_all_keys(y, ts, turn, session, k);
        if has_id(ts, k) {
            lemma_upsert_all_keeps_origin(y, ts, turn, session, k);
            lemma_upsert_all_last_wins(m, y, ts, turn, session, k);
            lemma_upsert_all_keeps_optional(y, ts, turn, session, k);
        }
    }
}

proof fn lemma_upsert_all_hits(m: Map<Seq<char>, StoredToken>, ts: Seq<NewTokenSpec>, turn: u64, session: u128, k: Seq<char>)
    requires
        m.contains_key(k) ==> m[k].accumulated_hits + crate::memory::count_of(spec_ids(ts), k) <= u64::MAX,
        ts.len() < u64::MAX,
    ensures
        upsert_all(m, ts, turn, session).contains_key(k) <==> (m.contains_key(k) || spec_ids(ts).contains(k)),
        upsert_all(m, ts, turn, session).contains_key(k) ==> upsert_all(m, ts, turn, session)[k].accumulated_hits
            == (if m.contains_key(k) { m[k].accumulated_hits as int } else { 0int }) + crate::memory::count_of(spec_ids(ts), k),
    decreases ts.len(),
{
    if ts.len() > 0 {
        assert(spec_ids(ts).drop_last() =~= spec_ids(ts.drop_last()));
        lemma_upsert_all_hits(m, ts.drop_last(), turn, session, k);
        lemma_count_bounded(spec_ids(ts), k);
        lemma_count_bounded(spec_ids(ts.drop_last()), k);
        assert(spec_ids(ts).last() == ts.last().id@);
        assert(spec_ids(ts.drop_last()).contains(k) ==> spec_ids(ts).contains(k)) by {
            if spec_ids(ts.drop_last()).contains(k) {
                let j = choose|j: int| 0 <= j < spec_ids(ts.drop_last()).len() && spec_ids(ts.drop_last())[j] == k;
                assert(spec_ids(ts)[j] == k);
            }
        }
        assert(spec_ids(ts).contains(k) ==> spec_ids(ts.drop_last()).contains(k) || ts.last().id@ == k) by {
            if spec_ids(ts).contains(k) {
                let j = choose|j: int| 0 <= j < spec_ids(ts).len() && spec_ids(ts)[j] == k;
                if j < ts.len() - 1 {
                    assert(spec_ids(ts.drop_last())[j] == k);
                }
            }
        }
        assert(ts.last().id@ == k ==> spec_ids(ts).contains(k)) by {
            if ts.last().id@ == k {
                assert(spec_ids(ts)[ts.len() - 1] == k);
            }
        }
    } else {
        assert(spec_ids(ts) =~= Seq::<Seq<char>>::empty());
    }
}

/// Store each of `tokens` in order, in `turn` for `session_id`.
pub fn ingest_tokens<S: SquireStore>(store: &mut S, tokens: Vec<NewTokenSpec>, turn: u64, session_id: u128)
    requires
        old(store).inv(),
        forall|k: Seq<char>| old(store).tokens_view().contains_key(k)
            ==> old(store).tokens_view()[k].accumulated_hits + crate::memory::count_of(spec_ids(tokens@), k) <= u64::MAX,
        tokens@.len() < u64::MAX,
    ensures
        final(store).inv(),
        final(store).tokens_view() == upsert_all(old(store).tokens_view(), tokens@, turn, session_id),
        final(store).rels_view() == old(store).rels_view(),
        final(store).preserve_view() == old(store).preserve_view(),
        final(store).turns_view() == old(store).turns_view(),
        final(store).raw_view() == old(store).raw_view(),
        final(store).failures_view() == old(store).failures_view(),
{
    let ghost m0 = store.tokens_view();
    let ghost ts = tokens@;
    let ghost others = (store.rels_view(), store.preserve_view(), store.turns_view(), store.raw_view(), store.failures_view());
    let mut rest = tokens;
    assert(ts.take(0) =~= Seq::<NewTokenSpec>::empty());
    assert(ts.skip(0) =~= ts);
    let mut i: usize = 0;
    let n = rest.len();
    while i < n
        invariant
            n == ts.len(),
            i <= n,
            rest@ == ts.skip(i as int),
            store.inv(),
            store.tokens_view() == upsert_all(m0, ts.take(i as int), turn, session_id),
            forall|x: Seq<char>| m0.contains_key(x) ==> m0[x].accumulated_hits + crate::memory::count_of(spec_ids(ts), x) <= u64::MAX,
            n < u64::MAX,
            others == (store.rels_view(), store.preserve_view(), store.turns_view(), store.raw_view(), store.failures_view()),
        decreases n - i,
    {
        let t = rest.remove(0);
        assert(t == ts[i as int]);
        assert(rest@ =~= ts.skip(i + 1));
        let ghost pre = ts.take(i as int);
        assert(ts.take(i + 1) =~= pre.push(t));
        assert(ts.take(i + 1).drop_last() =~= pre);
        proof {
            let x = t.id@;
            crate::memory::lemma_count_prefix(spec_ids(ts), x, i as int, n as int);
            assert(spec_ids(ts).take(i as int) =~= spec_ids(pre));
            assert(spec_ids(ts).take(n as int) =~= spec_ids(ts));
            lemma_upsert_all_hits(m0, pre, turn, session_id, x);
            assert(spec_ids(ts).take(i + 1) =~= spec_ids(pre).push(x));
            assert(spec_ids(ts).take(n as int) =~= spec_ids(ts));
            assert(crate::memory::count_of(spec_ids(pre).push(x), x) == crate::memory::count_of(spec_ids(pre), x) + 1) by {
                assert(spec_ids(pre).push(x).drop_last() =~= spec_ids(pre));
            }
            crate::memory::lemma_count_prefix(spec_ids(ts), x, i + 1, n as int);
            if !m0.contains_key(x) {
                lemma_count_bounded(spec_ids(pre), x);
                assert(spec_ids(pre).len() == i);
            }
        }
        store.upsert_token(t, turn, session_id);
        i = i + 1;
    }
    assert(ts.take(n as int) =~= ts);
}

proof fn lemma_count_bounded(ids: Seq<Seq<char>>, k: Seq<char>)
    ensures
        crate::memory::count_of(ids, k) <= ids.len(),
        !ids.contains(k) ==> crate::memory::count_of(ids, k) == 0,
    decreases ids.len(),
{
    if ids.len() > 0 {
        lemma_count_bounded(ids.drop_last(), k);
        if !ids.contains(k) {
            assert(ids.last() != k) by {
                if ids.last() == k {
                    assert(ids[ids.len() - 1] == k);
                }
            }
            assert(!ids.drop_last().contains(k)) by {
                if ids.drop_last().contains(k) {
                    let j = choose|j: int| 0 <= j < ids.drop_last().len() && ids.drop_last()[j] == k;
                    assert(ids[j] == k);
                }
            }
        }
    }
}


/// Lowercase hexadecimal digit of a value below 16.
pub open spec fn hex_digit(n: nat) -> char {
    if n < 10 { (('0' as nat) + n) as char } else { (('a' as nat) + n - 10) as char }
}

/// The last `k` lowercase hexadecimal digits of `n`, most significant
/// first.
pub open spec fn hex_of(n: nat, k: nat) -> Seq<char>
    decreases k,
{
    if k == 0 {
        Seq::empty()
    } else {
        hex_of(n / 16, (k - 1) as nat).push(hex_digit(n % 16))
    }
}

/// The 32 lowercase hexadecimal digits of a 128-bit id, most significant first.
pub open spec fn uuid_simple_of(id: u128) -> Seq<char> {
    hex_of(id as nat, 32)
}

/// `uuid::Uuid::from_u128(id).simple().to_string()`: the id's bytes taken
/// big-endian and written as 32 lowercase hexadecimal digits.
#[verifier::external_body]
fn uuid_simple_text(id: u128) -> (r: String)
    ensures
        r@ == uuid_simple_of(id),
{
    uuid::Uuid::from_u128(id).simple().to_string()
}

/// The part of a session id that chunk ids carry: its first 8 hexadecimal
/// digits when the other 24 are all zero (as for the global session),
/// otherwise all 32. Two sessions never get the same tag.
pub open spec fn session_tag_of(session_id: u128) -> Seq<char> {
    let h = uuid_simple_of(session_id);
    if forall|i: int| 8 <= i < 32 ==> #[trigger] h[i] == '0' { h.take(8) } else { h }
}

pub proof fn lemma_hex_len(n: nat, k: nat)
    ensures
        hex_of(n, k).len() == k,
    decreases k,
{
    if k > 0 {
        lemma_hex_len(n / 16, (k - 1) as nat);
    }
}

proof fn lemma_hex_digit_injective(a: nat, b: nat)
    requires
        a < 16,
        b < 16,
        hex_digit(a) == hex_digit(b),
    ensures
        a == b,
{
    assert(hex_digit(a) as int == if a < 10 { 48 + a } else { 87 + a });
    assert(hex_digit(b) as int == if b < 10 { 48 + b } else { 87 + b });
}

/// `16` to the power `k`.
pub open spec fn hex_cap(k: nat) -> nat
    decreases k,
{
    if k == 0 { 1 } else { 16 * hex_cap((k - 1) as nat) }
}

proof fn lemma_hex_injective(a: nat, b: nat, k: nat)
    requires
        a < hex_cap(k),
        b < hex_cap(k),
        hex_of(a, k) == hex_of(b, k),
    ensures
        a == b,
    decreases k,
{
    if k > 0 {
        let p = hex_cap((k - 1) as nat);
        assert(hex_of(a, k).last() == hex_digit(a % 16));
        assert(hex_of(b, k).last() == hex_digit(b % 16));
        lemma_hex_digit_injective(a % 16, b % 16);
        assert(hex_of(a, k).drop_last() == hex_of(a / 16, (k - 1) as nat));
        assert(hex_of(b, k).drop_last() == hex_of(b / 16, (k - 1) as nat));
        assert(a / 16 < p) by (nonlinear_arith)
            requires a < 16 * p;
        assert(b / 16 < p) by (nonlinear_arith)
            requires b < 16 * p;
        lemma_hex_injective(a / 16, b / 16, (k - 1) as nat);
        assert(a == 16 * (a / 16) + a % 16) by (nonlinear_arith);
        assert(b == 16 * (b / 16) + b % 16) by (nonlinear_arith);
    }
}

/// Different ids have different hexadecimal forms.
pub proof fn lemma_uuid_simple_injective(a: u128, b: u128)
    requires
        uuid_simple_of(a) == uuid_simple_of(b),
    ensures
        a == b,
{
    assert(hex_cap(32) == 0x1_0000_0000_0000_0000_0000_0000_0000_0000nat) by {
        reveal_with_fuel(hex_cap, 33);
    }
    lemma_hex_injective(a as nat, b as nat, 32);
}

/// Different sessions have different tags; a tag has 8 or 32 digits.
pub proof fn lemma_session_tag_injective(a: u128, b: u128)
    ensures
        session_tag_of(a).len() == 8 || session_tag_of(a).len() == 32,
        forall|i: int| 0 <= i < session_tag_of(a).len() ==> #[trigger] session_tag_of(a)[i] != '_',
        session_tag_of(a) == session_tag_of(b) ==> a == b,
{
    let ha = uuid_simple_of(a);
    let hb = uuid_simple_of(b);
    lemma_hex_len(a as nat, 32);
    lemma_hex_len(b as nat, 32);
    lemma_hex_digits(a as nat, 32);
    if session_tag_of(a) == session_tag_of(b) {
        if session_tag_of(a).len() == 8 {
            assert forall|i: int| 0 <= i < 32 implies ha[i] == hb[i] by {
                if i < 8 {
                    assert(ha.take(8)[i] == hb.take(8)[i]);
                }
            }
            assert(ha =~= hb);
        }
        lemma_uuid_simple_injective(a, b);
    }
}

proof fn lemma_hex_digits(n: nat, k: nat)
    ensures
        forall|i: int| 0 <= i < hex_of(n, k).len() ==> #[trigger] hex_of(n, k)[i] != '_',
    decreases k,
{
    if k > 0 {
        lemma_hex_digits(n / 16, (k - 1) as nat);
        let d = (n % 16) as nat;
        assert(hex_digit(d) as int == if d < 10 { 48 + d } else { 87 + d });
        let pre = hex_of(n / 16, (k - 1) as nat);
        assert forall|i: int| 0 <= i < hex_of(n, k).len() implies #[trigger] hex_of(n, k)[i] != '_' by {
            if i < pre.len() {
                assert(hex_of(n, k)[i] == pre[i]);
            } else {
                assert(hex_of(n, k)[i] == hex_digit(d));
            }
        }
    }
}

/// Two different sessions never produce the same chunk id, whatever the
/// prefix, turn and position.
pub proof fn law_chunk_ids_never_shared_between_sessions(
    p1: Seq<char>, t1: u64, i1: nat, s1: u128,
    p2: Seq<char>, t2: u64, i2: nat, s2: u128,
)
    requires
        s1 != s2,
    ensures
        crate::chunking::chunk_id(p1, t1, i1, session_tag_of(s1)) != crate::chunking::chunk_id(p2, t2, i2, session_tag_of(s2)),
{
    let g1 = session_tag_of(s1);
    let g2 = session_tag_of(s2);
    lemma_session_tag_injective(s1, s2);
    lemma_session_tag_injective(s2, s1);
    let x = crate::chunking::chunk_id(p1, t1, i1, g1);
    let y = crate::chunking::chunk_id(p2, t2, i2, g2);
    let a1 = p1 + "_T"@ + crate::text::dec(t1 as nat) + seq!['_'] + crate::chunking::dec3(i1);
    let a2 = p2 + "_T"@ + crate::text::dec(t2 as nat) + seq!['_'] + crate::chunking::dec3(i2);
    assert(x =~= (a1 + seq!['_']) + g1);
    assert(y =~= (a2 + seq!['_']) + g2);
    if x == y {
        if g1.len() == g2.len() {
            assert(g1 =~= x.skip(x.len() - g1.len()));
            assert(g2 =~= y.skip(y.len() - g2.len()));
        } else if g1.len() < g2.len() {
            assert(x[x.len() - g1.len() - 1] == '_');
            assert(y[y.len() - g1.len() - 1] == g2[g2.len() - g1.len() - 1]);
        } else {
            assert(y[y.len() - g2.len() - 1] == '_');
            assert(x[x.len() - g2.len() - 1] == g1[g1.len() - g2.len() - 1]);
        }
    }
}

/// The tag chunk ids carry for a session (see `session_tag_of`).
pub fn session_tag(session_id: u128) -> (r: String)
    ensures
        r@ == session_tag_of(session_id),
{
    let full = chars_of(uuid_simple_text(session_id).as_str());
    proof { lemma_hex_len(session_id as nat, 32); }
    let mut rest_zero = true;
    let mut i: usize = 8;
    while i < 32
        invariant
            8 <= i <= 32,
            full@ == uuid_simple_of(session_id),
            full@.len() == 32,
            rest_zero == forall|j: int| 8 <= j < i ==> #[trigger] full@[j] == '0',
        decreases 32 - i,
    {
        if full[i] != '0' {
            rest_zero = false;
        }
        i = i + 1;
    }
    if rest_zero {
        let head = crate::text::slice_vec(&full, 0, 8);
        assert(head@ =~= session_tag_of(session_id));
        string_of(head.as_slice())
    } else {
        string_of(full.as_slice())
    }
}

/// The ids of the chunk tokens of `text`, in order.
pub open spec fn chunk_ids(text: Seq<char>, prefix: Seq<char>, turn: u64, short: Seq<char>) -> Seq<Seq<char>> {
    Seq::new(crate::chunking::text_chunks(text).len(), |i: int| crate::chunking::chunk_id(prefix, turn, (i + 1) as nat, short))
}

/// Store `text` as chunk tokens of `turn` (one `system_referential` token
/// per chunk, ids `{prefix}_T{turn}_{NNN}_{session}`) and hand back their
/// ids in order.
pub fn ingest_text_chunks<S: SquireStore>(text: &str, turn: u64, prefix: &str, store: &mut S, session_id: u128) -> (r: Vec<String>)
    requires
        old(store).inv(),
        crate::chunking::text_chunks(text@).len() < u64::MAX,
        forall|k: Seq<char>| old(store).tokens_view().contains_key(k)
            ==> old(store).tokens_view()[k].accumulated_hits + crate::memory::count_of(
                chunk_ids(text@, prefix@, turn, session_tag_of(session_id)), k) <= u64::MAX,
    ensures
        final(store).inv(),
        sviews(r@) == chunk_ids(text@, prefix@, turn, session_tag_of(session_id)),
        exists|ts: Seq<NewTokenSpec>| {
            &&& ts.len() == crate::chunking::text_chunks(text@).len()
            &&& (forall|i: int| 0 <= i < ts.len() ==> crate::chunking::is_chunk_token(#[trigger] ts[i], prefix@, turn,
                    session_tag_of(session_id), i as nat, crate::chunking::text_chunks(text@)[i]))
            &&& final(store).tokens_view() == upsert_all(old(store).tokens_view(), ts, turn, session_id)
        },
        final(store).rels_view() == old(store).rels_view(),
        final(store).preserve_view() == old(store).preserve_view(),
        final(store).turns_view() == old(store).turns_view(),
        final(store).raw_view() == old(store).raw_view(),
        final(store).failures_view() == old(store).failures_view(),
{
    let short = session_tag(session_id);
    let specs = crate::chunking::text_chunk_tokens(text, turn, prefix, short.as_str());
    let ghost ts = specs@;
    let ghost ids = chunk_ids(text@, prefix@, turn, short@);
    let mut out: Vec<String> = Vec::new();
    let mut i: usize = 0;
    while i < specs.len()
        invariant
            i <= specs@.len(),
            ts == specs@,
            ids == chunk_ids(text@, prefix@, turn, short@),
            specs@.len() == crate::chunking::text_chunks(text@).len(),
            forall|j: int| 0 <= j < specs@.len() ==> crate::chunking::is_chunk_token(#[trigger] specs@[j], prefix@, turn,
                short@, j as nat, crate::chunking::text_chunks(text@)[j]),
            sviews(out@) == ids.take(i as int),
        decreases specs.len() - i,
    {
        let ghost before = out@;
        assert(crate::chunking::is_chunk_token(specs@[i as int], prefix@, turn, short@, i as nat, crate::chunking::text_chunks(text@)[i as int]));
        out.push(specs[i].id.clone());
        assert(sviews(out@) =~= sviews(before).push(ids[i as int]));
        assert(ids.take(i + 1) =~= ids.take(i as int).push(ids[i as int]));
        i = i + 1;
    }
    assert(ids.take(specs@.len() as int) =~= ids);
    proof {
        assert(spec_ids(ts) =~= ids) by {
            assert forall|j: int| 0 <= j < ts.len() implies spec_ids(ts)[j] == ids[j] by {
                assert(crate::chunking::is_chunk_token(ts[j], prefix@, turn, short@, j as nat, crate::chunking::text_chunks(text@)[j]));
            }
        }
    }
    ingest_tokens(store, specs, turn, session_id);
    out
}

/// Store the latest user message as `USR_…` chunk tokens.
pub fn ingest_user_input_chunks<S: SquireStore>(text: &str, turn: u64, store: &mut S, session_id: u128) -> (r: Vec<String>)
    requires
        old(store).inv(),
        crate::chunking::text_chunks(text@).len() < u64::MAX,
        forall|k: Seq<char>| old(store).tokens_view().contains_key(k)
            ==> old(store).tokens_view()[k].accumulated_hits + crate::memory::count_of(
                chunk_ids(text@, "USR"@, turn, session_tag_of(session_id)), k) <= u64::MAX,
    ensures
        final(store).inv(),
        sviews(r@) == chunk_ids(text@, "USR"@, turn, session_tag_of(session_id)),
        exists|ts: Seq<NewTokenSpec>| {
            &&& ts.len() == crate::chunking::text_chunks(text@).len()
            &&& (forall|i: int| 0 <= i < ts.len() ==> crate::chunking::is_chunk_token(#[trigger] ts[i], "USR"@, turn,
                    session_tag_of(session_id), i as nat, crate::chunking::text_chunks(text@)[i]))
            &&& final(store).tokens_view() == upsert_all(old(store).tokens_view(), ts, turn, session_id)
        },
        final(store).rels_view() == old(store).rels_view(),
        final(store).preserve_view() == old(store).preserve_view(),
        final(store).turns_view() == old(store).turns_view(),
        final(store).raw_view() == old(store).raw_view(),
        final(store).failures_view() == old(store).failures_view(),
{
    ingest_text_chunks(text, turn, "USR", store, session_id)
}

/// Store a model response as `RESP_…` chunk tokens.
pub fn ingest_response_chunks<S: SquireStore>(text: &str, turn: u64, store: &mut S, session_id: u128)
    requires
        old(store).inv(),
        crate::chunking::text_chunks(text@).len() < u64::MAX,
        forall|k: Seq<char>| old(store).tokens_view().contains_key(k)
            ==> old(store).tokens_view()[k].accumulated_hits + crate::memory::count_of(
                chunk_ids(text@, "RESP"@, turn, session_tag_of(session_id)), k) <= u64::MAX,
    ensures
        final(store).inv(),
        exists|ts: Seq<NewTokenSpec>| {
            &&& ts.len() == crate::chunking::text_chunks(text@).len()
            &&& (forall|i: int| 0 <= i < ts.len() ==> crate::chunking::is_chunk_token(#[trigger] ts[i], "RESP"@, turn,
                    session_tag_of(session_id), i as nat, crate::chunking::text_chunks(text@)[i]))
            &&& final(store).tokens_view() == upsert_all(old(store).tokens_view(), ts, turn, session_id)
        },
        final(store).rels_view() == old(store).rels_view(),
        final(store).preserve_view() == old(store).preserve_view(),
        final(store).turns_view() == old(store).turns_view(),
        final(store).raw_view() == old(store).raw_view(),
        final(store).failures_view() == old(store).failures_view(),
{
    let _ = ingest_text_chunks(text, turn, "RESP", store, session_id);
}


// ───────────────────────────── phase 2 ─────────────────────────────

/// An id is known when a token of the response defines it or the store
/// already holds it.
pub open spec fn is_known(m: Map<Seq<char>, StoredToken>, defining: Seq<Seq<char>>, id: Seq<char>) -> bool {
    defining.contains(id) || m.contains_key(id)
}

/// The relationships whose subject and object are both known, in order.
pub open spec fn valid_rels_of(rels: Seq<Relationship>, m: Map<Seq<char>, StoredToken>, defining: Seq<Seq<char>>) -> Seq<Relationship>
    decreases rels.len(),
{
    if rels.len() == 0 {
        Seq::empty()
    } else {
        let prev = valid_rels_of(rels.drop_last(), m, defining);
        let r = rels.last();
        if is_known(m, defining, r.subject@) && is_known(m, defining, r.object@) { prev.push(r) } else { prev }
    }
}

/// How each relationship with an unknown end is reported, in order.
pub open spec fn invalid_lines_of(rels: Seq<Relationship>, m: Map<Seq<char>, StoredToken>, defining: Seq<Seq<char>>) -> Seq<Seq<char>>
    decreases rels.len(),
{
    if rels.len() == 0 {
        Seq::empty()
    } else {
        let prev = invalid_lines_of(rels.drop_last(), m, defining);
        let r = rels.last();
        let sk = is_known(m, defining, r.subject@);
        let ok = is_known(m, defining, r.object@);
        if sk && ok {
            prev
        } else {
            prev.push(crate::turn::invalid_rel_text(r.subject@, r.predicate@, r.object@, sk, ok))
        }
    }
}

/// Cleaned, non-empty preserve entries that are known (`known == true`) or
/// unknown (`known == false`), in order.
pub open spec fn preserve_of(ps: Seq<Seq<char>>, m: Map<Seq<char>, StoredToken>, defining: Seq<Seq<char>>, known: bool) -> Seq<Seq<char>>
    decreases ps.len(),
{
    if ps.len() == 0 {
        Seq::empty()
    } else {
        let prev = preserve_of(ps.drop_last(), m, defining, known);
        let c = crate::turn::clean_preserve(ps.last());
        if c.len() > 0 && is_known(m, defining, c) == known { prev.push(c) } else { prev }
    }
}

/// The relationship log after the tree API logs each of `rels` in order.
pub open spec fn log_after_adds(log: Seq<(Seq<char>, Seq<char>, Seq<char>)>, rels: Seq<Relationship>) -> Seq<(Seq<char>, Seq<char>, Seq<char>)>
    decreases rels.len(),
{
    if rels.len() == 0 {
        log
    } else {
        crate::backend::log_after_add(log_after_adds(log, rels.drop_last()), rels.last())
    }
}

/// `p` is token `t` of a phase-2 response as `prepare_phase2_token` stores it.
pub open spec fn is_prepared(p: NewTokenSpec, t: NewTokenSpec, spans: Seq<(Seq<char>, Seq<char>)>) -> bool {
    &&& p.id == t.id
    &&& p.short_desc == t.short_desc
    &&& p.endpoint == t.endpoint
    &&& p.ranges == t.ranges
    &&& p.token_type@ == (if crate::turn::span_text_of(spans, t.id@) is Some { "referential"@ } else { t.token_type@ })
    &&& opt_view(p.full_desc) == (match t.full_desc {
        Some(f) => Some(f@),
        None => crate::turn::span_text_of(spans, t.id@),
    })
}

/// What the phase-2 store step kept and refused.
pub struct Phase2Report {
    pub turn: u64,
    pub valid_rels: Vec<Relationship>,
    pub invalid_rels: Vec<String>,
    pub valid_preserve: Vec<String>,
    pub invalid_preserve: Vec<String>,
}

/// Phase-2 store step of closing a turn: store every new token (typed and
/// filled from its span), log the relationships whose ends are known, store
/// the known preserve entries merged with the session's chunk tokens, and
/// advance the turn; report what was refused.
pub fn commit_phase2<S: SquireStore>(
    store: &mut S,
    session_id: u128,
    tokens: Vec<NewTokenSpec>,
    spans: &Vec<(String, String)>,
    rels: &Vec<Relationship>,
    preserve: &Vec<String>,
) -> (r: Phase2Report)
    requires
        old(store).inv(),
        turn_in(old(store).turns_view(), session_id) < u64::MAX,
        tokens@.len() < u64::MAX,
        forall|k: Seq<char>| old(store).tokens_view().contains_key(k)
            ==> old(store).tokens_view()[k].accumulated_hits + crate::memory::count_of(spec_ids(tokens@), k) <= u64::MAX,
    ensures
        final(store).inv(),
        r.turn == turn_in(old(store).turns_view(), session_id),
        exists|ps: Seq<NewTokenSpec>| #![trigger upsert_all(old(store).tokens_view(), ps, r.turn, session_id)] {
            &&& ps.len() == tokens@.len()
            &&& (forall|i: int| 0 <= i < ps.len() ==> is_prepared(#[trigger] ps[i], tokens@[i], crate::protocol::pair_views(spans@)))
            &&& final(store).tokens_view() == upsert_all(old(store).tokens_view(), ps, r.turn, session_id)
        },
        r.valid_rels@ == valid_rels_of(rels@, old(store).tokens_view(), spec_ids(tokens@)),
        sviews(r.invalid_rels@) == invalid_lines_of(rels@, old(store).tokens_view(), spec_ids(tokens@)),
        sviews(r.valid_preserve@) == preserve_of(sviews(preserve@), old(store).tokens_view(), spec_ids(tokens@), true),
        sviews(r.invalid_preserve@) == preserve_of(sviews(preserve@), old(store).tokens_view(), spec_ids(tokens@), false),
        crate::backend::rel_triples(final(store).rels_view()) == log_after_adds(
            crate::backend::rel_triples(old(store).rels_view()), r.valid_rels@),
        final(store).preserve_view().contains_key(session_id),
        exists|sids: Seq<Seq<char>>| #![trigger crate::turn::merged_preserve(sviews(r.valid_preserve@), sids)] {
            &&& (forall|i: int| 0 <= i < sids.len() ==> final(store).tokens_view().contains_key(#[trigger] sids[i]))
            &&& sviews(final(store).preserve_view()[session_id]@) == crate::turn::merged_preserve(sviews(r.valid_preserve@), sids)
        },
        final(store).preserve_view().remove(session_id) == old(store).preserve_view().remove(session_id),
        final(store).turns_view() == old(store).turns_view().insert(session_id, (r.turn + 1) as u64),
        final(store).raw_view() == old(store).raw_view(),
        final(store).failures_view() == old(store).failures_view(),
{
    let turn = store.current_turn(session_id);
    let ghost m0 = store.tokens_view();
    let ghost ids = spec_ids(tokens@);
    let ghost pv = crate::protocol::pair_views(spans@);
    let ghost log0 = crate::backend::rel_triples(store.rels_view());
    let ghost pres0 = store.preserve_view();
    let ghost turns0 = store.turns_view();
    let ghost rf = (store.raw_view(), store.failures_view());
    // new tokens
    let mut prepared: Vec<NewTokenSpec> = Vec::new();
    let mut rest = tokens;
    let ghost ts = rest@;
    assert(ts.skip(0) =~= ts);
    let n = rest.len();
    let mut i: usize = 0;
    while i < n
        invariant
            n == ts.len(),
            i <= n,
            rest@ == ts.skip(i as int),
            ids == spec_ids(ts),
            pv == crate::protocol::pair_views(spans@),
            prepared@.len() == i,
            forall|j: int| 0 <= j < i ==> is_prepared(#[trigger] prepared@[j], ts[j], pv),
        decreases n - i,
    {
        let t = rest.remove(0);
        assert(t == ts[i as int]);
        assert(rest@ =~= ts.skip(i + 1));
        let p = crate::turn::prepare_phase2_token(t, spans);
        prepared.push(p);
        i = i + 1;
    }
    let ghost ps = prepared@;
    proof {
        assert(spec_ids(ps) =~= ids) by {
            assert forall|j: int| 0 <= j < ps.len() implies spec_ids(ps)[j] == ids[j] by {
                assert(is_prepared(ps[j], ts[j], pv));
            }
        }
    }
    ingest_tokens(store, prepared, turn, session_id);
    let ghost m1 = store.tokens_view();
    proof {
        assert forall|k: Seq<char>| m1.contains_key(k) <==> is_known(m0, ids, k) by {
            lemma_upsert_all_hits(m0, ps, turn, session_id, k);
            crate::memory::lemma_count_prefix(ids, k, 0, 0);
        }
    }
    // relationships
    let mut valid_rels: Vec<Relationship> = Vec::new();
    let mut invalid_rels: Vec<String> = Vec::new();
    let mut j: usize = 0;
    while j < rels.len()
        invariant
            j <= rels@.len(),
            store.inv(),
            store.tokens_view() == m1,
            forall|k: Seq<char>| m1.contains_key(k) <==> is_known(m0, ids, k),
            store.preserve_view() == pres0,
            store.turns_view() == turns0,
            rf == (store.raw_view(), store.failures_view()),
            crate::backend::rel_triples(store.rels_view()) == log0,
            valid_rels@ == valid_rels_of(rels@.take(j as int), m0, ids),
            sviews(invalid_rels@) == invalid_lines_of(rels@.take(j as int), m0, ids),
        decreases rels.len() - j,
    {
        let r = &rels[j];
        assert(rels@.take(j + 1).drop_last() =~= rels@.take(j as int));
        assert(rels@.take(j + 1).last() == *r);
        let sk = store.token_exists(r.subject.as_str());
        let ok = store.token_exists(r.object.as_str());
        if sk && ok {
            valid_rels.push(Relationship { subject: r.subject.clone(), predicate: r.predicate.clone(), object: r.object.clone() });
        } else {
            let ghost before = invalid_rels@;
            invalid_rels.push(crate::turn::invalid_relationship_line(r, sk, ok));
            assert(sviews(invalid_rels@) =~= sviews(before).push(invalid_rels@.last()@));
        }
        j = j + 1;
    }
    assert(rels@.take(rels@.len() as int) =~= rels@);
    let mut k: usize = 0;
    let ghost vr = valid_rels@;
    while k < valid_rels.len()
        invariant
            k <= valid_rels@.len(),
            vr == valid_rels@,
            store.inv(),
            store.tokens_view() == m1,
            crate::backend::rel_triples(store.rels_view()) == log_after_adds(log0, vr.take(k as int)),
            store.preserve_view() == pres0,
            store.turns_view() == turns0,
            rf == (store.raw_view(), store.failures_view()),
        decreases valid_rels.len() - k,
    {
        assert(vr.take(k + 1).drop_last() =~= vr.take(k as int));
        let rc = Relationship {
            subject: valid_rels[k].subject.clone(),
            predicate: valid_rels[k].predicate.clone(),
            object: valid_rels[k].object.clone(),
        };
        store.add_relationship(rc);
        k = k + 1;
    }
    assert(vr.take(vr.len() as int) =~= vr);
    // preserve
    let ghost pvs = sviews(preserve@);
    let mut valid_pres: Vec<String> = Vec::new();
    let mut invalid_pres: Vec<String> = Vec::new();
    let mut q: usize = 0;
    while q < preserve.len()
        invariant
            q <= preserve@.len(),
            pvs == sviews(preserve@),
            store.inv(),
            store.tokens_view() == m1,
            forall|x: Seq<char>| m1.contains_key(x) <==> is_known(m0, ids, x),
            store.preserve_view() == pres0,
            store.turns_view() == turns0,
            rf == (store.raw_view(), store.failures_view()),
            sviews(valid_pres@) == preserve_of(pvs.take(q as int), m0, ids, true),
            sviews(invalid_pres@) == preserve_of(pvs.take(q as int), m0, ids, false),
        decreases preserve.len() - q,
    {
        assert(pvs.take(q + 1).drop_last() =~= pvs.take(q as int));
        assert(pvs.take(q + 1).last() == preserve@[q as int]@);
        let c = crate::turn::clean_preserve_id(preserve[q].as_str());
        if chars_of(c.as_str()).len() > 0 {
            if store.token_exists(c.as_str()) {
                let ghost before = valid_pres@;
                valid_pres.push(c);
                assert(sviews(valid_pres@) =~= sviews(before).push(valid_pres@.last()@));
            } else {
                let ghost before = invalid_pres@;
                invalid_pres.push(c);
                assert(sviews(invalid_pres@) =~= sviews(before).push(invalid_pres@.last()@));
            }
        }
        q = q + 1;
    }
    assert(pvs.take(preserve@.len() as int) =~= pvs);
    let session_ids = store.list_token_ids_by_session(session_id);
    let merged = crate::turn::merge_preserve_list(&valid_pres, &session_ids);
    let ghost mv = merged;
    store.set_preserve_list(session_id, merged);
    proof {
        let sids = sviews(session_ids@);
        assert forall|i: int| 0 <= i < sids.len() implies store.tokens_view().contains_key(#[trigger] sids[i]) by {
            assert(sids[i] == session_ids@[i]@);
        }
        assert(store.preserve_view()[session_id] == mv);
        assert(store.preserve_view().remove(session_id) =~= pres0.remove(session_id));
    }
    store.increment_turn(session_id);
    let report = Phase2Report { turn, valid_rels, invalid_rels, valid_preserve: valid_pres, invalid_preserve: invalid_pres };
    proof {
        assert(ts == tokens@);
        assert(ps.len() == tokens@.len()
            && (forall|i: int| 0 <= i < ps.len() ==> is_prepared(#[trigger] ps[i], tokens@[i], crate::protocol::pair_views(spans@)))
            && store.tokens_view() == upsert_all(old(store).tokens_view(), ps, report.turn, session_id));
        let sids = sviews(session_ids@);
        assert((forall|i: int| 0 <= i < sids.len() ==> store.tokens_view().contains_key(#[trigger] sids[i]))
            && sviews(store.preserve_view()[session_id]@) == crate::turn::merged_preserve(sviews(report.valid_preserve@), sids));
    }
    report
}


/// Every relationship of a phase-2 response is either logged or reported,
/// never both: the logged ones have both ends known, and there is one report
/// line per other one.
pub proof fn law_phase2_partitions_relationships(rels: Seq<Relationship>, m: Map<Seq<char>, StoredToken>, defining: Seq<Seq<char>>)
    ensures
        valid_rels_of(rels, m, defining).len() + invalid_lines_of(rels, m, defining).len() == rels.len(),
        forall|i: int| 0 <= i < valid_rels_of(rels, m, defining).len() ==> {
            let r = #[trigger] valid_rels_of(rels, m, defining)[i];
            is_known(m, defining, r.subject@) && is_known(m, defining, r.object@)
        },
    decreases rels.len(),
{
    if rels.len() > 0 {
        law_phase2_partitions_relationships(rels.drop_last(), m, defining);
        let prev = valid_rels_of(rels.drop_last(), m, defining);
        assert forall|i: int| 0 <= i < valid_rels_of(rels, m, defining).len() implies {
            let r = #[trigger] valid_rels_of(rels, m, defining)[i];
            is_known(m, defining, r.subject@) && is_known(m, defining, r.object@)
        } by {
            if i < prev.len() {
                assert(valid_rels_of(rels, m, defining)[i] == prev[i]);
            }
        }
    }
}

/// After the phase-2 store step every token the response defined is stored,
/// whatever else was refused, and no token other than those and the ones
/// already stored exists.
pub proof fn law_phase2_stores_every_new_token(m: Map<Seq<char>, StoredToken>, ps: Seq<NewTokenSpec>, turn: u64, session: u128, k: Seq<char>)
    requires
        ps.len() < u64::MAX,
        m.contains_key(k) ==> m[k].accumulated_hits + crate::memory::count_of(spec_ids(ps), k) <= u64::MAX,
    ensures
        upsert_all(m, ps, turn, session).contains_key(k) <==> (m.contains_key(k) || spec_ids(ps).contains(k)),
{
    lemma_upsert_all_hits(m, ps, turn, session, k);
}


// ───────────────────────────── rejections ─────────────────────────────

/// A response was refused: one more retry is used and, when that spends
/// the budget, the failure is recorded in the store with its rule, reason,
/// attempt number and content.
pub fn reject_and_record<S: SquireStore>(
    state: &mut crate::turn::SquireTurnState,
    store: &mut S,
    session_id: u128,
    failed_content: String,
    reason: String,
) -> (r: crate::turn::TurnOutcome)
    requires
        old(state).retry_count < u32::MAX,
        old(store).inv(),
    ensures
        final(store).inv(),
        old(state).retry_count + 1 > old(state).max_retries ==> {
            &&& r == (crate::turn::TurnOutcome::Failed { reason, failed_content })
            &&& final(state).retry_count == 0
            &&& final(store).failures_view().len() == old(store).failures_view().len() + 1
            &&& final(store).failures_view().drop_last() == old(store).failures_view()
            &&& final(store).failures_view().last().session_id == session_id
            &&& final(store).failures_view().last().rule@ == crate::validation::rejection_rule(reason@)
            &&& final(store).failures_view().last().reason == reason
            &&& final(store).failures_view().last().retry_count == old(state).retry_count + 1
            &&& final(store).failures_view().last().failed_content == failed_content
        },
        old(state).retry_count + 1 <= old(state).max_retries ==> {
            &&& r == crate::turn::TurnOutcome::Retry
            &&& final(state).retry_count == old(state).retry_count + 1
            &&& final(store).failures_view() == old(store).failures_view()
        },
        final(state).max_retries == old(state).max_retries,
        final(state).phase == old(state).phase,
        final(state).user_request_text == old(state).user_request_text,
        final(store).tokens_view() == old(store).tokens_view(),
        final(store).rels_view() == old(store).rels_view(),
        final(store).preserve_view() == old(store).preserve_view(),
        final(store).turns_view() == old(store).turns_view(),
        final(store).raw_view() == old(store).raw_view(),
{
    let before = state.retry_count;
    let rule = crate::validation::classify_rejection_rule(reason.as_str());
    let record_reason = reason.clone();
    let record_content = failed_content.clone();
    let outcome = state.reject(failed_content, reason);
    match outcome {
        crate::turn::TurnOutcome::Failed { .. } => {
            let record = crate::memory::ComplianceFailureRecord {
                session_id,
                rule,
                reason: record_reason,
                retry_count: before + 1,
                failed_content: record_content,
                timestamp: crate::memory::now_millis(),
            };
            store.record_compliance_failure(record);
        },
        _ => {},
    }
    outcome
}

} // verus!
