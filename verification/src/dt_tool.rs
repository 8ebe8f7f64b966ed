//! The decision-tree tool's operations that change the store, for any
//! backend: creating decisions and options, selecting, confirming,
//! invalidating, abandoning and resolving them.

use vstd::prelude::*;
use crate::backend::{turn_in, SquireStore};
use crate::decision::{dt_done_text, slug_candidate_of, DtOperation};
use crate::memory::{rels_matching, StoredToken};
use crate::store::triples;
use crate::text::{chars_of, lit, trim};
use crate::types::{NewTokenSpec, Relationship, ToolResult};

verus! {

// ───────────────────────────── fresh ids ─────────────────────────────

/// The `j`-th id tried for a title: `{prefix}{slug}`, then `-2`, `-3`, …
pub open spec fn nth_candidate(prefix: Seq<char>, title: Seq<char>, j: nat) -> Seq<char> {
    slug_candidate_of(prefix, title, if j == 0 { 0 } else { j + 1 })
}

/// Candidate `n` is the first one that names no stored token.
pub open spec fn first_free_id(m: Map<Seq<char>, StoredToken>, prefix: Seq<char>, title: Seq<char>, n: nat) -> bool {
    &&& !m.contains_key(nth_candidate(prefix, title, n))
    &&& forall|j: nat| j < n ==> m.contains_key(#[trigger] nth_candidate(prefix, title, j))
}

proof fn lemma_candidates_distinct(prefix: Seq<char>, title: Seq<char>, i: nat, j: nat)
    requires
        i != j,
    ensures
        nth_candidate(prefix, title, i) != nth_candidate(prefix, title, j),
{
    let base = prefix + crate::decision::slug_of(title);
    let bl = base.len();
    if i == 0 || j == 0 {
        let other = if i == 0 { j } else { i };
        crate::text::lemma_dec_nonempty(other + 1);
        assert(nth_candidate(prefix, title, other).len() > bl);
    } else {
        let ci = nth_candidate(prefix, title, i);
        let cj = nth_candidate(prefix, title, j);
        if ci == cj {
            assert(ci.subrange(bl + 1int, ci.len() as int) =~= crate::text::dec(i + 1));
            assert(cj.subrange(bl + 1int, cj.len() as int) =~= crate::text::dec(j + 1));
            crate::text::lemma_dec_injective(i + 1, j + 1);
        }
    }
}

proof fn lemma_taken_candidates_bounded(m: Map<Seq<char>, StoredToken>, prefix: Seq<char>, title: Seq<char>, n: nat)
    requires
        m.dom().finite(),
        forall|j: nat| j < n ==> m.contains_key(#[trigger] nth_candidate(prefix, title, j)),
    ensures
        n <= m.dom().len(),
{
    let cands = Seq::new(n, |j: int| nth_candidate(prefix, title, j as nat));
    assert forall|a: int, b: int| 0 <= a < cands.len() && 0 <= b < cands.len() && a != b implies cands[a] != cands[b] by {
        lemma_candidates_distinct(prefix, title, a as nat, b as nat);
    }
    assert(cands.no_duplicates());
    cands.unique_seq_to_set();
    assert forall|x: Seq<char>| cands.to_set().contains(x) implies m.dom().contains(x) by {
        let j = choose|j: int| 0 <= j < cands.len() && cands[j] == x;
        assert(m.contains_key(nth_candidate(prefix, title, j as nat)));
    }
    vstd::set_lib::lemma_len_subset(cands.to_set(), m.dom());
}

/// The first candidate id for `title` under `prefix` that names no stored
/// token.
pub fn unique_slug<S: SquireStore>(store: &S, prefix: &str, title: &str) -> (r: String)
    requires
        store.inv(),
        store.tokens_view().dom().len() < u64::MAX - 1,
    ensures
        exists|n: nat| first_free_id(store.tokens_view(), prefix@, title@, n) && r@ == nth_candidate(prefix@, title@, n),
{
    proof { store.lemma_tokens_finite(); }
    let ghost m = store.tokens_view();
    let mut j: u64 = 0;
    let mut name = crate::decision::slug_candidate(prefix, title, 0);
    while store.token_exists(name.as_str())
        invariant
            store.inv(),
            m == store.tokens_view(),
            m.dom().finite(),
            name@ == nth_candidate(prefix@, title@, j as nat),
            forall|x: nat| x < j ==> m.contains_key(#[trigger] nth_candidate(prefix@, title@, x)),
            j <= m.dom().len(),
            m.dom().len() < u64::MAX - 1,
        decreases m.dom().len() - j,
    {
        proof {
            lemma_taken_candidates_bounded(m, prefix@, title@, (j + 1) as nat);
        }
        j = j + 1;
        name = crate::decision::slug_candidate(prefix, title, j + 1);
    }
    name
}

// ───────────────────────────── results ─────────────────────────────

fn ok_result(call_id: &str, output: String) -> (r: ToolResult)
    ensures
        r.call_id@ == call_id@,
        r.output == output,
        !r.is_error,
{
    ToolResult { call_id: lit(call_id), output, is_error: false }
}

fn err_result(call_id: &str, output: String) -> (r: ToolResult)
    ensures
        r.call_id@ == call_id@,
        r.output == output,
        r.is_error,
{
    ToolResult { call_id: lit(call_id), output, is_error: true }
}

fn missing_id(call_id: &str) -> (r: ToolResult)
    ensures
        r.call_id@ == call_id@,
        r.output@ == "Missing required argument: id"@,
        r.is_error,
{
    proof {
        reveal_strlit("Missing required argument: ");
        reveal_strlit("id");
        reveal_strlit("Missing required argument: id");
    }
    let r = crate::tools::missing_argument(call_id, "id");
    assert(r.output@ =~= "Missing required argument: id"@);
    r
}

fn missing_parent_id(call_id: &str) -> (r: ToolResult)
    ensures
        r.call_id@ == call_id@,
        r.output@ == "Missing required argument: parent_id"@,
        r.is_error,
{
    proof {
        reveal_strlit("Missing required argument: ");
        reveal_strlit("parent_id");
        reveal_strlit("Missing required argument: parent_id");
    }
    let r = crate::tools::missing_argument(call_id, "parent_id");
    assert(r.output@ =~= "Missing required argument: parent_id"@);
    r
}

/// `m2` is `m` with the new token `id` of type `ty` and short description
/// `short`, created in `turn` for `session` with one hit.
pub open spec fn fresh_token(m: Map<Seq<char>, StoredToken>, m2: Map<Seq<char>, StoredToken>, id: Seq<char>, ty: Seq<char>, short: Seq<char>, turn: u64, session: u128) -> bool {
    &&& !m.contains_key(id)
    &&& m2.contains_key(id)
    &&& m2 == m.insert(id, m2[id])
    &&& m2[id].token_type@ == ty
    &&& m2[id].short_desc@ == short
    &&& m2[id].full_desc is None
    &&& m2[id].creation_turn == turn
    &&& m2[id].accumulated_hits == 1
    &&& m2[id].endpoint is None
    &&& m2[id].ranges@.len() == 0
    &&& m2[id].session_id == session
}

/// `r` is the edge `subject -pred-> object`, by views.
pub open spec fn edge_is(r: Relationship, subject: Seq<char>, pred: Seq<char>, object: Seq<char>) -> bool {
    r.subject@ == subject && r.predicate@ == pred && r.object@ == object
}

/// Store a new token with a fresh id and hand the id back.
fn store_fresh<S: SquireStore>(store: &mut S, session_id: u128, prefix: &str, title: &String, ty: &str) -> (id: String)
    requires
        old(store).inv(),
        old(store).tokens_view().dom().len() < u64::MAX - 1,
    ensures
        final(store).inv(),
        exists|n: nat| first_free_id(old(store).tokens_view(), prefix@, title@, n) && id@ == nth_candidate(prefix@, title@, n),
        fresh_token(old(store).tokens_view(), final(store).tokens_view(), id@, ty@, title@, turn_in(old(store).turns_view(), session_id), session_id),
        final(store).rels_view() == old(store).rels_view(),
        final(store).preserve_view() == old(store).preserve_view(),
        final(store).turns_view() == old(store).turns_view(),
        final(store).raw_view() == old(store).raw_view(),
        final(store).failures_view() == old(store).failures_view(),
{
    let id = unique_slug(&*store, prefix, title.as_str());
    let turn = store.current_turn(session_id);
    let t = NewTokenSpec {
        id: id.clone(),
        token_type: lit(ty),
        short_desc: title.clone(),
        full_desc: None,
        endpoint: None,
        ranges: Vec::new(),
    };
    store.upsert_token(t, turn, session_id);
    proof {
        let m = old(store).tokens_view();
        assert(store.tokens_view() =~= m.insert(id@, store.tokens_view()[id@]));
    }
    id
}

pub proof fn lemma_all_rels(rs: Seq<Relationship>)
    ensures
        rels_matching(rs, None, None, None) == rs,
    decreases rs.len(),
{
    if rs.len() > 0 {
        lemma_all_rels(rs.drop_last());
        assert(rs.drop_last().push(rs.last()) =~= rs);
    }
}


// ───────────────────────────── operations ─────────────────────────────

/// The id chosen for a new node or assumption with title `title`.
pub open spec fn chosen_id(m: Map<Seq<char>, StoredToken>, prefix: Seq<char>, title: Seq<char>, id: Seq<char>) -> bool {
    exists|n: nat| first_free_id(m, prefix, title, n) && id == nth_candidate(prefix, title, n)
}

/// The store is untouched.
pub open spec fn unchanged<S: SquireStore>(a: S, b: S) -> bool {
    &&& b.tokens_view() == a.tokens_view()
    &&& b.rels_view() == a.rels_view()
    &&& b.preserve_view() == a.preserve_view()
    &&& b.turns_view() == a.turns_view()
    &&& b.raw_view() == a.raw_view()
    &&& b.failures_view() == a.failures_view()
}

/// Everything but the relationship log is untouched.
pub open spec fn only_rels_changed<S: SquireStore>(a: S, b: S) -> bool {
    &&& b.tokens_view() == a.tokens_view()
    &&& b.preserve_view() == a.preserve_view()
    &&& b.turns_view() == a.turns_view()
    &&& b.raw_view() == a.raw_view()
    &&& b.failures_view() == a.failures_view()
}

/// Everything but the tokens and the relationship log is untouched.
pub open spec fn only_tokens_and_rels_changed<S: SquireStore>(a: S, b: S) -> bool {
    &&& b.preserve_view() == a.preserve_view()
    &&& b.turns_view() == a.turns_view()
    &&& b.raw_view() == a.raw_view()
    &&& b.failures_view() == a.failures_view()
}

/// `create_decision`: a new decision node titled with the trimmed title.
pub fn op_create_decision<S: SquireStore>(store: &mut S, session_id: u128, call_id: &str, title: Option<&str>) -> (r: ToolResult)
    requires
        old(store).inv(),
        old(store).tokens_view().dom().len() < u64::MAX - 1,
    ensures
        final(store).inv(),
        r.call_id@ == call_id@,
        title is None ==> r.is_error && r.output@ == "Missing required argument: title"@ && unchanged(*old(store), *final(store)),
        title is Some && trim(title->0@).len() == 0 ==> r.is_error && r.output@ == "Title cannot be empty"@ && unchanged(*old(store), *final(store)),
        title is Some && trim(title->0@).len() > 0 ==> exists|id: Seq<char>| {
            &&& chosen_id(old(store).tokens_view(), "CONCEPT_DT_"@, trim(title->0@), id)
            &&& fresh_token(old(store).tokens_view(), final(store).tokens_view(), id, "decision"@, trim(title->0@),
                    turn_in(old(store).turns_view(), session_id), session_id)
            &&& !r.is_error && r.output@ == dt_done_text(DtOperation::CreateDecision, id, trim(title->0@), Seq::empty())
            &&& final(store).rels_view() == old(store).rels_view()
            &&& only_tokens_and_rels_changed(*old(store), *final(store))
        },
{
    match crate::decision::required_title(title) {
        Err(e) => err_result(call_id, e),
        Ok(tt) => {
            let id = store_fresh(store, session_id, "CONCEPT_DT_", &tt, "decision");
            let out = crate::decision::dt_done_message(DtOperation::CreateDecision, id.as_str(), tt.as_str(), "");
            proof { reveal_strlit(""); }
            let r = ok_result(call_id, out);
            assert(chosen_id(old(store).tokens_view(), "CONCEPT_DT_"@, trim(title->0@), id@)
                && fresh_token(old(store).tokens_view(), store.tokens_view(), id@, "decision"@, trim(title->0@),
                    turn_in(old(store).turns_view(), session_id), session_id)
                && !r.is_error && r.output@ == dt_done_text(DtOperation::CreateDecision, id@, trim(title->0@), Seq::empty())
                && store.rels_view() == old(store).rels_view()
                && only_tokens_and_rels_changed(*old(store), *store));
            r
        },
    }
}

/// `consider`: a new option under `parent_id`, linked by `considers`.
pub fn op_consider<S: SquireStore>(store: &mut S, session_id: u128, call_id: &str, parent_id: Option<&str>, title: Option<&str>) -> (r: ToolResult)
    requires
        old(store).inv(),
        old(store).tokens_view().dom().len() < u64::MAX - 1,
    ensures
        final(store).inv(),
        r.call_id@ == call_id@,
        parent_id is None ==> r.is_error && r.output@ == "Missing required argument: parent_id"@ && unchanged(*old(store), *final(store)),
        parent_id is Some && title is None ==> r.is_error && r.output@ == "Missing required argument: title"@ && unchanged(*old(store), *final(store)),
        parent_id is Some && title is Some && trim(title->0@).len() == 0 ==> r.is_error && r.output@ == "Title cannot be empty"@ && unchanged(*old(store), *final(store)),
        parent_id is Some && title is Some && trim(title->0@).len() > 0 ==> exists|id: Seq<char>| {
            &&& chosen_id(old(store).tokens_view(), "CONCEPT_DT_"@, trim(title->0@), id)
            &&& fresh_token(old(store).tokens_view(), final(store).tokens_view(), id, "decision"@, trim(title->0@),
                    turn_in(old(store).turns_view(), session_id), session_id)
            &&& final(store).rels_view().len() == old(store).rels_view().len() + 1
            &&& final(store).rels_view().drop_last() == old(store).rels_view()
            &&& edge_is(final(store).rels_view().last(), parent_id->0@, "considers"@, id)
            &&& !r.is_error && r.output@ == dt_done_text(DtOperation::Consider, id, trim(title->0@), parent_id->0@)
            &&& only_tokens_and_rels_changed(*old(store), *final(store))
        },
{
    let p = match parent_id {
        None => { return missing_parent_id(call_id); },
        Some(p) => p,
    };
    match crate::decision::required_title(title) {
        Err(e) => err_result(call_id, e),
        Ok(tt) => {
            let id = store_fresh(store, session_id, "CONCEPT_DT_", &tt, "decision");
            let ghost mid = store.rels_view();
            store.insert_relationship(Relationship { subject: lit(p), predicate: lit("considers"), object: id.clone() });
            assert(store.rels_view().drop_last() =~= mid);
            let out = crate::decision::dt_done_message(DtOperation::Consider, id.as_str(), tt.as_str(), p);
            ok_result(call_id, out)
        },
    }
}

/// `select`: mark option `id` as the active path under its parent (the
/// option itself when it has none), and record the assumption behind the
/// choice when one is given.
pub fn op_select<S: SquireStore>(store: &mut S, session_id: u128, call_id: &str, id: Option<&str>, assumption: Option<&str>) -> (r: ToolResult)
    requires
        old(store).inv(),
        old(store).tokens_view().dom().len() < u64::MAX - 1,
    ensures
        final(store).inv(),
        r.call_id@ == call_id@,
        id is None ==> r.is_error && r.output@ == "Missing required argument: id"@ && unchanged(*old(store), *final(store)),
        id matches Some(i) ==> {
            let parent = match crate::decision::tree_parent(triples(old(store).rels_view()), i@) { Some(p) => p, None => i@ };
            let log = final(store).rels_view();
            let n = old(store).rels_view().len();
            &&& !r.is_error && r.output@ == dt_done_text(DtOperation::Select, i@, Seq::empty(), Seq::empty())
            &&& log.len() >= n + 1
            &&& log.take(n as int) == old(store).rels_view()
            &&& edge_is(log[n as int], parent, "selects"@, i@)
            &&& only_tokens_and_rels_changed(*old(store), *final(store))
            &&& (match assumption {
                Some(a) if trim(a@).len() > 0 => exists|aid: Seq<char>| {
                    &&& chosen_id(old(store).tokens_view(), "CONCEPT_Assumption_"@, trim(a@), aid)
                    &&& fresh_token(old(store).tokens_view(), final(store).tokens_view(), aid, "assumption"@, trim(a@),
                            turn_in(old(store).turns_view(), session_id), session_id)
                    &&& log.len() == n + 2
                    &&& edge_is(log[n + 1int], i@, "drivenBy"@, aid)
                },
                _ => log.len() == n + 1 && final(store).tokens_view() == old(store).tokens_view(),
            })
        },
{
    let i = match id {
        None => { return missing_id(call_id); },
        Some(i) => i,
    };
    let rels = store.get_relationships(None, None, None);
    proof { lemma_all_rels(store.rels_view()); }
    let parent = crate::decision::select_parent(i, &rels);
    let ghost log0 = store.rels_view();
    let ghost m0 = store.tokens_view();
    store.insert_relationship(Relationship { subject: parent, predicate: lit("selects"), object: lit(i) });
    assert(store.rels_view().take(log0.len() as int) =~= log0);
    proof { reveal_strlit(""); }
    let r = ok_result(call_id, crate::decision::dt_done_message(DtOperation::Select, i, "", ""));
    if let Some(a) = assumption {
        let at = crate::text::trim_vec(&chars_of(a));
        if at.len() > 0 {
            let title = crate::text::string_of(at.as_slice());
            let ghost log1 = store.rels_view();
            let aid = store_fresh(store, session_id, "CONCEPT_Assumption_", &title, "assumption");
            let ghost aidv = aid@;
            store.insert_relationship(Relationship { subject: lit(i), predicate: lit("drivenBy"), object: aid });
            assert(store.rels_view().take(log0.len() as int) =~= log0);
            assert(store.rels_view()[log0.len() as int] == log1[log0.len() as int]);
            assert(chosen_id(old(store).tokens_view(), "CONCEPT_Assumption_"@, trim(a@), aidv)
                && fresh_token(old(store).tokens_view(), store.tokens_view(), aidv, "assumption"@, trim(a@),
                    turn_in(old(store).turns_view(), session_id), session_id)
                && store.rels_view().len() == log0.len() + 2
                && edge_is(store.rels_view()[log0.len() + 1int], i@, "drivenBy"@, aidv));
        }
    }
    r
}

/// Log `id -pred-> target` and answer with `message`.
fn link_and_answer<S: SquireStore>(store: &mut S, call_id: &str, id: &str, pred: &str, target: String, op: DtOperation) -> (r: ToolResult)
    requires
        old(store).inv(),
    ensures
        final(store).inv(),
        r.call_id@ == call_id@,
        !r.is_error,
        r.output@ == dt_done_text(op, id@, Seq::empty(), Seq::empty()),
        final(store).rels_view().len() == old(store).rels_view().len() + 1,
        final(store).rels_view().drop_last() == old(store).rels_view(),
        edge_is(final(store).rels_view().last(), id@, pred@, target@),
        only_rels_changed(*old(store), *final(store)),
{
    let ghost log0 = store.rels_view();
    store.insert_relationship(Relationship { subject: lit(id), predicate: lit(pred), object: target });
    assert(store.rels_view().drop_last() =~= log0);
    proof { reveal_strlit(""); }
    ok_result(call_id, crate::decision::dt_done_message(op, id, "", ""))
}

/// `confirm`: the assumption behind option `id` held, by `evidence`
/// (`confirmed` when none is given).
pub fn op_confirm<S: SquireStore>(store: &mut S, call_id: &str, id: Option<&str>, evidence: Option<&str>) -> (r: ToolResult)
    requires
        old(store).inv(),
    ensures
        final(store).inv(),
        r.call_id@ == call_id@,
        id is None ==> r.is_error && r.output@ == "Missing required argument: id"@ && unchanged(*old(store), *final(store)),
        id matches Some(i) ==> {
            let ev = match evidence { Some(e) => e@, None => "confirmed"@ };
            &&& !r.is_error && r.output@ == dt_done_text(DtOperation::Confirm, i@, Seq::empty(), Seq::empty())
            &&& final(store).rels_view().drop_last() == old(store).rels_view()
            &&& final(store).rels_view().len() == old(store).rels_view().len() + 1
            &&& edge_is(final(store).rels_view().last(), i@, "confirmedBy"@, "TRT_evidence_"@ + crate::decision::slug_of(ev))
            &&& only_rels_changed(*old(store), *final(store))
        },
{
    let i = match id {
        None => { return missing_id(call_id); },
        Some(i) => i,
    };
    let ev = match evidence { Some(e) => e, None => "confirmed" };
    link_and_answer(store, call_id, i, "confirmedBy", crate::decision::evidence_id(ev), DtOperation::Confirm)
}

/// `invalidate`: the assumption behind option `id` failed, by `evidence`
/// (`invalidated` when none is given).
pub fn op_invalidate<S: SquireStore>(store: &mut S, call_id: &str, id: Option<&str>, evidence: Option<&str>) -> (r: ToolResult)
    requires
        old(store).inv(),
    ensures
        final(store).inv(),
        r.call_id@ == call_id@,
        id is None ==> r.is_error && r.output@ == "Missing required argument: id"@ && unchanged(*old(store), *final(store)),
        id matches Some(i) ==> {
            let ev = match evidence { Some(e) => e@, None => "invalidated"@ };
            &&& !r.is_error && r.output@ == dt_done_text(DtOperation::Invalidate, i@, Seq::empty(), Seq::empty())
            &&& final(store).rels_view().drop_last() == old(store).rels_view()
            &&& final(store).rels_view().len() == old(store).rels_view().len() + 1
            &&& edge_is(final(store).rels_view().last(), i@, "invalidatedBy"@, "TRT_evidence_"@ + crate::decision::slug_of(ev))
            &&& only_rels_changed(*old(store), *final(store))
        },
{
    let i = match id {
        None => { return missing_id(call_id); },
        Some(i) => i,
    };
    let ev = match evidence { Some(e) => e, None => "invalidated" };
    link_and_answer(store, call_id, i, "invalidatedBy", crate::decision::evidence_id(ev), DtOperation::Invalidate)
}

/// `abandon`: option `id` is no longer pursued, pointing at the failed
/// assumption when one is given.
pub fn op_abandon<S: SquireStore>(store: &mut S, call_id: &str, id: Option<&str>, assumption: Option<&str>) -> (r: ToolResult)
    requires
        old(store).inv(),
    ensures
        final(store).inv(),
        r.call_id@ == call_id@,
        id is None ==> r.is_error && r.output@ == "Missing required argument: id"@ && unchanged(*old(store), *final(store)),
        id matches Some(i) ==> {
            let a = match assumption { Some(x) => x@, None => Seq::<char>::empty() };
            let target = if a.len() == 0 { "TRT_abandoned_"@ + i@ } else { "CONCEPT_Assumption_"@ + crate::decision::slug_of(a) };
            &&& !r.is_error && r.output@ == dt_done_text(DtOperation::Abandon, i@, Seq::empty(), Seq::empty())
            &&& final(store).rels_view().drop_last() == old(store).rels_view()
            &&& final(store).rels_view().len() == old(store).rels_view().len() + 1
            &&& edge_is(final(store).rels_view().last(), i@, "abandoned"@, target)
            &&& only_rels_changed(*old(store), *final(store))
        },
{
    let i = match id {
        None => { return missing_id(call_id); },
        Some(i) => i,
    };
    let a = match assumption { Some(x) => x, None => "" };
    proof { reveal_strlit(""); }
    link_and_answer(store, call_id, i, "abandoned", crate::decision::abandon_target(i, a), DtOperation::Abandon)
}

/// `resolve`: option `id` solved the problem of its tree's root. The walk to
/// the root must end.
pub fn op_resolve<S: SquireStore>(store: &mut S, call_id: &str, id: Option<&str>) -> (r: ToolResult)
    requires
        old(store).inv(),
        id matches Some(i) ==> exists|n: nat| (#[trigger] crate::decision::root_fuel(triples(old(store).rels_view()), i@, n)) is Some,
    ensures
        final(store).inv(),
        r.call_id@ == call_id@,
        id is None ==> r.is_error && r.output@ == "Missing required argument: id"@ && unchanged(*old(store), *final(store)),
        id matches Some(i) ==> exists|root: Seq<char>| {
            &&& (forall|n: nat| (#[trigger] crate::decision::root_fuel(triples(old(store).rels_view()), i@, n)) is Some
                    ==> crate::decision::root_fuel(triples(old(store).rels_view()), i@, n) == Some(root))
            &&& !r.is_error && r.output@ == dt_done_text(DtOperation::Resolve, i@, Seq::empty(), root)
            &&& final(store).rels_view().drop_last() == old(store).rels_view()
            &&& final(store).rels_view().len() == old(store).rels_view().len() + 1
            &&& edge_is(final(store).rels_view().last(), i@, "resolves"@, root)
            &&& only_rels_changed(*old(store), *final(store))
        },
{
    let i = match id {
        None => { return missing_id(call_id); },
        Some(i) => i,
    };
    let rels = store.get_relationships(None, None, None);
    proof { lemma_all_rels(store.rels_view()); }
    let root = crate::decision::find_dt_root(i, &rels);
    let ghost log0 = store.rels_view();
    store.insert_relationship(Relationship { subject: lit(i), predicate: lit("resolves"), object: root.clone() });
    assert(store.rels_view().drop_last() =~= log0);
    proof { reveal_strlit(""); }
    let r = ok_result(call_id, crate::decision::dt_done_message(DtOperation::Resolve, i, "", root.as_str()));
    assert((forall|n: nat| (#[trigger] crate::decision::root_fuel(triples(old(store).rels_view()), i@, n)) is Some
                ==> crate::decision::root_fuel(triples(old(store).rels_view()), i@, n) == Some(root@))
        && !r.is_error && r.output@ == dt_done_text(DtOperation::Resolve, i@, Seq::empty(), root@)
        && store.rels_view().drop_last() == old(store).rels_view()
        && store.rels_view().len() == old(store).rels_view().len() + 1
        && edge_is(store.rels_view().last(), i@, "resolves"@, root@)
        && only_rels_changed(*old(store), *store));
    r
}


/// A new node or assumption never takes the id of a stored token, and the
/// ids tried before it were all taken: `{slug}` first, then `{slug}-2`,
/// `{slug}-3`, …
pub proof fn law_new_ids_never_collide(m: Map<Seq<char>, StoredToken>, prefix: Seq<char>, title: Seq<char>, id: Seq<char>)
    requires
        chosen_id(m, prefix, title, id),
    ensures
        !m.contains_key(id),
        id != nth_candidate(prefix, title, 0) ==> m.contains_key(nth_candidate(prefix, title, 0)),
{
    let n = choose|n: nat| first_free_id(m, prefix, title, n) && id == nth_candidate(prefix, title, n);
    if n > 0 {
        assert(m.contains_key(nth_candidate(prefix, title, 0)));
    }
}

} // verus!
