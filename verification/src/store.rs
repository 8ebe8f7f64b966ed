//! Store-side rules that do not depend on a backend: token priority and the
//! active process state (open todo work, the pending decision) computed from
//! the relationship graph.

use vstd::prelude::*;
use std::collections::HashMap;
use crate::protocol::opt_view;
use crate::text::{chars_eq, chars_of, starts_with, starts_with_exec, string_of, strings_of, sviews, vviews};
use crate::types::Relationship;

verus! {

/// A node as graph traversal sees it.
#[derive(Debug, Clone, PartialEq)]
pub struct TraversalNode {
    pub token_id: String,
    pub token_type: String,
    pub short_desc: String,
    pub tags: Vec<String>,
    pub properties: HashMap<String, String>,
}

/// `accumulated_hits - (current_turn - creation_turn)`, each operand taken
/// as an `i64` (so values from 2^63 up wrap to negatives).
pub open spec fn priority_of(accumulated_hits: u64, current_turn: u64, creation_turn: u64) -> int {
    (accumulated_hits as i64) - ((current_turn as i64) - (creation_turn as i64))
}

/// Effective priority of a token: hits minus its age in turns; negative for
/// stale tokens that are never referenced.
pub fn effective_priority(accumulated_hits: u64, current_turn: u64, creation_turn: u64) -> (r: i64)
    requires
        i64::MIN <= (current_turn as i64) - (creation_turn as i64) <= i64::MAX,
        i64::MIN <= priority_of(accumulated_hits, current_turn, creation_turn) <= i64::MAX,
    ensures
        r == priority_of(accumulated_hits, current_turn, creation_turn),
{
    accumulated_hits as i64 - (current_turn as i64 - creation_turn as i64)
}


// ───────────────────────────── active process state ─────────────────────────────

/// The pending decision of an active decision tree: the node reached by
/// following `selects` edges, the assumption under test, and its status.
#[derive(Debug, Clone, PartialEq)]
pub struct LastDecision {
    pub node: String,
    pub assumption: String,
    pub status: String,
}

/// What is still open in the process trees: the first unfinished todo tree
/// with its open leaves, and the first unresolved decision tree with its
/// pending decision.
#[derive(Debug, Clone, Default, PartialEq)]
pub struct ActiveProcessState {
    pub todo_root: Option<String>,
    pub open_leaves: Vec<String>,
    pub dt_root: Option<String>,
    pub last_decision: Option<LastDecision>,
}

/// A relationship as `(subject, predicate, object)`.
pub type Triple = (Seq<char>, Seq<char>, Seq<char>);

pub open spec fn triples(rels: Seq<Relationship>) -> Seq<Triple> {
    rels.map_values(|r: Relationship| (r.subject@, r.predicate@, r.object@))
}

type RelChars = (Vec<char>, Vec<char>, Vec<char>);

spec fn tviews(v: Seq<RelChars>) -> Seq<Triple> {
    v.map_values(|t: RelChars| (t.0@, t.1@, t.2@))
}

/// Objects of the edges `subj --pred--> _`, in edge order.
pub open spec fn objects_of(r: Seq<Triple>, subj: Seq<char>, pred: Seq<char>) -> Seq<Seq<char>>
    decreases r.len(),
{
    if r.len() == 0 {
        Seq::empty()
    } else {
        let rest = objects_of(r.drop_last(), subj, pred);
        if r.last().0 == subj && r.last().1 == pred {
            rest.push(r.last().2)
        } else {
            rest
        }
    }
}

/// Some edge `subj --pred--> _` exists.
pub open spec fn edge_from(r: Seq<Triple>, subj: Seq<char>, pred: Seq<char>) -> bool {
    exists|k: int| 0 <= k < r.len() && (#[trigger] r[k]).0 == subj && r[k].1 == pred
}

/// Some edge `_ --pred--> obj` exists.
pub open spec fn edge_to(r: Seq<Triple>, pred: Seq<char>, obj: Seq<char>) -> bool {
    exists|k: int| 0 <= k < r.len() && (#[trigger] r[k]).1 == pred && r[k].2 == obj
}

/// Subtask children of a todo node.
pub open spec fn subtasks(r: Seq<Triple>, id: Seq<char>) -> Seq<Seq<char>> {
    objects_of(r, id, "subtask"@)
}

/// Whether todo node `id` is done, evaluated with `n` levels of descent:
/// marked done, and with subtasks that are all done (checked in order,
/// stopping at the first that is not). A node that is not marked is not
/// done; a marked node without subtasks is. `None` when `n` levels do not
/// suffice.
pub open spec fn done_fuel(r: Seq<Triple>, id: Seq<char>, n: nat) -> Option<bool>
    decreases n, 0int, 0int,
{
    if !edge_from(r, id, "marked_done"@) {
        Some(false)
    } else if subtasks(r, id).len() == 0 {
        Some(true)
    } else if n == 0 {
        None
    } else {
        all_done_fuel(r, subtasks(r, id), 0, (n - 1) as nat)
    }
}

/// Whether the nodes `cs[i..]` are all done.
pub open spec fn all_done_fuel(r: Seq<Triple>, cs: Seq<Seq<char>>, i: int, n: nat) -> Option<bool>
    decreases n, 1int, cs.len() - i,
{
    if i < 0 || i >= cs.len() {
        Some(true)
    } else {
        match done_fuel(r, cs[i], n) {
            Some(true) => all_done_fuel(r, cs, i + 1, n),
            other => other,
        }
    }
}

/// The open leaves under todo node `id`, depth first: the nodes without
/// subtasks that are not marked done (such a node is done exactly when it
/// is marked, and every node under a done node is done).
pub open spec fn leaves_fuel(r: Seq<Triple>, id: Seq<char>, n: nat) -> Option<Seq<Seq<char>>>
    decreases n, 0int, 0int,
{
    if subtasks(r, id).len() == 0 {
        if edge_from(r, id, "marked_done"@) {
            Some(Seq::empty())
        } else {
            Some(seq![id])
        }
    } else if n == 0 {
        None
    } else {
        all_leaves_fuel(r, subtasks(r, id), 0, (n - 1) as nat)
    }
}

/// The open leaves under the nodes `cs[i..]`, in order.
pub open spec fn all_leaves_fuel(r: Seq<Triple>, cs: Seq<Seq<char>>, i: int, n: nat) -> Option<
    Seq<Seq<char>>,
>
    decreases n, 1int, cs.len() - i,
{
    if i < 0 || i >= cs.len() {
        Some(Seq::empty())
    } else {
        match leaves_fuel(r, cs[i], n) {
            None => None,
            Some(a) => match all_leaves_fuel(r, cs, i + 1, n) {
                None => None,
                Some(b) => Some(a + b),
            },
        }
    }
}

/// Todo roots: ids starting with `TODO_` that are no node's subtask, in order.
pub open spec fn todo_roots(r: Seq<Triple>, ids: Seq<Seq<char>>) -> Seq<Seq<char>>
    decreases ids.len(),
{
    if ids.len() == 0 {
        Seq::empty()
    } else {
        let rest = todo_roots(r, ids.drop_last());
        let id = ids.last();
        if starts_with(id, "TODO_"@) && !edge_to(r, "subtask"@, id) {
            rest.push(id)
        } else {
            rest
        }
    }
}

/// Decision-tree roots: ids starting with `CONCEPT_DT_` that no `considers`
/// or `selects` edge points to, in order.
pub open spec fn dt_roots(r: Seq<Triple>, ids: Seq<Seq<char>>) -> Seq<Seq<char>>
    decreases ids.len(),
{
    if ids.len() == 0 {
        Seq::empty()
    } else {
        let rest = dt_roots(r, ids.drop_last());
        let id = ids.last();
        if starts_with(id, "CONCEPT_DT_"@) && !edge_to(r, "considers"@, id) && !edge_to(
            r,
            "selects"@,
            id,
        ) {
            rest.push(id)
        } else {
            rest
        }
    }
}

/// The first root that is not done, with its open leaves.
pub open spec fn todo_part(r: Seq<Triple>, roots: Seq<Seq<char>>, n: nat) -> Option<
    (Option<Seq<char>>, Seq<Seq<char>>),
>
    decreases roots.len(),
{
    if roots.len() == 0 {
        Some((None, Seq::empty()))
    } else {
        match done_fuel(r, roots[0], n) {
            None => None,
            Some(true) => todo_part(r, roots.drop_first(), n),
            Some(false) => match leaves_fuel(r, roots[0], n) {
                None => None,
                Some(ls) => Some((Some(roots[0]), ls)),
            },
        }
    }
}

/// The node reached from `cur` by following the first `selects` edge while
/// there is one, within `n` steps.
pub open spec fn walk_fuel(r: Seq<Triple>, cur: Seq<char>, n: nat) -> Option<Seq<char>>
    decreases n,
{
    let nx = objects_of(r, cur, "selects"@);
    if nx.len() == 0 {
        Some(cur)
    } else if n == 0 {
        None
    } else {
        walk_fuel(r, nx[0], (n - 1) as nat)
    }
}

/// Status of a decision node from its evidence edges.
pub open spec fn decision_status(r: Seq<Triple>, node: Seq<char>) -> Seq<char> {
    if edge_from(r, node, "confirmedBy"@) {
        "confirmed"@
    } else if edge_from(r, node, "invalidatedBy"@) {
        "invalidated"@
    } else if edge_from(r, node, "abandoned"@) {
        "abandoned"@
    } else {
        "under_consideration"@
    }
}

/// Object of the first `drivenBy` edge (anywhere in the graph) pointing to
/// a `CONCEPT_Assumption_` token, or empty.
pub open spec fn first_assumption(r: Seq<Triple>) -> Seq<char>
    decreases r.len(),
{
    if r.len() == 0 {
        Seq::empty()
    } else if r[0].1 == "drivenBy"@ && starts_with(r[0].2, "CONCEPT_Assumption_"@) {
        r[0].2
    } else {
        first_assumption(r.drop_first())
    }
}

/// The first decision root that no branch resolves (no `resolves` edge
/// points to it), with its pending decision `(node, assumption, status)`.
pub open spec fn dt_part(r: Seq<Triple>, roots: Seq<Seq<char>>, n: nat) -> Option<
    (Option<Seq<char>>, Option<Triple>),
>
    decreases roots.len(),
{
    if roots.len() == 0 {
        Some((None, None))
    } else if edge_to(r, "resolves"@, roots[0]) {
        dt_part(r, roots.drop_first(), n)
    } else {
        match walk_fuel(r, roots[0], n) {
            None => None,
            Some(leaf) => Some(
                (Some(roots[0]), Some((leaf, first_assumption(r), decision_status(r, leaf)))),
            ),
        }
    }
}

/// The process state as plain values.
pub type ProcessView = (Option<Seq<char>>, Seq<Seq<char>>, Option<Seq<char>>, Option<Triple>);

/// The active process state of relationships `r` and token ids `ids`, with
/// `n` levels of descent; `None` when that does not suffice.
pub open spec fn process_fuel(r: Seq<Triple>, ids: Seq<Seq<char>>, n: nat) -> Option<ProcessView> {
    match (todo_part(r, todo_roots(r, ids), n), dt_part(r, dt_roots(r, ids), n)) {
        (Some(t), Some(d)) => Some((t.0, t.1, d.0, d.1)),
        _ => None,
    }
}

pub open spec fn state_view(s: ActiveProcessState) -> ProcessView {
    (
        opt_view(s.todo_root),
        sviews(s.open_leaves@),
        opt_view(s.dt_root),
        decision_view(s.last_decision),
    )
}

// ── more descent never changes a result ──

proof fn lemma_done_mono(r: Seq<Triple>, id: Seq<char>, n: nat, m: nat)
    requires
        n <= m,
        done_fuel(r, id, n) is Some,
    ensures
        done_fuel(r, id, m) == done_fuel(r, id, n),
    decreases n, 0int, 0int,
{
    if edge_from(r, id, "marked_done"@) && subtasks(r, id).len() > 0 {
        lemma_all_done_mono(r, subtasks(r, id), 0, (n - 1) as nat, (m - 1) as nat);
    }
}

proof fn lemma_all_done_mono(r: Seq<Triple>, cs: Seq<Seq<char>>, i: int, n: nat, m: nat)
    requires
        n <= m,
        all_done_fuel(r, cs, i, n) is Some,
    ensures
        all_done_fuel(r, cs, i, m) == all_done_fuel(r, cs, i, n),
    decreases n, 1int, cs.len() - i,
{
    if 0 <= i < cs.len() {
        lemma_done_mono(r, cs[i], n, m);
        if done_fuel(r, cs[i], n) == Some(true) {
            lemma_all_done_mono(r, cs, i + 1, n, m);
        }
    }
}

proof fn lemma_leaves_mono(r: Seq<Triple>, id: Seq<char>, n: nat, m: nat)
    requires
        n <= m,
        leaves_fuel(r, id, n) is Some,
    ensures
        leaves_fuel(r, id, m) == leaves_fuel(r, id, n),
    decreases n, 0int, 0int,
{
    if subtasks(r, id).len() > 0 {
        lemma_all_leaves_mono(r, subtasks(r, id), 0, (n - 1) as nat, (m - 1) as nat);
    }
}

proof fn lemma_all_leaves_mono(r: Seq<Triple>, cs: Seq<Seq<char>>, i: int, n: nat, m: nat)
    requires
        n <= m,
        all_leaves_fuel(r, cs, i, n) is Some,
    ensures
        all_leaves_fuel(r, cs, i, m) == all_leaves_fuel(r, cs, i, n),
    decreases n, 1int, cs.len() - i,
{
    if 0 <= i < cs.len() {
        lemma_leaves_mono(r, cs[i], n, m);
        lemma_all_leaves_mono(r, cs, i + 1, n, m);
    }
}

proof fn lemma_walk_mono(r: Seq<Triple>, cur: Seq<char>, n: nat, m: nat)
    requires
        n <= m,
        walk_fuel(r, cur, n) is Some,
    ensures
        walk_fuel(r, cur, m) == walk_fuel(r, cur, n),
    decreases n,
{
    let nx = objects_of(r, cur, "selects"@);
    if nx.len() > 0 {
        lemma_walk_mono(r, nx[0], (n - 1) as nat, (m - 1) as nat);
    }
}

proof fn lemma_todo_part_mono(r: Seq<Triple>, roots: Seq<Seq<char>>, n: nat, m: nat)
    requires
        n <= m,
        todo_part(r, roots, n) is Some,
    ensures
        todo_part(r, roots, m) == todo_part(r, roots, n),
    decreases roots.len(),
{
    if roots.len() > 0 {
        lemma_done_mono(r, roots[0], n, m);
        if done_fuel(r, roots[0], n) == Some(true) {
            lemma_todo_part_mono(r, roots.drop_first(), n, m);
        } else {
            lemma_leaves_mono(r, roots[0], n, m);
        }
    }
}

proof fn lemma_dt_part_mono(r: Seq<Triple>, roots: Seq<Seq<char>>, n: nat, m: nat)
    requires
        n <= m,
        dt_part(r, roots, n) is Some,
    ensures
        dt_part(r, roots, m) == dt_part(r, roots, n),
    decreases roots.len(),
{
    if roots.len() > 0 {
        if edge_to(r, "resolves"@, roots[0]) {
            lemma_dt_part_mono(r, roots.drop_first(), n, m);
        } else {
            lemma_walk_mono(r, roots[0], n, m);
        }
    }
}

/// Where the process state can be computed at all, every depth of descent
/// that suffices gives the same state.
pub proof fn law_process_state_is_unique(r: Seq<Triple>, ids: Seq<Seq<char>>, n: nat, m: nat)
    requires
        process_fuel(r, ids, n) is Some,
        process_fuel(r, ids, m) is Some,
    ensures
        process_fuel(r, ids, n) == process_fuel(r, ids, m),
{
    if n <= m {
        lemma_todo_part_mono(r, todo_roots(r, ids), n, m);
        lemma_dt_part_mono(r, dt_roots(r, ids), n, m);
    } else {
        lemma_todo_part_mono(r, todo_roots(r, ids), m, n);
        lemma_dt_part_mono(r, dt_roots(r, ids), m, n);
    }
}


// ── computing it ──

fn objects_exec(rels: &Vec<RelChars>, subj: &Vec<char>, pred: &Vec<char>) -> (r: Vec<Vec<char>>)
    ensures
        vviews(r@) == objects_of(tviews(rels@), subj@, pred@),
{
    let ghost all = tviews(rels@);
    let mut out: Vec<Vec<char>> = Vec::new();
    let mut i: usize = 0;
    assert(all.take(0) =~= Seq::<Triple>::empty());
    assert(vviews(out@) =~= Seq::<Seq<char>>::empty());
    while i < rels.len()
        invariant
            i <= rels.len(),
            all == tviews(rels@),
            vviews(out@) == objects_of(all.take(i as int), subj@, pred@),
        decreases rels.len() - i,
    {
        proof {
            assert(all.take(i + 1).drop_last() =~= all.take(i as int));
            assert(all.take(i + 1).last() == all[i as int]);
        }
        if chars_eq(&rels[i].0, subj) && chars_eq(&rels[i].1, pred) {
            let ghost before = vviews(out@);
            out.push(rels[i].2.clone());
            assert(vviews(out@) =~= before.push(all[i as int].2));
        }
        i = i + 1;
    }
    assert(all.take(all.len() as int) =~= all);
    out
}

fn edge_from_exec(rels: &Vec<RelChars>, subj: &Vec<char>, pred: &Vec<char>) -> (r: bool)
    ensures
        r == edge_from(tviews(rels@), subj@, pred@),
{
    let ghost all = tviews(rels@);
    let mut i: usize = 0;
    while i < rels.len()
        invariant
            i <= rels.len(),
            all == tviews(rels@),
            forall|k: int| 0 <= k < i ==> !((#[trigger] all[k]).0 == subj@ && all[k].1 == pred@),
        decreases rels.len() - i,
    {
        if chars_eq(&rels[i].0, subj) && chars_eq(&rels[i].1, pred) {
            assert(all[i as int].0 == subj@ && all[i as int].1 == pred@);
            return true;
        }
        i = i + 1;
    }
    false
}

fn edge_to_exec(rels: &Vec<RelChars>, pred: &Vec<char>, obj: &Vec<char>) -> (r: bool)
    ensures
        r == edge_to(tviews(rels@), pred@, obj@),
{
    let ghost all = tviews(rels@);
    let mut i: usize = 0;
    while i < rels.len()
        invariant
            i <= rels.len(),
            all == tviews(rels@),
            forall|k: int| 0 <= k < i ==> !((#[trigger] all[k]).1 == pred@ && all[k].2 == obj@),
        decreases rels.len() - i,
    {
        if chars_eq(&rels[i].1, pred) && chars_eq(&rels[i].2, obj) {
            assert(all[i as int].1 == pred@ && all[i as int].2 == obj@);
            return true;
        }
        i = i + 1;
    }
    false
}

fn is_done_exec(rels: &Vec<RelChars>, id: &Vec<char>, Ghost(n): Ghost<nat>) -> (b: bool)
    requires
        done_fuel(tviews(rels@), id@, n) is Some,
    ensures
        done_fuel(tviews(rels@), id@, n) == Some(b),
    decreases n,
{
    let ghost all = tviews(rels@);
    if !edge_from_exec(rels, id, &chars_of("marked_done")) {
        return false;
    }
    let cs = objects_exec(rels, id, &chars_of("subtask"));
    if cs.len() == 0 {
        return true;
    }
    let ghost m = (n - 1) as nat;
    let ghost c = vviews(cs@);
    let mut i: usize = 0;
    while i < cs.len()
        invariant
            i <= cs.len(),
            n > 0,
            m == n - 1,
            all == tviews(rels@),
            c == vviews(cs@),
            done_fuel(all, id@, n) == all_done_fuel(all, c, 0, m),
            all_done_fuel(all, c, 0, m) == all_done_fuel(all, c, i as int, m),
            all_done_fuel(all, c, i as int, m) is Some,
        decreases cs.len() - i,
    {
        assert(cs@[i as int]@ == c[i as int]);
        let d = is_done_exec(rels, &cs[i], Ghost(m));
        if !d {
            return false;
        }
        i = i + 1;
    }
    true
}

fn leaves_exec(rels: &Vec<RelChars>, id: &Vec<char>, Ghost(n): Ghost<nat>) -> (r: Vec<Vec<char>>)
    requires
        leaves_fuel(tviews(rels@), id@, n) is Some,
    ensures
        leaves_fuel(tviews(rels@), id@, n) == Some(vviews(r@)),
    decreases n,
{
    let ghost all = tviews(rels@);
    let cs = objects_exec(rels, id, &chars_of("subtask"));
    if cs.len() == 0 {
        let mut out: Vec<Vec<char>> = Vec::new();
        if !edge_from_exec(rels, id, &chars_of("marked_done")) {
            out.push(id.clone());
            assert(vviews(out@) =~= seq![id@]);
        } else {
            assert(vviews(out@) =~= Seq::<Seq<char>>::empty());
        }
        return out;
    }
    let ghost m = (n - 1) as nat;
    let ghost c = vviews(cs@);
    let mut out: Vec<Vec<char>> = Vec::new();
    let mut i: usize = 0;
    assert(vviews(out@) + all_leaves_fuel(all, c, 0, m)->0 =~= all_leaves_fuel(all, c, 0, m)->0);
    while i < cs.len()
        invariant
            i <= cs.len(),
            n > 0,
            m == n - 1,
            all == tviews(rels@),
            c == vviews(cs@),
            leaves_fuel(all, id@, n) == all_leaves_fuel(all, c, 0, m),
            all_leaves_fuel(all, c, i as int, m) is Some,
            all_leaves_fuel(all, c, 0, m) == Some(
                vviews(out@) + all_leaves_fuel(all, c, i as int, m)->0,
            ),
        decreases cs.len() - i,
    {
        assert(cs@[i as int]@ == c[i as int]);
        let ls = leaves_exec(rels, &cs[i], Ghost(m));
        let ghost before = vviews(out@);
        let mut k: usize = 0;
        while k < ls.len()
            invariant
                k <= ls.len(),
                vviews(out@) == before + vviews(ls@).take(k as int),
            decreases ls.len() - k,
        {
            let ghost b2 = vviews(out@);
            out.push(ls[k].clone());
            assert(vviews(out@) =~= b2.push(ls@[k as int]@));
            assert(vviews(ls@).take(k + 1) =~= vviews(ls@).take(k as int).push(ls@[k as int]@));
            assert(before + vviews(ls@).take(k + 1) =~= (before + vviews(ls@).take(k as int)).push(
                ls@[k as int]@,
            ));
            k = k + 1;
        }
        assert(vviews(ls@).take(ls.len() as int) =~= vviews(ls@));
        proof {
            let rest = all_leaves_fuel(all, c, i + 1, m)->0;
            assert(all_leaves_fuel(all, c, i as int, m)->0 == vviews(ls@) + rest);
            assert(before + (vviews(ls@) + rest) =~= (before + vviews(ls@)) + rest);
        }
        i = i + 1;
    }
    assert(vviews(out@) + Seq::<Seq<char>>::empty() =~= vviews(out@));
    out
}

fn walk_exec(rels: &Vec<RelChars>, root: &Vec<char>, Ghost(n): Ghost<nat>) -> (r: Vec<char>)
    requires
        walk_fuel(tviews(rels@), root@, n) is Some,
    ensures
        walk_fuel(tviews(rels@), root@, n) == Some(r@),
{
    let ghost all = tviews(rels@);
    let sel = chars_of("selects");
    let mut cur = root.clone();
    let ghost mut k: nat = n;
    loop
        invariant
            all == tviews(rels@),
            sel@ == "selects"@,
            walk_fuel(all, root@, n) == walk_fuel(all, cur@, k),
            walk_fuel(all, cur@, k) is Some,
        decreases k,
    {
        let nx = objects_exec(rels, &cur, &sel);
        if nx.len() == 0 {
            return cur;
        }
        assert(nx@[0]@ == objects_of(all, cur@, "selects"@)[0]);
        proof {
            k = (k - 1) as nat;
        }
        cur = nx[0].clone();
    }
}

fn status_exec(rels: &Vec<RelChars>, node: &Vec<char>) -> (r: String)
    ensures
        r@ == decision_status(tviews(rels@), node@),
{
    if edge_from_exec(rels, node, &chars_of("confirmedBy")) {
        crate::text::lit("confirmed")
    } else if edge_from_exec(rels, node, &chars_of("invalidatedBy")) {
        crate::text::lit("invalidated")
    } else if edge_from_exec(rels, node, &chars_of("abandoned")) {
        crate::text::lit("abandoned")
    } else {
        crate::text::lit("under_consideration")
    }
}

fn first_assumption_exec(rels: &Vec<RelChars>) -> (r: String)
    ensures
        r@ == first_assumption(tviews(rels@)),
{
    let ghost all = tviews(rels@);
    let driven = chars_of("drivenBy");
    let prefix = chars_of("CONCEPT_Assumption_");
    let mut i: usize = 0;
    assert(all.skip(0) =~= all);
    while i < rels.len()
        invariant
            i <= rels.len(),
            all == tviews(rels@),
            driven@ == "drivenBy"@,
            prefix@ == "CONCEPT_Assumption_"@,
            first_assumption(all) == first_assumption(all.skip(i as int)),
        decreases rels.len() - i,
    {
        assert(all.skip(i as int)[0] == all[i as int]);
        assert(all.skip(i as int).drop_first() =~= all.skip(i + 1));
        if chars_eq(&rels[i].1, &driven) && starts_with_exec(&rels[i].2, &prefix) {
            return string_of(rels[i].2.as_slice());
        }
        i = i + 1;
    }
    assert(all.skip(all.len() as int) =~= Seq::<Triple>::empty());
    String::new()
}

fn roots_exec(rels: &Vec<RelChars>, ids: &Vec<Vec<char>>, todo: bool) -> (r: Vec<Vec<char>>)
    ensures
        vviews(r@) == (if todo {
            todo_roots(tviews(rels@), vviews(ids@))
        } else {
            dt_roots(tviews(rels@), vviews(ids@))
        }),
{
    let ghost all = tviews(rels@);
    let ghost vs = vviews(ids@);
    let todo_prefix = chars_of("TODO_");
    let dt_prefix = chars_of("CONCEPT_DT_");
    let subtask = chars_of("subtask");
    let considers = chars_of("considers");
    let selects = chars_of("selects");
    let mut out: Vec<Vec<char>> = Vec::new();
    let mut i: usize = 0;
    assert(vs.take(0) =~= Seq::<Seq<char>>::empty());
    assert(vviews(out@) =~= Seq::<Seq<char>>::empty());
    while i < ids.len()
        invariant
            i <= ids.len(),
            all == tviews(rels@),
            vs == vviews(ids@),
            todo_prefix@ == "TODO_"@,
            dt_prefix@ == "CONCEPT_DT_"@,
            subtask@ == "subtask"@,
            considers@ == "considers"@,
            selects@ == "selects"@,
            vviews(out@) == (if todo {
                todo_roots(all, vs.take(i as int))
            } else {
                dt_roots(all, vs.take(i as int))
            }),
        decreases ids.len() - i,
    {
        proof {
            assert(vs.take(i + 1).drop_last() =~= vs.take(i as int));
            assert(vs.take(i + 1).last() == ids@[i as int]@);
        }
        let id = &ids[i];
        let keep = if todo {
            starts_with_exec(id, &todo_prefix) && !edge_to_exec(rels, &subtask, id)
        } else {
            starts_with_exec(id, &dt_prefix) && !edge_to_exec(rels, &considers, id)
                && !edge_to_exec(rels, &selects, id)
        };
        if keep {
            let ghost before = vviews(out@);
            out.push(id.clone());
            assert(vviews(out@) =~= before.push(id@));
        }
        i = i + 1;
    }
    assert(vs.take(vs.len() as int) =~= vs);
    out
}


fn todo_exec(rc: &Vec<RelChars>, troots: &Vec<Vec<char>>, Ghost(n): Ghost<nat>) -> (r: (
    Option<String>,
    Vec<String>,
))
    requires
        todo_part(tviews(rc@), vviews(troots@), n) is Some,
    ensures
        todo_part(tviews(rc@), vviews(troots@), n) == Some((opt_view(r.0), sviews(r.1@))),
{
    let ghost r3 = tviews(rc@);
    let ghost tr = vviews(troots@);
    let mut k: usize = 0;
    assert(tr.skip(0) =~= tr);
    while k < troots.len()
        invariant
            k <= troots.len(),
            r3 == tviews(rc@),
            tr == vviews(troots@),
            todo_part(r3, tr, n) is Some,
            todo_part(r3, tr, n) == todo_part(r3, tr.skip(k as int), n),
        decreases troots.len() - k,
    {
        assert(tr.skip(k as int)[0] == troots@[k as int]@);
        assert(tr.skip(k as int).drop_first() =~= tr.skip(k + 1));
        if !is_done_exec(rc, &troots[k], Ghost(n)) {
            let ls = leaves_exec(rc, &troots[k], Ghost(n));
            return (Some(string_of(troots[k].as_slice())), strings_of(&ls));
        }
        k = k + 1;
    }
    assert(tr.skip(k as int) =~= Seq::<Seq<char>>::empty());
    let none: Vec<String> = Vec::new();
    assert(sviews(none@) =~= Seq::<Seq<char>>::empty());
    (None, none)
}

pub open spec fn decision_view(d: Option<LastDecision>) -> Option<Triple> {
    match d {
        Some(d) => Some((d.node@, d.assumption@, d.status@)),
        None => None,
    }
}

fn dt_exec(rc: &Vec<RelChars>, droots: &Vec<Vec<char>>, Ghost(n): Ghost<nat>) -> (r: (
    Option<String>,
    Option<LastDecision>,
))
    requires
        dt_part(tviews(rc@), vviews(droots@), n) is Some,
    ensures
        dt_part(tviews(rc@), vviews(droots@), n) == Some((opt_view(r.0), decision_view(r.1))),
{
    let ghost r3 = tviews(rc@);
    let ghost dr = vviews(droots@);
    let resolves = chars_of("resolves");
    let mut d: usize = 0;
    assert(dr.skip(0) =~= dr);
    while d < droots.len()
        invariant
            d <= droots.len(),
            r3 == tviews(rc@),
            dr == vviews(droots@),
            resolves@ == "resolves"@,
            dt_part(r3, dr, n) is Some,
            dt_part(r3, dr, n) == dt_part(r3, dr.skip(d as int), n),
        decreases droots.len() - d,
    {
        assert(dr.skip(d as int)[0] == droots@[d as int]@);
        assert(dr.skip(d as int).drop_first() =~= dr.skip(d + 1));
        if !edge_to_exec(rc, &resolves, &droots[d]) {
            let leaf = walk_exec(rc, &droots[d], Ghost(n));
            let dec = LastDecision {
                node: string_of(leaf.as_slice()),
                assumption: first_assumption_exec(rc),
                status: status_exec(rc, &leaf),
            };
            return (Some(string_of(droots[d].as_slice())), Some(dec));
        }
        d = d + 1;
    }
    assert(dr.skip(d as int) =~= Seq::<Seq<char>>::empty());
    (None, None)
}

/// The relationships and ids as character vectors.
fn char_views(rels: &Vec<Relationship>, ids: &Vec<String>) -> (r: (Vec<RelChars>, Vec<Vec<char>>))
    ensures
        tviews(r.0@) == triples(rels@),
        vviews(r.1@) == sviews(ids@),
{
    let ghost r3 = triples(rels@);
    let ghost vs = sviews(ids@);
    let mut rc: Vec<RelChars> = Vec::new();
    let mut i: usize = 0;
    while i < rels.len()
        invariant
            i <= rels.len(),
            r3 == triples(rels@),
            tviews(rc@) == r3.take(i as int),
        decreases rels.len() - i,
    {
        let t = (
            chars_of(rels[i].subject.as_str()),
            chars_of(rels[i].predicate.as_str()),
            chars_of(rels[i].object.as_str()),
        );
        let ghost before = tviews(rc@);
        rc.push(t);
        assert(tviews(rc@) =~= before.push((t.0@, t.1@, t.2@)));
        assert(r3.take(i + 1) =~= r3.take(i as int).push(r3[i as int]));
        i = i + 1;
    }
    assert(r3.take(r3.len() as int) =~= r3);
    let mut iv: Vec<Vec<char>> = Vec::new();
    let mut j: usize = 0;
    while j < ids.len()
        invariant
            j <= ids.len(),
            vs == sviews(ids@),
            vviews(iv@) == vs.take(j as int),
        decreases ids.len() - j,
    {
        let c = chars_of(ids[j].as_str());
        let ghost before = vviews(iv@);
        iv.push(c);
        assert(vviews(iv@) =~= before.push(c@));
        assert(vs.take(j + 1) =~= vs.take(j as int).push(vs[j as int]));
        j = j + 1;
    }
    assert(vs.take(vs.len() as int) =~= vs);
    (rc, iv)
}

/// The active process state of a store whose relationships are `rels` and
/// whose token ids (for the session) are `ids`: the first todo root (a
/// `TODO_` id that is no subtask) that is not done (a node is done when it
/// is marked done and all its subtasks are done), with its open leaves,
/// and the first decision root (a `CONCEPT_DT_` id that nothing considers
/// or selects) that no branch resolves, with the decision reached by
/// following `selects` edges. The computation descends the graph; on
/// cyclic graphs where no depth of descent suffices it would not end, and
/// such inputs are excluded.
pub fn compute_active_process_state(rels: &Vec<Relationship>, ids: &Vec<String>) -> (r:
    ActiveProcessState)
    requires
        exists|n: nat| (#[trigger] process_fuel(triples(rels@), sviews(ids@), n)) is Some,
    ensures
        forall|n: nat|
            (#[trigger] process_fuel(triples(rels@), sviews(ids@), n)) is Some ==> process_fuel(
                triples(rels@),
                sviews(ids@),
                n,
            ) == Some(state_view(r)),
{
    let ghost r3 = triples(rels@);
    let ghost vs = sviews(ids@);
    let ghost n = choose|n: nat| (#[trigger] process_fuel(r3, vs, n)) is Some;
    let (rc, iv) = char_views(rels, ids);
    let troots = roots_exec(&rc, &iv, true);
    let (todo_root, open_leaves) = todo_exec(&rc, &troots, Ghost(n));
    let droots = roots_exec(&rc, &iv, false);
    let (dt_root, last_decision) = dt_exec(&rc, &droots, Ghost(n));
    let st = ActiveProcessState { todo_root, open_leaves, dt_root, last_decision };
    proof {
        assert(process_fuel(r3, vs, n) == Some(state_view(st)));
        assert forall|m: nat| (#[trigger] process_fuel(r3, vs, m)) is Some implies process_fuel(
            r3,
            vs,
            m,
        ) == Some(state_view(st)) by {
            law_process_state_is_unique(r3, vs, n, m);
        }
    }
    st
}


// ── computing it within a depth ──

fn is_done_within(rels: &Vec<RelChars>, id: &Vec<char>, n: usize) -> (r: Option<bool>)
    ensures
        r == done_fuel(tviews(rels@), id@, n as nat),
    decreases n,
{
    let ghost all = tviews(rels@);
    if !edge_from_exec(rels, id, &chars_of("marked_done")) {
        return Some(false);
    }
    let cs = objects_exec(rels, id, &chars_of("subtask"));
    if cs.len() == 0 {
        return Some(true);
    }
    if n == 0 {
        return None;
    }
    let m = n - 1;
    let ghost c = vviews(cs@);
    let mut i: usize = 0;
    while i < cs.len()
        invariant
            i <= cs.len(),
            n > 0,
            m == n - 1,
            all == tviews(rels@),
            c == vviews(cs@),
            done_fuel(all, id@, n as nat) == all_done_fuel(all, c, 0, m as nat),
            all_done_fuel(all, c, 0, m as nat) == all_done_fuel(all, c, i as int, m as nat),
        decreases cs.len() - i,
    {
        assert(cs@[i as int]@ == c[i as int]);
        match is_done_within(rels, &cs[i], m) {
            None => {
                return None;
            },
            Some(false) => {
                return Some(false);
            },
            Some(true) => {},
        }
        i = i + 1;
    }
    Some(true)
}

pub open spec fn opt_vviews(r: Option<Vec<Vec<char>>>) -> Option<Seq<Seq<char>>> {
    match r {
        Some(v) => Some(vviews(v@)),
        None => None,
    }
}

fn leaves_within(rels: &Vec<RelChars>, id: &Vec<char>, n: usize) -> (r: Option<Vec<Vec<char>>>)
    ensures
        opt_vviews(r) == leaves_fuel(tviews(rels@), id@, n as nat),
    decreases n,
{
    let ghost all = tviews(rels@);
    let cs = objects_exec(rels, id, &chars_of("subtask"));
    if cs.len() == 0 {
        let mut out: Vec<Vec<char>> = Vec::new();
        if !edge_from_exec(rels, id, &chars_of("marked_done")) {
            out.push(id.clone());
            assert(vviews(out@) =~= seq![id@]);
        } else {
            assert(vviews(out@) =~= Seq::<Seq<char>>::empty());
        }
        return Some(out);
    }
    if n == 0 {
        return None;
    }
    let m = n - 1;
    let ghost c = vviews(cs@);
    let mut out: Vec<Vec<char>> = Vec::new();
    let mut i: usize = 0;
    assert(vviews(out@) =~= Seq::<Seq<char>>::empty());
    while i < cs.len()
        invariant
            i <= cs.len(),
            n > 0,
            m == n - 1,
            all == tviews(rels@),
            c == vviews(cs@),
            leaves_fuel(all, id@, n as nat) == all_leaves_fuel(all, c, 0, m as nat),
            all_leaves_fuel(all, c, 0, m as nat) == match all_leaves_fuel(all, c, i as int, m as nat) {
                Some(rest) => Some(vviews(out@) + rest),
                None => None::<Seq<Seq<char>>>,
            },
        decreases cs.len() - i,
    {
        assert(cs@[i as int]@ == c[i as int]);
        let got = leaves_within(rels, &cs[i], m);
        match got {
            None => {
                return None;
            },
            Some(ls) => {
                let ghost before = vviews(out@);
                let mut k: usize = 0;
                while k < ls.len()
                    invariant
                        k <= ls.len(),
                        vviews(out@) == before + vviews(ls@).take(k as int),
                    decreases ls.len() - k,
                {
                    let ghost b2 = vviews(out@);
                    out.push(ls[k].clone());
                    assert(vviews(out@) =~= b2.push(ls@[k as int]@));
                    assert(vviews(ls@).take(k + 1) =~= vviews(ls@).take(k as int).push(
                        ls@[k as int]@,
                    ));
                    assert(before + vviews(ls@).take(k + 1) =~= (before + vviews(ls@).take(
                        k as int,
                    )).push(ls@[k as int]@));
                    k = k + 1;
                }
                assert(vviews(ls@).take(ls.len() as int) =~= vviews(ls@));
                proof {
                    match all_leaves_fuel(all, c, i + 1, m as nat) {
                        Some(rest) => {
                            assert(before + (vviews(ls@) + rest) =~= (before + vviews(ls@))
                                + rest);
                        },
                        None => {},
                    }
                }
            },
        }
        i = i + 1;
    }
    assert(vviews(out@) + Seq::<Seq<char>>::empty() =~= vviews(out@));
    Some(out)
}

fn walk_within(rels: &Vec<RelChars>, root: &Vec<char>, n: usize) -> (r: Option<Vec<char>>)
    ensures
        match r {
            Some(v) => walk_fuel(tviews(rels@), root@, n as nat) == Some(v@),
            None => walk_fuel(tviews(rels@), root@, n as nat) is None,
        },
{
    let ghost all = tviews(rels@);
    let sel = chars_of("selects");
    let mut cur = root.clone();
    let mut k: usize = n;
    loop
        invariant
            all == tviews(rels@),
            sel@ == "selects"@,
            walk_fuel(all, root@, n as nat) == walk_fuel(all, cur@, k as nat),
        decreases k,
    {
        let nx = objects_exec(rels, &cur, &sel);
        if nx.len() == 0 {
            return Some(cur);
        }
        if k == 0 {
            return None;
        }
        assert(nx@[0]@ == objects_of(all, cur@, "selects"@)[0]);
        k = k - 1;
        cur = nx[0].clone();
    }
}

fn todo_within(rc: &Vec<RelChars>, troots: &Vec<Vec<char>>, n: usize) -> (r: Option<(
    Option<String>,
    Vec<String>,
)>)
    ensures
        match r {
            Some(p) => todo_part(tviews(rc@), vviews(troots@), n as nat) == Some(
                (opt_view(p.0), sviews(p.1@)),
            ),
            None => todo_part(tviews(rc@), vviews(troots@), n as nat) is None,
        },
{
    let ghost r3 = tviews(rc@);
    let ghost tr = vviews(troots@);
    let mut k: usize = 0;
    assert(tr.skip(0) =~= tr);
    while k < troots.len()
        invariant
            k <= troots.len(),
            r3 == tviews(rc@),
            tr == vviews(troots@),
            todo_part(r3, tr, n as nat) == todo_part(r3, tr.skip(k as int), n as nat),
        decreases troots.len() - k,
    {
        assert(tr.skip(k as int)[0] == troots@[k as int]@);
        assert(tr.skip(k as int).drop_first() =~= tr.skip(k + 1));
        match is_done_within(rc, &troots[k], n) {
            None => {
                return None;
            },
            Some(false) => {
                return match leaves_within(rc, &troots[k], n) {
                    Some(ls) => Some((Some(string_of(troots[k].as_slice())), strings_of(&ls))),
                    None => None,
                };
            },
            Some(true) => {},
        }
        k = k + 1;
    }
    assert(tr.skip(k as int) =~= Seq::<Seq<char>>::empty());
    let none: Vec<String> = Vec::new();
    assert(sviews(none@) =~= Seq::<Seq<char>>::empty());
    Some((None, none))
}

fn dt_within(rc: &Vec<RelChars>, droots: &Vec<Vec<char>>, n: usize) -> (r: Option<(
    Option<String>,
    Option<LastDecision>,
)>)
    ensures
        match r {
            Some(p) => dt_part(tviews(rc@), vviews(droots@), n as nat) == Some(
                (opt_view(p.0), decision_view(p.1)),
            ),
            None => dt_part(tviews(rc@), vviews(droots@), n as nat) is None,
        },
{
    let ghost r3 = tviews(rc@);
    let ghost dr = vviews(droots@);
    let resolves = chars_of("resolves");
    let mut d: usize = 0;
    assert(dr.skip(0) =~= dr);
    while d < droots.len()
        invariant
            d <= droots.len(),
            r3 == tviews(rc@),
            dr == vviews(droots@),
            resolves@ == "resolves"@,
            dt_part(r3, dr, n as nat) == dt_part(r3, dr.skip(d as int), n as nat),
        decreases droots.len() - d,
    {
        assert(dr.skip(d as int)[0] == droots@[d as int]@);
        assert(dr.skip(d as int).drop_first() =~= dr.skip(d + 1));
        if !edge_to_exec(rc, &resolves, &droots[d]) {
            return match walk_within(rc, &droots[d], n) {
                Some(leaf) => {
                    let dec = LastDecision {
                        node: string_of(leaf.as_slice()),
                        assumption: first_assumption_exec(rc),
                        status: status_exec(rc, &leaf),
                    };
                    Some((Some(string_of(droots[d].as_slice())), Some(dec)))
                },
                None => None,
            };
        }
        d = d + 1;
    }
    assert(dr.skip(d as int) =~= Seq::<Seq<char>>::empty());
    Some((None, None))
}

/// The active process state as `compute_active_process_state` gives it,
/// descending at most `depth` levels into the graph: `None` exactly when
/// that depth does not suffice (as on graphs whose `subtask` or `selects`
/// edges the computation would follow round a cycle).
pub fn compute_active_process_state_within(
    rels: &Vec<Relationship>,
    ids: &Vec<String>,
    depth: usize,
) -> (r: Option<ActiveProcessState>)
    ensures
        r is None <==> process_fuel(triples(rels@), sviews(ids@), depth as nat) is None,
        r matches Some(st) ==> process_fuel(triples(rels@), sviews(ids@), depth as nat) == Some(
            state_view(st),
        ),
{
    let (rc, iv) = char_views(rels, ids);
    let troots = roots_exec(&rc, &iv, true);
    let droots = roots_exec(&rc, &iv, false);
    match todo_within(&rc, &troots, depth) {
        None => None,
        Some((todo_root, open_leaves)) => match dt_within(&rc, &droots, depth) {
            None => None,
            Some((dt_root, last_decision)) => {
                let st = ActiveProcessState { todo_root, open_leaves, dt_root, last_decision };
                Some(st)
            },
        },
    }
}

} // verus!
