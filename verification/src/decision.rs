//! Decision trees kept as tokens and relationships: `CONCEPT_DT_<slug>`
//! nodes linked by `considers` (an option) and `selects` (the active
//! option), with statuses computed from evidence edges.

use vstd::prelude::*;
use crate::store::{edge_from, objects_of, Triple, triples};
use crate::text::{
    chars_eq, chars_of, dec, is_ascii_alnum, is_ascii_ws, lit, push_all, push_dec, string_of,
    strings_of, sviews, vviews,
};
use crate::types::Relationship;

verus! {

// ───────────────────────────── slugs ─────────────────────────────

/// Characters of a title kept in its slug: ASCII letters, digits, `-` and
/// `_` as they are, ASCII whitespace as `_`, everything else dropped.
pub open spec fn slug_chars(s: Seq<char>) -> Seq<char>
    decreases s.len(),
{
    if s.len() == 0 {
        Seq::empty()
    } else {
        let acc = slug_chars(s.drop_last());
        let c = s.last();
        if is_ascii_alnum(c) || c == '-' || c == '_' {
            acc.push(c)
        } else if is_ascii_ws(c) {
            acc.push('_')
        } else {
            acc
        }
    }
}

/// `s` without leading `_`.
pub open spec fn trim_start_u(s: Seq<char>) -> Seq<char>
    decreases s.len(),
{
    if s.len() > 0 && s[0] == '_' {
        trim_start_u(s.drop_first())
    } else {
        s
    }
}

/// `s` without trailing `_`.
pub open spec fn trim_end_u(s: Seq<char>) -> Seq<char>
    decreases s.len(),
{
    if s.len() > 0 && s.last() == '_' {
        trim_end_u(s.drop_last())
    } else {
        s
    }
}

/// The slug of a title: its kept characters without surrounding `_`, or
/// `untitled` when nothing is left.
pub open spec fn slug_of(title: Seq<char>) -> Seq<char> {
    let s = trim_end_u(trim_start_u(slug_chars(title)));
    if s.len() == 0 {
        "untitled"@
    } else {
        s
    }
}

pub fn slugify(title: &str) -> (r: String)
    ensures
        r@ == slug_of(title@),
{
    let v = chars_of(title);
    let mut slug: Vec<char> = Vec::new();
    let mut i: usize = 0;
    assert(v@.take(0) =~= Seq::<char>::empty());
    while i < v.len()
        invariant
            i <= v.len(),
            slug@ == slug_chars(v@.take(i as int)),
        decreases v.len() - i,
    {
        proof {
            assert(v@.take(i + 1).drop_last() =~= v@.take(i as int));
            assert(v@.take(i + 1).last() == v@[i as int]);
        }
        let c = v[i];
        let alnum = ('a' <= c && c <= 'z') || ('A' <= c && c <= 'Z') || ('0' <= c && c <= '9');
        if alnum || c == '-' || c == '_' {
            slug.push(c);
        } else if c == ' ' || c == '\t' || c == '\n' || c == '\u{c}' || c == '\r' {
            slug.push('_');
        }
        i = i + 1;
    }
    assert(v@.take(v@.len() as int) =~= v@);
    let mut a: usize = 0;
    assert(slug@.skip(0) =~= slug@);
    while a < slug.len() && slug[a] == '_'
        invariant
            a <= slug.len(),
            trim_start_u(slug@) == trim_start_u(slug@.skip(a as int)),
        decreases slug.len() - a,
    {
        assert(slug@.skip(a as int).drop_first() =~= slug@.skip(a + 1));
        a = a + 1;
    }
    let mut b: usize = slug.len();
    assert(slug@.subrange(a as int, b as int) =~= slug@.skip(a as int));
    while b > a && slug[b - 1] == '_'
        invariant
            a <= b <= slug.len(),
            trim_end_u(slug@.skip(a as int)) == trim_end_u(slug@.subrange(a as int, b as int)),
        decreases b,
    {
        assert(slug@.subrange(a as int, b as int).drop_last() =~= slug@.subrange(a as int, b - 1));
        b = b - 1;
    }
    if a == b {
        return lit("untitled");
    }
    let mut out: Vec<char> = Vec::new();
    let mut k = a;
    while k < b
        invariant
            a <= k <= b <= slug.len(),
            out@ == slug@.subrange(a as int, k as int),
        decreases b - k,
    {
        out.push(slug[k]);
        assert(out@ =~= slug@.subrange(a as int, k + 1));
        k = k + 1;
    }
    string_of(out.as_slice())
}

/// A slug is never empty, holds only ASCII letters, digits, `-` and `_`,
/// and neither starts nor ends with `_`.
pub proof fn law_slug_is_clean(title: Seq<char>)
    ensures
        slug_of(title).len() > 0,
        forall|i: int|
            0 <= i < slug_of(title).len() ==> {
                let c = #[trigger] slug_of(title)[i];
                is_ascii_alnum(c) || c == '-' || c == '_'
            },
        slug_of(title)[0] != '_',
        slug_of(title).last() != '_',
{
    lemma_slug_chars_allowed(title);
    let s = slug_chars(title);
    lemma_trim_start_u(s);
    lemma_trim_end_u(trim_start_u(s));
    reveal_strlit("untitled");
}

proof fn lemma_slug_chars_allowed(s: Seq<char>)
    ensures
        forall|i: int|
            0 <= i < slug_chars(s).len() ==> {
                let c = #[trigger] slug_chars(s)[i];
                is_ascii_alnum(c) || c == '-' || c == '_'
            },
    decreases s.len(),
{
    if s.len() > 0 {
        lemma_slug_chars_allowed(s.drop_last());
        let prev = slug_chars(s.drop_last());
        let cur = slug_chars(s);
        assert forall|i: int| 0 <= i < cur.len() implies {
            let c = #[trigger] cur[i];
            is_ascii_alnum(c) || c == '-' || c == '_'
        } by {
            if i < prev.len() {
                assert(cur[i] == prev[i]);
            }
        }
    }
}

proof fn lemma_trim_start_u(s: Seq<char>)
    ensures
        exists|k: int| 0 <= k <= s.len() && trim_start_u(s) == s.skip(k),
        trim_start_u(s).len() > 0 ==> trim_start_u(s)[0] != '_',
    decreases s.len(),
{
    if s.len() > 0 && s[0] == '_' {
        lemma_trim_start_u(s.drop_first());
        let k = choose|k: int| 0 <= k <= s.drop_first().len() && trim_start_u(s.drop_first()) == s.drop_first().skip(k);
        assert(s.drop_first().skip(k) =~= s.skip(k + 1));
    } else {
        assert(s.skip(0) =~= s);
    }
}

proof fn lemma_trim_end_u(s: Seq<char>)
    ensures
        exists|k: int| 0 <= k <= s.len() && trim_end_u(s) == s.take(k),
        trim_end_u(s).len() > 0 ==> trim_end_u(s).last() != '_',
        trim_end_u(s).len() > 0 && s.len() > 0 && s[0] != '_' ==> trim_end_u(s)[0] != '_',
    decreases s.len(),
{
    if s.len() > 0 && s.last() == '_' {
        lemma_trim_end_u(s.drop_last());
        let k = choose|k: int| 0 <= k <= s.drop_last().len() && trim_end_u(s.drop_last()) == s.drop_last().take(k);
        assert(s.drop_last().take(k) =~= s.take(k));
    } else {
        assert(s.take(s.len() as int) =~= s);
    }
}

/// The `n`-th candidate id for a title under `prefix`: `{prefix}{slug}` for
/// the first, `{prefix}{slug}-{n}` from the second on.
pub open spec fn slug_candidate_of(prefix: Seq<char>, title: Seq<char>, n: nat) -> Seq<char> {
    if n <= 1 {
        prefix + slug_of(title)
    } else {
        prefix + slug_of(title) + seq!['-'] + dec(n)
    }
}

/// Candidate ids for a new node (`CONCEPT_DT_`) or assumption
/// (`CONCEPT_Assumption_`); the first one that does not exist yet is used.
pub fn slug_candidate(prefix: &str, title: &str, n: u64) -> (r: String)
    ensures
        r@ == slug_candidate_of(prefix@, title@, n as nat),
{
    let mut v = chars_of(prefix);
    push_all(&mut v, &chars_of(slugify(title).as_str()));
    if n > 1 {
        v.push('-');
        push_dec(&mut v, n);
    }
    string_of(v.as_slice())
}

// ───────────────────────────── tree structure ─────────────────────────────

/// Objects of the `considers` and `selects` edges leaving `parent`, in
/// edge order.
pub open spec fn dt_children_of(r: Seq<Triple>, parent: Seq<char>) -> Seq<Seq<char>>
    decreases r.len(),
{
    if r.len() == 0 {
        Seq::empty()
    } else {
        let acc = dt_children_of(r.drop_last(), parent);
        let t = r.last();
        if t.0 == parent && (t.1 == "considers"@ || t.1 == "selects"@) {
            acc.push(t.2)
        } else {
            acc
        }
    }
}

type RelChars = (Vec<char>, Vec<char>, Vec<char>);

spec fn tviews(v: Seq<RelChars>) -> Seq<Triple> {
    v.map_values(|t: RelChars| (t.0@, t.1@, t.2@))
}

fn rel_chars(rels: &Vec<Relationship>) -> (r: Vec<RelChars>)
    ensures
        tviews(r@) == triples(rels@),
{
    let mut rc: Vec<RelChars> = Vec::new();
    let mut i: usize = 0;
    while i < rels.len()
        invariant
            i <= rels.len(),
            tviews(rc@) == triples(rels@).take(i as int),
        decreases rels.len() - i,
    {
        let t = (
            chars_of(rels[i].subject.as_str()),
            chars_of(rels[i].predicate.as_str()),
            chars_of(rels[i].object.as_str()),
        );
        let ghost before = tviews(rc@);
        rc.push(t);
        assert(tviews(rc@) =~= before.push((t.0@, t.1@, t.2@)));
        assert(triples(rels@).take(i + 1) =~= triples(rels@).take(i as int).push(
            triples(rels@)[i as int],
        ));
        i = i + 1;
    }
    assert(triples(rels@).take(rels@.len() as int) =~= triples(rels@));
    rc
}

fn is_tree_edge(p: &Vec<char>) -> (r: bool)
    ensures
        r == (p@ == "considers"@ || p@ == "selects"@),
{
    chars_eq(p, &chars_of("considers")) || chars_eq(p, &chars_of("selects"))
}

fn children_exec(rc: &Vec<RelChars>, parent: &Vec<char>) -> (r: Vec<Vec<char>>)
    ensures
        vviews(r@) == dt_children_of(tviews(rc@), parent@),
{
    let ghost all = tviews(rc@);
    let mut out: Vec<Vec<char>> = Vec::new();
    let mut i: usize = 0;
    assert(all.take(0) =~= Seq::<Triple>::empty());
    assert(vviews(out@) =~= Seq::<Seq<char>>::empty());
    while i < rc.len()
        invariant
            i <= rc.len(),
            all == tviews(rc@),
            vviews(out@) == dt_children_of(all.take(i as int), parent@),
        decreases rc.len() - i,
    {
        proof {
            assert(all.take(i + 1).drop_last() =~= all.take(i as int));
            assert(all.take(i + 1).last() == all[i as int]);
        }
        if chars_eq(&rc[i].0, parent) && is_tree_edge(&rc[i].1) {
            let ghost before = vviews(out@);
            out.push(rc[i].2.clone());
            assert(vviews(out@) =~= before.push(all[i as int].2));
        }
        i = i + 1;
    }
    assert(all.take(all.len() as int) =~= all);
    out
}

/// Options of a decision node: the targets of its `considers` and
/// `selects` edges, in edge order.
pub fn dt_children(parent: &str, rels: &Vec<Relationship>) -> (r: Vec<String>)
    ensures
        sviews(r@) == dt_children_of(triples(rels@), parent@),
{
    let rc = rel_chars(rels);
    strings_of(&children_exec(&rc, &chars_of(parent)))
}

/// Subject of the first `considers` or `selects` edge pointing to `id`.
pub open spec fn tree_parent(r: Seq<Triple>, id: Seq<char>) -> Option<Seq<char>>
    decreases r.len(),
{
    if r.len() == 0 {
        None
    } else if r[0].2 == id && (r[0].1 == "considers"@ || r[0].1 == "selects"@) {
        Some(r[0].0)
    } else {
        tree_parent(r.drop_first(), id)
    }
}

fn parent_exec(rc: &Vec<RelChars>, id: &Vec<char>) -> (r: Option<Vec<char>>)
    ensures
        match r {
            Some(p) => tree_parent(tviews(rc@), id@) == Some(p@),
            None => tree_parent(tviews(rc@), id@) is None,
        },
{
    let ghost all = tviews(rc@);
    let mut i: usize = 0;
    assert(all.skip(0) =~= all);
    while i < rc.len()
        invariant
            i <= rc.len(),
            all == tviews(rc@),
            tree_parent(all, id@) == tree_parent(all.skip(i as int), id@),
        decreases rc.len() - i,
    {
        assert(all.skip(i as int)[0] == all[i as int]);
        assert(all.skip(i as int).drop_first() =~= all.skip(i + 1));
        if chars_eq(&rc[i].2, id) && is_tree_edge(&rc[i].1) {
            return Some(rc[i].0.clone());
        }
        i = i + 1;
    }
    assert(all.skip(all.len() as int) =~= Seq::<Triple>::empty());
    None
}

/// The root reached from `id` by following tree parents, within `n` steps.
pub open spec fn root_fuel(r: Seq<Triple>, id: Seq<char>, n: nat) -> Option<Seq<char>>
    decreases n,
{
    match tree_parent(r, id) {
        None => Some(id),
        Some(p) => if n == 0 {
            None
        } else {
            root_fuel(r, p, (n - 1) as nat)
        },
    }
}

proof fn lemma_root_mono(r: Seq<Triple>, id: Seq<char>, n: nat, m: nat)
    requires
        n <= m,
        root_fuel(r, id, n) is Some,
    ensures
        root_fuel(r, id, m) == root_fuel(r, id, n),
    decreases n,
{
    if let Some(p) = tree_parent(r, id) {
        lemma_root_mono(r, p, (n - 1) as nat, (m - 1) as nat);
    }
}

/// Root of the decision tree holding `id`: the first `considers`/`selects`
/// parent is followed until a node has none. On a cycle of such edges the
/// walk would not end; those inputs are excluded.
pub fn find_dt_root(id: &str, rels: &Vec<Relationship>) -> (r: String)
    requires
        exists|n: nat| (#[trigger] root_fuel(triples(rels@), id@, n)) is Some,
    ensures
        forall|n: nat|
            (#[trigger] root_fuel(triples(rels@), id@, n)) is Some ==> root_fuel(
                triples(rels@),
                id@,
                n,
            ) == Some(r@),
{
    let rc = rel_chars(rels);
    let ghost all = triples(rels@);
    let ghost n0 = choose|n: nat| (#[trigger] root_fuel(all, id@, n)) is Some;
    let mut cur = chars_of(id);
    let ghost mut k: nat = n0;
    loop
        invariant
            all == tviews(rc@),
            all == triples(rels@),
            root_fuel(all, id@, n0) == root_fuel(all, cur@, k),
            root_fuel(all, cur@, k) is Some,
        decreases k,
    {
        match parent_exec(&rc, &cur) {
            None => {
                let r = string_of(cur.as_slice());
                assert(root_fuel(all, cur@, k) == Some(cur@));
                assert(root_fuel(all, id@, n0) == Some(r@));
                proof {
                    assert forall|n: nat| (#[trigger] root_fuel(all, id@, n)) is Some implies root_fuel(
                        all,
                        id@,
                        n,
                    ) == Some(r@) by {
                        if n <= n0 {
                            lemma_root_mono(all, id@, n, n0);
                        } else {
                            lemma_root_mono(all, id@, n0, n);
                        }
                    }
                }
                return r;
            },
            Some(p) => {
                proof {
                    k = (k - 1) as nat;
                }
                cur = p;
            },
        }
    }
}

// ───────────────────────────── node status and tree listing ─────────────────────────────

/// Status of a decision node, from the first of its edges that applies:
/// `resolves`, `confirmedBy`, `invalidatedBy`, `abandoned`; otherwise
/// `active` when it has a `selects` edge, else `considered`.
pub open spec fn dt_status_of(r: Seq<Triple>, id: Seq<char>) -> Seq<char> {
    if edge_from(r, id, "resolves"@) {
        "resolved"@
    } else if edge_from(r, id, "confirmedBy"@) {
        "confirmed"@
    } else if edge_from(r, id, "invalidatedBy"@) {
        "invalidated"@
    } else if edge_from(r, id, "abandoned"@) {
        "abandoned"@
    } else if edge_from(r, id, "selects"@) {
        "active"@
    } else {
        "considered"@
    }
}

fn has_edge(rc: &Vec<RelChars>, subj: &Vec<char>, pred: &str) -> (r: bool)
    ensures
        r == edge_from(tviews(rc@), subj@, pred@),
{
    let ghost all = tviews(rc@);
    let p = chars_of(pred);
    let mut i: usize = 0;
    while i < rc.len()
        invariant
            i <= rc.len(),
            all == tviews(rc@),
            p@ == pred@,
            forall|k: int| 0 <= k < i ==> !((#[trigger] all[k]).0 == subj@ && all[k].1 == pred@),
        decreases rc.len() - i,
    {
        if chars_eq(&rc[i].0, subj) && chars_eq(&rc[i].1, &p) {
            assert(all[i as int].0 == subj@ && all[i as int].1 == pred@);
            return true;
        }
        i = i + 1;
    }
    false
}

fn status_exec(rc: &Vec<RelChars>, id: &Vec<char>) -> (r: String)
    ensures
        r@ == dt_status_of(tviews(rc@), id@),
{
    if has_edge(rc, id, "resolves") {
        lit("resolved")
    } else if has_edge(rc, id, "confirmedBy") {
        lit("confirmed")
    } else if has_edge(rc, id, "invalidatedBy") {
        lit("invalidated")
    } else if has_edge(rc, id, "abandoned") {
        lit("abandoned")
    } else if has_edge(rc, id, "selects") {
        lit("active")
    } else {
        lit("considered")
    }
}

/// Status of a decision node in the relationship graph.
pub fn dt_node_status(id: &str, rels: &Vec<Relationship>) -> (r: String)
    ensures
        r@ == dt_status_of(triples(rels@), id@),
{
    let rc = rel_chars(rels);
    status_exec(&rc, &chars_of(id))
}

/// Some relationship has `id` as subject and `pred` as predicate.
pub open spec fn subject_with(rels: Seq<Relationship>, id: Seq<char>, pred: Seq<char>) -> bool {
    exists|k: int| 0 <= k < rels.len() && (#[trigger] rels[k]).subject@ == id && rels[k].predicate@ == pred
}

proof fn lemma_subject_with_edge(rels: Seq<Relationship>, id: Seq<char>, pred: Seq<char>)
    ensures
        subject_with(rels, id, pred) == edge_from(triples(rels), id, pred),
{
    let r = triples(rels);
    if subject_with(rels, id, pred) {
        let k = choose|k: int| 0 <= k < rels.len() && (#[trigger] rels[k]).subject@ == id && rels[k].predicate@ == pred;
        assert(r[k].0 == id && r[k].1 == pred);
    }
    if edge_from(r, id, pred) {
        let k = choose|k: int| 0 <= k < r.len() && (#[trigger] r[k]).0 == id && r[k].1 == pred;
        assert(rels[k].subject@ == id && rels[k].predicate@ == pred);
    }
}

/// Each evidence edge on a node gives the node its own status, in the order
/// `resolves`, `confirmedBy`, `invalidatedBy`, `abandoned`: a node is
/// resolved when it resolves something; confirmed when it is confirmed and
/// resolves nothing; invalidated when it is invalidated and neither of
/// those; abandoned when abandoned and none of those; active when it only
/// selects an option; and merely considered when it has none of these edges.
pub proof fn law_status_follows_evidence(rels: Seq<Relationship>, id: Seq<char>)
    ensures
        subject_with(rels, id, "resolves"@) ==> dt_status_of(triples(rels), id) == "resolved"@,
        !subject_with(rels, id, "resolves"@) && subject_with(rels, id, "confirmedBy"@)
            ==> dt_status_of(triples(rels), id) == "confirmed"@,
        !subject_with(rels, id, "resolves"@) && !subject_with(rels, id, "confirmedBy"@)
            && subject_with(rels, id, "invalidatedBy"@) ==> dt_status_of(triples(rels), id)
            == "invalidated"@,
        !subject_with(rels, id, "resolves"@) && !subject_with(rels, id, "confirmedBy"@)
            && !subject_with(rels, id, "invalidatedBy"@) && subject_with(rels, id, "abandoned"@)
            ==> dt_status_of(triples(rels), id) == "abandoned"@,
        !subject_with(rels, id, "resolves"@) && !subject_with(rels, id, "confirmedBy"@)
            && !subject_with(rels, id, "invalidatedBy"@) && !subject_with(rels, id, "abandoned"@)
            && subject_with(rels, id, "selects"@) ==> dt_status_of(triples(rels), id) == "active"@,
        !subject_with(rels, id, "resolves"@) && !subject_with(rels, id, "confirmedBy"@)
            && !subject_with(rels, id, "invalidatedBy"@) && !subject_with(rels, id, "abandoned"@)
            && !subject_with(rels, id, "selects"@) ==> dt_status_of(triples(rels), id)
            == "considered"@,
{
    lemma_subject_with_edge(rels, id, "resolves"@);
    lemma_subject_with_edge(rels, id, "confirmedBy"@);
    lemma_subject_with_edge(rels, id, "invalidatedBy"@);
    lemma_subject_with_edge(rels, id, "abandoned"@);
    lemma_subject_with_edge(rels, id, "selects"@);
}

/// A node of a listed tree: id, status and depth (the root at 0).
pub type TreeEntry = (Seq<char>, Seq<char>, nat);

/// The tree under `id` in pre-order (each node, then the subtrees of its
/// options in edge order), with `n` levels of descent.
pub open spec fn tree_fuel(r: Seq<Triple>, id: Seq<char>, depth: nat, n: nat) -> Option<Seq<TreeEntry>>
    decreases n, 0int, 0int,
{
    let head = seq![(id, dt_status_of(r, id), depth)];
    let cs = dt_children_of(r, id);
    if cs.len() == 0 {
        Some(head)
    } else if n == 0 {
        None
    } else {
        match forest_fuel(r, cs, 0, depth + 1, (n - 1) as nat) {
            Some(rest) => Some(head + rest),
            None => None,
        }
    }
}

/// The trees under `cs[i..]`, one after the other.
pub open spec fn forest_fuel(r: Seq<Triple>, cs: Seq<Seq<char>>, i: int, depth: nat, n: nat) -> Option<
    Seq<TreeEntry>,
>
    decreases n, 1int, cs.len() - i,
{
    if i < 0 || i >= cs.len() {
        Some(Seq::empty())
    } else {
        match tree_fuel(r, cs[i], depth, n) {
            None => None,
            Some(a) => match forest_fuel(r, cs, i + 1, depth, n) {
                None => None,
                Some(b) => Some(a + b),
            },
        }
    }
}

proof fn lemma_tree_mono(r: Seq<Triple>, id: Seq<char>, depth: nat, n: nat, m: nat)
    requires
        n <= m,
        tree_fuel(r, id, depth, n) is Some,
    ensures
        tree_fuel(r, id, depth, m) == tree_fuel(r, id, depth, n),
    decreases n, 0int, 0int,
{
    let cs = dt_children_of(r, id);
    if cs.len() > 0 {
        lemma_forest_mono(r, cs, 0, depth + 1, (n - 1) as nat, (m - 1) as nat);
    }
}

proof fn lemma_forest_mono(r: Seq<Triple>, cs: Seq<Seq<char>>, i: int, depth: nat, n: nat, m: nat)
    requires
        n <= m,
        forest_fuel(r, cs, i, depth, n) is Some,
    ensures
        forest_fuel(r, cs, i, depth, m) == forest_fuel(r, cs, i, depth, n),
    decreases n, 1int, cs.len() - i,
{
    if 0 <= i < cs.len() {
        lemma_tree_mono(r, cs[i], depth, n, m);
        lemma_forest_mono(r, cs, i + 1, depth, n, m);
    }
}

/// A node of a listed decision tree.
#[derive(Debug, Clone, PartialEq)]
pub struct DtTreeEntry {
    pub id: String,
    pub status: String,
    pub depth: usize,
}

pub open spec fn entries_view(v: Seq<DtTreeEntry>) -> Seq<TreeEntry> {
    v.map_values(|e: DtTreeEntry| (e.id@, e.status@, e.depth as nat))
}

fn tree_exec(rc: &Vec<RelChars>, id: &Vec<char>, depth: usize, Ghost(n): Ghost<nat>, out: &mut Vec<DtTreeEntry>)
    requires
        tree_fuel(tviews(rc@), id@, depth as nat, n) is Some,
        depth + n < usize::MAX,
    ensures
        entries_view(final(out)@) == entries_view(old(out)@) + tree_fuel(tviews(rc@), id@, depth as nat, n)->0,
    decreases n,
{
    let ghost all = tviews(rc@);
    let ghost start = entries_view(out@);
    let e = DtTreeEntry { id: string_of(id.as_slice()), status: status_exec(rc, id), depth };
    out.push(e);
    assert(entries_view(out@) =~= start + seq![(id@, dt_status_of(all, id@), depth as nat)]);
    let cs = children_exec(rc, id);
    if cs.len() == 0 {
        return;
    }
    let ghost m = (n - 1) as nat;
    let ghost c = vviews(cs@);
    let ghost head = seq![(id@, dt_status_of(all, id@), depth as nat)];
    let mut i: usize = 0;
    let ghost mut done: Seq<TreeEntry> = Seq::empty();
    assert(forest_fuel(all, c, 0, depth as nat + 1, m)->0 =~= done + forest_fuel(all, c, 0, depth as nat + 1, m)->0);
    assert(entries_view(out@) =~= start + head + done);
    while i < cs.len()
        invariant
            i <= cs.len(),
            n > 0,
            m == n - 1,
            depth + n < usize::MAX,
            all == tviews(rc@),
            c == vviews(cs@),
            tree_fuel(all, id@, depth as nat, n) == Some(head + forest_fuel(all, c, 0, depth as nat + 1, m)->0),
            forest_fuel(all, c, i as int, depth as nat + 1, m) is Some,
            entries_view(out@) == start + head + done,
            forest_fuel(all, c, 0, depth as nat + 1, m)->0 == done + forest_fuel(
                all,
                c,
                i as int,
                depth as nat + 1,
                m,
            )->0,
        decreases cs.len() - i,
    {
        assert(cs@[i as int]@ == c[i as int]);
        let ghost sub = tree_fuel(all, c[i as int], depth as nat + 1, m)->0;
        let ghost rest = forest_fuel(all, c, i + 1, depth as nat + 1, m)->0;
        tree_exec(rc, &cs[i], depth + 1, Ghost(m), out);
        proof {
            assert(entries_view(out@) =~= start + head + (done + sub));
            assert(forest_fuel(all, c, 0, depth as nat + 1, m)->0 =~= (done + sub) + rest);
            done = done + sub;
        }
        i = i + 1;
    }
    assert(forest_fuel(all, c, i as int, depth as nat + 1, m)->0 =~= Seq::<TreeEntry>::empty());
}

/// The decision tree under `root` in pre-order, each node with its status
/// and depth. On cyclic option edges the walk would not end; those inputs
/// are excluded.
pub fn dt_tree_entries(root: &str, rels: &Vec<Relationship>) -> (r: Vec<DtTreeEntry>)
    requires
        exists|n: nat| #![trigger tree_fuel(triples(rels@), root@, 0, n)]
            tree_fuel(triples(rels@), root@, 0, n) is Some && n < usize::MAX,
    ensures
        forall|n: nat|
            (#[trigger] tree_fuel(triples(rels@), root@, 0, n)) is Some ==> tree_fuel(
                triples(rels@),
                root@,
                0,
                n,
            ) == Some(entries_view(r@)),
{
    let rc = rel_chars(rels);
    let ghost all = triples(rels@);
    let ghost n0 = choose|n: nat| #![trigger tree_fuel(all, root@, 0, n)]
        tree_fuel(all, root@, 0, n) is Some && n < usize::MAX;
    let mut out: Vec<DtTreeEntry> = Vec::new();
    assert(entries_view(out@) =~= Seq::<TreeEntry>::empty());
    tree_exec(&rc, &chars_of(root), 0, Ghost(n0), &mut out);
    assert(entries_view(out@) =~= tree_fuel(all, root@, 0, n0)->0);
    proof {
        assert forall|n: nat| (#[trigger] tree_fuel(all, root@, 0, n)) is Some implies tree_fuel(
            all,
            root@,
            0,
            n,
        ) == Some(entries_view(out@)) by {
            if n <= n0 {
                lemma_tree_mono(all, root@, 0, n, n0);
            } else {
                lemma_tree_mono(all, root@, 0, n0, n);
            }
        }
    }
    out
}

fn tree_ok(rc: &Vec<RelChars>, id: &Vec<char>, Ghost(depth): Ghost<nat>, n: usize) -> (r: bool)
    ensures
        r == tree_fuel(tviews(rc@), id@, depth, n as nat) is Some,
    decreases n,
{
    let ghost all = tviews(rc@);
    let cs = children_exec(rc, id);
    if cs.len() == 0 {
        return true;
    }
    if n == 0 {
        return false;
    }
    let ghost c = vviews(cs@);
    let ghost m = (n - 1) as nat;
    let mut i: usize = 0;
    while i < cs.len()
        invariant
            i <= cs.len(),
            all == tviews(rc@),
            c == vviews(cs@),
            n > 0,
            m == n - 1,
            c == dt_children_of(all, id@),
            c.len() > 0,
            forest_fuel(all, c, 0, depth + 1, m) is Some <==> forest_fuel(all, c, i as int, depth + 1, m) is Some,
        decreases cs.len() - i,
    {
        assert(cs@[i as int]@ == c[i as int]);
        if !tree_ok(rc, &cs[i], Ghost(depth + 1), n - 1) {
            return false;
        }
        i = i + 1;
    }
    true
}

/// The decision tree under `root` as `dt_tree_entries` lists it, when the
/// walk ends within `fuel` levels; `None` when it does not (on cyclic
/// option edges it never would).
pub fn dt_tree_entries_within(root: &str, rels: &Vec<Relationship>, fuel: usize) -> (r: Option<Vec<DtTreeEntry>>)
    requires
        fuel < usize::MAX,
    ensures
        r is Some <==> tree_fuel(triples(rels@), root@, 0, fuel as nat) is Some,
        r matches Some(v) ==> tree_fuel(triples(rels@), root@, 0, fuel as nat) == Some(entries_view(v@)),
{
    let rc = rel_chars(rels);
    let rv = chars_of(root);
    if !tree_ok(&rc, &rv, Ghost(0), fuel) {
        return None;
    }
    let mut out: Vec<DtTreeEntry> = Vec::new();
    assert(entries_view(out@) =~= Seq::<TreeEntry>::empty());
    tree_exec(&rc, &rv, 0, Ghost(fuel as nat), &mut out);
    assert(entries_view(out@) =~= tree_fuel(triples(rels@), root@, 0, fuel as nat)->0);
    Some(out)
}

/// The root `find_dt_root` finds, when the walk up ends within `fuel`
/// steps; `None` when it does not.
pub fn find_dt_root_within(id: &str, rels: &Vec<Relationship>, fuel: usize) -> (r: Option<String>)
    ensures
        match r {
            Some(x) => root_fuel(triples(rels@), id@, fuel as nat) == Some(x@),
            None => root_fuel(triples(rels@), id@, fuel as nat) is None,
        },
{
    let rc = rel_chars(rels);
    let ghost all = triples(rels@);
    let mut cur = chars_of(id);
    let mut k: usize = fuel;
    loop
        invariant
            all == tviews(rc@),
            all == triples(rels@),
            root_fuel(all, id@, fuel as nat) == root_fuel(all, cur@, k as nat),
        decreases k,
    {
        match parent_exec(&rc, &cur) {
            None => {
                return Some(string_of(cur.as_slice()));
            },
            Some(p) => {
                if k == 0 {
                    return None;
                }
                k = k - 1;
                cur = p;
            },
        }
    }
}

/// Decision-tree roots among `ids`, in order: `CONCEPT_DT_` ids that no
/// `considers` or `selects` edge points to.
pub open spec fn dt_roots_of(ids: Seq<Seq<char>>, r: Seq<Triple>) -> Seq<Seq<char>>
    decreases ids.len(),
{
    if ids.len() == 0 {
        Seq::empty()
    } else {
        let acc = dt_roots_of(ids.drop_last(), r);
        let id = ids.last();
        if crate::text::starts_with(id, "CONCEPT_DT_"@) && tree_parent(r, id) is None {
            acc.push(id)
        } else {
            acc
        }
    }
}

/// The decision-tree roots among `ids` (see `dt_roots_of`).
pub fn dt_roots(ids: &Vec<String>, rels: &Vec<Relationship>) -> (r: Vec<String>)
    ensures
        sviews(r@) == dt_roots_of(sviews(ids@), triples(rels@)),
{
    let rc = rel_chars(rels);
    let ghost all = triples(rels@);
    let prefix = chars_of("CONCEPT_DT_");
    let mut out: Vec<String> = Vec::new();
    let mut i: usize = 0;
    while i < ids.len()
        invariant
            i <= ids@.len(),
            all == tviews(rc@),
            all == triples(rels@),
            prefix@ == "CONCEPT_DT_"@,
            sviews(out@) == dt_roots_of(sviews(ids@).take(i as int), all),
        decreases ids.len() - i,
    {
        proof {
            reveal_strlit("CONCEPT_DT_");
        }
        assert(sviews(ids@).take(i + 1).drop_last() =~= sviews(ids@).take(i as int));
        assert(sviews(ids@).take(i + 1).last() == ids@[i as int]@);
        let v = chars_of(ids[i].as_str());
        if crate::text::starts_with_exec(&v, &prefix) && parent_exec(&rc, &v).is_none() {
            let ghost before = sviews(out@);
            out.push(string_of(v.as_slice()));
            assert(sviews(out@) =~= before.push(ids@[i as int]@));
        }
        i = i + 1;
    }
    assert(sviews(ids@).take(ids@.len() as int) =~= sviews(ids@));
    out
}

/// The node an option is selected under: the subject of the first
/// `considers`/`selects` edge pointing to it, or the option itself.
pub fn select_parent(id: &str, rels: &Vec<Relationship>) -> (r: String)
    ensures
        r@ == (match tree_parent(triples(rels@), id@) {
            Some(p) => p,
            None => id@,
        }),
{
    let rc = rel_chars(rels);
    match parent_exec(&rc, &chars_of(id)) {
        Some(p) => string_of(p.as_slice()),
        None => lit(id),
    }
}

/// Evidence token of a confirmation or invalidation: `TRT_evidence_{slug}`.
pub fn evidence_id(evidence: &str) -> (r: String)
    ensures
        r@ == "TRT_evidence_"@ + slug_of(evidence@),
{
    let mut v = chars_of("TRT_evidence_");
    push_all(&mut v, &chars_of(slugify(evidence).as_str()));
    string_of(v.as_slice())
}

/// Target of an `abandoned` edge: the slugged assumption, or a marker
/// naming the option when no assumption is given.
pub fn abandon_target(id: &str, assumption: &str) -> (r: String)
    ensures
        r@ == (if assumption@.len() == 0 {
            "TRT_abandoned_"@ + id@
        } else {
            "CONCEPT_Assumption_"@ + slug_of(assumption@)
        }),
{
    if chars_of(assumption).len() == 0 {
        let mut v = chars_of("TRT_abandoned_");
        push_all(&mut v, &chars_of(id));
        string_of(v.as_slice())
    } else {
        let mut v = chars_of("CONCEPT_Assumption_");
        push_all(&mut v, &chars_of(slugify(assumption).as_str()));
        string_of(v.as_slice())
    }
}


// ───────────────────────────── tool operations ─────────────────────────────

/// An operation of the decision-tree tool.
#[derive(Debug, Clone, Copy, PartialEq, Eq, Structural)]
pub enum DtOperation {
    CreateDecision,
    Consider,
    Select,
    Confirm,
    Invalidate,
    Abandon,
    Resolve,
    List,
    Get,
}

pub open spec fn dt_operation_of(op: Seq<char>) -> Option<DtOperation> {
    if op == "create_decision"@ {
        Some(DtOperation::CreateDecision)
    } else if op == "consider"@ {
        Some(DtOperation::Consider)
    } else if op == "select"@ {
        Some(DtOperation::Select)
    } else if op == "confirm"@ {
        Some(DtOperation::Confirm)
    } else if op == "invalidate"@ {
        Some(DtOperation::Invalidate)
    } else if op == "abandon"@ {
        Some(DtOperation::Abandon)
    } else if op == "resolve"@ {
        Some(DtOperation::Resolve)
    } else if op == "list"@ {
        Some(DtOperation::List)
    } else if op == "get"@ {
        Some(DtOperation::Get)
    } else {
        None
    }
}

fn is_word(v: &Vec<char>, w: &str) -> (r: bool)
    ensures
        r == (v@ == w@),
{
    chars_eq(v, &chars_of(w))
}

/// `r` failed with message `m`.
pub open spec fn is_err_with<T>(r: Result<T, String>, m: Seq<char>) -> bool {
    match r {
        Err(e) => e@ == m,
        Ok(_) => false,
    }
}

/// The operation named by the `operation` argument, or the error the tool
/// answers with.
pub fn parse_dt_operation(op: Option<&str>) -> (r: Result<DtOperation, String>)
    ensures
        op is None ==> is_err_with(r, "Missing required argument: operation"@),
        op matches Some(o) ==> match dt_operation_of(o@) {
            Some(d) => r == Ok::<DtOperation, String>(d),
            None => is_err_with(
                r,
                "Unknown operation: "@ + o@
                    + ". Use create_decision, consider, select, confirm, invalidate, abandon, resolve, list, or get."@,
            ),
        },
{
    let o = match op {
        None => {
            return Err(lit("Missing required argument: operation"));
        },
        Some(o) => o,
    };
    let v = chars_of(o);
    if is_word(&v, "create_decision") {
        Ok(DtOperation::CreateDecision)
    } else if is_word(&v, "consider") {
        Ok(DtOperation::Consider)
    } else if is_word(&v, "select") {
        Ok(DtOperation::Select)
    } else if is_word(&v, "confirm") {
        Ok(DtOperation::Confirm)
    } else if is_word(&v, "invalidate") {
        Ok(DtOperation::Invalidate)
    } else if is_word(&v, "abandon") {
        Ok(DtOperation::Abandon)
    } else if is_word(&v, "resolve") {
        Ok(DtOperation::Resolve)
    } else if is_word(&v, "list") {
        Ok(DtOperation::List)
    } else if is_word(&v, "get") {
        Ok(DtOperation::Get)
    } else {
        let mut m = chars_of("Unknown operation: ");
        push_all(&mut m, &v);
        push_all(
            &mut m,
            &chars_of(
                ". Use create_decision, consider, select, confirm, invalidate, abandon, resolve, list, or get.",
            ),
        );
        Err(string_of(m.as_slice()))
    }
}

/// The trimmed `title` argument of `create_decision` and `consider`, or the
/// error for a missing or blank one.
pub fn required_title(title: Option<&str>) -> (r: Result<String, String>)
    ensures
        title is None ==> is_err_with(r, "Missing required argument: title"@),
        title matches Some(t) ==> if crate::text::trim(t@).len() == 0 {
            is_err_with(r, "Title cannot be empty"@)
        } else {
            match r {
                Ok(s) => s@ == crate::text::trim(t@),
                Err(_) => false,
            }
        },
{
    match title {
        None => Err(lit("Missing required argument: title")),
        Some(t) => {
            let v = crate::text::trim_vec(&chars_of(t));
            if v.len() == 0 {
                Err(lit("Title cannot be empty"))
            } else {
                Ok(string_of(v.as_slice()))
            }
        },
    }
}

/// The result text of a successful operation on node `id` (`title` and
/// `other` are the title and parent or root where the operation has them).
pub open spec fn dt_done_text(op: DtOperation, id: Seq<char>, title: Seq<char>, other: Seq<char>) -> Seq<char> {
    match op {
        DtOperation::CreateDecision => "Created decision: "@ + title + " (id: "@ + id + ")"@,
        DtOperation::Consider => "Added option under '"@ + other + "': "@ + title + " (id: "@ + id + ")"@,
        DtOperation::Select => "Selected option: "@ + id,
        DtOperation::Confirm => "Confirmed option: "@ + id,
        DtOperation::Invalidate => "Invalidated option: "@ + id,
        DtOperation::Abandon => "Abandoned option: "@ + id,
        DtOperation::Resolve => "Resolved decision: "@ + other + " → "@ + id,
        _ => Seq::empty(),
    }
}

pub fn dt_done_message(op: DtOperation, id: &str, title: &str, other: &str) -> (r: String)
    ensures
        r@ == dt_done_text(op, id@, title@, other@),
{
    let mut v: Vec<char> = Vec::new();
    match op {
        DtOperation::CreateDecision => {
            push_all(&mut v, &chars_of("Created decision: "));
            push_all(&mut v, &chars_of(title));
            push_all(&mut v, &chars_of(" (id: "));
            push_all(&mut v, &chars_of(id));
            push_all(&mut v, &chars_of(")"));
        },
        DtOperation::Consider => {
            push_all(&mut v, &chars_of("Added option under '"));
            push_all(&mut v, &chars_of(other));
            push_all(&mut v, &chars_of("': "));
            push_all(&mut v, &chars_of(title));
            push_all(&mut v, &chars_of(" (id: "));
            push_all(&mut v, &chars_of(id));
            push_all(&mut v, &chars_of(")"));
        },
        DtOperation::Select => {
            push_all(&mut v, &chars_of("Selected option: "));
            push_all(&mut v, &chars_of(id));
        },
        DtOperation::Confirm => {
            push_all(&mut v, &chars_of("Confirmed option: "));
            push_all(&mut v, &chars_of(id));
        },
        DtOperation::Invalidate => {
            push_all(&mut v, &chars_of("Invalidated option: "));
            push_all(&mut v, &chars_of(id));
        },
        DtOperation::Abandon => {
            push_all(&mut v, &chars_of("Abandoned option: "));
            push_all(&mut v, &chars_of(id));
        },
        DtOperation::Resolve => {
            push_all(&mut v, &chars_of("Resolved decision: "));
            push_all(&mut v, &chars_of(other));
            push_all(&mut v, &chars_of(" → "));
            push_all(&mut v, &chars_of(id));
        },
        _ => {},
    }
    assert(v@ =~= dt_done_text(op, id@, title@, other@));
    string_of(v.as_slice())
}


/// No `considers` or `selects` edge points to `id`.
pub open spec fn parentless(r: Seq<Triple>, id: Seq<char>) -> bool {
    forall|k: int| 0 <= k < r.len() ==> !((#[trigger] r[k]).2 == id && (r[k].1 == "considers"@ || r[k].1 == "selects"@))
}

proof fn lemma_tree_parent_none(r: Seq<Triple>, id: Seq<char>)
    ensures
        (tree_parent(r, id) is None) == parentless(r, id),
    decreases r.len(),
{
    if r.len() > 0 {
        lemma_tree_parent_none(r.drop_first(), id);
        if !(r[0].2 == id && (r[0].1 == "considers"@ || r[0].1 == "selects"@)) {
            if parentless(r.drop_first(), id) {
                assert forall|k: int| 0 <= k < r.len() implies !((#[trigger] r[k]).2 == id && (r[k].1
                    == "considers"@ || r[k].1 == "selects"@)) by {
                    if k > 0 {
                        assert(r[k] == r.drop_first()[k - 1]);
                    }
                }
            } else {
                let k = choose|k: int|
                    0 <= k < r.drop_first().len() && ((#[trigger] r.drop_first()[k]).2 == id && (r.drop_first()[k].1
                        == "considers"@ || r.drop_first()[k].1 == "selects"@));
                assert(r[k + 1] == r.drop_first()[k]);
            }
        } else {
            assert(!parentless(r, id)) by {
                assert(r[0].2 == id);
            }
        }
    }
}

/// Where the upward walk from `id` ends, it ends at a node that nothing
/// considers or selects; a node that nothing considers or selects is its
/// own root.
pub proof fn law_root_walk_ends_at_a_parentless_node(r: Seq<Triple>, id: Seq<char>, n: nat)
    ensures
        root_fuel(r, id, n) matches Some(x) ==> parentless(r, x),
        parentless(r, id) ==> root_fuel(r, id, n) == Some(id),
    decreases n,
{
    lemma_tree_parent_none(r, id);
    match tree_parent(r, id) {
        None => {},
        Some(p) => {
            if n > 0 {
                law_root_walk_ends_at_a_parentless_node(r, p, (n - 1) as nat);
            }
        },
    }
}


/// The node reached from `id` after `k` upward steps (a parentless node is
/// stayed at).
pub open spec fn up_node(r: Seq<Triple>, id: Seq<char>, k: nat) -> Seq<char>
    decreases k,
{
    if k == 0 {
        id
    } else {
        let prev = up_node(r, id, (k - 1) as nat);
        match tree_parent(r, prev) {
            Some(p) => p,
            None => prev,
        }
    }
}

proof fn lemma_parent_is_pointed_to(r: Seq<Triple>, x: Seq<char>)
    requires
        tree_parent(r, x) is Some,
    ensures
        r.map_values(|t: Triple| t.2).contains(x),
    decreases r.len(),
{
    if r[0].2 == x && (r[0].1 == "considers"@ || r[0].1 == "selects"@) {
        assert(r.map_values(|t: Triple| t.2)[0] == x);
    } else {
        lemma_parent_is_pointed_to(r.drop_first(), x);
        let objs = r.drop_first().map_values(|t: Triple| t.2);
        let i = choose|i: int| 0 <= i < objs.len() && objs[i] == x;
        assert(r.map_values(|t: Triple| t.2)[i + 1] == objs[i]);
    }
}

proof fn lemma_stuck_walk_moves(r: Seq<Triple>, id: Seq<char>, n: nat, k: nat)
    requires
        root_fuel(r, id, n) is None,
        k <= n,
    ensures
        tree_parent(r, up_node(r, id, k)) is Some,
        root_fuel(r, up_node(r, id, k), (n - k) as nat) is None,
    decreases k,
{
    if k > 0 {
        lemma_stuck_walk_moves(r, id, n, (k - 1) as nat);
    }
}

/// An upward walk that never comes back to a node it passed ends within as
/// many steps as there are relationships: if the first nodes of the walk
/// from `id` that have a parent are all different, the root search from
/// `id` with that much descent finds its root.
pub proof fn law_root_walk_without_repeats_ends(r: Seq<Triple>, id: Seq<char>)
    requires
        forall|i: nat, j: nat|
            i < j <= r.len() && tree_parent(r, #[trigger] up_node(r, id, i)) is Some ==> up_node(r, id, i)
                != #[trigger] up_node(r, id, j),
    ensures
        root_fuel(r, id, r.len()) is Some,
{
    let n = r.len();
    if root_fuel(r, id, n) is None {
        let xs = Seq::new((n + 1) as nat, |i: int| up_node(r, id, i as nat));
        let objs = r.map_values(|t: Triple| t.2);
        assert forall|i: int| 0 <= i < xs.len() implies tree_parent(r, #[trigger] xs[i]) is Some by {
            lemma_stuck_walk_moves(r, id, n, i as nat);
        }
        assert(xs.no_duplicates()) by {
            assert forall|i: int, j: int| 0 <= i < xs.len() && 0 <= j < xs.len() && i != j implies xs[i]
                != xs[j] by {
                let (a, b) = if i < j { (i, j) } else { (j, i) };
                lemma_stuck_walk_moves(r, id, n, a as nat);
                assert(up_node(r, id, a as nat) != up_node(r, id, b as nat));
            }
        }
        xs.unique_seq_to_set();
        objs.lemma_cardinality_of_set();
        assert(xs.to_set().subset_of(objs.to_set())) by {
            assert forall|x: Seq<char>| xs.to_set().contains(x) implies objs.to_set().contains(x) by {
                let i = choose|i: int| 0 <= i < xs.len() && xs[i] == x;
                lemma_parent_is_pointed_to(r, xs[i]);
            }
        }
        vstd::seq_lib::seq_to_set_is_finite(objs);
        vstd::set_lib::lemma_len_subset(xs.to_set(), objs.to_set());
        assert(false);
    }
}

} // verus!
