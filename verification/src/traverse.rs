//! Graph traversal outward from directly matched tokens: a breadth-first
//! walk over relationship edges taken in both directions, recording for
//! each newly found token its hop distance and the direct match it was
//! reached from.

use vstd::prelude::*;
use crate::text::{chars_eq, chars_of, lit, vviews};

verus! {

/// An edge as `(subject, object)`.
pub type Edge = (Seq<char>, Seq<char>);

/// A found token: its id, hop distance, and the index of the direct match
/// it was reached from.
pub type Found = (Seq<char>, nat, nat);

/// Neighbours of `n`, in edge order: for each edge, its object when `n` is
/// the subject, then its subject when `n` is the object.
pub open spec fn adjacent(edges: Seq<Edge>, n: Seq<char>) -> Seq<Seq<char>>
    decreases edges.len(),
{
    if edges.len() == 0 {
        Seq::empty()
    } else {
        let e = edges.last();
        adjacent(edges.drop_last(), n) + (if e.0 == n {
            seq![e.1]
        } else {
            Seq::empty()
        }) + (if e.1 == n {
            seq![e.0]
        } else {
            Seq::empty()
        })
    }
}

pub open spec fn found_has(found: Seq<Found>, id: Seq<char>) -> bool {
    exists|i: int| 0 <= i < found.len() && (#[trigger] found[i]).0 == id
}

/// Walk state: tokens found so far and the frontier of the next hop (each
/// with the index of its direct match).
pub type Walk = (Seq<Found>, Seq<(Seq<char>, nat)>);

/// Visits the neighbours `nbs` of a frontier node reached from `origin`:
/// each one that is neither a direct match nor already found is found at
/// `hop` and joins the next frontier.
pub open spec fn visit(direct: Seq<Seq<char>>, st: Walk, hop: nat, origin: nat, nbs: Seq<Seq<char>>) -> Walk
    decreases nbs.len(),
{
    if nbs.len() == 0 {
        st
    } else {
        let s = visit(direct, st, hop, origin, nbs.drop_last());
        let nb = nbs.last();
        if direct.contains(nb) || found_has(s.0, nb) {
            s
        } else {
            (s.0.push((nb, hop, origin)), s.1.push((nb, origin)))
        }
    }
}

/// One hop: the frontier's nodes in order, each visiting its neighbours.
pub open spec fn layer(direct: Seq<Seq<char>>, edges: Seq<Edge>, st: Walk, frontier: Seq<(Seq<char>, nat)>, hop: nat) -> Walk
    decreases frontier.len(),
{
    if frontier.len() == 0 {
        st
    } else {
        let s = layer(direct, edges, st, frontier.drop_last(), hop);
        let f = frontier.last();
        visit(direct, s, hop, f.1, adjacent(edges, f.0))
    }
}

/// Hops `hop` up to `last`, stopping early when a hop finds nothing.
pub open spec fn walk_from(
    direct: Seq<Seq<char>>,
    edges: Seq<Edge>,
    found: Seq<Found>,
    frontier: Seq<(Seq<char>, nat)>,
    hop: nat,
    last: nat,
) -> Seq<Found>
    decreases last + 1 - hop,
{
    if hop > last || frontier.len() == 0 {
        found
    } else {
        let s = layer(direct, edges, (found, Seq::empty()), frontier, hop);
        walk_from(direct, edges, s.0, s.1, hop + 1, last)
    }
}

/// Tokens found by walking up to `num_hops` hops from the direct matches,
/// in the order they are found.
pub open spec fn traversal(direct: Seq<Seq<char>>, edges: Seq<Edge>, num_hops: nat) -> Seq<Found> {
    if num_hops == 0 || direct.len() == 0 {
        Seq::empty()
    } else {
        walk_from(
            direct,
            edges,
            Seq::empty(),
            Seq::new(direct.len(), |i: int| (direct[i], i as nat)),
            1,
            num_hops,
        )
    }
}

/// A token found by a traversal.
#[derive(Debug, Clone, PartialEq)]
pub struct Discovered {
    pub token_id: String,
    pub hop_distance: u32,
    /// Index, in the direct matches, of the one this token was reached from.
    pub origin: usize,
}

pub open spec fn discovered_view(v: Seq<Discovered>) -> Seq<Found> {
    v.map_values(|d: Discovered| (d.token_id@, d.hop_distance as nat, d.origin as nat))
}

struct WalkState {
    found: Vec<(Vec<char>, u32, usize)>,
    next: Vec<(Vec<char>, usize)>,
}

spec fn fviews(v: Seq<(Vec<char>, u32, usize)>) -> Seq<Found> {
    v.map_values(|f: (Vec<char>, u32, usize)| (f.0@, f.1 as nat, f.2 as nat))
}

spec fn nviews(v: Seq<(Vec<char>, usize)>) -> Seq<(Seq<char>, nat)> {
    v.map_values(|f: (Vec<char>, usize)| (f.0@, f.1 as nat))
}

spec fn walk_view(w: WalkState) -> Walk {
    (fviews(w.found@), nviews(w.next@))
}

type EdgeChars = (Vec<char>, Vec<char>);

spec fn eviews(v: Seq<EdgeChars>) -> Seq<Edge> {
    v.map_values(|e: EdgeChars| (e.0@, e.1@))
}

fn adjacent_exec(edges: &Vec<EdgeChars>, n: &Vec<char>) -> (r: Vec<Vec<char>>)
    ensures
        vviews(r@) == adjacent(eviews(edges@), n@),
{
    let ghost all = eviews(edges@);
    let mut out: Vec<Vec<char>> = Vec::new();
    let mut i: usize = 0;
    assert(all.take(0) =~= Seq::<Edge>::empty());
    assert(vviews(out@) =~= Seq::<Seq<char>>::empty());
    while i < edges.len()
        invariant
            i <= edges.len(),
            all == eviews(edges@),
            vviews(out@) == adjacent(all.take(i as int), n@),
        decreases edges.len() - i,
    {
        proof {
            assert(all.take(i + 1).drop_last() =~= all.take(i as int));
            assert(all.take(i + 1).last() == all[i as int]);
        }
        let ghost before = vviews(out@);
        if chars_eq(&edges[i].0, n) {
            out.push(edges[i].1.clone());
        }
        let ghost mid = vviews(out@);
        assert(mid =~= before + (if all[i as int].0 == n@ {
            seq![all[i as int].1]
        } else {
            Seq::empty()
        }));
        if chars_eq(&edges[i].1, n) {
            out.push(edges[i].0.clone());
        }
        assert(vviews(out@) =~= mid + (if all[i as int].1 == n@ {
            seq![all[i as int].0]
        } else {
            Seq::empty()
        }));
        i = i + 1;
    }
    assert(all.take(all.len() as int) =~= all);
    out
}

fn contains_id(v: &Vec<Vec<char>>, id: &Vec<char>) -> (r: bool)
    ensures
        r == vviews(v@).contains(id@),
{
    let mut i: usize = 0;
    while i < v.len()
        invariant
            i <= v.len(),
            forall|k: int| 0 <= k < i ==> vviews(v@)[k] != id@,
        decreases v.len() - i,
    {
        if chars_eq(&v[i], id) {
            assert(vviews(v@)[i as int] == id@);
            return true;
        }
        i = i + 1;
    }
    false
}

fn found_contains(found: &Vec<(Vec<char>, u32, usize)>, id: &Vec<char>) -> (r: bool)
    ensures
        r == found_has(fviews(found@), id@),
{
    let ghost fv = fviews(found@);
    let mut i: usize = 0;
    while i < found.len()
        invariant
            i <= found.len(),
            fv == fviews(found@),
            forall|k: int| 0 <= k < i ==> (#[trigger] fv[k]).0 != id@,
        decreases found.len() - i,
    {
        if chars_eq(&found[i].0, id) {
            assert(fv[i as int].0 == id@);
            return true;
        }
        i = i + 1;
    }
    false
}

fn visit_exec(direct: &Vec<Vec<char>>, w: &mut WalkState, hop: u32, origin: usize, nbs: &Vec<Vec<char>>)
    ensures
        walk_view(*final(w)) == visit(vviews(direct@), walk_view(*old(w)), hop as nat, origin as nat, vviews(nbs@)),
{
    let ghost start = walk_view(*w);
    let ghost all = vviews(nbs@);
    let mut i: usize = 0;
    assert(all.take(0) =~= Seq::<Seq<char>>::empty());
    while i < nbs.len()
        invariant
            i <= nbs.len(),
            all == vviews(nbs@),
            walk_view(*w) == visit(vviews(direct@), start, hop as nat, origin as nat, all.take(i as int)),
        decreases nbs.len() - i,
    {
        proof {
            assert(all.take(i + 1).drop_last() =~= all.take(i as int));
            assert(all.take(i + 1).last() == all[i as int]);
        }
        let nb = &nbs[i];
        if !contains_id(direct, nb) && !found_contains(&w.found, nb) {
            let ghost bf = fviews(w.found@);
            let ghost bn = nviews(w.next@);
            w.found.push((nb.clone(), hop, origin));
            w.next.push((nb.clone(), origin));
            assert(fviews(w.found@) =~= bf.push((nb@, hop as nat, origin as nat)));
            assert(nviews(w.next@) =~= bn.push((nb@, origin as nat)));
        }
        i = i + 1;
    }
    assert(all.take(all.len() as int) =~= all);
}

fn layer_exec(
    direct: &Vec<Vec<char>>,
    edges: &Vec<EdgeChars>,
    w: &mut WalkState,
    frontier: &Vec<(Vec<char>, usize)>,
    hop: u32,
)
    ensures
        walk_view(*final(w)) == layer(
            vviews(direct@),
            eviews(edges@),
            walk_view(*old(w)),
            nviews(frontier@),
            hop as nat,
        ),
{
    let ghost start = walk_view(*w);
    let ghost all = nviews(frontier@);
    let mut i: usize = 0;
    assert(all.take(0) =~= Seq::<(Seq<char>, nat)>::empty());
    while i < frontier.len()
        invariant
            i <= frontier.len(),
            all == nviews(frontier@),
            walk_view(*w) == layer(vviews(direct@), eviews(edges@), start, all.take(i as int), hop as nat),
        decreases frontier.len() - i,
    {
        proof {
            assert(all.take(i + 1).drop_last() =~= all.take(i as int));
            assert(all.take(i + 1).last() == all[i as int]);
        }
        let nbs = adjacent_exec(edges, &frontier[i].0);
        visit_exec(direct, w, hop, frontier[i].1, &nbs);
        i = i + 1;
    }
    assert(all.take(all.len() as int) =~= all);
}

/// Walks up to `num_hops` hops outward from the direct matches over the
/// edges `(subject, object)`, in both directions, and returns the tokens
/// found, in the order found.
pub fn traverse_relationships(direct: &Vec<String>, edges: &Vec<(String, String)>, num_hops: u32) -> (r:
    Vec<Discovered>)
    ensures
        discovered_view(r@) == traversal(
            crate::text::sviews(direct@),
            edges@.map_values(|e: (String, String)| (e.0@, e.1@)),
            num_hops as nat,
        ),
{
    let ghost ds = crate::text::sviews(direct@);
    let ghost es = edges@.map_values(|e: (String, String)| (e.0@, e.1@));
    if num_hops == 0 || direct.len() == 0 {
        let out: Vec<Discovered> = Vec::new();
        assert(discovered_view(out@) =~= Seq::<Found>::empty());
        return out;
    }
    let dv = crate::text::chars_of_all(direct);
    let mut ev: Vec<EdgeChars> = Vec::new();
    let mut i: usize = 0;
    while i < edges.len()
        invariant
            i <= edges.len(),
            es == edges@.map_values(|e: (String, String)| (e.0@, e.1@)),
            eviews(ev@) == es.take(i as int),
        decreases edges.len() - i,
    {
        let e = (chars_of(edges[i].0.as_str()), chars_of(edges[i].1.as_str()));
        let ghost before = eviews(ev@);
        ev.push(e);
        assert(eviews(ev@) =~= before.push((e.0@, e.1@)));
        assert(es.take(i + 1) =~= es.take(i as int).push(es[i as int]));
        i = i + 1;
    }
    assert(es.take(es.len() as int) =~= es);
    let mut frontier: Vec<(Vec<char>, usize)> = Vec::new();
    let mut k: usize = 0;
    while k < dv.len()
        invariant
            k <= dv.len(),
            vviews(dv@) == ds,
            nviews(frontier@) == Seq::new(ds.len(), |j: int| (ds[j], j as nat)).take(k as int),
        decreases dv.len() - k,
    {
        let ghost before = nviews(frontier@);
        frontier.push((dv[k].clone(), k));
        assert(nviews(frontier@) =~= before.push((ds[k as int], k as nat)));
        assert(Seq::new(ds.len(), |j: int| (ds[j], j as nat)).take(k + 1) =~= Seq::new(
            ds.len(),
            |j: int| (ds[j], j as nat),
        ).take(k as int).push((ds[k as int], k as nat)));
        k = k + 1;
    }
    assert(Seq::new(ds.len(), |j: int| (ds[j], j as nat)).take(ds.len() as int) =~= Seq::new(
        ds.len(),
        |j: int| (ds[j], j as nat),
    ));
    let mut found: Vec<(Vec<char>, u32, usize)> = Vec::new();
    assert(fviews(found@) =~= Seq::<Found>::empty());
    let mut hop: u32 = 1;
    let mut done = false;
    while !done
        invariant
            1 <= hop <= num_hops,
            vviews(dv@) == ds,
            eviews(ev@) == es,
            done ==> fviews(found@) == traversal(ds, es, num_hops as nat),
            !done ==> walk_from(ds, es, fviews(found@), nviews(frontier@), hop as nat, num_hops as nat)
                == traversal(ds, es, num_hops as nat),
        decreases num_hops - hop + (if done {
            0int
        } else {
            1int
        }),
    {
        if frontier.len() == 0 {
            done = true;
        } else {
            let ghost f0 = fviews(found@);
            let ghost fr0 = nviews(frontier@);
            let mut w = WalkState { found, next: Vec::new() };
            assert(nviews(w.next@) =~= Seq::<(Seq<char>, nat)>::empty());
            layer_exec(&dv, &ev, &mut w, &frontier, hop);
            found = w.found;
            frontier = w.next;
            assert(walk_from(ds, es, f0, fr0, hop as nat, num_hops as nat) == walk_from(
                ds,
                es,
                fviews(found@),
                nviews(frontier@),
                hop as nat + 1,
                num_hops as nat,
            ));
            if hop == num_hops {
                done = true;
            } else {
                hop = hop + 1;
            }
        }
    }
    let ghost fv = fviews(found@);
    let mut out: Vec<Discovered> = Vec::new();
    let mut m: usize = 0;
    while m < found.len()
        invariant
            m <= found.len(),
            fv == fviews(found@),
            discovered_view(out@) == fv.take(m as int),
        decreases found.len() - m,
    {
        let d = Discovered {
            token_id: crate::text::string_of(found[m].0.as_slice()),
            hop_distance: found[m].1,
            origin: found[m].2,
        };
        let ghost before = discovered_view(out@);
        out.push(d);
        assert(discovered_view(out@) =~= before.push((d.token_id@, d.hop_distance as nat, d.origin as nat)));
        assert(fv.take(m + 1) =~= fv.take(m as int).push(fv[m as int]));
        m = m + 1;
    }
    assert(fv.take(fv.len() as int) =~= fv);
    out
}


/// Found tokens are distinct, none is a direct match, each was found at a
/// hop between 1 and `last` from a direct match that exists.
pub open spec fn well_found(direct: Seq<Seq<char>>, found: Seq<Found>, last: nat) -> bool {
    &&& forall|i: int|
        0 <= i < found.len() ==> {
            let f = #[trigger] found[i];
            1 <= f.1 <= last && f.2 < direct.len() && !direct.contains(f.0)
        }
    &&& forall|i: int, j: int|
        0 <= i < j < found.len() ==> (#[trigger] found[i]).0 != (#[trigger] found[j]).0
}

pub open spec fn frontier_ok(direct: Seq<Seq<char>>, fr: Seq<(Seq<char>, nat)>) -> bool {
    forall|i: int| 0 <= i < fr.len() ==> (#[trigger] fr[i]).1 < direct.len()
}

proof fn lemma_visit(direct: Seq<Seq<char>>, st: Walk, hop: nat, origin: nat, nbs: Seq<Seq<char>>, last: nat)
    requires
        well_found(direct, st.0, last),
        frontier_ok(direct, st.1),
        1 <= hop <= last,
        origin < direct.len(),
    ensures
        well_found(direct, visit(direct, st, hop, origin, nbs).0, last),
        frontier_ok(direct, visit(direct, st, hop, origin, nbs).1),
    decreases nbs.len(),
{
    if nbs.len() > 0 {
        lemma_visit(direct, st, hop, origin, nbs.drop_last(), last);
        let s = visit(direct, st, hop, origin, nbs.drop_last());
        let nb = nbs.last();
        if !(direct.contains(nb) || found_has(s.0, nb)) {
            let f = s.0.push((nb, hop, origin));
            assert forall|i: int, j: int| 0 <= i < j < f.len() implies (#[trigger] f[i]).0 != (#[trigger] f[j]).0 by {
                if j == f.len() - 1 {
                    if f[i].0 == nb {
                        assert(s.0[i].0 == nb);
                        assert(found_has(s.0, nb));
                    }
                } else {
                    assert(f[i] == s.0[i] && f[j] == s.0[j]);
                }
            }
            assert forall|i: int| 0 <= i < f.len() implies {
                let g = #[trigger] f[i];
                1 <= g.1 <= last && g.2 < direct.len() && !direct.contains(g.0)
            } by {
                if i < f.len() - 1 {
                    assert(f[i] == s.0[i]);
                }
            }
            let n = s.1.push((nb, origin));
            assert forall|i: int| 0 <= i < n.len() implies (#[trigger] n[i]).1 < direct.len() by {
                if i < n.len() - 1 {
                    assert(n[i] == s.1[i]);
                }
            }
        }
    }
}

proof fn lemma_layer(direct: Seq<Seq<char>>, edges: Seq<Edge>, st: Walk, frontier: Seq<(Seq<char>, nat)>, hop: nat, last: nat)
    requires
        well_found(direct, st.0, last),
        frontier_ok(direct, st.1),
        frontier_ok(direct, frontier),
        1 <= hop <= last,
    ensures
        well_found(direct, layer(direct, edges, st, frontier, hop).0, last),
        frontier_ok(direct, layer(direct, edges, st, frontier, hop).1),
    decreases frontier.len(),
{
    if frontier.len() > 0 {
        assert(frontier_ok(direct, frontier.drop_last())) by {
            assert forall|i: int| 0 <= i < frontier.len() - 1 implies (#[trigger] frontier.drop_last()[i]).1 < direct.len() by {
                assert(frontier.drop_last()[i] == frontier[i]);
            }
        }
        lemma_layer(direct, edges, st, frontier.drop_last(), hop, last);
        let s = layer(direct, edges, st, frontier.drop_last(), hop);
        let f = frontier.last();
        assert(f == frontier[frontier.len() - 1]);
        lemma_visit(direct, s, hop, f.1, adjacent(edges, f.0), last);
    }
}

proof fn lemma_walk(
    direct: Seq<Seq<char>>,
    edges: Seq<Edge>,
    found: Seq<Found>,
    frontier: Seq<(Seq<char>, nat)>,
    hop: nat,
    last: nat,
)
    requires
        well_found(direct, found, last),
        frontier_ok(direct, frontier),
        1 <= hop,
    ensures
        well_found(direct, walk_from(direct, edges, found, frontier, hop, last), last),
    decreases last + 1 - hop,
{
    if !(hop > last || frontier.len() == 0) {
        let e: Seq<(Seq<char>, nat)> = Seq::empty();
        assert(frontier_ok(direct, e));
        lemma_layer(direct, edges, (found, e), frontier, hop, last);
        let s = layer(direct, edges, (found, e), frontier, hop);
        lemma_walk(direct, edges, s.0, s.1, hop + 1, last);
    }
}

/// A traversal finds each token at most once, never a direct match, always
/// within `num_hops` hops of one of the direct matches.
pub proof fn law_traversal_finds_new_tokens(direct: Seq<Seq<char>>, edges: Seq<Edge>, num_hops: nat)
    ensures
        well_found(direct, traversal(direct, edges, num_hops), num_hops),
{
    if !(num_hops == 0 || direct.len() == 0) {
        let fr = Seq::new(direct.len(), |i: int| (direct[i], i as nat));
        assert(frontier_ok(direct, fr));
        assert(well_found(direct, Seq::<Found>::empty(), num_hops));
        lemma_walk(direct, edges, Seq::empty(), fr, 1, num_hops);
    }
}


/// Hop distances never decrease along `found`, and none exceeds `h`.
pub open spec fn by_hop(found: Seq<Found>, h: nat) -> bool {
    &&& forall|i: int, j: int| 0 <= i < j < found.len() ==> (#[trigger] found[i]).1 <= (#[trigger] found[j]).1
    &&& forall|i: int| 0 <= i < found.len() ==> (#[trigger] found[i]).1 <= h
}

proof fn lemma_visit_by_hop(direct: Seq<Seq<char>>, st: Walk, hop: nat, origin: nat, nbs: Seq<Seq<char>>)
    requires
        by_hop(st.0, hop),
    ensures
        by_hop(visit(direct, st, hop, origin, nbs).0, hop),
    decreases nbs.len(),
{
    if nbs.len() > 0 {
        lemma_visit_by_hop(direct, st, hop, origin, nbs.drop_last());
        let s = visit(direct, st, hop, origin, nbs.drop_last());
        let f = s.0.push((nbs.last(), hop, origin));
        assert forall|i: int, j: int| 0 <= i < j < f.len() implies (#[trigger] f[i]).1 <= (#[trigger] f[j]).1 by {
            if j < f.len() - 1 {
                assert(f[i] == s.0[i] && f[j] == s.0[j]);
            } else {
                assert(f[i] == s.0[i]);
            }
        }
        assert forall|i: int| 0 <= i < f.len() implies (#[trigger] f[i]).1 <= hop by {
            if i < f.len() - 1 {
                assert(f[i] == s.0[i]);
            }
        }
    }
}

proof fn lemma_layer_by_hop(direct: Seq<Seq<char>>, edges: Seq<Edge>, st: Walk, frontier: Seq<(Seq<char>, nat)>, hop: nat)
    requires
        by_hop(st.0, hop),
    ensures
        by_hop(layer(direct, edges, st, frontier, hop).0, hop),
    decreases frontier.len(),
{
    if frontier.len() > 0 {
        lemma_layer_by_hop(direct, edges, st, frontier.drop_last(), hop);
        let s = layer(direct, edges, st, frontier.drop_last(), hop);
        lemma_visit_by_hop(direct, s, hop, frontier.last().1, adjacent(edges, frontier.last().0));
    }
}

proof fn lemma_walk_by_hop(
    direct: Seq<Seq<char>>,
    edges: Seq<Edge>,
    found: Seq<Found>,
    frontier: Seq<(Seq<char>, nat)>,
    hop: nat,
    last: nat,
)
    requires
        1 <= hop,
        by_hop(found, (hop - 1) as nat),
    ensures
        forall|i: int, j: int|
            0 <= i < j < walk_from(direct, edges, found, frontier, hop, last).len() ==> (
            #[trigger] walk_from(direct, edges, found, frontier, hop, last)[i]).1 <= (
            #[trigger] walk_from(direct, edges, found, frontier, hop, last)[j]).1,
    decreases last + 1 - hop,
{
    if !(hop > last || frontier.len() == 0) {
        let e: Seq<(Seq<char>, nat)> = Seq::empty();
        assert(by_hop(found, hop));
        lemma_layer_by_hop(direct, edges, (found, e), frontier, hop);
        let s = layer(direct, edges, (found, e), frontier, hop);
        lemma_walk_by_hop(direct, edges, s.0, s.1, hop + 1, last);
        assert(walk_from(direct, edges, found, frontier, hop, last) == walk_from(
            direct,
            edges,
            s.0,
            s.1,
            hop + 1,
            last,
        ));
    } else {
        assert(walk_from(direct, edges, found, frontier, hop, last) == found);
    }
}

/// A traversal lists what it finds by hop distance: nearer tokens first.
pub proof fn law_traversal_nearest_first(direct: Seq<Seq<char>>, edges: Seq<Edge>, num_hops: nat)
    ensures
        forall|i: int, j: int|
            0 <= i < j < traversal(direct, edges, num_hops).len() ==> (#[trigger] traversal(
                direct,
                edges,
                num_hops,
            )[i]).1 <= (#[trigger] traversal(direct, edges, num_hops)[j]).1,
{
    if !(num_hops == 0 || direct.len() == 0) {
        let fr = Seq::new(direct.len(), |i: int| (direct[i], i as nat));
        lemma_walk_by_hop(direct, edges, Seq::empty(), fr, 1, num_hops);
    }
}

} // verus!
