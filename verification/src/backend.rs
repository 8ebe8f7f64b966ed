//! The storage contract that Squire backends satisfy, stated over an
//! abstract model of a store, and the in-memory store's proof that it
//! satisfies it.

use vstd::prelude::*;
use crate::memory::{
    detail_of, hit, upserted, ComplianceFailureRecord, InMemorySquireStore, RawPartitionRecord, StoredToken,
};
use crate::types::{NewTokenSpec, Relationship, TokenDetail};

verus! {

/// A session's current turn under a turn table: its counter, or 0.
pub open spec fn turn_in(turns: Map<u128, u64>, session_id: u128) -> u64 {
    if turns.contains_key(session_id) { turns[session_id] } else { 0 }
}

/// `m` with one more hit for `id` when it is stored.
pub open spec fn with_hit(m: Map<Seq<char>, StoredToken>, id: Seq<char>) -> Map<Seq<char>, StoredToken> {
    if m.contains_key(id) { m.insert(id, hit(m[id])) } else { m }
}

/// `m` after upserting `t` in `turn` for `session`.
pub open spec fn with_upsert(m: Map<Seq<char>, StoredToken>, t: NewTokenSpec, turn: u64, session: u128) -> Map<Seq<char>, StoredToken> {
    m.insert(t.id@, upserted(if m.contains_key(t.id@) { Some(m[t.id@]) } else { None }, t, turn, session))
}

/// A relationship by the views of its parts.
pub open spec fn rel_triple(r: Relationship) -> (Seq<char>, Seq<char>, Seq<char>) {
    (r.subject@, r.predicate@, r.object@)
}

pub open spec fn rel_triples(s: Seq<Relationship>) -> Seq<(Seq<char>, Seq<char>, Seq<char>)> {
    s.map_values(|r: Relationship| rel_triple(r))
}

/// The relationship log after the tree API logs `rel`: a `Contains` edge is
/// never logged directly; a `HasParent` edge is logged with its mirrored
/// `Contains` edge; any other edge is logged as it is.
pub open spec fn log_after_add(log: Seq<(Seq<char>, Seq<char>, Seq<char>)>, rel: Relationship) -> Seq<(Seq<char>, Seq<char>, Seq<char>)> {
    if rel.predicate@ == crate::memory::contains_pred() {
        log
    } else if rel.predicate@ == crate::memory::has_parent() {
        log.push(rel_triple(rel)).push((rel.object@, crate::memory::contains_pred(), rel.subject@))
    } else {
        log.push(rel_triple(rel))
    }
}

/// What a store holds: tokens by id, the relationship log, preserve lists
/// and turn counters by session, and the two audit logs. The contract below
/// says what each operation does to it; every backend satisfies it.
pub trait SquireStore {
    /// The store's own consistency condition.
    spec fn inv(&self) -> bool;

    spec fn tokens_view(&self) -> Map<Seq<char>, StoredToken>;

    spec fn rels_view(&self) -> Seq<Relationship>;

    spec fn preserve_view(&self) -> Map<u128, Vec<String>>;

    spec fn turns_view(&self) -> Map<u128, u64>;

    spec fn raw_view(&self) -> Seq<RawPartitionRecord>;

    spec fn failures_view(&self) -> Seq<ComplianceFailureRecord>;

    /// The ids of stored tokens that a session may see.
    spec fn session_ids_view(&self, session_id: u128) -> Set<Seq<char>>;

    /// Whether a token with this id is stored.
    fn token_exists(&self, token_id: &str) -> (r: bool)
        requires
            self.inv(),
        ensures
            r == self.tokens_view().contains_key(token_id@),
    ;

    /// Store a token, creating it or updating it as `upserted` says.
    fn upsert_token(&mut self, token: NewTokenSpec, creation_turn: u64, session_id: u128)
        requires
            old(self).inv(),
            old(self).tokens_view().contains_key(token.id@) ==> old(self).tokens_view()[token.id@].accumulated_hits < u64::MAX,
        ensures
            final(self).inv(),
            final(self).tokens_view() == with_upsert(old(self).tokens_view(), token, creation_turn, session_id),
            final(self).rels_view() == old(self).rels_view(),
            final(self).preserve_view() == old(self).preserve_view(),
            final(self).turns_view() == old(self).turns_view(),
            final(self).raw_view() == old(self).raw_view(),
            final(self).failures_view() == old(self).failures_view(),
    ;

    /// One more hit for a stored token.
    fn record_hit(&mut self, token_id: &str)
        requires
            old(self).inv(),
            old(self).tokens_view().contains_key(token_id@) ==> old(self).tokens_view()[token_id@].accumulated_hits < u64::MAX,
        ensures
            final(self).inv(),
            final(self).tokens_view() == with_hit(old(self).tokens_view(), token_id@),
            final(self).rels_view() == old(self).rels_view(),
            final(self).preserve_view() == old(self).preserve_view(),
            final(self).turns_view() == old(self).turns_view(),
            final(self).raw_view() == old(self).raw_view(),
            final(self).failures_view() == old(self).failures_view(),
    ;

    /// A session's current turn.
    fn current_turn(&self, session_id: u128) -> (r: u64)
        requires
            self.inv(),
        ensures
            r == turn_in(self.turns_view(), session_id),
    ;

    /// Advance a session's turn by one.
    fn increment_turn(&mut self, session_id: u128)
        requires
            old(self).inv(),
            turn_in(old(self).turns_view(), session_id) < u64::MAX,
        ensures
            final(self).inv(),
            final(self).turns_view() == old(self).turns_view().insert(session_id, (turn_in(old(self).turns_view(), session_id) + 1) as u64),
            final(self).tokens_view() == old(self).tokens_view(),
            final(self).rels_view() == old(self).rels_view(),
            final(self).preserve_view() == old(self).preserve_view(),
            final(self).raw_view() == old(self).raw_view(),
            final(self).failures_view() == old(self).failures_view(),
    ;

    /// Append to the raw-partition log.
    fn record_raw_output(&mut self, session_id: u128, turn: u64, content: String)
        requires
            old(self).inv(),
        ensures
            final(self).inv(),
            final(self).raw_view().len() == old(self).raw_view().len() + 1,
            final(self).raw_view().drop_last() == old(self).raw_view(),
            final(self).raw_view().last().session_id == session_id,
            final(self).raw_view().last().turn == turn,
            final(self).raw_view().last().content == content,
            final(self).tokens_view() == old(self).tokens_view(),
            final(self).rels_view() == old(self).rels_view(),
            final(self).preserve_view() == old(self).preserve_view(),
            final(self).turns_view() == old(self).turns_view(),
            final(self).failures_view() == old(self).failures_view(),
    ;

    /// Append to the compliance-failure log.
    fn record_compliance_failure(&mut self, record: ComplianceFailureRecord)
        requires
            old(self).inv(),
        ensures
            final(self).inv(),
            final(self).failures_view() == old(self).failures_view().push(record),
            final(self).tokens_view() == old(self).tokens_view(),
            final(self).rels_view() == old(self).rels_view(),
            final(self).preserve_view() == old(self).preserve_view(),
            final(self).turns_view() == old(self).turns_view(),
            final(self).raw_view() == old(self).raw_view(),
    ;

    /// Replace a session's preserve list.
    fn set_preserve_list(&mut self, session_id: u128, tokens: Vec<String>)
        requires
            old(self).inv(),
        ensures
            final(self).inv(),
            final(self).preserve_view() == old(self).preserve_view().insert(session_id, tokens),
            final(self).tokens_view() == old(self).tokens_view(),
            final(self).rels_view() == old(self).rels_view(),
            final(self).turns_view() == old(self).turns_view(),
            final(self).raw_view() == old(self).raw_view(),
            final(self).failures_view() == old(self).failures_view(),
    ;

    /// Log a relationship as the tree API does (see
    /// `InMemorySquireStore::add_relationship`); only the log changes.
    fn add_relationship(&mut self, rel: Relationship)
        requires
            old(self).inv(),
        ensures
            final(self).inv(),
            rel_triples(final(self).rels_view()) == log_after_add(rel_triples(old(self).rels_view()), rel),
            final(self).tokens_view() == old(self).tokens_view(),
            final(self).preserve_view() == old(self).preserve_view(),
            final(self).turns_view() == old(self).turns_view(),
            final(self).raw_view() == old(self).raw_view(),
            final(self).failures_view() == old(self).failures_view(),
    ;

    /// Append a relationship to the log as it is.
    fn insert_relationship(&mut self, rel: Relationship)
        requires
            old(self).inv(),
        ensures
            final(self).inv(),
            final(self).rels_view() == old(self).rels_view().push(rel),
            final(self).tokens_view() == old(self).tokens_view(),
            final(self).preserve_view() == old(self).preserve_view(),
            final(self).turns_view() == old(self).turns_view(),
            final(self).raw_view() == old(self).raw_view(),
            final(self).failures_view() == old(self).failures_view(),
    ;

    /// The logged relationships that pass each filter given, in log order.
    fn get_relationships(&self, subject: Option<&str>, predicate: Option<&str>, object: Option<&str>) -> (r: Vec<Relationship>)
        requires
            self.inv(),
        ensures
            r@ == crate::memory::rels_matching(self.rels_view(), crate::memory::opt_str_view(subject),
                crate::memory::opt_str_view(predicate), crate::memory::opt_str_view(object)),
    ;

    /// A store holds finitely many tokens.
    proof fn lemma_tokens_finite(&self)
        requires
            self.inv(),
        ensures
            self.tokens_view().dom().finite(),
    ;

    /// What the store knows of a token.
    fn token_detail(&self, token_id: &str) -> (r: Option<TokenDetail>)
        requires
            self.inv(),
        ensures
            r is Some <==> self.tokens_view().contains_key(token_id@),
            r is Some ==> detail_of(r->0, self.tokens_view()[token_id@]),
    ;

    /// Ids of stored tokens that a session may see, each listed once.
    fn list_token_ids_by_session(&self, session_id: u128) -> (r: Vec<String>)
        requires
            self.inv(),
        ensures
            crate::text::sviews(r@).to_set() == self.session_ids_view(session_id),
            forall|i: int| 0 <= i < r@.len() ==> self.tokens_view().contains_key(#[trigger] r@[i]@),
            forall|i: int, j: int| 0 <= i < j < r@.len() ==> r@[i]@ != r@[j]@,
    ;
}

impl SquireStore for InMemorySquireStore {
    open spec fn inv(&self) -> bool {
        self.wf()
    }

    open spec fn tokens_view(&self) -> Map<Seq<char>, StoredToken> {
        self.token_map()
    }

    open spec fn rels_view(&self) -> Seq<Relationship> {
        self.relationship_log()
    }

    open spec fn preserve_view(&self) -> Map<u128, Vec<String>> {
        self.preserve_map()
    }

    open spec fn turns_view(&self) -> Map<u128, u64> {
        self.turn_map()
    }

    open spec fn raw_view(&self) -> Seq<RawPartitionRecord> {
        self.raw_log()
    }

    open spec fn failures_view(&self) -> Seq<ComplianceFailureRecord> {
        self.failure_log()
    }

    /// The in-memory store lets every session see every token.
    open spec fn session_ids_view(&self, session_id: u128) -> Set<Seq<char>> {
        self.token_map().dom()
    }

    fn token_exists(&self, token_id: &str) -> (r: bool) {
        InMemorySquireStore::token_exists(self, token_id)
    }

    fn upsert_token(&mut self, token: NewTokenSpec, creation_turn: u64, session_id: u128) {
        InMemorySquireStore::upsert_token(self, token, creation_turn, session_id)
    }

    fn record_hit(&mut self, token_id: &str) {
        InMemorySquireStore::record_hit(self, token_id)
    }

    fn current_turn(&self, session_id: u128) -> (r: u64) {
        InMemorySquireStore::current_turn(self, session_id)
    }

    fn increment_turn(&mut self, session_id: u128) {
        InMemorySquireStore::increment_turn(self, session_id)
    }

    fn record_raw_output(&mut self, session_id: u128, turn: u64, content: String) {
        InMemorySquireStore::record_raw_output(self, session_id, turn, content)
    }

    fn record_compliance_failure(&mut self, record: ComplianceFailureRecord) {
        InMemorySquireStore::record_compliance_failure(self, record)
    }

    fn set_preserve_list(&mut self, session_id: u128, tokens: Vec<String>) {
        InMemorySquireStore::set_preserve_list(self, session_id, tokens)
    }

    fn add_relationship(&mut self, rel: Relationship) {
        let ghost r0 = rel;
        let ghost old_log = self.relationship_log();
        InMemorySquireStore::add_relationship(self, rel);
        proof {
            let new_log = self.relationship_log();
            if r0.predicate@ == crate::memory::has_parent() {
                assert(new_log =~= new_log.take(old_log.len() + 1int).push(new_log.last()));
                assert(rel_triples(new_log) =~= log_after_add(rel_triples(old_log), r0));
            } else if r0.predicate@ != crate::memory::contains_pred() {
                assert(rel_triples(new_log) =~= log_after_add(rel_triples(old_log), r0));
            }
        }
    }

    fn insert_relationship(&mut self, rel: Relationship) {
        InMemorySquireStore::insert_relationship(self, rel)
    }

    fn get_relationships(&self, subject: Option<&str>, predicate: Option<&str>, object: Option<&str>) -> (r: Vec<Relationship>) {
        InMemorySquireStore::get_relationships(self, subject, predicate, object)
    }

    proof fn lemma_tokens_finite(&self) {
        self.lemma_ids_are_keys();
        let ids = self.token_ids();
        assert(self.token_map().dom() =~= ids.to_set());
        vstd::seq_lib::seq_to_set_is_finite(ids);
    }

    fn token_detail(&self, token_id: &str) -> (r: Option<TokenDetail>) {
        InMemorySquireStore::token_detail(self, token_id)
    }

    /// The in-memory store lists every id, whatever the session.
    fn list_token_ids_by_session(&self, session_id: u128) -> (r: Vec<String>) {
        let r = InMemorySquireStore::list_token_ids(self);
        proof {
            self.lemma_ids_are_keys();
            assert forall|i: int| 0 <= i < r@.len() implies self.token_map().contains_key(#[trigger] r@[i]@) by {
                assert(crate::text::sviews(r@)[i] == r@[i]@);
                assert(self.token_ids()[i] == r@[i]@);
                assert(self.token_ids().contains(r@[i]@));
            }
            assert forall|i: int, j: int| 0 <= i < j < r@.len() implies r@[i]@ != r@[j]@ by {
                assert(crate::text::sviews(r@)[i] == r@[i]@);
                assert(crate::text::sviews(r@)[j] == r@[j]@);
            }
            assert(crate::text::sviews(r@).to_set() =~= self.token_map().dom());
        }
        r
    }
}

} // verus!
