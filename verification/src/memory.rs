//! A non-persistent token store: tokens keyed by id, the relationship log,
//! per-session preserve lists and turn counters, and the audit logs.
//!
//! Sessions are identified by the 128-bit value of their UUID; `0` is the nil
//! session that marks global tokens.

use vstd::prelude::*;
use crate::protocol::opt_view;
use crate::text::lit;
use crate::types::{NewTokenSpec, Relationship, TokenDetail, TokenRange, ToolEndpoint};

verus! {

/// A token as the store keeps it.
#[derive(Debug, Clone, PartialEq)]
pub struct StoredToken {
    pub token_type: String,
    pub short_desc: String,
    pub full_desc: Option<String>,
    pub creation_turn: u64,
    pub accumulated_hits: u64,
    pub endpoint: Option<ToolEndpoint>,
    pub ranges: Vec<TokenRange>,
    pub session_id: u128,
}

// ───────────────────────────── keyed sequences as maps ─────────────────────────────

/// No key occurs twice.
pub open spec fn keys_unique<K: View, V>(s: Seq<(K, V)>) -> bool {
    forall|i: int, j: int| 0 <= i < s.len() && 0 <= j < s.len() && i != j ==> #[trigger] s[i].0@ != #[trigger] s[j].0@
}

pub open spec fn has_key<K: View, V>(s: Seq<(K, V)>, k: K::V) -> bool {
    exists|i: int| 0 <= i < s.len() && #[trigger] s[i].0@ == k
}

pub open spec fn key_index<K: View, V>(s: Seq<(K, V)>, k: K::V) -> int {
    choose|i: int| 0 <= i < s.len() && #[trigger] s[i].0@ == k
}

/// The map that a sequence of `(key, value)` pairs stands for.
pub open spec fn as_map<K: View, V>(s: Seq<(K, V)>) -> Map<K::V, V> {
    Map::new(|k: K::V| has_key(s, k), |k: K::V| s[key_index(s, k)].1)
}

pub proof fn lemma_as_map_index<K: View, V>(s: Seq<(K, V)>, i: int)
    requires
        keys_unique(s),
        0 <= i < s.len(),
    ensures
        as_map(s).contains_key(s[i].0@),
        as_map(s)[s[i].0@] == s[i].1,
{
    assert(has_key(s, s[i].0@));
    let j = key_index(s, s[i].0@);
    assert(s[j].0@ == s[i].0@);
}

pub proof fn lemma_as_map_absent<K: View, V>(s: Seq<(K, V)>, k: K::V)
    requires
        forall|i: int| 0 <= i < s.len() ==> #[trigger] s[i].0@ != k,
    ensures
        !as_map(s).contains_key(k),
{
}

pub proof fn lemma_as_map_update<K: View, V>(s: Seq<(K, V)>, i: int, v: V)
    requires
        keys_unique(s),
        0 <= i < s.len(),
    ensures
        keys_unique(s.update(i, (s[i].0, v))),
        as_map(s.update(i, (s[i].0, v))) =~= as_map(s).insert(s[i].0@, v),
{
    let t = s.update(i, (s[i].0, v));
    assert forall|a: int, b: int| 0 <= a < t.len() && 0 <= b < t.len() && a != b implies #[trigger] t[a].0@ != #[trigger] t[b].0@ by {
        assert(t[a].0@ == s[a].0@);
        assert(t[b].0@ == s[b].0@);
    }
    assert forall|k: K::V| has_key(t, k) <==> has_key(s, k) by {
        if has_key(t, k) {
            let j = key_index(t, k);
            assert(s[j].0@ == k);
        }
        if has_key(s, k) {
            let j = key_index(s, k);
            assert(t[j].0@ == k);
        }
    }
    assert forall|k: K::V| #[trigger] as_map(t).contains_key(k) implies as_map(t)[k] == as_map(s).insert(s[i].0@, v)[k] by {
        let j = key_index(t, k);
        if k == s[i].0@ {
            assert(t[i].0@ == k);
            assert(j == i);
        } else {
            let j2 = key_index(s, k);
            assert(t[j].0@ == k);
            assert(s[j2].0@ == k);
            assert(j == j2);
        }
    }
}

pub proof fn lemma_as_map_push<K: View, V>(s: Seq<(K, V)>, key: K, v: V)
    requires
        keys_unique(s),
        !as_map(s).contains_key(key@),
    ensures
        keys_unique(s.push((key, v))),
        as_map(s.push((key, v))) =~= as_map(s).insert(key@, v),
{
    let t = s.push((key, v));
    let n = s.len() as int;
    assert forall|i: int| 0 <= i < s.len() implies #[trigger] s[i].0@ != key@ by {
        if s[i].0@ == key@ {
            assert(has_key(s, key@));
        }
    }
    assert forall|a: int, b: int| 0 <= a < t.len() && 0 <= b < t.len() && a != b implies #[trigger] t[a].0@ != #[trigger] t[b].0@ by {
        if a < n && b < n {
            assert(t[a] == s[a]);
            assert(t[b] == s[b]);
        } else if a < n {
            assert(t[a] == s[a]);
        } else {
            assert(t[b] == s[b]);
        }
    }
    assert forall|k: K::V| has_key(t, k) <==> (has_key(s, k) || k == key@) by {
        if has_key(t, k) {
            let j = key_index(t, k);
            if j < n {
                assert(t[j] == s[j]);
                assert(s[j].0@ == k);
            }
        }
        if has_key(s, k) {
            let j = key_index(s, k);
            assert(t[j] == s[j]);
        }
        if k == key@ {
            assert(t[n].0@ == k);
        }
    }
    assert forall|k: K::V| #[trigger] as_map(t).contains_key(k) implies as_map(t)[k] == as_map(s).insert(key@, v)[k] by {
        let j = key_index(t, k);
        if k == key@ {
            assert(t[n].0@ == k);
            assert(j == n);
        } else {
            let j2 = key_index(s, k);
            assert(t[j2] == s[j2]);
            assert(t[j2].0@ == k);
            assert(j == j2);
        }
    }
}

/// Position of `key` among the keys of `s`, if it is there.
fn find_key<V>(s: &Vec<(String, V)>, key: &String) -> (r: Option<usize>)
    ensures
        match r {
            Some(i) => i < s@.len() && s@[i as int].0@ == key@,
            None => forall|i: int| 0 <= i < s@.len() ==> #[trigger] s@[i].0@ != key@,
        },
{
    let mut i: usize = 0;
    while i < s.len()
        invariant
            i <= s@.len(),
            forall|j: int| 0 <= j < i ==> #[trigger] s@[j].0@ != key@,
        decreases s.len() - i,
    {
        if s[i].0 == *key {
            return Some(i);
        }
        i = i + 1;
    }
    None
}

// ───────────────────────────── upsert ─────────────────────────────

/// The stored token after an upsert of `t` over `old`: a new token starts
/// with one hit; an existing one takes the new short description, the new
/// full description and endpoint where given (else keeps its own), keeps
/// its type, ranges, creation turn and session, and gains one hit.
pub open spec fn upserted(old: Option<StoredToken>, t: NewTokenSpec, turn: u64, session: u128) -> StoredToken {
    match old {
        None => StoredToken {
            token_type: t.token_type,
            short_desc: t.short_desc,
            full_desc: t.full_desc,
            creation_turn: turn,
            accumulated_hits: 1,
            endpoint: t.endpoint,
            ranges: t.ranges,
            session_id: session,
        },
        Some(o) => StoredToken {
            token_type: o.token_type,
            short_desc: t.short_desc,
            full_desc: if t.full_desc is Some { t.full_desc } else { o.full_desc },
            creation_turn: o.creation_turn,
            accumulated_hits: (o.accumulated_hits + 1) as u64,
            endpoint: if t.endpoint is Some { t.endpoint } else { o.endpoint },
            ranges: o.ranges,
            session_id: o.session_id,
        },
    }
}


/// Position of `key` among the session keys of `s`, if it is there.
fn find_session<V>(s: &Vec<(u128, V)>, key: u128) -> (r: Option<usize>)
    ensures
        match r {
            Some(i) => i < s@.len() && s@[i as int].0@ == key,
            None => forall|i: int| 0 <= i < s@.len() ==> #[trigger] s@[i].0@ != key,
        },
{
    let mut i: usize = 0;
    while i < s.len()
        invariant
            i <= s@.len(),
            forall|j: int| 0 <= j < i ==> #[trigger] s@[j].0@ != key,
        decreases s.len() - i,
    {
        if s[i].0 == key {
            return Some(i);
        }
        i = i + 1;
    }
    None
}

/// The keys of `s` in order, each by its view.
pub open spec fn key_views<K: View, V>(s: Seq<(K, V)>) -> Seq<K::V> {
    s.map_values(|e: (K, V)| e.0@)
}

// ───────────────────────────── records ─────────────────────────────

/// Id, type, short description and hit count of a stored token, as the
/// store's listing operations hand them out.
#[derive(Debug, Clone, PartialEq)]
pub struct TokenBrief {
    pub token_id: String,
    pub token_type: String,
    pub short_desc: String,
    pub accumulated_hits: u64,
}

/// What a brief says, by views.
pub open spec fn brief_view(b: TokenBrief) -> (Seq<char>, Seq<char>, Seq<char>, u64) {
    (b.token_id@, b.token_type@, b.short_desc@, b.accumulated_hits)
}

pub open spec fn brief_views(bs: Seq<TokenBrief>) -> Seq<(Seq<char>, Seq<char>, Seq<char>, u64)> {
    bs.map_values(|b: TokenBrief| brief_view(b))
}

/// The brief of token `id` stored as `t`.
pub open spec fn brief_of(id: Seq<char>, t: StoredToken) -> (Seq<char>, Seq<char>, Seq<char>, u64) {
    (id, t.token_type@, t.short_desc@, t.accumulated_hits)
}

/// A compliance failure that exhausted the retry budget; `timestamp` is in
/// milliseconds since the Unix epoch.
#[derive(Debug, Clone, PartialEq)]
pub struct ComplianceFailureRecord {
    pub session_id: u128,
    pub rule: String,
    pub reason: String,
    pub retry_count: u32,
    pub failed_content: String,
    pub timestamp: i64,
}

/// One entry of the raw-partition audit log; `timestamp` is in
/// milliseconds since the Unix epoch.
#[derive(Debug, Clone, PartialEq)]
pub struct RawPartitionRecord {
    pub session_id: u128,
    pub turn: u64,
    pub content: String,
    pub timestamp: i64,
}

/// `chrono::Utc::now()`, in milliseconds since the Unix epoch. The clock
/// decides the value, so nothing is stated of it.
#[verifier::external_body]
pub(crate) fn now_millis() -> (r: i64) {
    chrono::Utc::now().timestamp_millis()
}

// ───────────────────────────── the store ─────────────────────────────

/// Non-persistent token store; its state lives as long as the value.
pub struct InMemorySquireStore {
    tokens: Vec<(String, StoredToken)>,
    relationships: Vec<Relationship>,
    preserve_lists: Vec<(u128, Vec<String>)>,
    turns: Vec<(u128, u64)>,
    compliance_failures: Vec<ComplianceFailureRecord>,
    raw_partition: Vec<RawPartitionRecord>,
}

impl InMemorySquireStore {
    /// The tokens, keyed by id.
    pub closed spec fn token_map(&self) -> Map<Seq<char>, StoredToken> {
        as_map(self.tokens@)
    }

    /// The token ids in the order the tokens were first stored.
    pub closed spec fn token_ids(&self) -> Seq<Seq<char>> {
        key_views(self.tokens@)
    }

    /// The relationship log, oldest first.
    pub closed spec fn relationship_log(&self) -> Seq<Relationship> {
        self.relationships@
    }

    /// The preserve list of each session that has one.
    pub closed spec fn preserve_map(&self) -> Map<u128, Vec<String>> {
        as_map(self.preserve_lists@)
    }

    /// The turn counter of each session that has one.
    pub closed spec fn turn_map(&self) -> Map<u128, u64> {
        as_map(self.turns@)
    }

    /// The recorded compliance failures, oldest first.
    pub closed spec fn failure_log(&self) -> Seq<ComplianceFailureRecord> {
        self.compliance_failures@
    }

    /// The raw-partition audit log, oldest first.
    pub closed spec fn raw_log(&self) -> Seq<RawPartitionRecord> {
        self.raw_partition@
    }

    /// Ids, sessions and counters each occur once, and the ids listed are
    /// those of the table.
    pub closed spec fn wf(&self) -> bool {
        &&& keys_unique(self.tokens@)
        &&& keys_unique(self.preserve_lists@)
        &&& keys_unique(self.turns@)
    }

    /// The current turn of a session: its counter, or 0 before the first
    /// increment.
    pub open spec fn turn_of(&self, session_id: u128) -> u64 {
        if self.turn_map().contains_key(session_id) { self.turn_map()[session_id] } else { 0 }
    }

    pub proof fn lemma_ids_are_keys(&self)
        requires
            self.wf(),
        ensures
            forall|k: Seq<char>| self.token_map().contains_key(k) <==> self.token_ids().contains(k),
            forall|i: int, j: int| 0 <= i < self.token_ids().len() && 0 <= j < self.token_ids().len() && i != j
                ==> self.token_ids()[i] != self.token_ids()[j],
    {
        let s = self.tokens@;
        assert forall|k: Seq<char>| self.token_map().contains_key(k) <==> self.token_ids().contains(k) by {
            if self.token_map().contains_key(k) {
                let j = key_index(s, k);
                assert(self.token_ids()[j] == k);
            }
            if self.token_ids().contains(k) {
                let j = choose|j: int| 0 <= j < self.token_ids().len() && self.token_ids()[j] == k;
                assert(s[j].0@ == k);
                assert(has_key(s, k));
            }
        }
        assert forall|i: int, j: int| 0 <= i < self.token_ids().len() && 0 <= j < self.token_ids().len() && i != j
            implies self.token_ids()[i] != self.token_ids()[j] by {
            assert(self.token_ids()[i] == s[i].0@);
            assert(self.token_ids()[j] == s[j].0@);
        }
    }

    pub fn new() -> (r: Self)
        ensures
            r.wf(),
            r.token_map() == Map::<Seq<char>, StoredToken>::empty(),
            r.token_ids() == Seq::<Seq<char>>::empty(),
            r.relationship_log() == Seq::<Relationship>::empty(),
            r.preserve_map() == Map::<u128, Vec<String>>::empty(),
            r.turn_map() == Map::<u128, u64>::empty(),
            r.failure_log() == Seq::<ComplianceFailureRecord>::empty(),
            r.raw_log() == Seq::<RawPartitionRecord>::empty(),
    {
        let r = InMemorySquireStore {
            tokens: Vec::new(),
            relationships: Vec::new(),
            preserve_lists: Vec::new(),
            turns: Vec::new(),
            compliance_failures: Vec::new(),
            raw_partition: Vec::new(),
        };
        assert(r.token_map() =~= Map::<Seq<char>, StoredToken>::empty());
        assert(r.token_ids() =~= Seq::<Seq<char>>::empty());
        assert(r.preserve_map() =~= Map::<u128, Vec<String>>::empty());
        assert(r.turn_map() =~= Map::<u128, u64>::empty());
        r
    }

    /// Whether a token with this id is stored.
    pub fn token_exists(&self, token_id: &str) -> (r: bool)
        requires
            self.wf(),
        ensures
            r == self.token_map().contains_key(token_id@),
    {
        let key = lit(token_id);
        match find_key(&self.tokens, &key) {
            Some(i) => {
                proof { lemma_as_map_index(self.tokens@, i as int); }
                true
            },
            None => {
                proof { lemma_as_map_absent(self.tokens@, key@); }
                false
            },
        }
    }

    /// Store `token` under its id: a new token is created in `creation_turn`
    /// for `session_id`; an existing one is updated as `upserted` says and
    /// gains a hit either way.
    pub fn upsert_token(&mut self, token: NewTokenSpec, creation_turn: u64, session_id: u128)
        requires
            old(self).wf(),
            old(self).token_map().contains_key(token.id@) ==> old(self).token_map()[token.id@].accumulated_hits < u64::MAX,
        ensures
            final(self).wf(),
            final(self).token_map() == old(self).token_map().insert(token.id@, upserted(
                if old(self).token_map().contains_key(token.id@) { Some(old(self).token_map()[token.id@]) } else { None },
                token, creation_turn, session_id)),
            final(self).token_ids() == if old(self).token_map().contains_key(token.id@) { old(self).token_ids() } else { old(self).token_ids().push(token.id@) },
            final(self).relationship_log() == old(self).relationship_log(),
            final(self).preserve_map() == old(self).preserve_map(),
            final(self).turn_map() == old(self).turn_map(),
            final(self).failure_log() == old(self).failure_log(),
            final(self).raw_log() == old(self).raw_log(),
    {
        let ghost t0 = token;
        match find_key(&self.tokens, &token.id) {
            Some(i) => {
                proof { lemma_as_map_index(self.tokens@, i as int); }
                let ghost s0 = self.tokens@;
                let NewTokenSpec { id: _, token_type: _, short_desc, full_desc, endpoint, ranges: _ } = token;
                let entry = &mut self.tokens[i].1;
                entry.short_desc = short_desc;
                if full_desc.is_some() {
                    entry.full_desc = full_desc;
                }
                if endpoint.is_some() {
                    entry.endpoint = endpoint;
                }
                entry.accumulated_hits = entry.accumulated_hits + 1;
                proof {
                    let v = upserted(Some(s0[i as int].1), t0, creation_turn, session_id);
                    assert(self.tokens@ == s0.update(i as int, (s0[i as int].0, v)));
                    lemma_as_map_update(s0, i as int, v);
                    assert(key_views(self.tokens@) =~= key_views(s0));
                }
            },
            None => {
                proof { lemma_as_map_absent(self.tokens@, token.id@); }
                let ghost s0 = self.tokens@;
                let NewTokenSpec { id, token_type, short_desc, full_desc, endpoint, ranges } = token;
                let stored = StoredToken {
                    token_type,
                    short_desc,
                    full_desc,
                    creation_turn,
                    accumulated_hits: 1,
                    endpoint,
                    ranges,
                    session_id,
                };
                self.tokens.push((id, stored));
                proof {
                    lemma_as_map_push(s0, id, stored);
                    assert(key_views(self.tokens@) =~= key_views(s0).push(id@));
                }
            },
        }
    }

    /// Append a relationship to the log.
    pub fn insert_relationship(&mut self, rel: Relationship)
        requires
            old(self).wf(),
        ensures
            final(self).wf(),
            final(self).relationship_log() == old(self).relationship_log().push(rel),
            final(self).token_map() == old(self).token_map(),
            final(self).token_ids() == old(self).token_ids(),
            final(self).preserve_map() == old(self).preserve_map(),
            final(self).turn_map() == old(self).turn_map(),
            final(self).failure_log() == old(self).failure_log(),
            final(self).raw_log() == old(self).raw_log(),
    {
        self.relationships.push(rel);
    }

    /// Replace the preserve list of a session.
    pub fn set_preserve_list(&mut self, session_id: u128, tokens: Vec<String>)
        requires
            old(self).wf(),
        ensures
            final(self).wf(),
            final(self).preserve_map() == old(self).preserve_map().insert(session_id, tokens),
            final(self).token_map() == old(self).token_map(),
            final(self).token_ids() == old(self).token_ids(),
            final(self).relationship_log() == old(self).relationship_log(),
            final(self).turn_map() == old(self).turn_map(),
            final(self).failure_log() == old(self).failure_log(),
            final(self).raw_log() == old(self).raw_log(),
    {
        let ghost s0 = self.preserve_lists@;
        match find_session(&self.preserve_lists, session_id) {
            Some(i) => {
                let ghost t0 = tokens;
                self.preserve_lists[i].1 = tokens;
                proof {
                    assert(self.preserve_lists@ == s0.update(i as int, (s0[i as int].0, t0)));
                    lemma_as_map_update(s0, i as int, t0);
                }
            },
            None => {
                proof { lemma_as_map_absent(s0, session_id); }
                let ghost t0 = tokens;
                self.preserve_lists.push((session_id, tokens));
                proof { lemma_as_map_push(s0, session_id, t0); }
            },
        }
    }

    /// The current turn of a session (0 before its first increment).
    pub fn current_turn(&self, session_id: u128) -> (r: u64)
        requires
            self.wf(),
        ensures
            r == self.turn_of(session_id),
    {
        match find_session(&self.turns, session_id) {
            Some(i) => {
                proof { lemma_as_map_index(self.turns@, i as int); }
                self.turns[i].1
            },
            None => {
                proof { lemma_as_map_absent(self.turns@, session_id); }
                0
            },
        }
    }

    /// Advance a session's turn counter by one.
    pub fn increment_turn(&mut self, session_id: u128)
        requires
            old(self).wf(),
            old(self).turn_of(session_id) < u64::MAX,
        ensures
            final(self).wf(),
            final(self).turn_map() == old(self).turn_map().insert(session_id, (old(self).turn_of(session_id) + 1) as u64),
            final(self).token_map() == old(self).token_map(),
            final(self).token_ids() == old(self).token_ids(),
            final(self).relationship_log() == old(self).relationship_log(),
            final(self).preserve_map() == old(self).preserve_map(),
            final(self).failure_log() == old(self).failure_log(),
            final(self).raw_log() == old(self).raw_log(),
    {
        let ghost s0 = self.turns@;
        match find_session(&self.turns, session_id) {
            Some(i) => {
                proof { lemma_as_map_index(s0, i as int); }
                let n = self.turns[i].1 + 1;
                self.turns[i].1 = n;
                proof {
                    assert(self.turns@ == s0.update(i as int, (s0[i as int].0, n)));
                    lemma_as_map_update(s0, i as int, n);
                }
            },
            None => {
                proof { lemma_as_map_absent(s0, session_id); }
                self.turns.push((session_id, 1));
                proof { lemma_as_map_push(s0, session_id, 1u64); }
            },
        }
    }

    /// Append a compliance failure to its log.
    pub fn record_compliance_failure(&mut self, record: ComplianceFailureRecord)
        requires
            old(self).wf(),
        ensures
            final(self).wf(),
            final(self).failure_log() == old(self).failure_log().push(record),
            final(self).token_map() == old(self).token_map(),
            final(self).token_ids() == old(self).token_ids(),
            final(self).relationship_log() == old(self).relationship_log(),
            final(self).preserve_map() == old(self).preserve_map(),
            final(self).turn_map() == old(self).turn_map(),
            final(self).raw_log() == old(self).raw_log(),
    {
        self.compliance_failures.push(record);
    }

    /// Drop the preserve lists of every session.
    pub fn clear_all_preserve_lists(&mut self)
        requires
            old(self).wf(),
        ensures
            final(self).wf(),
            final(self).preserve_map() == Map::<u128, Vec<String>>::empty(),
            final(self).token_map() == old(self).token_map(),
            final(self).token_ids() == old(self).token_ids(),
            final(self).relationship_log() == old(self).relationship_log(),
            final(self).turn_map() == old(self).turn_map(),
            final(self).failure_log() == old(self).failure_log(),
            final(self).raw_log() == old(self).raw_log(),
    {
        self.preserve_lists.clear();
        assert(self.preserve_map() =~= Map::<u128, Vec<String>>::empty());
    }

    /// The recorded compliance failures, oldest first.
    pub fn compliance_failures(&self) -> (r: &Vec<ComplianceFailureRecord>)
        ensures
            r@ == self.failure_log(),
    {
        &self.compliance_failures
    }

    /// The raw-partition audit log, oldest first.
    pub fn raw_partition_records(&self) -> (r: &Vec<RawPartitionRecord>)
        ensures
            r@ == self.raw_log(),
    {
        &self.raw_partition
    }

    /// One more hit for a stored token; nothing happens for an unknown id.
    pub fn record_hit(&mut self, token_id: &str)
        requires
            old(self).wf(),
            old(self).token_map().contains_key(token_id@) ==> old(self).token_map()[token_id@].accumulated_hits < u64::MAX,
        ensures
            final(self).wf(),
            final(self).token_map() == if old(self).token_map().contains_key(token_id@) {
                old(self).token_map().insert(token_id@, hit(old(self).token_map()[token_id@]))
            } else {
                old(self).token_map()
            },
            final(self).token_ids() == old(self).token_ids(),
            final(self).relationship_log() == old(self).relationship_log(),
            final(self).preserve_map() == old(self).preserve_map(),
            final(self).turn_map() == old(self).turn_map(),
            final(self).failure_log() == old(self).failure_log(),
            final(self).raw_log() == old(self).raw_log(),
    {
        let key = lit(token_id);
        let ghost s0 = self.tokens@;
        match find_key(&self.tokens, &key) {
            Some(i) => {
                proof { lemma_as_map_index(s0, i as int); }
                let entry = &mut self.tokens[i].1;
                entry.accumulated_hits = entry.accumulated_hits + 1;
                proof {
                    let v = hit(s0[i as int].1);
                    assert(self.tokens@ == s0.update(i as int, (s0[i as int].0, v)));
                    lemma_as_map_update(s0, i as int, v);
                    assert(key_views(self.tokens@) =~= key_views(s0));
                }
            },
            None => {
                proof { lemma_as_map_absent(s0, key@); }
            },
        }
    }

    /// Append `content` of `turn` in `session_id` to the raw-partition log,
    /// stamped with the current time.
    pub fn record_raw_output(&mut self, session_id: u128, turn: u64, content: String)
        requires
            old(self).wf(),
        ensures
            final(self).wf(),
            final(self).raw_log().len() == old(self).raw_log().len() + 1,
            final(self).raw_log().drop_last() == old(self).raw_log(),
            final(self).raw_log().last().session_id == session_id,
            final(self).raw_log().last().turn == turn,
            final(self).raw_log().last().content == content,
            final(self).token_map() == old(self).token_map(),
            final(self).token_ids() == old(self).token_ids(),
            final(self).relationship_log() == old(self).relationship_log(),
            final(self).preserve_map() == old(self).preserve_map(),
            final(self).turn_map() == old(self).turn_map(),
            final(self).failure_log() == old(self).failure_log(),
    {
        let timestamp = now_millis();
        self.raw_partition.push(RawPartitionRecord { session_id, turn, content, timestamp });
        assert(self.raw_log().drop_last() =~= old(self).raw_log());
    }
}

/// A stored token with one more hit.
pub open spec fn hit(t: StoredToken) -> StoredToken {
    StoredToken { accumulated_hits: (t.accumulated_hits + 1) as u64, ..t }
}


// ───────────────────────────── copies ─────────────────────────────

fn copy_opt_string(o: &Option<String>) -> (r: Option<String>)
    ensures
        r == *o,
{
    match o {
        Some(s) => Some(s.clone()),
        None => None,
    }
}

fn copy_strings(v: &Vec<String>) -> (r: Vec<String>)
    ensures
        r@ == v@,
{
    let mut out: Vec<String> = Vec::new();
    let mut i: usize = 0;
    while i < v.len()
        invariant
            i <= v@.len(),
            out@ == v@.take(i as int),
        decreases v.len() - i,
    {
        out.push(v[i].clone());
        assert(v@.take(i + 1) =~= v@.take(i as int).push(v@[i as int]));
        i = i + 1;
    }
    assert(v@.take(v@.len() as int) =~= v@);
    out
}

fn copy_ranges(v: &Vec<TokenRange>) -> (r: Vec<TokenRange>)
    ensures
        r@ == v@,
{
    let mut out: Vec<TokenRange> = Vec::new();
    let mut i: usize = 0;
    while i < v.len()
        invariant
            i <= v@.len(),
            out@ == v@.take(i as int),
        decreases v.len() - i,
    {
        let r = &v[i];
        out.push(TokenRange {
            namespace: r.namespace.clone(),
            bookmark: r.bookmark.clone(),
            offset: r.offset,
            length: r.length,
        });
        assert(v@.take(i + 1) =~= v@.take(i as int).push(v@[i as int]));
        i = i + 1;
    }
    assert(v@.take(v@.len() as int) =~= v@);
    out
}

/// Everything an endpoint holds, its maps by their views.
pub open spec fn endpoint_view(e: ToolEndpoint) -> (
    (String, String, String, String, Seq<String>, Option<String>, bool),
    (Map<String, String>, Map<String, String>, String),
) {
    match e {
        ToolEndpoint::Mcp { server, remote_name } => (
            (server.id, server.name, server.transport, server.command, server.args@, server.url, server.enabled),
            (server.env@, server.headers@, remote_name),
        ),
    }
}

pub open spec fn opt_endpoint_view(e: Option<ToolEndpoint>) -> Option<(
    (String, String, String, String, Seq<String>, Option<String>, bool),
    (Map<String, String>, Map<String, String>, String),
)> {
    match e {
        Some(x) => Some(endpoint_view(x)),
        None => None,
    }
}

pub(crate) fn copy_one_endpoint(e: &ToolEndpoint) -> (r: ToolEndpoint)
    ensures
        endpoint_view(r) == endpoint_view(*e),
{
    match e {
        ToolEndpoint::Mcp { server, remote_name } => {
            let s = crate::types::McpServerConfig {
                id: server.id.clone(),
                name: server.name.clone(),
                transport: server.transport.clone(),
                command: server.command.clone(),
                args: copy_strings(&server.args),
                url: copy_opt_string(&server.url),
                enabled: server.enabled,
                env: server.env.clone(),
                headers: server.headers.clone(),
            };
            ToolEndpoint::Mcp { server: s, remote_name: remote_name.clone() }
        },
    }
}

pub(crate) fn copy_endpoint(e: &Option<ToolEndpoint>) -> (r: Option<ToolEndpoint>)
    ensures
        opt_endpoint_view(r) == opt_endpoint_view(*e),
{
    match e {
        Some(x) => Some(copy_one_endpoint(x)),
        None => None,
    }
}

fn copy_relationship(r: &Relationship) -> (c: Relationship)
    ensures
        c == *r,
{
    Relationship { subject: r.subject.clone(), predicate: r.predicate.clone(), object: r.object.clone() }
}

fn brief(id: &String, t: &StoredToken) -> (b: TokenBrief)
    ensures
        brief_view(b) == brief_of(id@, *t),
{
    TokenBrief {
        token_id: id.clone(),
        token_type: t.token_type.clone(),
        short_desc: t.short_desc.clone(),
        accumulated_hits: t.accumulated_hits,
    }
}

// ───────────────────────────── relationship queries ─────────────────────────────

pub open spec fn opt_str_view(o: Option<&str>) -> Option<Seq<char>> {
    match o {
        Some(s) => Some(s@),
        None => None,
    }
}

/// `r` passes each filter that is given.
pub open spec fn rel_matches(r: Relationship, s: Option<Seq<char>>, p: Option<Seq<char>>, o: Option<Seq<char>>) -> bool {
    &&& (s is Some ==> r.subject@ == s->0)
    &&& (p is Some ==> r.predicate@ == p->0)
    &&& (o is Some ==> r.object@ == o->0)
}

/// The relationships of `rs` that pass the filters, in log order.
pub open spec fn rels_matching(rs: Seq<Relationship>, s: Option<Seq<char>>, p: Option<Seq<char>>, o: Option<Seq<char>>) -> Seq<Relationship>
    decreases rs.len(),
{
    if rs.len() == 0 {
        Seq::empty()
    } else {
        let prev = rels_matching(rs.drop_last(), s, p, o);
        if rel_matches(rs.last(), s, p, o) { prev.push(rs.last()) } else { prev }
    }
}

fn str_matches(filter: Option<&str>, value: &String) -> (r: bool)
    ensures
        r == (filter is Some ==> value@ == filter->0@),
{
    match filter {
        Some(f) => {
            let fs = lit(f);
            fs == *value
        },
        None => true,
    }
}

pub open spec fn has_parent() -> Seq<char> {
    "HasParent"@
}

pub open spec fn contains_pred() -> Seq<char> {
    "Contains"@
}

/// The subject of the first `HasParent` relationship whose object is `id`.
pub open spec fn parent_of(rs: Seq<Relationship>, id: Seq<char>) -> Option<String> {
    let m = rels_matching(rs, None, Some(has_parent()), Some(id));
    if m.len() == 0 { None } else { Some(m[0].subject) }
}

/// The briefs of the ids of `ids` that name stored tokens, in order.
pub open spec fn briefs_for(m: Map<Seq<char>, StoredToken>, ids: Seq<Seq<char>>) -> Seq<(Seq<char>, Seq<char>, Seq<char>, u64)>
    decreases ids.len(),
{
    if ids.len() == 0 {
        Seq::empty()
    } else {
        let prev = briefs_for(m, ids.drop_last());
        if m.contains_key(ids.last()) { prev.push(brief_of(ids.last(), m[ids.last()])) } else { prev }
    }
}

pub open spec fn objects(rs: Seq<Relationship>) -> Seq<Seq<char>> {
    rs.map_values(|r: Relationship| r.object@)
}

/// Ancestors of `id` through first parents, nearest first, at most `depth`
/// steps; each step moves on whether or not the parent is a stored token.
pub open spec fn ancestor_ids(rs: Seq<Relationship>, id: Seq<char>, depth: nat) -> Seq<Seq<char>>
    decreases depth,
{
    if depth == 0 {
        Seq::empty()
    } else {
        match parent_of(rs, id) {
            None => Seq::empty(),
            Some(p) => seq![p@] + ancestor_ids(rs, p@, (depth - 1) as nat),
        }
    }
}

/// The root reached from `id` by first parents within `n` steps, if any.
pub open spec fn root_within(rs: Seq<Relationship>, id: Seq<char>, n: nat) -> Option<Seq<char>>
    decreases n,
{
    if n == 0 {
        None
    } else {
        match parent_of(rs, id) {
            None => Some(id),
            Some(p) => root_within(rs, p@, (n - 1) as nat),
        }
    }
}

pub proof fn lemma_root_within_stable(rs: Seq<Relationship>, id: Seq<char>, n: nat, m: nat)
    requires
        root_within(rs, id, n) is Some,
        n <= m,
    ensures
        root_within(rs, id, m) == root_within(rs, id, n),
    decreases n,
{
    match parent_of(rs, id) {
        None => {},
        Some(p) => {
            lemma_root_within_stable(rs, p@, (n - 1) as nat, (m - 1) as nat);
        },
    }
}

/// The root of `id`: where the walk through first parents ends.
pub open spec fn root_of(rs: Seq<Relationship>, id: Seq<char>) -> Seq<char> {
    let n = choose|n: nat| root_within(rs, id, n) is Some;
    root_within(rs, id, n)->0
}


// ───────────────────────────── listings ─────────────────────────────

/// How often `k` occurs in `ids`.
pub open spec fn count_of(ids: Seq<Seq<char>>, k: Seq<char>) -> nat
    decreases ids.len(),
{
    if ids.len() == 0 {
        0
    } else {
        count_of(ids.drop_last(), k) + if ids.last() == k { 1nat } else { 0nat }
    }
}

pub proof fn lemma_count_prefix(ids: Seq<Seq<char>>, k: Seq<char>, a: int, b: int)
    requires
        0 <= a <= b <= ids.len(),
    ensures
        count_of(ids.take(a), k) <= count_of(ids.take(b), k),
    decreases b - a,
{
    if a < b {
        lemma_count_prefix(ids, k, a, b - 1);
        assert(ids.take(b).drop_last() =~= ids.take(b - 1));
    }
}

/// The tokens of `m` after each occurrence of an id in `ids` gave that
/// token one more hit.
pub open spec fn bumped(m: Map<Seq<char>, StoredToken>, ids: Seq<Seq<char>>) -> Map<Seq<char>, StoredToken> {
    Map::new(
        |k: Seq<char>| m.contains_key(k),
        |k: Seq<char>| StoredToken { accumulated_hits: (m[k].accumulated_hits + count_of(ids, k)) as u64, ..m[k] },
    )
}

/// The briefs that loading the preserve list `ids` hands out: one per
/// occurrence of a stored id, in list order, each with the hit count the
/// token had just after that occurrence was counted.
pub open spec fn preserved_out(m: Map<Seq<char>, StoredToken>, ids: Seq<Seq<char>>) -> Seq<(Seq<char>, Seq<char>, Seq<char>, u64)>
    decreases ids.len(),
{
    if ids.len() == 0 {
        Seq::empty()
    } else {
        let prev = preserved_out(m, ids.drop_last());
        let k = ids.last();
        if m.contains_key(k) { prev.push(brief_of(k, bumped(m, ids)[k])) } else { prev }
    }
}

/// Token types that an explore request for `resource_type` admits.
pub open spec fn type_matches(resource_type: Seq<char>, t: Seq<char>) -> bool {
    ||| resource_type == "all"@
    ||| t == resource_type
    ||| (resource_type == "memory"@ && (t == "concept"@ || t == "referential"@ || t == "system_referential"@))
    ||| (resource_type == "tool_skill"@ && t == "skill"@)
}

/// A token of `t_session` is visible in `session`: its own or a global one.
pub open spec fn session_visible(t_session: u128, session: u128) -> bool {
    t_session == session || t_session == 0
}

/// The lowercased query is empty, or occurs in the lowercased id or short
/// description.
pub open spec fn query_matches(q: Seq<char>, id: Seq<char>, short_desc: Seq<char>) -> bool {
    q.len() == 0 || crate::text::contains(crate::text::lowercase(id), q) || crate::text::contains(crate::text::lowercase(short_desc), q)
}

/// The direct matches of an explore request over the ids `ids` of `m`, in
/// that order; `q` is the lowercased query.
pub open spec fn direct_matches(m: Map<Seq<char>, StoredToken>, ids: Seq<Seq<char>>, resource_type: Seq<char>, q: Seq<char>, session: u128) -> Seq<(Seq<char>, Seq<char>, Seq<char>, u64)>
    decreases ids.len(),
{
    if ids.len() == 0 {
        Seq::empty()
    } else {
        let prev = direct_matches(m, ids.drop_last(), resource_type, q, session);
        let k = ids.last();
        let t = m[k];
        if type_matches(resource_type, t.token_type@) && session_visible(t.session_id, session) && query_matches(q, k, t.short_desc@) {
            prev.push(brief_of(k, t))
        } else {
            prev
        }
    }
}

/// The briefs of the tokens of type `ty` among `ids`, in that order.
pub open spec fn of_type(m: Map<Seq<char>, StoredToken>, ids: Seq<Seq<char>>, ty: Seq<char>) -> Seq<(Seq<char>, Seq<char>, Seq<char>, u64)>
    decreases ids.len(),
{
    if ids.len() == 0 {
        Seq::empty()
    } else {
        let prev = of_type(m, ids.drop_last(), ty);
        if m[ids.last()].token_type@ == ty { prev.push(brief_of(ids.last(), m[ids.last()])) } else { prev }
    }
}

pub open spec fn opt_brief_view(b: Option<TokenBrief>) -> Option<(Seq<char>, Seq<char>, Seq<char>, u64)> {
    match b {
        Some(x) => Some(brief_view(x)),
        None => None,
    }
}

/// The brief of `id` if it names a stored token.
pub open spec fn brief_if_stored(m: Map<Seq<char>, StoredToken>, id: Seq<char>) -> Option<(Seq<char>, Seq<char>, Seq<char>, u64)> {
    if m.contains_key(id) { Some(brief_of(id, m[id])) } else { None }
}

/// `d` says of a token what `t` holds.
pub open spec fn detail_of(d: TokenDetail, t: StoredToken) -> bool {
    &&& d.short_desc == t.short_desc
    &&& d.full_desc == t.full_desc
    &&& opt_endpoint_view(d.endpoint) == opt_endpoint_view(t.endpoint)
    &&& d.ranges@ == t.ranges@
}


impl InMemorySquireStore {
    /// What the store knows of a token, or `None` for an unknown id.
    pub fn token_detail(&self, token_id: &str) -> (r: Option<TokenDetail>)
        requires
            self.wf(),
        ensures
            r is Some <==> self.token_map().contains_key(token_id@),
            r is Some ==> detail_of(r->0, self.token_map()[token_id@]),
    {
        let key = lit(token_id);
        match find_key(&self.tokens, &key) {
            Some(i) => {
                proof { lemma_as_map_index(self.tokens@, i as int); }
                let t = &self.tokens[i].1;
                Some(TokenDetail {
                    short_desc: t.short_desc.clone(),
                    full_desc: copy_opt_string(&t.full_desc),
                    endpoint: copy_endpoint(&t.endpoint),
                    ranges: copy_ranges(&t.ranges),
                })
            },
            None => {
                proof { lemma_as_map_absent(self.tokens@, key@); }
                None
            },
        }
    }

    /// The hit count of a stored token.
    pub fn hits(&self, token_id: &str) -> (r: Option<u64>)
        requires
            self.wf(),
        ensures
            r == if self.token_map().contains_key(token_id@) { Some(self.token_map()[token_id@].accumulated_hits) } else { None },
    {
        let key = lit(token_id);
        match find_key(&self.tokens, &key) {
            Some(i) => {
                proof { lemma_as_map_index(self.tokens@, i as int); }
                Some(self.tokens[i].1.accumulated_hits)
            },
            None => {
                proof { lemma_as_map_absent(self.tokens@, key@); }
                None
            },
        }
    }

    /// The turn a stored token was created in.
    pub fn creation_turn(&self, token_id: &str) -> (r: Option<u64>)
        requires
            self.wf(),
        ensures
            r == if self.token_map().contains_key(token_id@) { Some(self.token_map()[token_id@].creation_turn) } else { None },
    {
        let key = lit(token_id);
        match find_key(&self.tokens, &key) {
            Some(i) => {
                proof { lemma_as_map_index(self.tokens@, i as int); }
                Some(self.tokens[i].1.creation_turn)
            },
            None => {
                proof { lemma_as_map_absent(self.tokens@, key@); }
                None
            },
        }
    }

    /// The type of a stored token.
    pub fn get_type(&self, token_id: &str) -> (r: Option<String>)
        requires
            self.wf(),
        ensures
            r == if self.token_map().contains_key(token_id@) { Some(self.token_map()[token_id@].token_type) } else { None },
    {
        let key = lit(token_id);
        match find_key(&self.tokens, &key) {
            Some(i) => {
                proof { lemma_as_map_index(self.tokens@, i as int); }
                Some(self.tokens[i].1.token_type.clone())
            },
            None => {
                proof { lemma_as_map_absent(self.tokens@, key@); }
                None
            },
        }
    }

    /// Every stored token id, in the order the tokens were first stored.
    pub fn list_token_ids(&self) -> (r: Vec<String>)
        requires
            self.wf(),
        ensures
            crate::text::sviews(r@) == self.token_ids(),
    {
        let mut out: Vec<String> = Vec::new();
        let mut i: usize = 0;
        while i < self.tokens.len()
            invariant
                i <= self.tokens@.len(),
                crate::text::sviews(out@) == key_views(self.tokens@).take(i as int),
            decreases self.tokens.len() - i,
        {
            let ghost before = out@;
            out.push(self.tokens[i].0.clone());
            assert(key_views(self.tokens@).take(i + 1) =~= key_views(self.tokens@).take(i as int).push(self.tokens@[i as int].0@));
            assert(crate::text::sviews(out@) =~= crate::text::sviews(before).push(self.tokens@[i as int].0@));
            i = i + 1;
        }
        assert(key_views(self.tokens@).take(self.tokens@.len() as int) =~= key_views(self.tokens@));
        out
    }
}


impl InMemorySquireStore {
    /// The logged relationships that pass each filter given, in log order.
    pub fn get_relationships(&self, subject: Option<&str>, predicate: Option<&str>, object: Option<&str>) -> (r: Vec<Relationship>)
        ensures
            r@ == rels_matching(self.relationship_log(), opt_str_view(subject), opt_str_view(predicate), opt_str_view(object)),
    {
        let ghost (s, p, o) = (opt_str_view(subject), opt_str_view(predicate), opt_str_view(object));
        let mut out: Vec<Relationship> = Vec::new();
        let mut i: usize = 0;
        while i < self.relationships.len()
            invariant
                i <= self.relationships@.len(),
                s == opt_str_view(subject),
                p == opt_str_view(predicate),
                o == opt_str_view(object),
                out@ == rels_matching(self.relationships@.take(i as int), s, p, o),
            decreases self.relationships.len() - i,
        {
            let r = &self.relationships[i];
            assert(self.relationships@.take(i + 1).drop_last() =~= self.relationships@.take(i as int));
            if str_matches(subject, &r.subject) && str_matches(predicate, &r.predicate) && str_matches(object, &r.object) {
                out.push(copy_relationship(r));
            }
            i = i + 1;
        }
        assert(self.relationships@.take(self.relationships@.len() as int) =~= self.relationships@);
        out
    }

    /// Log a relationship the way the tree API does: a `Contains` edge is
    /// never logged directly; a `HasParent` edge is logged together with its
    /// mirrored `Contains` edge; any other edge is logged as it is.
    pub fn add_relationship(&mut self, rel: Relationship)
        requires
            old(self).wf(),
        ensures
            final(self).wf(),
            rel.predicate@ == contains_pred() ==> final(self).relationship_log() == old(self).relationship_log(),
            rel.predicate@ != contains_pred() && rel.predicate@ != has_parent()
                ==> final(self).relationship_log() == old(self).relationship_log().push(rel),
            rel.predicate@ == has_parent() ==> {
                &&& final(self).relationship_log().len() == old(self).relationship_log().len() + 2
                &&& final(self).relationship_log().take(old(self).relationship_log().len() + 1int) == old(self).relationship_log().push(rel)
                &&& final(self).relationship_log().last().subject == rel.object
                &&& final(self).relationship_log().last().predicate@ == contains_pred()
                &&& final(self).relationship_log().last().object == rel.subject
            },
            final(self).token_map() == old(self).token_map(),
            final(self).token_ids() == old(self).token_ids(),
            final(self).preserve_map() == old(self).preserve_map(),
            final(self).turn_map() == old(self).turn_map(),
            final(self).failure_log() == old(self).failure_log(),
            final(self).raw_log() == old(self).raw_log(),
    {
        let contains = lit("Contains");
        let parent = lit("HasParent");
        proof {
            reveal_strlit("Contains");
            reveal_strlit("HasParent");
            assert(contains_pred()[0] != has_parent()[0]);
        }
        if rel.predicate == contains {
            return;
        }
        let is_parent = rel.predicate == parent;
        let mirror = Relationship { subject: rel.object.clone(), predicate: contains, object: rel.subject.clone() };
        let ghost r0 = rel;
        self.relationships.push(rel);
        if is_parent {
            self.relationships.push(mirror);
            assert(self.relationships@.take(old(self).relationships@.len() + 1int) =~= old(self).relationships@.push(r0));
        }
    }

    /// Briefs of every token of type `token_type`, in store order.
    pub fn get_instances(&self, token_type: &str) -> (r: Vec<TokenBrief>)
        requires
            self.wf(),
        ensures
            brief_views(r@) == of_type(self.token_map(), self.token_ids(), token_type@),
    {
        let ty = lit(token_type);
        let ghost ids = key_views(self.tokens@);
        let mut out: Vec<TokenBrief> = Vec::new();
        let mut i: usize = 0;
        while i < self.tokens.len()
            invariant
                i <= self.tokens@.len(),
                keys_unique(self.tokens@),
                ids == key_views(self.tokens@),
                ty@ == token_type@,
                brief_views(out@) == of_type(as_map(self.tokens@), ids.take(i as int), ty@),
            decreases self.tokens.len() - i,
        {
            proof { lemma_as_map_index(self.tokens@, i as int); }
            let ghost before = out@;
            assert(ids.take(i + 1).drop_last() =~= ids.take(i as int));
            assert(ids.take(i + 1).last() == self.tokens@[i as int].0@);
            let e = &self.tokens[i];
            if e.1.token_type == ty {
                out.push(brief(&e.0, &e.1));
                assert(brief_views(out@) =~= brief_views(before).push(brief_view(out@.last())));
            }
            i = i + 1;
        }
        assert(ids.take(self.tokens@.len() as int) =~= ids);
        out
    }

    /// The direct matches of an explore request: tokens whose type the
    /// resource type admits, visible in `session_id`, whose id or short
    /// description holds the query (both lowercased), in store order.
    pub fn explore_direct(&self, resource_type: &str, query: &str, session_id: u128) -> (r: Vec<TokenBrief>)
        requires
            self.wf(),
        ensures
            brief_views(r@) == direct_matches(self.token_map(), self.token_ids(), resource_type@, crate::text::lowercase(query@), session_id),
    {
        let q = crate::text::chars_of(crate::text::to_lowercase(query).as_str());
        let rt = resource_type;
        let ghost ids = key_views(self.tokens@);
        let ghost ql = crate::text::lowercase(query@);
        let mut out: Vec<TokenBrief> = Vec::new();
        let mut i: usize = 0;
        while i < self.tokens.len()
            invariant
                i <= self.tokens@.len(),
                keys_unique(self.tokens@),
                ids == key_views(self.tokens@),
                q@ == ql,
                brief_views(out@) == direct_matches(as_map(self.tokens@), ids.take(i as int), rt@, ql, session_id),
            decreases self.tokens.len() - i,
        {
            proof { lemma_as_map_index(self.tokens@, i as int); }
            let ghost before = out@;
            assert(ids.take(i + 1).drop_last() =~= ids.take(i as int));
            assert(ids.take(i + 1).last() == self.tokens@[i as int].0@);
            let e = &self.tokens[i];
            let keep = explore_type_matches(rt, &e.1.token_type)
                && (e.1.session_id == session_id || e.1.session_id == 0)
                && explore_query_matches(&q, &e.0, &e.1.short_desc);
            if keep {
                out.push(brief(&e.0, &e.1));
                assert(brief_views(out@) =~= brief_views(before).push(brief_view(out@.last())));
            }
            i = i + 1;
        }
        assert(ids.take(self.tokens@.len() as int) =~= ids);
        out
    }
}

/// Whether an explore request for `resource_type` admits tokens of type `t`.
pub fn explore_type_matches(resource_type: &str, t: &String) -> (r: bool)
    ensures
        r == type_matches(resource_type@, t@),
{
    let rt = lit(resource_type);
    let all = lit("all");
    let memory = lit("memory");
    let tool_skill = lit("tool_skill");
    let concept = lit("concept");
    let referential = lit("referential");
    let system_referential = lit("system_referential");
    let skill = lit("skill");
    rt == all || *t == rt || (rt == memory && (*t == concept || *t == referential || *t == system_referential)) || (rt == tool_skill && *t == skill)
}

fn explore_query_matches(q: &Vec<char>, id: &String, short_desc: &String) -> (r: bool)
    ensures
        r == query_matches(q@, id@, short_desc@),
{
    if q.len() == 0 {
        return true;
    }
    let idl = crate::text::chars_of(crate::text::to_lowercase(id.as_str()).as_str());
    if crate::text::contains_exec(&idl, q) {
        return true;
    }
    let sl = crate::text::chars_of(crate::text::to_lowercase(short_desc.as_str()).as_str());
    crate::text::contains_exec(&sl, q)
}


/// The last node that the walk recorded in `anc` reached, `id` if none.
pub open spec fn walk_node(id: Seq<char>, anc: Seq<Seq<char>>) -> Seq<char> {
    if anc.len() == 0 { id } else { anc.last() }
}

pub proof fn lemma_ancestors_split(rs: Seq<Relationship>, id: Seq<char>, d: nat, e: nat)
    ensures
        ancestor_ids(rs, id, d + e) == ancestor_ids(rs, id, d) + if ancestor_ids(rs, id, d).len() == d {
            ancestor_ids(rs, walk_node(id, ancestor_ids(rs, id, d)), e)
        } else {
            Seq::<Seq<char>>::empty()
        },
    decreases d,
{
    if d == 0 {
        assert(ancestor_ids(rs, id, 0) =~= Seq::<Seq<char>>::empty());
        assert(ancestor_ids(rs, id, d + e) =~= Seq::<Seq<char>>::empty() + ancestor_ids(rs, id, e));
    } else {
        match parent_of(rs, id) {
            None => {
                assert(ancestor_ids(rs, id, d) =~= Seq::<Seq<char>>::empty());
                assert(ancestor_ids(rs, id, d + e) =~= Seq::<Seq<char>>::empty());
            },
            Some(p) => {
                lemma_ancestors_split(rs, p@, (d - 1) as nat, e);
                let a = ancestor_ids(rs, p@, (d - 1) as nat);
                assert(((d + e) - 1) as nat == ((d - 1) as nat + e) as nat);
                assert(ancestor_ids(rs, id, d) == seq![p@] + a);
                assert(walk_node(id, seq![p@] + a) == walk_node(p@, a));
                let x = if a.len() == d - 1 { ancestor_ids(rs, walk_node(p@, a), e) } else { Seq::<Seq<char>>::empty() };
                assert(seq![p@] + (a + x) =~= (seq![p@] + a) + x);
            },
        }
    }
}

impl InMemorySquireStore {
    /// The preserve list of a session by views; empty when it has none.
    pub open spec fn preserve_ids(&self, session_id: u128) -> Seq<Seq<char>> {
        if self.preserve_map().contains_key(session_id) {
            crate::text::sviews(self.preserve_map()[session_id]@)
        } else {
            Seq::empty()
        }
    }

    /// Load a session's preserve list: each listed id that names a stored
    /// token gives it one more hit and hands out its brief, in list order.
    pub fn preserved_tokens(&mut self, session_id: u128) -> (r: Vec<TokenBrief>)
        requires
            old(self).wf(),
            forall|k: Seq<char>| old(self).token_map().contains_key(k)
                ==> old(self).token_map()[k].accumulated_hits + count_of(old(self).preserve_ids(session_id), k) <= u64::MAX,
        ensures
            final(self).wf(),
            final(self).token_map() == bumped(old(self).token_map(), old(self).preserve_ids(session_id)),
            brief_views(r@) == preserved_out(old(self).token_map(), old(self).preserve_ids(session_id)),
            final(self).token_ids() == old(self).token_ids(),
            final(self).relationship_log() == old(self).relationship_log(),
            final(self).preserve_map() == old(self).preserve_map(),
            final(self).turn_map() == old(self).turn_map(),
            final(self).failure_log() == old(self).failure_log(),
            final(self).raw_log() == old(self).raw_log(),
    {
        let ids: Vec<String> = match find_session(&self.preserve_lists, session_id) {
            Some(i) => {
                proof { lemma_as_map_index(self.preserve_lists@, i as int); }
                copy_strings(&self.preserve_lists[i].1)
            },
            None => {
                proof { lemma_as_map_absent(self.preserve_lists@, session_id); }
                Vec::new()
            },
        };
        let ghost idv = crate::text::sviews(ids@);
        assert(idv =~= old(self).preserve_ids(session_id));
        let ghost m0 = as_map(self.tokens@);
        let ghost k0 = key_views(self.tokens@);
        let ghost others = (self.relationships@, self.preserve_lists@, self.turns@, self.compliance_failures@, self.raw_partition@);
        assert(bumped(m0, idv.take(0)) =~= m0) by {
            assert(idv.take(0) =~= Seq::<Seq<char>>::empty());
        }
        let mut out: Vec<TokenBrief> = Vec::new();
        let mut j: usize = 0;
        while j < ids.len()
            invariant
                j <= ids@.len(),
                idv == crate::text::sviews(ids@),
                keys_unique(self.tokens@),
                key_views(self.tokens@) == k0,
                as_map(self.tokens@) == bumped(m0, idv.take(j as int)),
                brief_views(out@) == preserved_out(m0, idv.take(j as int)),
                forall|k: Seq<char>| m0.contains_key(k) ==> m0[k].accumulated_hits + count_of(idv, k) <= u64::MAX,
                others == (self.relationships@, self.preserve_lists@, self.turns@, self.compliance_failures@, self.raw_partition@),
            decreases ids.len() - j,
        {
            let ghost pre = idv.take(j as int);
            let ghost post = idv.take(j + 1);
            let ghost key = idv[j as int];
            assert(post.drop_last() =~= pre);
            assert(post.last() == key);
            assert forall|k: Seq<char>| count_of(post, k) == count_of(pre, k) + if k == key { 1nat } else { 0nat } by {}
            let ghost before = out@;
            let ghost s0 = self.tokens@;
            match find_key(&self.tokens, &ids[j]) {
                Some(i) => {
                    proof {
                        lemma_as_map_index(s0, i as int);
                        lemma_count_prefix(idv, key, j + 1, idv.len() as int);
                        assert(idv.take(idv.len() as int) =~= idv);
                        assert(m0.contains_key(key));
                    }
                    let entry = &mut self.tokens[i].1;
                    entry.accumulated_hits = entry.accumulated_hits + 1;
                    proof {
                        let v = hit(s0[i as int].1);
                        assert(self.tokens@ == s0.update(i as int, (s0[i as int].0, v)));
                        lemma_as_map_update(s0, i as int, v);
                        assert(key_views(self.tokens@) =~= key_views(s0));
                        assert(as_map(self.tokens@) =~= bumped(m0, post));
                    }
                    out.push(brief(&ids[j], &self.tokens[i].1));
                    proof {
                        lemma_as_map_index(self.tokens@, i as int);
                        assert(brief_views(out@) =~= brief_views(before).push(brief_of(key, bumped(m0, post)[key])));
                    }
                },
                None => {
                    proof {
                        lemma_as_map_absent(s0, key);
                        assert(!m0.contains_key(key));
                        assert(as_map(self.tokens@) =~= bumped(m0, post));
                    }
                },
            }
            j = j + 1;
        }
        assert(idv.take(ids@.len() as int) =~= idv);
        out
    }

    /// Briefs of the stored children of a token: the objects of its
    /// `HasParent` relationships, in log order.
    pub fn get_children(&self, token_id: &str) -> (r: Vec<TokenBrief>)
        requires
            self.wf(),
        ensures
            brief_views(r@) == briefs_for(self.token_map(), objects(rels_matching(self.relationship_log(), Some(token_id@), Some(has_parent()), None))),
    {
        let rels = self.get_relationships(Some(token_id), Some("HasParent"), None);
        let ghost obs = objects(rels@);
        let mut out: Vec<TokenBrief> = Vec::new();
        let mut i: usize = 0;
        while i < rels.len()
            invariant
                i <= rels@.len(),
                keys_unique(self.tokens@),
                obs == objects(rels@),
                brief_views(out@) == briefs_for(as_map(self.tokens@), obs.take(i as int)),
            decreases rels.len() - i,
        {
            let ghost before = out@;
            assert(obs.take(i + 1).drop_last() =~= obs.take(i as int));
            assert(obs.take(i + 1).last() == rels@[i as int].object@);
            match find_key(&self.tokens, &rels[i].object) {
                Some(k) => {
                    proof { lemma_as_map_index(self.tokens@, k as int); }
                    out.push(brief(&rels[i].object, &self.tokens[k].1));
                    assert(brief_views(out@) =~= brief_views(before).push(brief_view(out@.last())));
                },
                None => {
                    proof { lemma_as_map_absent(self.tokens@, rels@[i as int].object@); }
                },
            }
            i = i + 1;
        }
        assert(obs.take(rels@.len() as int) =~= obs);
        out
    }

    /// Brief of the parent of a token: the subject of its first `HasParent`
    /// relationship, if that names a stored token.
    pub fn get_parent(&self, token_id: &str) -> (r: Option<TokenBrief>)
        requires
            self.wf(),
        ensures
            opt_brief_view(r) == match parent_of(self.relationship_log(), token_id@) {
                None => None,
                Some(p) => brief_if_stored(self.token_map(), p@),
            },
    {
        let rels = self.get_relationships(None, Some("HasParent"), Some(token_id));
        if rels.len() == 0 {
            return None;
        }
        let p = &rels[0].subject;
        match find_key(&self.tokens, p) {
            Some(i) => {
                proof { lemma_as_map_index(self.tokens@, i as int); }
                Some(brief(p, &self.tokens[i].1))
            },
            None => {
                proof { lemma_as_map_absent(self.tokens@, p@); }
                None
            },
        }
    }

    /// Briefs of the stored ancestors of a token, nearest first, following
    /// first parents for at most `max_depth` steps.
    pub fn get_ancestors(&self, token_id: &str, max_depth: u32) -> (r: Vec<TokenBrief>)
        requires
            self.wf(),
        ensures
            brief_views(r@) == briefs_for(self.token_map(), ancestor_ids(self.relationship_log(), token_id@, max_depth as nat)),
    {
        let ghost rs = self.relationships@;
        let ghost id = token_id@;
        let mut cur = lit(token_id);
        let mut out: Vec<TokenBrief> = Vec::new();
        let mut d: u32 = 0;
        let mut walking = true;
        let ghost mut anc: Seq<Seq<char>> = Seq::empty();
        assert(anc =~= ancestor_ids(rs, id, 0));
        while d < max_depth && walking
            invariant
                d <= max_depth,
                rs == self.relationships@,
                keys_unique(self.tokens@),
                anc == ancestor_ids(rs, id, d as nat),
                walking ==> anc.len() == d && cur@ == walk_node(id, anc),
                !walking ==> anc.len() != d,
                brief_views(out@) == briefs_for(as_map(self.tokens@), anc),
            decreases max_depth - d,
        {
            let rels = self.get_relationships(None, Some("HasParent"), Some(cur.as_str()));
            proof {
                lemma_ancestors_split(rs, id, d as nat, 1);
                assert(ancestor_ids(rs, cur@, 0) =~= Seq::<Seq<char>>::empty());
            }
            if rels.len() == 0 {
                walking = false;
                proof {
                    assert(ancestor_ids(rs, id, (d + 1) as nat) =~= anc);
                }
            } else {
                cur = rels[0].subject.clone();
                let ghost before = out@;
                proof {
                    assert(seq![cur@] + ancestor_ids(rs, cur@, 0) =~= seq![cur@]);
                    assert(ancestor_ids(rs, id, (d + 1) as nat) =~= anc.push(cur@));
                    assert(anc.push(cur@).drop_last() =~= anc);
                }
                match find_key(&self.tokens, &cur) {
                    Some(k) => {
                        proof { lemma_as_map_index(self.tokens@, k as int); }
                        out.push(brief(&cur, &self.tokens[k].1));
                        assert(brief_views(out@) =~= brief_views(before).push(brief_view(out@.last())));
                    },
                    None => {
                        proof { lemma_as_map_absent(self.tokens@, cur@); }
                    },
                }
            }
            d = d + 1;
            proof { anc = ancestor_ids(rs, id, d as nat); }
        }
        proof {
            if !walking {
                lemma_ancestors_split(rs, id, d as nat, (max_depth - d) as nat);
            }
        }
        out
    }

    /// Brief of the root of a token: where following first parents ends,
    /// if that names a stored token. The walk must end.
    pub fn get_root(&self, token_id: &str) -> (r: Option<TokenBrief>)
        requires
            self.wf(),
            exists|n: nat| root_within(self.relationship_log(), token_id@, n) is Some,
        ensures
            opt_brief_view(r) == brief_if_stored(self.token_map(), root_of(self.relationship_log(), token_id@)),
    {
        let ghost rs = self.relationships@;
        let ghost n0 = choose|n: nat| root_within(rs, token_id@, n) is Some;
        let ghost root = root_of(rs, token_id@);
        let mut cur = lit(token_id);
        let ghost mut k: nat = n0;
        let mut done = false;
        while !done
            invariant
                rs == self.relationships@,
                !done ==> root_within(rs, cur@, k) is Some && root_within(rs, cur@, k)->0 == root,
                done ==> cur@ == root,
            decreases k + if done { 0nat } else { 1nat },
        {
            let rels = self.get_relationships(None, Some("HasParent"), Some(cur.as_str()));
            if rels.len() == 0 {
                done = true;
            } else {
                cur = rels[0].subject.clone();
                proof { k = (k - 1) as nat; }
            }
        }
        match find_key(&self.tokens, &cur) {
            Some(i) => {
                proof { lemma_as_map_index(self.tokens@, i as int); }
                Some(brief(&cur, &self.tokens[i].1))
            },
            None => {
                proof { lemma_as_map_absent(self.tokens@, cur@); }
                None
            },
        }
    }
}


// ───────────────────────────── laws ─────────────────────────────

/// Reading a token back after an upsert gives what was written: the new
/// short description; the new full description and endpoint where they were
/// given, the earlier ones where they were not; one hit more than before (one
/// for a new token). Other tokens are untouched.
pub proof fn law_read_after_upsert(m: Map<Seq<char>, StoredToken>, t: NewTokenSpec, turn: u64, session: u128, other: Seq<char>)
    requires
        m.contains_key(t.id@) ==> m[t.id@].accumulated_hits < u64::MAX,
    ensures
        ({
            let old_t = if m.contains_key(t.id@) { Some(m[t.id@]) } else { None };
            let m2 = m.insert(t.id@, upserted(old_t, t, turn, session));
            &&& m2.contains_key(t.id@)
            &&& m2[t.id@].short_desc == t.short_desc
            &&& (t.full_desc is Some || !m.contains_key(t.id@) ==> m2[t.id@].full_desc == t.full_desc)
            &&& (t.full_desc is None && m.contains_key(t.id@) ==> m2[t.id@].full_desc == m[t.id@].full_desc)
            &&& (t.endpoint is Some || !m.contains_key(t.id@) ==> m2[t.id@].endpoint == t.endpoint)
            &&& (t.endpoint is None && m.contains_key(t.id@) ==> m2[t.id@].endpoint == m[t.id@].endpoint)
            &&& m2[t.id@].accumulated_hits == if m.contains_key(t.id@) { m[t.id@].accumulated_hits + 1 } else { 1 }
            &&& (other != t.id@ ==> m2.contains_key(other) == m.contains_key(other) && (m.contains_key(other) ==> m2[other] == m[other]))
        }),
{
}

/// Hit counts only grow: an upsert, a recorded hit and loading a preserve
/// list each leave every stored token with at least the hits it had.
pub proof fn law_hits_never_decrease(m: Map<Seq<char>, StoredToken>, t: NewTokenSpec, turn: u64, session: u128, ids: Seq<Seq<char>>, k: Seq<char>)
    requires
        m.contains_key(k),
        m.contains_key(t.id@) ==> m[t.id@].accumulated_hits < u64::MAX,
        m[k].accumulated_hits < u64::MAX,
        m[k].accumulated_hits + count_of(ids, k) <= u64::MAX,
    ensures
        ({
            let old_t = if m.contains_key(t.id@) { Some(m[t.id@]) } else { None };
            m.insert(t.id@, upserted(old_t, t, turn, session))[k].accumulated_hits >= m[k].accumulated_hits
        }),
        m.insert(k, hit(m[k]))[k].accumulated_hits > m[k].accumulated_hits,
        bumped(m, ids)[k].accumulated_hits >= m[k].accumulated_hits,
{
}

/// Advancing a session's turn moves its current turn on by exactly one and
/// leaves every other session's turn as it was.
pub proof fn law_increment_advances_one_session(before: InMemorySquireStore, after: InMemorySquireStore, s: u128, other: u128)
    requires
        after.turn_map() == before.turn_map().insert(s, (before.turn_of(s) + 1) as u64),
        before.turn_of(s) < u64::MAX,
    ensures
        after.turn_of(s) == before.turn_of(s) + 1,
        other != s ==> after.turn_of(other) == before.turn_of(other),
{
}

/// A preserve list reads back as it was set, and setting it touches no other
/// session; after clearing, no session has one.
pub proof fn law_preserve_list_roundtrip(before: InMemorySquireStore, after: InMemorySquireStore, cleared: InMemorySquireStore, s: u128, list: Vec<String>, other: u128)
    requires
        after.preserve_map() == before.preserve_map().insert(s, list),
        cleared.preserve_map() == Map::<u128, Vec<String>>::empty(),
    ensures
        after.preserve_ids(s) == crate::text::sviews(list@),
        other != s ==> after.preserve_ids(other) == before.preserve_ids(other),
        cleared.preserve_ids(other) == Seq::<Seq<char>>::empty(),
        preserved_out(cleared.token_map(), cleared.preserve_ids(other)) == Seq::<(Seq<char>, Seq<char>, Seq<char>, u64)>::empty(),
{
}

/// Loading a preserve list hands out the listed ids that name stored
/// tokens, in list order and with repeats, and each such token's hit count
/// grows by the number of times it is listed.
pub proof fn law_preserve_load_lists_stored_ids(m: Map<Seq<char>, StoredToken>, ids: Seq<Seq<char>>, k: Seq<char>)
    requires
        m.contains_key(k),
        m[k].accumulated_hits + count_of(ids, k) <= u64::MAX,
    ensures
        preserved_out(m, ids).map_values(|b: (Seq<char>, Seq<char>, Seq<char>, u64)| b.0)
            == ids.filter(|x: Seq<char>| m.contains_key(x)),
        bumped(m, ids)[k].accumulated_hits == m[k].accumulated_hits + count_of(ids, k),
    decreases ids.len(),
{
    reveal(Seq::filter);
    if ids.len() > 0 {
        law_preserve_load_lists_stored_ids(m, ids.drop_last(), k);
        let f = |b: (Seq<char>, Seq<char>, Seq<char>, u64)| b.0;
        let prev = preserved_out(m, ids.drop_last());
        if m.contains_key(ids.last()) {
            assert(preserved_out(m, ids).map_values(f) =~= prev.map_values(f).push(ids.last()));
        } else {
            assert(preserved_out(m, ids).map_values(f) =~= prev.map_values(f));
        }
    } else {
        assert(preserved_out(m, ids).map_values(|b: (Seq<char>, Seq<char>, Seq<char>, u64)| b.0) =~= Seq::<Seq<char>>::empty());
    }
}

/// A child linked with `HasParent` is listed last among its parent's
/// children; its parent is the new one unless it already had one (the first
/// link wins); the mirrored `Contains` edge adds no child.
pub proof fn law_child_link(rs: Seq<Relationship>, rel: Relationship, mirror: Relationship)
    requires
        rel.predicate@ == has_parent(),
        mirror.predicate@ == contains_pred(),
    ensures
        objects(rels_matching(rs.push(rel).push(mirror), Some(rel.subject@), Some(has_parent()), None))
            == objects(rels_matching(rs, Some(rel.subject@), Some(has_parent()), None)).push(rel.object@),
        parent_of(rs.push(rel).push(mirror), rel.object@) == if parent_of(rs, rel.object@) is Some {
            parent_of(rs, rel.object@)
        } else {
            Some(rel.subject)
        },
{
    reveal_strlit("Contains");
    reveal_strlit("HasParent");
    assert(contains_pred()[0] != has_parent()[0]);
    let r2 = rs.push(rel).push(mirror);
    let r1 = rs.push(rel);
    assert(r2.drop_last() =~= r1);
    assert(r2.last() == mirror);
    assert(r1.drop_last() =~= rs);
    assert(r1.last() == rel);
    assert(mirror.predicate@ != has_parent());
    let sp = Some(rel.subject@);
    let hp = Some(has_parent());
    let oc = Some(rel.object@);
    assert(!rel_matches(mirror, sp, hp, None));
    assert(rel_matches(rel, sp, hp, None));
    assert(rels_matching(r2, sp, hp, None) == rels_matching(r1, sp, hp, None));
    assert(rels_matching(r1, sp, hp, None) == rels_matching(rs, sp, hp, None).push(rel));
    let a = rels_matching(rs, sp, hp, None);
    assert(objects(a.push(rel)) =~= objects(a).push(rel.object@));
    assert(!rel_matches(mirror, None, hp, oc));
    assert(rel_matches(rel, None, hp, oc));
    assert(rels_matching(r2, None, hp, oc) == rels_matching(r1, None, hp, oc));
    assert(rels_matching(r1, None, hp, oc) == rels_matching(rs, None, hp, oc).push(rel));
    let b = rels_matching(rs, None, hp, oc);
    if b.len() > 0 {
        assert(b.push(rel)[0] == b[0]);
    } else {
        assert(b.push(rel)[0] == rel);
    }
}


// ───────────────────────────── role index ─────────────────────────────

/// Resource types that name a graph-assigned role.
pub open spec fn is_role_type(resource_type: Seq<char>) -> bool {
    resource_type == "tool"@ || resource_type == "skill"@ || resource_type == "workflow"@
        || resource_type == "tool_skill"@
}

/// An edge with predicate `pred` assigns its subject a role that a request
/// for `resource_type` asks for: `IS_A_TOOL` for tools, `IS_A_SKILL` for
/// skills, `IS_A_WORKFLOW` for workflows, either of the first two for
/// `tool_skill`.
pub open spec fn role_matches(resource_type: Seq<char>, pred: Seq<char>) -> bool {
    ||| (resource_type == "tool"@ && pred == "IS_A_TOOL"@)
    ||| (resource_type == "skill"@ && pred == "IS_A_SKILL"@)
    ||| (resource_type == "workflow"@ && pred == "IS_A_WORKFLOW"@)
    ||| (resource_type == "tool_skill"@ && (pred == "IS_A_TOOL"@ || pred == "IS_A_SKILL"@))
}

/// The ids that relationships `rels` give a role asked for by `resource_type`.
pub open spec fn role_ids(resource_type: Seq<char>, rels: Seq<Relationship>) -> Set<Seq<char>> {
    Set::new(
        |id: Seq<char>|
            exists|k: int|
                0 <= k < rels.len() && (#[trigger] rels[k]).subject@ == id && role_matches(
                    resource_type,
                    rels[k].predicate@,
                ),
    )
}

/// The role index of an explore request: for a role-named resource type
/// (`tool`, `skill`, `workflow`, `tool_skill`), the subjects of the
/// relationships that assign such a role, each once (the ids are a set;
/// their order is not part of the result); for any other resource type,
/// `None`.
pub fn role_token_ids(resource_type: &str, rels: &Vec<Relationship>) -> (r: Option<Vec<String>>)
    ensures
        r is Some <==> is_role_type(resource_type@),
        r matches Some(v) ==> {
            &&& crate::text::sviews(v@).to_set() == role_ids(resource_type@, rels@)
            &&& forall|i: int, j: int| 0 <= i < j < v@.len() ==> v@[i]@ != v@[j]@
        },
{
    let rt = lit(resource_type);
    if !(rt == lit("tool") || rt == lit("skill") || rt == lit("workflow") || rt == lit("tool_skill")) {
        return None;
    }
    let is_tool = lit("IS_A_TOOL");
    let is_skill = lit("IS_A_SKILL");
    let is_workflow = lit("IS_A_WORKFLOW");
    let mut out: Vec<String> = Vec::new();
    let mut k: usize = 0;
    while k < rels.len()
        invariant
            k <= rels@.len(),
            rt@ == resource_type@,
            is_tool@ == "IS_A_TOOL"@,
            is_skill@ == "IS_A_SKILL"@,
            is_workflow@ == "IS_A_WORKFLOW"@,
            crate::text::sviews(out@).to_set() == role_ids(resource_type@, rels@.take(k as int)),
            forall|i: int, j: int| 0 <= i < j < out@.len() ==> out@[i]@ != out@[j]@,
        decreases rels.len() - k,
    {
        let p = &rels[k].predicate;
        let hit = (rt == lit("tool") && *p == is_tool) || (rt == lit("skill") && *p == is_skill)
            || (rt == lit("workflow") && *p == is_workflow) || (rt == lit("tool_skill") && (*p
            == is_tool || *p == is_skill));
        let ghost before = out@;
        let ghost pre = rels@.take(k as int);
        let ghost now = rels@.take(k + 1);
        assert(now =~= pre.push(rels@[k as int]));
        let s = &rels[k].subject;
        let mut seen = false;
        let mut j: usize = 0;
        while j < out.len()
            invariant
                j <= out@.len(),
                seen <==> exists|m: int| 0 <= m < j && out@[m]@ == s@,
            decreases out.len() - j,
        {
            if out[j] == *s {
                seen = true;
            }
            j = j + 1;
        }
        if hit && !seen {
            out.push(s.clone());
        }
        proof {
            assert(hit == role_matches(resource_type@, rels@[k as int].predicate@));
            assert forall|id: Seq<char>| #[trigger] role_ids(resource_type@, now).contains(id)
                == (role_ids(resource_type@, pre).contains(id) || (hit && id == s@)) by {
                if role_ids(resource_type@, now).contains(id) {
                    let w = choose|w: int|
                        0 <= w < now.len() && (#[trigger] now[w]).subject@ == id && role_matches(
                            resource_type@,
                            now[w].predicate@,
                        );
                    if w < k {
                        assert(pre[w] == now[w]);
                    }
                }
                if role_ids(resource_type@, pre).contains(id) {
                    let w = choose|w: int|
                        0 <= w < pre.len() && (#[trigger] pre[w]).subject@ == id && role_matches(
                            resource_type@,
                            pre[w].predicate@,
                        );
                    assert(now[w] == pre[w]);
                }
                if hit && id == s@ {
                    assert(now[k as int] == rels@[k as int]);
                }
            }
            let sb = crate::text::sviews(before);
            let so = crate::text::sviews(out@);
            if hit && !seen {
                assert(so =~= sb.push(s@));
            } else {
                assert(so =~= sb);
            }
            assert forall|id: Seq<char>| #[trigger] so.contains(id) == role_ids(
                resource_type@,
                now,
            ).contains(id) by {
                assert(sb.to_set().contains(id) == sb.contains(id));
                if so.contains(id) {
                    let m = choose|m: int| 0 <= m < so.len() && so[m] == id;
                    if m < sb.len() {
                        assert(sb[m] == id);
                    }
                }
                if sb.contains(id) {
                    let m = choose|m: int| 0 <= m < sb.len() && sb[m] == id;
                    assert(so[m] == id);
                }
                if hit && seen && id == s@ {
                    let m = choose|m: int| 0 <= m < before.len() && before[m]@ == s@;
                    assert(sb[m] == s@);
                }
                if hit && !seen && id == s@ {
                    assert(so[sb.len() as int] == s@);
                }
            }
            assert(so.to_set() =~= role_ids(resource_type@, now));
            if hit && !seen {
                assert forall|i: int, j: int| 0 <= i < j < out@.len() implies out@[i]@ != out@[j]@ by {
                    if j == before.len() {
                        assert(out@[i] == before[i]);
                    }
                }
            }
        }
        k = k + 1;
    }
    assert(rels@.take(rels@.len() as int) =~= rels@);
    Some(out)
}


// ───────────────────────────── tokens reached over relationships ─────────────────────────────

/// A token an explore request reached over relationships: its brief, its
/// distance in hops and the index of the direct match it was reached from.
#[derive(Debug, Clone)]
pub struct HopHit {
    pub brief: TokenBrief,
    pub hop_distance: u32,
    pub origin: usize,
}

pub open spec fn hop_hit_view(h: HopHit) -> ((Seq<char>, Seq<char>, Seq<char>, u64), nat, nat) {
    (brief_view(h.brief), h.hop_distance as nat, h.origin as nat)
}

pub open spec fn hop_hit_views(v: Seq<HopHit>) -> Seq<((Seq<char>, Seq<char>, Seq<char>, u64), nat, nat)> {
    v.map_values(|h: HopHit| hop_hit_view(h))
}

/// The tokens found over relationships that an explore request keeps: those
/// stored, whose type the resource type admits and that are visible in the
/// session, in the order found, each with its brief.
pub open spec fn hop_hits(
    m: Map<Seq<char>, StoredToken>,
    found: Seq<crate::traverse::Found>,
    resource_type: Seq<char>,
    session: u128,
) -> Seq<((Seq<char>, Seq<char>, Seq<char>, u64), nat, nat)>
    decreases found.len(),
{
    if found.len() == 0 {
        Seq::empty()
    } else {
        let prev = hop_hits(m, found.drop_last(), resource_type, session);
        let f = found.last();
        if m.contains_key(f.0) && type_matches(resource_type, m[f.0].token_type@) && session_visible(
            m[f.0].session_id,
            session,
        ) {
            prev.push((brief_of(f.0, m[f.0]), f.1, f.2))
        } else {
            prev
        }
    }
}

impl InMemorySquireStore {
    /// Of the tokens `found` over relationships for an explore request,
    /// those it keeps (see `hop_hits`), in the order found.
    pub fn explore_hops(&self, resource_type: &str, found: &Vec<crate::traverse::Discovered>, session_id: u128) -> (r:
        Vec<HopHit>)
        requires
            self.wf(),
        ensures
            hop_hit_views(r@) == hop_hits(
                self.token_map(),
                crate::traverse::discovered_view(found@),
                resource_type@,
                session_id,
            ),
    {
        let ghost fs = crate::traverse::discovered_view(found@);
        let mut out: Vec<HopHit> = Vec::new();
        let mut i: usize = 0;
        while i < found.len()
            invariant
                i <= found@.len(),
                self.wf(),
                fs == crate::traverse::discovered_view(found@),
                hop_hit_views(out@) == hop_hits(self.token_map(), fs.take(i as int), resource_type@, session_id),
            decreases found.len() - i,
        {
            assert(fs.take(i + 1).drop_last() =~= fs.take(i as int));
            assert(fs.take(i + 1).last() == fs[i as int]);
            let f = &found[i];
            let key = lit(f.token_id.as_str());
            match find_key(&self.tokens, &key) {
                Some(k) => {
                    proof { lemma_as_map_index(self.tokens@, k as int); }
                    let e = &self.tokens[k];
                    if explore_type_matches(resource_type, &e.1.token_type) && (e.1.session_id == session_id
                        || e.1.session_id == 0) {
                        let ghost before = out@;
                        out.push(HopHit { brief: brief(&key, &e.1), hop_distance: f.hop_distance, origin: f.origin });
                        assert(hop_hit_views(out@) =~= hop_hit_views(before).push(hop_hit_view(out@.last())));
                    }
                },
                None => {
                    proof { lemma_as_map_absent(self.tokens@, key@); }
                },
            }
            i = i + 1;
        }
        assert(fs.take(fs.len() as int) =~= fs);
        out
    }
}

} // verus!
