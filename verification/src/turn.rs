//! Decisions of the Squire context adapter around one turn: which phase
//! the turn is in, whether a close response is accepted, retried or failed,
//! and the texts shown to the model and the user.

use vstd::prelude::*;
use crate::protocol::{check_malformed_sigils, extract_spans, opt_view, pair_views, sigil_error_from, spans};
use crate::text::{
    byte_len, chars_eq, chars_of, chars_of_all, count_char, count_char_exec, dec, find_exec,
    find_from, join, join_exec, lit, parse_u64, parse_u64_range, push_all, push_dec, slice_vec,
    split, split_exec, starts_with, starts_with_exec, str_byte_len, string_of, strings_of,
    sviews, trim, trim_vec, vviews,
};
use crate::chunking::{bookmarked_chunk, chunk_user_input, text_chunks};
use crate::types::NewTokenSpec;
use crate::types::SquireResponse;

verus! {

/// Which phase of the two-phase protocol a turn is in: phase 1 answers the
/// user (content with sigils), phase 2 files tokens and relationships.
#[derive(Debug, Clone, Copy, PartialEq, Eq, Structural)]
pub enum SquirePhase {
    Phase1,
    Phase2,
}

/// How a turn ended.
#[derive(Debug, Clone, PartialEq)]
pub enum TurnOutcome {
    Done,
    Retry,
    Failed { reason: String, failed_content: String },
    AskUser { question: String },
    Phase2 { phase1_content: String, user_request: String },
    Phase2Done {
        tokens_accepted: usize,
        relationships_accepted: usize,
        tokens_rejected: Vec<String>,
        relationships_rejected: Vec<String>,
    },
}

/// Per-turn adapter state: the retry budget, the phase, and the user
/// request (with chunk bookmarks) that phase 2 is given.
pub struct SquireTurnState {
    pub max_retries: u32,
    pub retry_count: u32,
    pub phase: SquirePhase,
    pub user_request_text: String,
}

impl SquireTurnState {
    /// A fresh turn: phase 1, no retries used, three retries allowed (the
    /// fourth rejection in a row fails the turn).
    pub fn new() -> (r: Self)
        ensures
            r.max_retries == 3,
            r.retry_count == 0,
            r.phase == SquirePhase::Phase1,
            r.user_request_text@.len() == 0,
    {
        SquireTurnState {
            max_retries: 3,
            retry_count: 0,
            phase: SquirePhase::Phase1,
            user_request_text: String::new(),
        }
    }

    /// Switches to phase 2 with the user request it is to work on; the
    /// retry budget starts over.
    pub fn set_phase2(&mut self, user_request_text: String)
        ensures
            final(self).phase == SquirePhase::Phase2,
            final(self).user_request_text == user_request_text,
            final(self).retry_count == 0,
            final(self).max_retries == old(self).max_retries,
    {
        self.phase = SquirePhase::Phase2;
        self.user_request_text = user_request_text;
        self.retry_count = 0;
    }

    /// A response passed validation: the retry budget starts over.
    pub fn accept(&mut self)
        ensures
            final(self).retry_count == 0,
            final(self).max_retries == old(self).max_retries,
            final(self).phase == old(self).phase,
            final(self).user_request_text == old(self).user_request_text,
    {
        self.retry_count = 0;
    }

    /// A phase-1 response was committed: the retry budget starts over and the
    /// turn goes on to phase 2, with that response and the user request.
    pub fn phase1_committed(&mut self, phase1_content: String) -> (r: TurnOutcome)
        ensures
            r matches TurnOutcome::Phase2 { phase1_content: c, user_request: u } && c == phase1_content
                && u@ == old(self).user_request_text@,
            final(self).retry_count == 0,
            final(self).max_retries == old(self).max_retries,
            final(self).phase == old(self).phase,
            final(self).user_request_text == old(self).user_request_text,
    {
        self.accept();
        TurnOutcome::Phase2 { phase1_content, user_request: lit(self.user_request_text.as_str()) }
    }

    /// A response was rejected: one more retry is used. Past the budget the
    /// turn fails (and the count starts over for the next turn); otherwise
    /// the model is asked to retry.
    pub fn reject(&mut self, failed_content: String, reason: String) -> (r: TurnOutcome)
        requires
            old(self).retry_count < u32::MAX,
        ensures
            old(self).retry_count + 1 > old(self).max_retries ==> r == (TurnOutcome::Failed {
                reason,
                failed_content,
            }) && final(self).retry_count == 0,
            old(self).retry_count + 1 <= old(self).max_retries ==> r == TurnOutcome::Retry
                && final(self).retry_count == old(self).retry_count + 1,
            final(self).max_retries == old(self).max_retries,
            final(self).phase == old(self).phase,
            final(self).user_request_text == old(self).user_request_text,
    {
        self.retry_count = self.retry_count + 1;
        if self.retry_count > self.max_retries {
            self.retry_count = 0;
            TurnOutcome::Failed { reason, failed_content }
        } else {
            TurnOutcome::Retry
        }
    }
}

/// The retry count after `k` rejections in a row.
pub open spec fn count_after_rejections(max: u32, k: nat) -> nat
    decreases k,
{
    if k == 0 {
        0
    } else {
        let c = count_after_rejections(max, (k - 1) as nat) + 1;
        if c > max {
            0
        } else {
            c
        }
    }
}

/// A run of rejections fails on exactly every `max + 1`-th one: the first
/// `max` rejections of a turn are retried, the next one fails it.
pub proof fn law_rejections_fail_after_budget(max: u32, k: nat)
    requires
        max < u32::MAX,
    ensures
        count_after_rejections(max, k) == (k as int) % (max as int + 1),
    decreases k,
{
    if k > 0 {
        law_rejections_fail_after_budget(max, (k - 1) as nat);
        let m: int = max as int + 1;
        let j: int = k as int - 1;
        assert((j + 1) % m == if j % m + 1 == m {
            0
        } else {
            j % m + 1
        }) by (nonlinear_arith)
            requires
                m > 0,
                j >= 0,
        ;
        assert(0 <= j % m < m) by (nonlinear_arith)
            requires
                m > 0,
        ;
        assert(count_after_rejections(max, (k - 1) as nat) == j % m);
        assert(count_after_rejections(max, k) == (j + 1) % m);
        assert(j + 1 == k);
    } else {
        assert(0int % (max as int + 1) == 0) by (nonlinear_arith)
            requires
                max >= 0,
        ;
    }
}

// ───────────────────────────── gating a close response ─────────────────────────────

/// What to do with a parsed close response before anything is stored.
#[derive(Debug, Clone, PartialEq)]
pub enum Gate {
    /// Reject with this reason.
    Reject(String),
    /// The model asks the user this question.
    AskUser(String),
    /// The response passes the checks of its phase.
    Proceed,
}

pub enum GateView {
    Reject(Seq<char>),
    AskUser(Seq<char>),
    Proceed,
}

pub open spec fn gate_view(g: Gate) -> GateView {
    match g {
        Gate::Reject(r) => GateView::Reject(r@),
        Gate::AskUser(q) => GateView::AskUser(q@),
        Gate::Proceed => GateView::Proceed,
    }
}

pub open spec fn phase1_sections_message() -> Seq<char> {
    "Phase 1 must not contain §#new_tokens, §#relationships, or §#preserve sections — those belong in Phase 2 only. Output only response text with §! and §^...§^ markers."@
}

/// Checks on content shared by both phases: well-formed sigils and no
/// unclosed span.
pub open spec fn content_gate(content: Seq<char>) -> GateView {
    match sigil_error_from(content, 0) {
        Some(reason) => GateView::Reject(reason),
        None => match spans(content).1 {
            Some(id) => GateView::Reject("unclosed §^ span "@ + id),
            None => GateView::Proceed,
        },
    }
}

/// Decision on a close response: a question for the user ends the turn
/// (but cannot come with content); phase 1 must carry content and no
/// token, relationship or preserve sections; both phases need well-formed
/// sigils and closed spans.
pub open spec fn gate_spec(phase: SquirePhase, r: SquireResponse) -> GateView {
    if r.ask_user@.len() > 0 {
        if r.content@.len() > 0 {
            GateView::Reject("ask_user and content cannot coexist"@)
        } else {
            GateView::AskUser(r.ask_user@)
        }
    } else if phase == SquirePhase::Phase1 {
        if r.new_tokens@.len() > 0 || r.relationships@.len() > 0 || r.preserve@.len() > 0 {
            GateView::Reject(phase1_sections_message())
        } else if r.content@.len() == 0 {
            GateView::Reject("empty close response"@)
        } else {
            content_gate(r.content@)
        }
    } else {
        content_gate(r.content@)
    }
}

fn with_suffix(prefix: &str, tail: &String) -> (r: String)
    ensures
        r@ == prefix@ + tail@,
{
    let mut v = chars_of(prefix);
    let t = chars_of(tail.as_str());
    push_all(&mut v, &t);
    string_of(v.as_slice())
}

fn content_gate_exec(content: &String) -> (g: Gate)
    ensures
        gate_view(g) == content_gate(content@),
{
    match check_malformed_sigils(content.as_str()) {
        Err(f) => Gate::Reject(f.reason),
        Ok(()) => {
            let (_, unclosed) = extract_spans(content.as_str());
            match unclosed {
                Some(id) => Gate::Reject(with_suffix("unclosed §^ span ", &id)),
                None => Gate::Proceed,
            }
        },
    }
}

/// Decides what happens to a parsed close response in `phase`.
pub fn gate_close_response(phase: SquirePhase, resp: &SquireResponse) -> (g: Gate)
    ensures
        gate_view(g) == gate_spec(phase, *resp),
{
    let ask = chars_of(resp.ask_user.as_str());
    let content = chars_of(resp.content.as_str());
    if ask.len() > 0 {
        if content.len() > 0 {
            return Gate::Reject(lit("ask_user and content cannot coexist"));
        }
        return Gate::AskUser(lit(resp.ask_user.as_str()));
    }
    match phase {
        SquirePhase::Phase1 => {
            if resp.new_tokens.len() > 0 || resp.relationships.len() > 0 || resp.preserve.len() > 0 {
                Gate::Reject(
                    lit(
                        "Phase 1 must not contain §#new_tokens, §#relationships, or §#preserve sections — those belong in Phase 2 only. Output only response text with §! and §^...§^ markers.",
                    ),
                )
            } else if content.len() == 0 {
                Gate::Reject(lit("empty close response"))
            } else {
                content_gate_exec(&resp.content)
            }
        },
        SquirePhase::Phase2 => content_gate_exec(&resp.content),
    }
}

/// Phase 1 carries no phase-2 sections: a response without a question that
/// has any new token, any relationship or any preserved id is rejected in
/// phase 1 with the sections message, whatever its content; the same
/// response in phase 2 is judged on its content alone.
pub proof fn law_phase1_rejects_phase2_sections(r: SquireResponse)
    requires
        r.ask_user@.len() == 0,
        r.new_tokens@.len() > 0 || r.relationships@.len() > 0 || r.preserve@.len() > 0,
    ensures
        gate_spec(SquirePhase::Phase1, r) == GateView::Reject(phase1_sections_message()),
        gate_spec(SquirePhase::Phase2, r) == content_gate(r.content@),
{
}

/// A question for the user ends the turn in either phase, unless content
/// comes with it, which is rejected; in phase 1 a response with neither a
/// question, nor phase-2 sections, nor content is rejected as empty.
pub proof fn law_question_ends_the_turn(phase: SquirePhase, r: SquireResponse)
    ensures
        r.ask_user@.len() > 0 && r.content@.len() == 0 ==> gate_spec(phase, r) == GateView::AskUser(
            r.ask_user@,
        ),
        r.ask_user@.len() > 0 && r.content@.len() > 0 ==> gate_spec(phase, r) == GateView::Reject(
            "ask_user and content cannot coexist"@,
        ),
        r.ask_user@.len() == 0 && r.new_tokens@.len() == 0 && r.relationships@.len() == 0
            && r.preserve@.len() == 0 && r.content@.len() == 0 ==> gate_spec(SquirePhase::Phase1, r)
            == GateView::Reject("empty close response"@),
{
}

/// The message stored for the user when a turn fails compliance.
pub open spec fn compliance_failure_text(reason: Seq<char>, failed_content: Seq<char>) -> Seq<char> {
    "**Squire compliance failure — turn closed without a stored response**\n\nReason: "@ + reason
        + "\n\nThe model's final (rejected) response is shown below for reference. Consider adjusting your next message to avoid the same issue.\n\n---\n"@
        + failed_content
}

pub fn compliance_failure_message(reason: &str, failed_content: &str) -> (r: String)
    ensures
        r@ == compliance_failure_text(reason@, failed_content@),
{
    let mut v = chars_of("**Squire compliance failure — turn closed without a stored response**\n\nReason: ");
    push_all(&mut v, &chars_of(reason));
    push_all(
        &mut v,
        &chars_of(
            "\n\nThe model's final (rejected) response is shown below for reference. Consider adjusting your next message to avoid the same issue.\n\n---\n",
        ),
    );
    push_all(&mut v, &chars_of(failed_content));
    string_of(v.as_slice())
}


// ───────────────────────────── long and short token lists ─────────────────────────────

/// A token that may be shown to the model at the start of a turn: its id,
/// short description and full description (empty when it has none).
#[derive(Debug, Clone, PartialEq)]
pub struct ContextCandidate {
    pub token_id: String,
    pub short_desc: String,
    pub full_desc: String,
}

/// The context of a turn: tokens shown with their full description (the
/// long list), tokens shown by id and short description (the short list),
/// and the part of the long-list budget (in bytes) left unused.
#[derive(Debug, Clone, PartialEq)]
pub struct ContextLists {
    pub long_tokens: Vec<(String, String)>,
    pub short_tokens: Vec<(String, String)>,
    pub remaining_budget: usize,
}

pub type Cand = (Seq<char>, Seq<char>, Seq<char>);

/// Assembly state: remaining budget, ids already placed, long list, short list.
pub type CtxState = (int, Seq<Seq<char>>, Seq<(Seq<char>, Seq<char>)>, Seq<(Seq<char>, Seq<char>)>);

pub open spec fn cand_view(c: ContextCandidate) -> Cand {
    (c.token_id@, c.short_desc@, c.full_desc@)
}

pub open spec fn cands_view(v: Seq<ContextCandidate>) -> Seq<Cand> {
    v.map_values(|c: ContextCandidate| cand_view(c))
}

/// Source chunks: user-input and response chunk tokens.
pub open spec fn is_source_chunk(id: Seq<char>) -> bool {
    starts_with(id, "USR_T"@) || starts_with(id, "RESP_T"@)
}

/// `id` goes on the long list with `desc` when its byte length fits the
/// remaining budget (which it then uses), otherwise on the short list with
/// `short`.
pub open spec fn place(st: CtxState, id: Seq<char>, desc: Seq<char>, short: Seq<char>) -> CtxState {
    let cost = byte_len(desc) as int;
    if cost <= st.0 {
        (st.0 - cost, st.1, st.2.push((id, desc)), st.3)
    } else {
        (st.0, st.1, st.2, st.3.push((id, short)))
    }
}

pub open spec fn mark_seen(st: CtxState, id: Seq<char>) -> CtxState {
    (st.0, st.1.push(id), st.2, st.3)
}

/// One candidate of one stage. Stage 0, preserved tokens: always placed,
/// on the short list when they have no full description. Stage 1, this
/// turn's chunks: placed when they have a full description, shown on the
/// short list by id alone. Stage 2, prefetched source chunks not yet seen:
/// placed like chunks but with their short description. Stage 3, every
/// other prefetched token not yet seen: short list.
pub open spec fn ctx_step(stage: int, st: CtxState, c: Cand) -> CtxState {
    let id = c.0;
    let sd = c.1;
    let fd = c.2;
    if stage == 0 {
        if fd.len() == 0 {
            let s1 = mark_seen(st, id);
            (s1.0, s1.1, s1.2, s1.3.push((id, sd)))
        } else {
            place(mark_seen(st, id), id, fd, sd)
        }
    } else if stage == 1 {
        if fd.len() == 0 {
            mark_seen(st, id)
        } else {
            place(mark_seen(st, id), id, fd, id)
        }
    } else if stage == 2 {
        if !is_source_chunk(id) || st.1.contains(id) {
            st
        } else if fd.len() == 0 {
            mark_seen(st, id)
        } else {
            place(mark_seen(st, id), id, fd, sd)
        }
    } else {
        if st.1.contains(id) {
            st
        } else {
            let s1 = mark_seen(st, id);
            (s1.0, s1.1, s1.2, s1.3.push((id, sd)))
        }
    }
}

pub open spec fn ctx_fold(stage: int, cs: Seq<Cand>, st: CtxState) -> CtxState
    decreases cs.len(),
{
    if cs.len() == 0 {
        st
    } else {
        ctx_step(stage, ctx_fold(stage, cs.drop_last(), st), cs.last())
    }
}

/// The long and short lists of a turn: preserved tokens first, then this
/// turn's chunks, then prefetched source chunks, then the other
/// prefetched tokens; the long list's budget is at least one byte.
pub open spec fn context_lists(
    preserved: Seq<Cand>,
    chunks: Seq<Cand>,
    prefetched: Seq<Cand>,
    budget: nat,
) -> CtxState {
    let b: int = if budget == 0 {
        1
    } else {
        budget as int
    };
    let s0 = ctx_fold(0, preserved, (b, Seq::empty(), Seq::empty(), Seq::empty()));
    let s1 = ctx_fold(1, chunks, s0);
    let s2 = ctx_fold(2, prefetched, s1);
    ctx_fold(3, prefetched, s2)
}

struct Assembly {
    remaining: usize,
    seen: Vec<Vec<char>>,
    long: Vec<(String, String)>,
    short: Vec<(String, String)>,
}

spec fn asm_view(a: Assembly) -> CtxState {
    (a.remaining as int, vviews(a.seen@), pair_views(a.long@), pair_views(a.short@))
}

fn seen_contains(seen: &Vec<Vec<char>>, id: &Vec<char>) -> (r: bool)
    ensures
        r == vviews(seen@).contains(id@),
{
    let mut i: usize = 0;
    while i < seen.len()
        invariant
            i <= seen.len(),
            forall|k: int| 0 <= k < i ==> vviews(seen@)[k] != id@,
        decreases seen.len() - i,
    {
        if chars_eq(&seen[i], id) {
            assert(vviews(seen@)[i as int] == id@);
            return true;
        }
        i = i + 1;
    }
    false
}

fn push_seen(a: &mut Assembly, id: &Vec<char>)
    ensures
        asm_view(*final(a)) == mark_seen(asm_view(*old(a)), id@),
{
    let ghost before = vviews(a.seen@);
    a.seen.push(id.clone());
    assert(vviews(a.seen@) =~= before.push(id@));
}

fn push_short(a: &mut Assembly, id: &String, desc: &String)
    ensures
        asm_view(*final(a)) == (
            asm_view(*old(a)).0,
            asm_view(*old(a)).1,
            asm_view(*old(a)).2,
            asm_view(*old(a)).3.push((id@, desc@)),
        ),
{
    let ghost before = pair_views(a.short@);
    a.short.push((lit(id.as_str()), lit(desc.as_str())));
    assert(pair_views(a.short@) =~= before.push((id@, desc@)));
}

fn place_exec(a: &mut Assembly, id: &String, desc: &String, short: &String)
    ensures
        asm_view(*final(a)) == place(asm_view(*old(a)), id@, desc@, short@),
{
    let cost = str_byte_len(desc.as_str());
    if cost <= a.remaining {
        a.remaining = a.remaining - cost;
        let ghost before = pair_views(a.long@);
        a.long.push((lit(id.as_str()), lit(desc.as_str())));
        assert(pair_views(a.long@) =~= before.push((id@, desc@)));
    } else {
        push_short(a, id, short);
    }
}

fn ctx_step_exec(stage: u8, a: &mut Assembly, c: &ContextCandidate)
    requires
        stage <= 3,
    ensures
        asm_view(*final(a)) == ctx_step(stage as int, asm_view(*old(a)), cand_view(*c)),
{
    let id = chars_of(c.token_id.as_str());
    let empty = chars_of(c.full_desc.as_str()).len() == 0;
    if stage == 0 {
        push_seen(a, &id);
        if empty {
            push_short(a, &c.token_id, &c.short_desc);
        } else {
            place_exec(a, &c.token_id, &c.full_desc, &c.short_desc);
        }
    } else if stage == 1 {
        push_seen(a, &id);
        if !empty {
            place_exec(a, &c.token_id, &c.full_desc, &c.token_id);
        }
    } else if stage == 2 {
        let chunk = starts_with_exec(&id, &chars_of("USR_T")) || starts_with_exec(
            &id,
            &chars_of("RESP_T"),
        );
        if chunk && !seen_contains(&a.seen, &id) {
            push_seen(a, &id);
            if !empty {
                place_exec(a, &c.token_id, &c.full_desc, &c.short_desc);
            }
        }
    } else {
        if !seen_contains(&a.seen, &id) {
            push_seen(a, &id);
            push_short(a, &c.token_id, &c.short_desc);
        }
    }
}

fn ctx_fold_exec(stage: u8, a: &mut Assembly, cs: &Vec<ContextCandidate>)
    requires
        stage <= 3,
    ensures
        asm_view(*final(a)) == ctx_fold(stage as int, cands_view(cs@), asm_view(*old(a))),
{
    let ghost start = asm_view(*a);
    let ghost all = cands_view(cs@);
    let mut i: usize = 0;
    assert(all.take(0) =~= Seq::<Cand>::empty());
    while i < cs.len()
        invariant
            i <= cs.len(),
            stage <= 3,
            all == cands_view(cs@),
            asm_view(*a) == ctx_fold(stage as int, all.take(i as int), start),
        decreases cs.len() - i,
    {
        proof {
            assert(all.take(i + 1).drop_last() =~= all.take(i as int));
            assert(all.take(i + 1).last() == cand_view(cs@[i as int]));
        }
        ctx_step_exec(stage, a, &cs[i]);
        i = i + 1;
    }
    assert(all.take(all.len() as int) =~= all);
}

pub open spec fn lists_view(l: ContextLists) -> CtxState {
    (l.remaining_budget as int, Seq::empty(), pair_views(l.long_tokens@), pair_views(l.short_tokens@))
}

/// Assembles the long and short token lists of a turn from the preserved
/// tokens, this turn's chunk tokens and the prefetched tokens (already
/// filtered by score), with a long-list budget of `long_list_budget` bytes
/// (at least one).
pub fn assemble_context(
    preserved: &Vec<ContextCandidate>,
    chunks: &Vec<ContextCandidate>,
    prefetched: &Vec<ContextCandidate>,
    long_list_budget: usize,
) -> (r: ContextLists)
    ensures
        ({
            let s = context_lists(
                cands_view(preserved@),
                cands_view(chunks@),
                cands_view(prefetched@),
                long_list_budget as nat,
            );
            &&& r.remaining_budget == s.0
            &&& pair_views(r.long_tokens@) == s.2
            &&& pair_views(r.short_tokens@) == s.3
        }),
{
    let budget = if long_list_budget == 0 {
        1
    } else {
        long_list_budget
    };
    let mut a = Assembly { remaining: budget, seen: Vec::new(), long: Vec::new(), short: Vec::new() };
    assert(asm_view(a) =~= (budget as int, Seq::empty(), Seq::empty(), Seq::empty()));
    ctx_fold_exec(0, &mut a, preserved);
    ctx_fold_exec(1, &mut a, chunks);
    ctx_fold_exec(2, &mut a, prefetched);
    ctx_fold_exec(3, &mut a, prefetched);
    ContextLists { long_tokens: a.long, short_tokens: a.short, remaining_budget: a.remaining }
}


/// Total byte length of the descriptions on a long list.
pub open spec fn long_cost(l: Seq<(Seq<char>, Seq<char>)>) -> int
    decreases l.len(),
{
    if l.len() == 0 {
        0
    } else {
        long_cost(l.drop_last()) + byte_len(l.last().1)
    }
}

/// `id` is on the long or the short list.
pub open spec fn listed(st: CtxState, id: Seq<char>) -> bool {
    (exists|i: int| 0 <= i < st.2.len() && (#[trigger] st.2[i]).0 == id) || (exists|i: int|
        0 <= i < st.3.len() && (#[trigger] st.3[i]).0 == id)
}

proof fn lemma_step_keeps(stage: int, st: CtxState, c: Cand, b: int)
    requires
        st.0 >= 0,
        st.0 + long_cost(st.2) == b,
    ensures
        ctx_step(stage, st, c).0 >= 0,
        ctx_step(stage, st, c).0 + long_cost(ctx_step(stage, st, c).2) == b,
        forall|id: Seq<char>| listed(st, id) ==> #[trigger] listed(ctx_step(stage, st, c), id),
        stage == 0 ==> listed(ctx_step(stage, st, c), c.0),
{
    let n = ctx_step(stage, st, c);
    assert(n.2.len() >= st.2.len() && n.3.len() >= st.3.len());
    assert(forall|i: int| 0 <= i < st.2.len() ==> n.2[i] == st.2[i]);
    assert(forall|i: int| 0 <= i < st.3.len() ==> n.3[i] == st.3[i]);
    if n.2.len() > st.2.len() {
        assert(n.2.drop_last() =~= st.2);
    } else {
        assert(n.2 =~= st.2);
    }
    assert forall|id: Seq<char>| listed(st, id) implies #[trigger] listed(n, id) by {
        if exists|i: int| 0 <= i < st.2.len() && (#[trigger] st.2[i]).0 == id {
            let i = choose|i: int| 0 <= i < st.2.len() && (#[trigger] st.2[i]).0 == id;
            assert(n.2[i].0 == id);
        } else {
            let i = choose|i: int| 0 <= i < st.3.len() && (#[trigger] st.3[i]).0 == id;
            assert(n.3[i].0 == id);
        }
    }
    if stage == 0 {
        if n.2.len() > st.2.len() {
            assert(n.2[n.2.len() - 1].0 == c.0);
        } else {
            assert(n.3[n.3.len() - 1].0 == c.0);
        }
    }
}

proof fn lemma_fold_keeps(stage: int, cs: Seq<Cand>, st: CtxState, b: int)
    requires
        st.0 >= 0,
        st.0 + long_cost(st.2) == b,
    ensures
        ctx_fold(stage, cs, st).0 >= 0,
        ctx_fold(stage, cs, st).0 + long_cost(ctx_fold(stage, cs, st).2) == b,
        forall|id: Seq<char>| listed(st, id) ==> #[trigger] listed(ctx_fold(stage, cs, st), id),
        stage == 0 ==> forall|k: int| 0 <= k < cs.len() ==> listed(ctx_fold(stage, cs, st), #[trigger] cs[k].0),
    decreases cs.len(),
{
    if cs.len() > 0 {
        let prev = ctx_fold(stage, cs.drop_last(), st);
        lemma_fold_keeps(stage, cs.drop_last(), st, b);
        lemma_step_keeps(stage, prev, cs.last(), b);
        if stage == 0 {
            assert forall|k: int| 0 <= k < cs.len() implies listed(ctx_fold(stage, cs, st), #[trigger] cs[k].0) by {
                if k < cs.len() - 1 {
                    assert(cs[k] == cs.drop_last()[k]);
                    assert(listed(prev, cs.drop_last()[k].0));
                }
            }
        }
    }
}

/// The long list never exceeds its budget: what it uses plus what remains
/// is the budget (at least one byte); and no preserved token is dropped,
/// each one is on the long or the short list.
pub proof fn law_context_budget_and_preserved(
    preserved: Seq<Cand>,
    chunks: Seq<Cand>,
    prefetched: Seq<Cand>,
    budget: nat,
)
    ensures
        ({
            let b: int = if budget == 0 {
                1
            } else {
                budget as int
            };
            let s = context_lists(preserved, chunks, prefetched, budget);
            &&& s.0 >= 0
            &&& s.0 + long_cost(s.2) == b
            &&& forall|k: int| 0 <= k < preserved.len() ==> listed(s, #[trigger] preserved[k].0)
        }),
{
    let b: int = if budget == 0 {
        1
    } else {
        budget as int
    };
    let init: CtxState = (b, Seq::empty(), Seq::empty(), Seq::empty());
    let s0 = ctx_fold(0, preserved, init);
    let s1 = ctx_fold(1, chunks, s0);
    let s2 = ctx_fold(2, prefetched, s1);
    lemma_fold_keeps(0, preserved, init, b);
    lemma_fold_keeps(1, chunks, s0, b);
    lemma_fold_keeps(2, prefetched, s1, b);
    lemma_fold_keeps(3, prefetched, s2, b);
    assert forall|k: int| 0 <= k < preserved.len() implies listed(
        context_lists(preserved, chunks, prefetched, budget),
        #[trigger] preserved[k].0,
    ) by {
        assert(listed(s0, preserved[k].0));
        assert(listed(s1, preserved[k].0));
        assert(listed(s2, preserved[k].0));
    }
}


/// Ids of candidates, in order.
pub open spec fn cand_ids(cs: Seq<Cand>) -> Seq<Seq<char>> {
    cs.map_values(|c: Cand| c.0)
}

proof fn lemma_push_contains<A>(s: Seq<A>, a: A)
    ensures
        s.push(a).contains(a),
        forall|p: A| s.contains(p) ==> #[trigger] s.push(a).contains(p),
        forall|p: A| #[trigger] s.push(a).contains(p) ==> s.contains(p) || p == a,
{
    let t = s.push(a);
    assert(t[s.len() as int] == a);
    assert forall|p: A| s.contains(p) implies #[trigger] t.contains(p) by {
        let i = choose|i: int| 0 <= i < s.len() && s[i] == p;
        assert(t[i] == p);
    }
    assert forall|p: A| #[trigger] t.contains(p) implies s.contains(p) || p == a by {
        let i = choose|i: int| 0 <= i < t.len() && t[i] == p;
        if i < s.len() {
            assert(s[i] == p);
        }
    }
}

proof fn lemma_listed_from(st: CtxState, n: CtxState)
    requires
        forall|p: (Seq<char>, Seq<char>)| st.2.contains(p) ==> #[trigger] n.2.contains(p),
        forall|p: (Seq<char>, Seq<char>)| st.3.contains(p) ==> #[trigger] n.3.contains(p),
    ensures
        forall|id: Seq<char>| listed(st, id) ==> #[trigger] listed(n, id),
{
    assert forall|id: Seq<char>| listed(st, id) implies #[trigger] listed(n, id) by {
        if exists|i: int| 0 <= i < st.2.len() && (#[trigger] st.2[i]).0 == id {
            let i = choose|i: int| 0 <= i < st.2.len() && (#[trigger] st.2[i]).0 == id;
            assert(st.2.contains(st.2[i]));
            assert(n.2.contains(st.2[i]));
            let j = choose|j: int| 0 <= j < n.2.len() && n.2[j] == st.2[i];
            assert(n.2[j].0 == id);
        } else {
            let i = choose|i: int| 0 <= i < st.3.len() && (#[trigger] st.3[i]).0 == id;
            assert(st.3.contains(st.3[i]));
            assert(n.3.contains(st.3[i]));
            let j = choose|j: int| 0 <= j < n.3.len() && n.3[j] == st.3[i];
            assert(n.3[j].0 == id);
        }
    }
}

/// One step keeps every listed entry and every seen id, and sees at most
/// its own candidate: a source chunk in stage 2, a listed one in stages 0
/// and 3.
proof fn lemma_step_grows(stage: int, st: CtxState, c: Cand)
    ensures
        ({
            let n = ctx_step(stage, st, c);
            &&& forall|p: (Seq<char>, Seq<char>)| st.2.contains(p) ==> #[trigger] n.2.contains(p)
            &&& forall|p: (Seq<char>, Seq<char>)| st.3.contains(p) ==> #[trigger] n.3.contains(p)
            &&& forall|x: Seq<char>| st.1.contains(x) ==> #[trigger] n.1.contains(x)
            &&& forall|id: Seq<char>| listed(st, id) ==> #[trigger] listed(n, id)
            &&& forall|x: Seq<char>|
                #[trigger] n.1.contains(x) ==> st.1.contains(x) || (x == c.0 && (stage == 2
                    ==> is_source_chunk(x)) && (stage != 1 && stage != 2 ==> listed(n, x)))
            &&& stage != 2 ==> n.1.contains(c.0)
        }),
{
    let n = ctx_step(stage, st, c);
    let (id, sd, fd) = (c.0, c.1, c.2);
    lemma_push_contains(st.1, id);
    lemma_push_contains(st.2, (id, fd));
    lemma_push_contains(st.3, (id, sd));
    lemma_push_contains(st.3, (id, id));
    if n.1 == st.1.push(id) && n.3 == st.3.push((id, sd)) {
        assert(n.3[n.3.len() - 1].0 == id);
        assert(listed(n, id));
    }
    if n.1 == st.1.push(id) && n.2 == st.2.push((id, fd)) {
        assert(n.2[n.2.len() - 1].0 == id);
        assert(listed(n, id));
    }
    lemma_listed_from(st, n);
}

proof fn lemma_fold_grows(stage: int, cs: Seq<Cand>, st: CtxState)
    ensures
        ({
            let f = ctx_fold(stage, cs, st);
            &&& forall|p: (Seq<char>, Seq<char>)| st.2.contains(p) ==> #[trigger] f.2.contains(p)
            &&& forall|p: (Seq<char>, Seq<char>)| st.3.contains(p) ==> #[trigger] f.3.contains(p)
            &&& forall|x: Seq<char>| st.1.contains(x) ==> #[trigger] f.1.contains(x)
            &&& forall|id: Seq<char>| listed(st, id) ==> #[trigger] listed(f, id)
            &&& forall|x: Seq<char>|
                #[trigger] f.1.contains(x) ==> st.1.contains(x) || (cand_ids(cs).contains(x) && (
                stage == 2 ==> is_source_chunk(x)) && (stage != 1 && stage != 2 ==> listed(f, x)))
            &&& stage != 2 ==> forall|k: int| 0 <= k < cs.len() ==> f.1.contains(#[trigger] cs[k].0)
        }),
    decreases cs.len(),
{
    if cs.len() > 0 {
        let init = cs.drop_last();
        let prev = ctx_fold(stage, init, st);
        let f = ctx_fold(stage, cs, st);
        lemma_fold_grows(stage, init, st);
        lemma_step_grows(stage, prev, cs.last());
        assert(cand_ids(init) =~= cand_ids(cs).drop_last());
        assert(cand_ids(cs)[cs.len() - 1] == cs.last().0);
        assert forall|x: Seq<char>| #[trigger] cand_ids(init).contains(x) implies cand_ids(cs).contains(x) by {
            let i = choose|i: int| 0 <= i < cand_ids(init).len() && cand_ids(init)[i] == x;
            assert(cand_ids(cs)[i] == x);
        }
        assert forall|x: Seq<char>| #[trigger] f.1.contains(x) implies st.1.contains(x) || (cand_ids(
            cs,
        ).contains(x) && (stage == 2 ==> is_source_chunk(x)) && (stage != 1 && stage != 2 ==> listed(
            f,
            x,
        ))) by {
            if prev.1.contains(x) {
                if !st.1.contains(x) {
                    assert(cand_ids(init).contains(x));
                    if stage != 1 && stage != 2 {
                        assert(listed(prev, x));
                    }
                }
            } else {
                assert(x == cs.last().0);
                assert(cand_ids(cs).contains(x));
            }
        }
        if stage != 2 {
            assert forall|k: int| 0 <= k < cs.len() implies f.1.contains(#[trigger] cs[k].0) by {
                if k < cs.len() - 1 {
                    assert(init[k] == cs[k]);
                    assert(prev.1.contains(init[k].0));
                }
            }
        }
    }
}

proof fn lemma_fold_split(stage: int, a: Seq<Cand>, b: Seq<Cand>, st: CtxState)
    ensures
        ctx_fold(stage, a + b, st) == ctx_fold(stage, b, ctx_fold(stage, a, st)),
    decreases b.len(),
{
    if b.len() == 0 {
        assert(a + b =~= a);
    } else {
        lemma_fold_split(stage, a, b.drop_last(), st);
        assert((a + b).drop_last() =~= a + b.drop_last());
        assert((a + b).last() == b.last());
    }
}

proof fn lemma_long_cost_nonneg(l: Seq<(Seq<char>, Seq<char>)>)
    ensures
        long_cost(l) >= 0,
    decreases l.len(),
{
    if l.len() > 0 {
        lemma_long_cost_nonneg(l.drop_last());
    }
}

/// No prefetched token is lost from the context. One that is neither a
/// source chunk nor one of this turn's chunks is on the long or the short
/// list. A source chunk with a full description, met for the first time
/// and neither preserved nor one of this turn's chunks, is on the long list
/// with its full description or on the short list with its short
/// description; on the short list whenever its full description is longer
/// than the whole budget.
pub proof fn law_prefetched_tokens_are_listed(
    preserved: Seq<Cand>,
    chunks: Seq<Cand>,
    prefetched: Seq<Cand>,
    budget: nat,
)
    ensures
        ({
            let b: int = if budget == 0 {
                1
            } else {
                budget as int
            };
            let s = context_lists(preserved, chunks, prefetched, budget);
            &&& forall|k: int|
                0 <= k < prefetched.len() && !is_source_chunk((#[trigger] prefetched[k]).0)
                    && !cand_ids(chunks).contains(prefetched[k].0) ==> listed(s, prefetched[k].0)
            &&& forall|k: int|
                0 <= k < prefetched.len() && is_source_chunk((#[trigger] prefetched[k]).0)
                    && prefetched[k].2.len() > 0 && !cand_ids(preserved).contains(prefetched[k].0)
                    && !cand_ids(chunks).contains(prefetched[k].0) && !cand_ids(
                    prefetched.take(k),
                ).contains(prefetched[k].0) ==> (s.2.contains((prefetched[k].0, prefetched[k].2))
                    || s.3.contains((prefetched[k].0, prefetched[k].1))) && (byte_len(prefetched[k].2)
                    > b ==> s.3.contains((prefetched[k].0, prefetched[k].1)))
        }),
{
    let b: int = if budget == 0 {
        1
    } else {
        budget as int
    };
    let init: CtxState = (b, Seq::empty(), Seq::empty(), Seq::empty());
    let s0 = ctx_fold(0, preserved, init);
    let s1 = ctx_fold(1, chunks, s0);
    let s2 = ctx_fold(2, prefetched, s1);
    let s = ctx_fold(3, prefetched, s2);
    assert(s == context_lists(preserved, chunks, prefetched, budget));
    lemma_fold_grows(0, preserved, init);
    lemma_fold_grows(1, chunks, s0);
    lemma_fold_grows(2, prefetched, s1);
    lemma_fold_grows(3, prefetched, s2);
    assert forall|k: int|
        0 <= k < prefetched.len() && !is_source_chunk((#[trigger] prefetched[k]).0)
            && !cand_ids(chunks).contains(prefetched[k].0) implies listed(s, prefetched[k].0) by {
        let x = prefetched[k].0;
        assert(s.1.contains(x));
        if !listed(s, x) {
            assert(s2.1.contains(x));
            assert(s1.1.contains(x));
            assert(s0.1.contains(x));
            assert(!init.1.contains(x));
            assert(listed(s0, x));
            assert(listed(s1, x));
            assert(listed(s2, x));
        }
    }
    assert forall|k: int|
        0 <= k < prefetched.len() && is_source_chunk((#[trigger] prefetched[k]).0)
            && prefetched[k].2.len() > 0 && !cand_ids(preserved).contains(prefetched[k].0)
            && !cand_ids(chunks).contains(prefetched[k].0) && !cand_ids(prefetched.take(k)).contains(
            prefetched[k].0,
        ) implies (s.2.contains((prefetched[k].0, prefetched[k].2)) || s.3.contains(
        (prefetched[k].0, prefetched[k].1),
    )) && (byte_len(prefetched[k].2) > b ==> s.3.contains((prefetched[k].0, prefetched[k].1))) by {
        let c = prefetched[k];
        let x = c.0;
        let head = prefetched.take(k);
        let tail = prefetched.skip(k + 1);
        let t = ctx_fold(2, head, s1);
        lemma_fold_grows(2, head, s1);
        assert(!init.1.contains(x));
        assert(!s0.1.contains(x));
        assert(!s1.1.contains(x));
        assert(!t.1.contains(x));
        lemma_fold_keeps(0, preserved, init, b);
        lemma_fold_keeps(1, chunks, s0, b);
        lemma_fold_keeps(2, head, s1, b);
        lemma_long_cost_nonneg(t.2);
        assert(t.0 <= b);
        assert(prefetched.take(k + 1).drop_last() =~= head);
        assert(prefetched.take(k + 1).last() == c);
        let u = ctx_fold(2, prefetched.take(k + 1), s1);
        assert(u == ctx_step(2, t, c));
        assert(u == place(mark_seen(t, x), x, c.2, c.1));
        lemma_push_contains(t.2, (x, c.2));
        lemma_push_contains(t.3, (x, c.1));
        assert(u.2.contains((x, c.2)) || u.3.contains((x, c.1)));
        lemma_fold_split(2, prefetched.take(k + 1), tail, s1);
        assert(prefetched.take(k + 1) + tail =~= prefetched);
        lemma_fold_grows(2, tail, u);
        assert(s2 == ctx_fold(2, tail, u));
    }
}

// ───────────────────────────── user request and recent chunks ─────────────────────────────

/// Chunks of the user's message, each behind its `§^chunk_{i}§^` bookmark.
pub open spec fn bookmarked_chunks(cs: Seq<Seq<char>>) -> Seq<Seq<char>> {
    Seq::new(cs.len(), |i: int| bookmarked_chunk(i as nat, cs[i]))
}

/// The user request as the model sees it: the chunks with their bookmarks,
/// one per line, or the message itself when it has no chunk.
pub open spec fn user_request_spec(user_text: Seq<char>) -> Seq<char> {
    let cs = text_chunks(user_text);
    if cs.len() == 0 {
        user_text
    } else {
        join(bookmarked_chunks(cs), seq!['\n'])
    }
}

pub fn user_request_with_bookmarks(user_text: &str) -> (r: String)
    ensures
        r@ == user_request_spec(user_text@),
{
    let chunks = chunk_user_input(user_text);
    if chunks.len() == 0 {
        return lit(user_text);
    }
    let ghost cs = text_chunks(user_text@);
    let mut pieces: Vec<Vec<char>> = Vec::new();
    let mut i: usize = 0;
    while i < chunks.len()
        invariant
            i <= chunks.len(),
            sviews(chunks@) == cs,
            vviews(pieces@) == bookmarked_chunks(cs).take(i as int),
        decreases chunks.len() - i,
    {
        let mut b = chars_of("§^chunk_");
        push_dec(&mut b, i as u64);
        push_all(&mut b, &chars_of("§^"));
        push_all(&mut b, &chars_of(chunks[i].as_str()));
        assert(b@ =~= bookmarked_chunk(i as nat, cs[i as int]));
        let ghost before = vviews(pieces@);
        pieces.push(b);
        assert(vviews(pieces@) =~= before.push(b@));
        assert(bookmarked_chunks(cs).take(i + 1) =~= bookmarked_chunks(cs).take(i as int).push(
            bookmarked_chunk(i as nat, cs[i as int]),
        ));
        i = i + 1;
    }
    assert(bookmarked_chunks(cs).take(cs.len() as int) =~= bookmarked_chunks(cs));
    let nl = vec!['\n'];
    assert(nl@ == seq!['\n']);
    string_of(join_exec(&pieces, &nl).as_slice())
}

/// Turn number in a chunk id `PREFIX_T{turn}_...`: the digits between the
/// first `T` and the next `_`.
pub open spec fn turn_in_id(id: Seq<char>) -> Option<nat> {
    match find_from(id, seq!['T'], 0) {
        None => None,
        Some(t) => {
            let after = id.skip(t + 1);
            match find_from(after, seq!['_'], 0) {
                None => None,
                Some(u) => parse_u64(after.take(u)),
            }
        },
    }
}

/// First turn of the recent window: three turns back, but at least turn 1.
pub open spec fn recent_start(current: u64) -> nat {
    let s: int = if current >= 3 {
        current - 3
    } else {
        0
    };
    if s < 1 {
        1
    } else {
        s as nat
    }
}

/// A source chunk from one of the recent turns (the current one included).
pub open spec fn is_recent_chunk(id: Seq<char>, current: u64) -> bool {
    is_source_chunk(id) && match turn_in_id(id) {
        Some(t) => recent_start(current) <= t <= current,
        None => false,
    }
}

pub fn is_recent_source_chunk(id: &str, current_turn: u64) -> (r: bool)
    ensures
        r == is_recent_chunk(id@, current_turn),
{
    let v = chars_of(id);
    if !(starts_with_exec(&v, &chars_of("USR_T")) || starts_with_exec(&v, &chars_of("RESP_T"))) {
        return false;
    }
    let tpat = vec!['T'];
    assert(tpat@ == seq!['T']);
    let t = match find_exec(&v, &tpat) {
        Some(t) => t,
        None => {
            return false;
        },
    };
    proof {
        crate::text::lemma_find_from(v@, tpat@, 0);
    }
    assert(crate::text::match_at(v@, tpat@, t as int));
    assert(tpat@.len() == 1);
    let n = v.len();
    let after = slice_vec(&v, t + 1, n);
    assert(after@ =~= v@.skip(t + 1));
    let upat = vec!['_'];
    assert(upat@ == seq!['_']);
    let u = match find_exec(&after, &upat) {
        Some(u) => u,
        None => {
            return false;
        },
    };
    proof {
        crate::text::lemma_find_from(after@, upat@, 0);
    }
    assert(after@.subrange(0, u as int) =~= after@.take(u as int));
    match parse_u64_range(&after, 0, u) {
        Some(n) => {
            let start: u64 = if current_turn >= 3 {
                current_turn - 3
            } else {
                0
            };
            let start = if start < 1 {
                1
            } else {
                start
            };
            start <= n && n <= current_turn
        },
        None => false,
    }
}

// ───────────────────────────── phase 2 ─────────────────────────────

/// Text of the first span with id `id`.
pub open spec fn span_text_of(spans: Seq<(Seq<char>, Seq<char>)>, id: Seq<char>) -> Option<Seq<char>>
    decreases spans.len(),
{
    if spans.len() == 0 {
        None
    } else if spans[0].0 == id {
        Some(spans[0].1)
    } else {
        span_text_of(spans.drop_first(), id)
    }
}

fn span_text_exec(spans: &Vec<(String, String)>, id: &Vec<char>) -> (r: Option<String>)
    ensures
        opt_view(r) == span_text_of(pair_views(spans@), id@),
{
    let ghost ps = pair_views(spans@);
    let mut i: usize = 0;
    assert(ps.skip(0) =~= ps);
    while i < spans.len()
        invariant
            i <= spans.len(),
            ps == pair_views(spans@),
            span_text_of(ps, id@) == span_text_of(ps.skip(i as int), id@),
        decreases spans.len() - i,
    {
        assert(ps.skip(i as int)[0] == ps[i as int]);
        assert(ps.skip(i as int).drop_first() =~= ps.skip(i + 1));
        if chars_eq(&chars_of(spans[i].0.as_str()), id) {
            return Some(lit(spans[i].1.as_str()));
        }
        i = i + 1;
    }
    assert(ps.skip(ps.len() as int) =~= Seq::<(Seq<char>, Seq<char>)>::empty());
    None
}

/// A token of a phase-2 response as it is stored: typed `referential` when
/// a span of the content carries its id, and given that span's text when it
/// has no full description.
pub fn prepare_phase2_token(token: NewTokenSpec, spans: &Vec<(String, String)>) -> (r: NewTokenSpec)
    ensures
        r.id == token.id,
        r.short_desc == token.short_desc,
        r.endpoint == token.endpoint,
        r.ranges == token.ranges,
        r.token_type@ == (if span_text_of(pair_views(spans@), token.id@) is Some {
            "referential"@
        } else {
            token.token_type@
        }),
        opt_view(r.full_desc) == (match token.full_desc {
            Some(f) => Some(f@),
            None => span_text_of(pair_views(spans@), token.id@),
        }),
{
    let id = chars_of(token.id.as_str());
    let text = span_text_exec(spans, &id);
    let mut t = token;
    if text.is_some() {
        t.token_type = lit("referential");
    }
    if t.full_desc.is_none() {
        t.full_desc = text;
    }
    t
}

/// How an unknown relationship is reported: `s|p|o (details)`, the details
/// naming the unknown subject and object.
pub open spec fn invalid_rel_text(
    s: Seq<char>,
    p: Seq<char>,
    o: Seq<char>,
    subj_known: bool,
    obj_known: bool,
) -> Seq<char> {
    let a = "subject '"@ + s + "' unknown"@;
    let b = "object '"@ + o + "' unknown"@;
    let details = if !subj_known && !obj_known {
        a + ", "@ + b
    } else if !subj_known {
        a
    } else if !obj_known {
        b
    } else {
        Seq::empty()
    };
    s + seq!['|'] + p + seq!['|'] + o + " ("@ + details + ")"@
}

pub fn invalid_relationship_line(
    rel: &crate::types::Relationship,
    subj_known: bool,
    obj_known: bool,
) -> (r: String)
    ensures
        r@ == invalid_rel_text(rel.subject@, rel.predicate@, rel.object@, subj_known, obj_known),
{
    let s = chars_of(rel.subject.as_str());
    let o = chars_of(rel.object.as_str());
    let mut details = chars_of("");
    if !subj_known {
        push_all(&mut details, &chars_of("subject '"));
        push_all(&mut details, &s);
        push_all(&mut details, &chars_of("' unknown"));
    }
    if !obj_known {
        if !subj_known {
            push_all(&mut details, &chars_of(", "));
        }
        push_all(&mut details, &chars_of("object '"));
        push_all(&mut details, &o);
        push_all(&mut details, &chars_of("' unknown"));
    }
    let mut v = s.clone();
    v.push('|');
    push_all(&mut v, &chars_of(rel.predicate.as_str()));
    v.push('|');
    push_all(&mut v, &o);
    push_all(&mut v, &chars_of(" ("));
    push_all(&mut v, &details);
    push_all(&mut v, &chars_of(")"));
    proof {
        reveal_strlit("");
    }
    assert(v@ =~= invalid_rel_text(
        rel.subject@,
        rel.predicate@,
        rel.object@,
        subj_known,
        obj_known,
    ));
    string_of(v.as_slice())
}

/// `s` without any number of leading `§#` markers.
pub open spec fn strip_section_prefixes(s: Seq<char>) -> Seq<char>
    decreases s.len(),
{
    if s.len() >= 2 && s[0] == '§' && s[1] == '#' {
        strip_section_prefixes(s.skip(2))
    } else {
        s
    }
}

/// A preserve entry cleaned of stray `§#` markers and whitespace.
pub open spec fn clean_preserve(id: Seq<char>) -> Seq<char> {
    trim(strip_section_prefixes(trim(id)))
}

pub fn clean_preserve_id(id: &str) -> (r: String)
    ensures
        r@ == clean_preserve(id@),
{
    let v = trim_vec(&chars_of(id));
    let mut k: usize = 0;
    assert(v@.skip(0) =~= v@);
    while v.len() - k >= 2 && v[k] == '§' && v[k + 1] == '#'
        invariant
            k <= v.len(),
            strip_section_prefixes(v@) == strip_section_prefixes(v@.skip(k as int)),
        decreases v.len() - k,
    {
        assert(v@.skip(k as int).skip(2) =~= v@.skip(k + 2));
        k = k + 2;
    }
    let rest = slice_vec(&v, k, v.len());
    assert(rest@ =~= v@.skip(k as int));
    string_of(trim_vec(&rest).as_slice())
}

/// The preserve list to store: the valid entries, then every session token
/// that is a user or response chunk (`USR_`, `RESP_`) not already listed.
pub open spec fn merged_preserve(valid: Seq<Seq<char>>, session_ids: Seq<Seq<char>>) -> Seq<Seq<char>>
    decreases session_ids.len(),
{
    if session_ids.len() == 0 {
        valid
    } else {
        let acc = merged_preserve(valid, session_ids.drop_last());
        let id = session_ids.last();
        if acc.contains(id) {
            acc
        } else if starts_with(id, "USR_"@) || starts_with(id, "RESP_"@) {
            acc.push(id)
        } else {
            acc
        }
    }
}

pub fn merge_preserve_list(valid: &Vec<String>, session_ids: &Vec<String>) -> (r: Vec<String>)
    ensures
        sviews(r@) == merged_preserve(sviews(valid@), sviews(session_ids@)),
{
    let mut acc = chars_of_all(valid);
    let ids = chars_of_all(session_ids);
    let ghost vs = sviews(valid@);
    let ghost all = vviews(ids@);
    let usr = chars_of("USR_");
    let resp = chars_of("RESP_");
    let mut i: usize = 0;
    assert(all.take(0) =~= Seq::<Seq<char>>::empty());
    while i < ids.len()
        invariant
            i <= ids.len(),
            all == vviews(ids@),
            all == sviews(session_ids@),
            vs == sviews(valid@),
            usr@ == "USR_"@,
            resp@ == "RESP_"@,
            vviews(acc@) == merged_preserve(vs, all.take(i as int)),
        decreases ids.len() - i,
    {
        proof {
            assert(all.take(i + 1).drop_last() =~= all.take(i as int));
            assert(all.take(i + 1).last() == ids@[i as int]@);
        }
        let id = &ids[i];
        if !seen_contains(&acc, id) && (starts_with_exec(id, &usr) || starts_with_exec(id, &resp)) {
            let ghost before = vviews(acc@);
            acc.push(id.clone());
            assert(vviews(acc@) =~= before.push(id@));
        }
        i = i + 1;
    }
    assert(all.take(all.len() as int) =~= all);
    strings_of(&acc)
}


// ───────────────────────────── phase-2 retry message ─────────────────────────────

/// What `char::is_lowercase` says of `c` (Unicode `Lowercase` property).
pub uninterp spec fn is_lowercase_char(c: char) -> bool;

/// `char::is_lowercase`.
#[verifier::external_body]
fn char_is_lowercase(c: char) -> (r: bool)
    ensures
        r == is_lowercase_char(c),
{
    c.is_lowercase()
}

pub open spec fn starts_lower(s: Seq<char>) -> bool {
    s.len() > 0 && is_lowercase_char(s[0])
}

/// The name in an invalid relationship line that looks like a span marker
/// rather than a token id: the subject, else the object, when it starts
/// with a lowercase letter.
pub open spec fn span_name_of(line: Seq<char>) -> Option<Seq<char>> {
    let parts = split(line, seq!['|']);
    if parts.len() < 3 {
        None
    } else {
        let subj = trim(parts[0]);
        let obj = trim(parts[2]);
        if starts_lower(subj) {
            Some(subj)
        } else if starts_lower(obj) {
            Some(obj)
        } else {
            None
        }
    }
}

pub open spec fn span_names_of(lines: Seq<Seq<char>>) -> Seq<Seq<char>>
    decreases lines.len(),
{
    if lines.len() == 0 {
        Seq::empty()
    } else {
        let acc = span_names_of(lines.drop_last());
        match span_name_of(lines.last()) {
            Some(n) => acc.push(n),
            None => acc,
        }
    }
}

fn starts_lower_exec(s: &Vec<char>) -> (r: bool)
    ensures
        r == starts_lower(s@),
{
    s.len() > 0 && char_is_lowercase(s[0])
}

/// Names in invalid relationship lines that look like span markers.
pub fn span_name_ids(invalid_rels: &Vec<String>) -> (r: Vec<String>)
    ensures
        sviews(r@) == span_names_of(sviews(invalid_rels@)),
{
    let lines = chars_of_all(invalid_rels);
    let ghost all = vviews(lines@);
    let bar = vec!['|'];
    assert(bar@ == seq!['|']);
    let mut out: Vec<Vec<char>> = Vec::new();
    let mut i: usize = 0;
    assert(all.take(0) =~= Seq::<Seq<char>>::empty());
    assert(vviews(out@) =~= Seq::<Seq<char>>::empty());
    while i < lines.len()
        invariant
            i <= lines.len(),
            all == vviews(lines@),
            bar@ == seq!['|'],
            vviews(out@) == span_names_of(all.take(i as int)),
        decreases lines.len() - i,
    {
        proof {
            assert(all.take(i + 1).drop_last() =~= all.take(i as int));
            assert(all.take(i + 1).last() == lines@[i as int]@);
        }
        let parts = split_exec(&lines[i], &bar);
        if parts.len() >= 3 {
            let subj = trim_vec(&parts[0]);
            let obj = trim_vec(&parts[2]);
            let ghost before = vviews(out@);
            if starts_lower_exec(&subj) {
                out.push(subj);
                assert(vviews(out@) =~= before.push(subj@));
            } else if starts_lower_exec(&obj) {
                out.push(obj);
                assert(vviews(out@) =~= before.push(obj@));
            }
        }
        i = i + 1;
    }
    assert(all.take(all.len() as int) =~= all);
    strings_of(&out)
}

pub open spec fn saved_text(new: nat, rel: nat, pres: nat) -> Seq<char> {
    "Saved: "@ + dec(new) + " tokens, "@ + dec(rel) + " relationships, "@ + dec(pres)
        + " preserve entries. Do NOT re-submit these — only fix the issues below."@
}

pub open spec fn range_hint() -> Seq<char> {
    "Hint: chunk_0 alone = full chunk. chunk_0:0→chunk_0:50 = char offsets. chunk_0→chunk_1 = from start of chunk_0 to start of chunk_1. Use ACTUAL USR_T/RESP_T IDs (visible in long_tokens) as namespace prefix."@
}

pub open spec fn span_marker_text(names: Seq<Seq<char>>) -> Seq<char> {
    "IMPORTANT: these names are §^ SPAN MARKERS, not token IDs: "@ + join(names, ", "@)
        + ". Spans do NOT create tokens by themselves. Either: (1) define a referential token with the span name as its id in §#new_tokens, then reference it, or (2) use existing RESP_T/USR_T token IDs from your context instead."@
}

pub open spec fn concatenated_warning() -> Seq<char> {
    "Warning: some relationship lines appear to have >3 | fields — this usually means two lines were concatenated. Make sure each relationship is on its OWN line with exactly 3 fields."@
}

/// Some line has at least three `|`.
pub open spec fn has_concatenated(lines: Seq<Seq<char>>) -> bool {
    exists|i: int| 0 <= i < lines.len() && count_char(#[trigger] lines[i], '|') >= 3
}

/// The paragraphs of the retry message after a phase-2 response with
/// problems: what was saved, the range specs to fix (with a hint), the
/// unknown relationships (with notes on span names and concatenated lines),
/// the unknown preserve entries.
pub open spec fn retry_parts(
    token_count: nat,
    range_issues: Seq<Seq<char>>,
    saved_rels: nat,
    invalid_rels: Seq<Seq<char>>,
    span_names: Seq<Seq<char>>,
    saved_preserve: nat,
    invalid_preserve: Seq<Seq<char>>,
) -> Seq<Seq<char>> {
    let saved_new: nat = if token_count >= range_issues.len() {
        (token_count - range_issues.len()) as nat
    } else {
        0
    };
    let p1 = if saved_new > 0 || saved_rels > 0 || saved_preserve > 0 {
        seq![saved_text(saved_new, saved_rels, saved_preserve)]
    } else {
        Seq::empty()
    };
    let p2 = if range_issues.len() > 0 {
        seq![
            "Range specs to fix (tokens stored without ranges): "@ + join(range_issues, "; "@),
            range_hint(),
        ]
    } else {
        Seq::empty()
    };
    let p3 = if invalid_rels.len() > 0 {
        seq![
            "Invalid relationships to fix ("@ + dec(invalid_rels.len()) + " total): "@ + join(
                invalid_rels,
                "; "@,
            ),
        ] + (if span_names.len() > 0 {
            seq![span_marker_text(span_names)]
        } else {
            Seq::empty()
        }) + (if has_concatenated(invalid_rels) {
            seq![concatenated_warning()]
        } else {
            Seq::empty()
        })
    } else {
        Seq::empty()
    };
    let p4 = if invalid_preserve.len() > 0 {
        seq![
            "Invalid preserve entries: "@ + join(invalid_preserve, ", "@)
                + ". Remove them from §#preserve or define them first."@,
        ]
    } else {
        Seq::empty()
    };
    p1 + p2 + p3 + p4
}

fn joined(v: &Vec<String>, sep: &str) -> (r: Vec<char>)
    ensures
        r@ == join(sviews(v@), sep@),
{
    join_exec(&chars_of_all(v), &chars_of(sep))
}

fn push_part(parts: &mut Vec<Vec<char>>, p: Vec<char>)
    ensures
        vviews(final(parts)@) == vviews(old(parts)@).push(p@),
{
    let ghost before = vviews(parts@);
    parts.push(p);
    assert(vviews(parts@) =~= before.push(p@));
}

fn any_concatenated(lines: &Vec<String>) -> (r: bool)
    ensures
        r == has_concatenated(sviews(lines@)),
{
    let mut i: usize = 0;
    while i < lines.len()
        invariant
            i <= lines.len(),
            forall|k: int| 0 <= k < i ==> count_char(#[trigger] sviews(lines@)[k], '|') < 3,
        decreases lines.len() - i,
    {
        let c = chars_of(lines[i].as_str());
        assert(c@.subrange(0, c@.len() as int) =~= c@);
        if count_char_exec(&c, 0, c.len(), '|') >= 3 {
            assert(sviews(lines@)[i as int] == c@);
            return true;
        }
        i = i + 1;
    }
    false
}

/// The retry message after a phase-2 response: `None` when there is
/// nothing to fix, otherwise the paragraphs of `retry_parts` separated by
/// blank lines. `span_names` are the names `span_name_ids` finds in
/// `invalid_rels`.
pub fn phase2_retry_message(
    token_count: usize,
    range_issues: &Vec<String>,
    saved_rels: usize,
    invalid_rels: &Vec<String>,
    span_names: &Vec<String>,
    saved_preserve: usize,
    invalid_preserve: &Vec<String>,
) -> (r: Option<String>)
    ensures
        r is None <==> (range_issues@.len() == 0 && invalid_rels@.len() == 0
            && invalid_preserve@.len() == 0),
        r matches Some(m) ==> m@ == join(
            retry_parts(
                token_count as nat,
                sviews(range_issues@),
                saved_rels as nat,
                sviews(invalid_rels@),
                sviews(span_names@),
                saved_preserve as nat,
                sviews(invalid_preserve@),
            ),
            "\n\n"@,
        ),
{
    if range_issues.len() == 0 && invalid_rels.len() == 0 && invalid_preserve.len() == 0 {
        return None;
    }
    let mut parts: Vec<Vec<char>> = Vec::new();
    let saved_new: usize = if token_count >= range_issues.len() {
        token_count - range_issues.len()
    } else {
        0
    };
    if saved_new > 0 || saved_rels > 0 || saved_preserve > 0 {
        let mut s = chars_of("Saved: ");
        push_dec(&mut s, saved_new as u64);
        push_all(&mut s, &chars_of(" tokens, "));
        push_dec(&mut s, saved_rels as u64);
        push_all(&mut s, &chars_of(" relationships, "));
        push_dec(&mut s, saved_preserve as u64);
        push_all(
            &mut s,
            &chars_of(" preserve entries. Do NOT re-submit these — only fix the issues below."),
        );
        push_part(&mut parts, s);
    }
    let ghost after1 = vviews(parts@);
    if range_issues.len() > 0 {
        let mut s = chars_of("Range specs to fix (tokens stored without ranges): ");
        push_all(&mut s, &joined(range_issues, "; "));
        push_part(&mut parts, s);
        push_part(
            &mut parts,
            chars_of(
                "Hint: chunk_0 alone = full chunk. chunk_0:0→chunk_0:50 = char offsets. chunk_0→chunk_1 = from start of chunk_0 to start of chunk_1. Use ACTUAL USR_T/RESP_T IDs (visible in long_tokens) as namespace prefix.",
            ),
        );
    }
    let ghost after2 = vviews(parts@);
    if invalid_rels.len() > 0 {
        let mut s = chars_of("Invalid relationships to fix (");
        push_dec(&mut s, invalid_rels.len() as u64);
        push_all(&mut s, &chars_of(" total): "));
        push_all(&mut s, &joined(invalid_rels, "; "));
        push_part(&mut parts, s);
        if span_names.len() > 0 {
            let mut m = chars_of("IMPORTANT: these names are §^ SPAN MARKERS, not token IDs: ");
            push_all(&mut m, &joined(span_names, ", "));
            push_all(
                &mut m,
                &chars_of(
                    ". Spans do NOT create tokens by themselves. Either: (1) define a referential token with the span name as its id in §#new_tokens, then reference it, or (2) use existing RESP_T/USR_T token IDs from your context instead.",
                ),
            );
            push_part(&mut parts, m);
        }
        if any_concatenated(invalid_rels) {
            push_part(
                &mut parts,
                chars_of(
                    "Warning: some relationship lines appear to have >3 | fields — this usually means two lines were concatenated. Make sure each relationship is on its OWN line with exactly 3 fields.",
                ),
            );
        }
    }
    let ghost after3 = vviews(parts@);
    if invalid_preserve.len() > 0 {
        let mut s = chars_of("Invalid preserve entries: ");
        push_all(&mut s, &joined(invalid_preserve, ", "));
        push_all(&mut s, &chars_of(". Remove them from §#preserve or define them first."));
        push_part(&mut parts, s);
    }
    assert(vviews(parts@) =~= retry_parts(
        token_count as nat,
        sviews(range_issues@),
        saved_rels as nat,
        sviews(invalid_rels@),
        sviews(span_names@),
        saved_preserve as nat,
        sviews(invalid_preserve@),
    ));
    Some(string_of(join_exec(&parts, &chars_of("\n\n")).as_slice()))
}

} // verus!
