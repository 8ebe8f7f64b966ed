//! Turn-close compliance rules for Squire responses.

use vstd::prelude::*;
use crate::protocol::{
    check_malformed_sigils, extract_inline_refs, extract_span_refs, extract_spans,
    inline_refs, opt_view, pair_views, sigil_error_from, span_refs, spans,
};
use crate::text::{
    chars_of, lit, contains, contains_exec, push_all, starts_with, starts_with_exec, string_of, sviews,
};
use crate::types::{ComplianceFailure, NewTokenSpec, Relationship, SquireResponse};

verus! {

/// Ids of the tokens the response defines itself.
pub open spec fn new_token_ids(resp: SquireResponse) -> Seq<Seq<char>> {
    resp.new_tokens@.map_values(|t: NewTokenSpec| t.id@)
}

/// Whether the response defines a token with this id.
pub open spec fn defined_inline(resp: SquireResponse, id: Seq<char>) -> bool {
    new_token_ids(resp).contains(id)
}

/// Subjects and objects of the relationships, in order (`subject`, `object`, …).
pub open spec fn relationship_ids(rels: Seq<Relationship>) -> Seq<Seq<char>>
    decreases rels.len(),
{
    if rels.len() == 0 {
        Seq::empty()
    } else {
        relationship_ids(rels.drop_last()) + seq![rels.last().subject@, rels.last().object@]
    }
}

/// Walks `ids` in order. Ids the response defines are accepted outright; every
/// other id is looked up, consuming the next answer of `answers` (a missing
/// answer counts as "unknown"). Returns the first id found unknown, if any,
/// and the ids that were looked up.
pub open spec fn scan(ids: Seq<Seq<char>>, resp: SquireResponse, answers: Seq<bool>) -> (
    Option<Seq<char>>,
    Seq<Seq<char>>,
)
    decreases ids.len(),
{
    if ids.len() == 0 {
        (None, Seq::empty())
    } else if defined_inline(resp, ids[0]) {
        scan(ids.drop_first(), resp, answers)
    } else if answers.len() == 0 || !answers[0] {
        (Some(ids[0]), seq![ids[0]])
    } else {
        let rest = scan(ids.drop_first(), resp, answers.drop_first());
        (rest.0, seq![ids[0]] + rest.1)
    }
}

/// The compliance verdict (spec §8.3) for `resp`, given the successive
/// answers of the "is this token known to the store?" lookups, together with
/// the ids looked up, in order.
pub open spec fn verdict(resp: SquireResponse, answers: Seq<bool>) -> (
    Result<(), Seq<char>>,
    Seq<Seq<char>>,
) {
    let content = resp.content@;
    if resp.ask_user@.len() > 0 && content.len() > 0 {
        (Err("ask_user and content cannot coexist"@), Seq::empty())
    } else if resp.ask_user@.len() > 0 {
        (Ok(()), Seq::empty())
    } else if content.len() == 0 && resp.new_tokens@.len() == 0 && resp.relationships@.len() == 0
        && resp.preserve@.len() == 0 {
        (Err("empty close response"@), Seq::empty())
    } else if sigil_error_from(content, 0) is Some {
        (Err(sigil_error_from(content, 0)->0), Seq::empty())
    } else {
        let s5 = scan(inline_refs(content), resp, answers);
        let a7 = answers.skip(s5.1.len() as int);
        if s5.0 is Some {
            (Err("undisplayable token §!"@ + s5.0->0), s5.1)
        } else if spans(content).1 is Some {
            (Err("unclosed §^ span "@ + spans(content).1->0), s5.1)
        } else {
            let s7 = scan(span_refs(content), resp, a7);
            let q7 = s5.1 + s7.1;
            if s7.0 is Some {
                (Err("undisplayable span reference §^"@ + s7.0->0), q7)
            } else {
                let s8 = scan(sviews(resp.preserve@), resp, answers.skip(q7.len() as int));
                let q8 = q7 + s8.1;
                if s8.0 is Some {
                    (Err("preserved token does not exist: "@ + s8.0->0), q8)
                } else {
                    let s9 = scan(
                        relationship_ids(resp.relationships@),
                        resp,
                        answers.skip(q8.len() as int),
                    );
                    let q9 = q8 + s9.1;
                    if s9.0 is Some {
                        (Err("relationship references unknown token: "@ + s9.0->0), q9)
                    } else {
                        (Ok(()), q9)
                    }
                }
            }
        }
    }
}

/// The outcome seen through its reason text.
pub open spec fn outcome_view(r: Result<(), ComplianceFailure>) -> Result<(), Seq<char>> {
    match r {
        Ok(()) => Ok(()),
        Err(f) => Err(f.reason@),
    }
}

/// `f` answered `b` when asked about some string slice with text `id`.
pub open spec fn answered<F: Fn(&str) -> bool>(f: F, id: Seq<char>, b: bool) -> bool {
    exists|x: &str| x@ == id && call_ensures(f, (x,), b)
}

/// Whether the response defines a token with this id.
fn is_defined_inline(resp: &SquireResponse, id: &String) -> (r: bool)
    ensures
        r == defined_inline(*resp, id@),
{
    let mut k: usize = 0;
    while k < resp.new_tokens.len()
        invariant
            k <= resp.new_tokens.len(),
            forall|m: int| 0 <= m < k ==> new_token_ids(*resp)[m] != id@,
        decreases resp.new_tokens.len() - k,
    {
        if resp.new_tokens[k].id == *id {
            assert(new_token_ids(*resp)[k as int] == id@);
            return true;
        }
        k = k + 1;
    }
    false
}

/// Finds the first id of `ids` that the response does not define and `f`
/// does not know, asking `f` about each undefined id in order.
fn first_unresolved<F: Fn(&str) -> bool>(ids: &Vec<String>, resp: &SquireResponse, f: &F) -> (r: (
    Option<String>,
    Ghost<Seq<bool>>,
))
    requires
        forall|x: &str| call_requires(*f, (x,)),
    ensures
        scan(sviews(ids@), *resp, r.1@).0 == opt_view(r.0),
        scan(sviews(ids@), *resp, r.1@).1.len() == r.1@.len(),
        forall|k: int|
            0 <= k < r.1@.len() ==> answered(*f, #[trigger] scan(sviews(ids@), *resp, r.1@).1[k], r.1@[k]),
{
    let ghost all = sviews(ids@);
    let ghost mut ans: Seq<bool> = Seq::empty();
    let ghost mut asked: Seq<Seq<char>> = Seq::empty();
    assert(all.skip(0) =~= all);
    assert forall|tail: Seq<bool>| #[trigger] scan(all, *resp, ans + tail) == (
        scan(all.skip(0), *resp, tail).0,
        asked + scan(all.skip(0), *resp, tail).1,
    ) by {
        assert(ans + tail =~= tail);
        assert(asked + scan(all, *resp, tail).1 =~= scan(all, *resp, tail).1);
    }
    let mut i: usize = 0;
    while i < ids.len()
        invariant
            i <= ids.len(),
            all == sviews(ids@),
            forall|x: &str| call_requires(*f, (x,)),
            ans.len() == asked.len(),
            forall|k: int| 0 <= k < ans.len() ==> answered(*f, #[trigger] asked[k], ans[k]),
            forall|tail: Seq<bool>| #[trigger] scan(all, *resp, ans + tail) == (
                scan(all.skip(i as int), *resp, tail).0,
                asked + scan(all.skip(i as int), *resp, tail).1,
            ),
        decreases ids.len() - i,
    {
        let id = &ids[i];
        assert(all.skip(i as int)[0] == id@);
        assert(all.skip(i as int).drop_first() =~= all.skip(i + 1));
        if is_defined_inline(resp, id) {
            i = i + 1;
            continue;
        }
        let b = f(id.as_str());
        let ghost old_ans = ans;
        let ghost old_asked = asked;
        proof {
            assert(answered(*f, id@, b));
            ans = ans.push(b);
            asked = asked.push(id@);
        }
        if !b {
            proof {
                let t2 = seq![false];
                assert(old_ans + t2 =~= ans);
                assert(old_asked + seq![id@] =~= asked);
                assert(scan(all, *resp, ans) == (Some(id@), asked));
                assert(ans + Seq::<bool>::empty() =~= ans);
            }
            return (Some(id.clone()), Ghost(ans));
        }
        proof {
            assert forall|tail: Seq<bool>| #[trigger] scan(all, *resp, ans + tail) == (
                scan(all.skip(i + 1), *resp, tail).0,
                asked + scan(all.skip(i + 1), *resp, tail).1,
            ) by {
                let t2 = seq![true] + tail;
                assert(old_ans + t2 =~= ans + tail);
                assert(t2.drop_first() =~= tail);
                assert(old_asked + (seq![id@] + scan(all.skip(i + 1), *resp, tail).1)
                    =~= asked + scan(all.skip(i + 1), *resp, tail).1);
            }
        }
        i = i + 1;
    }
    proof {
        assert(ans + Seq::<bool>::empty() =~= ans);
        assert(all.skip(i as int).len() == 0);
        assert(asked + Seq::<Seq<char>>::empty() =~= asked);
    }
    (None, Ghost(ans))
}

/// Extra answers beyond those a scan consumes do not change it.
pub proof fn lemma_scan_extend(ids: Seq<Seq<char>>, resp: SquireResponse, a: Seq<bool>, b: Seq<bool>)
    requires
        scan(ids, resp, a).1.len() == a.len(),
    ensures
        scan(ids, resp, a + b) == scan(ids, resp, a),
    decreases ids.len(),
{
    if ids.len() == 0 {
    } else if defined_inline(resp, ids[0]) {
        lemma_scan_extend(ids.drop_first(), resp, a, b);
    } else if a.len() == 0 {
    } else {
        assert((a + b)[0] == a[0]);
        if a[0] {
            assert((a + b).drop_first() =~= a.drop_first() + b);
            lemma_scan_extend(ids.drop_first(), resp, a.drop_first(), b);
        }
    }
}

/// Subjects and objects of the relationships, in order.
fn relationship_id_list(rels: &Vec<Relationship>) -> (r: Vec<String>)
    ensures
        sviews(r@) == relationship_ids(rels@),
{
    let mut out: Vec<String> = Vec::new();
    let mut k: usize = 0;
    while k < rels.len()
        invariant
            k <= rels.len(),
            sviews(out@) == relationship_ids(rels@.subrange(0, k as int)),
        decreases rels.len() - k,
    {
        assert(rels@.subrange(0, k + 1).drop_last() =~= rels@.subrange(0, k as int));
        let ghost o = sviews(out@);
        let a = rels[k].subject.clone();
        let b = rels[k].object.clone();
        out.push(a);
        out.push(b);
        assert(sviews(out@) =~= o + seq![rels@[k as int].subject@, rels@[k as int].object@]);
        k = k + 1;
    }
    assert(rels@.subrange(0, rels@.len() as int) =~= rels@);
    out
}

/// A failure whose reason is `prefix` followed by `id`.
fn failure(prefix: &str, id: &String) -> (r: ComplianceFailure)
    ensures
        r.reason@ == prefix@ + id@,
{
    let mut v = chars_of(prefix);
    push_all(&mut v, &chars_of(id.as_str()));
    ComplianceFailure { reason: string_of(v.as_slice()) }
}

/// Validity rules of spec §8.3, checked in order: `ask_user` and `content`
/// are exclusive; `ask_user` alone is valid; an empty close response is
/// rejected; no malformed `§` sigil; every `§!` reference resolves; no unclosed
/// `§^` span; every `§^` reference resolves; every preserved token resolves;
/// every relationship end resolves. An id resolves when the response defines
/// it in `new_tokens` or `token_known` reports it known.
pub fn validate_squire_response(resp: &SquireResponse, token_known: impl Fn(&str) -> bool) -> (r:
    Result<(), ComplianceFailure>)
    requires
        forall|x: &str| call_requires(token_known, (x,)),
    ensures
        exists|answers: Seq<bool>|
            {
                let v = #[trigger] verdict(*resp, answers);
                &&& outcome_view(r) == v.0
                &&& v.1.len() == answers.len()
                &&& forall|k: int|
                    0 <= k < answers.len() ==> answered(token_known, #[trigger] v.1[k], answers[k])
            },
{
    let ghost none: Seq<bool> = Seq::empty();
    let has_ask = !resp.ask_user.as_str().is_empty();
    let has_content = !resp.content.as_str().is_empty();
    if has_ask && has_content {
        let r = Err(ComplianceFailure { reason: string_of(chars_of("ask_user and content cannot coexist").as_slice()) });
        assert(verdict(*resp, none).1.len() == 0);
        return r;
    }
    if has_ask {
        assert(verdict(*resp, none).1.len() == 0);
        return Ok(());
    }
    if !has_content && resp.new_tokens.len() == 0 && resp.relationships.len() == 0
        && resp.preserve.len() == 0 {
        let r = Err(ComplianceFailure { reason: string_of(chars_of("empty close response").as_slice()) });
        assert(verdict(*resp, none).1.len() == 0);
        return r;
    }
    let content = resp.content.as_str();
    match check_malformed_sigils(content) {
        Err(f) => {
            assert(verdict(*resp, none).1.len() == 0);
            return Err(f);
        },
        Ok(()) => {},
    }
    let ghost c = resp.content@;
    let refs = extract_inline_refs(content);
    let (u5, Ghost(g5)) = first_unresolved(&refs, resp, &token_known);
    let ghost s5 = scan(inline_refs(c), *resp, g5);
    if let Some(id) = u5 {
        let r = Err(failure("undisplayable token §!", &id));
        proof {
            assert(g5 + none =~= g5);
            assert(verdict(*resp, g5).0 == outcome_view(r));
        }
        return r;
    }
    let (_, unclosed) = extract_spans(content);
    if let Some(u) = unclosed {
        let r = Err(failure("unclosed §^ span ", &u));
        proof {
            assert(verdict(*resp, g5).0 == outcome_view(r));
        }
        return r;
    }
    let srefs = extract_span_refs(content);
    let (u7, Ghost(g7)) = first_unresolved(&srefs, resp, &token_known);
    let ghost s7 = scan(span_refs(c), *resp, g7);
    proof {
        lemma_scan_extend(inline_refs(c), *resp, g5, g7);
        assert((g5 + g7).skip(g5.len() as int) =~= g7);
    }
    if let Some(id) = u7 {
        let r = Err(failure("undisplayable span reference §^", &id));
        proof {
            assert(verdict(*resp, g5 + g7).0 == outcome_view(r));
            assert(verdict(*resp, g5 + g7).1 =~= s5.1 + s7.1);
        }
        return r;
    }
    let (u8_, Ghost(g8)) = first_unresolved(&resp.preserve, resp, &token_known);
    let ghost s8 = scan(sviews(resp.preserve@), *resp, g8);
    proof {
        lemma_scan_extend(inline_refs(c), *resp, g5, g7 + g8);
        assert(g5 + (g7 + g8) =~= (g5 + g7) + g8);
        lemma_scan_extend(span_refs(c), *resp, g7, g8);
        assert((g5 + g7 + g8).skip(g5.len() as int) =~= g7 + g8);
        assert((g5 + g7 + g8).skip((g5.len() + g7.len()) as int) =~= g8);
    }
    if let Some(id) = u8_ {
        let r = Err(failure("preserved token does not exist: ", &id));
        proof {
            assert(verdict(*resp, g5 + g7 + g8).0 == outcome_view(r));
            assert(verdict(*resp, g5 + g7 + g8).1 =~= s5.1 + s7.1 + s8.1);
        }
        return r;
    }
    let rel_ids = relationship_id_list(&resp.relationships);
    let (u9, Ghost(g9)) = first_unresolved(&rel_ids, resp, &token_known);
    let ghost s9 = scan(relationship_ids(resp.relationships@), *resp, g9);
    let ghost all = g5 + g7 + g8 + g9;
    proof {
        assert(all =~= g5 + (g7 + g8 + g9));
        lemma_scan_extend(inline_refs(c), *resp, g5, g7 + g8 + g9);
        assert(g7 + g8 + g9 =~= g7 + (g8 + g9));
        lemma_scan_extend(span_refs(c), *resp, g7, g8 + g9);
        lemma_scan_extend(sviews(resp.preserve@), *resp, g8, g9);
        assert(all.skip(g5.len() as int) =~= g7 + g8 + g9);
        assert(all.skip((g5.len() + g7.len()) as int) =~= g8 + g9);
        assert(all.skip((g5.len() + g7.len() + g8.len()) as int) =~= g9);
    }
    let r = match u9 {
        Some(id) => Err(failure("relationship references unknown token: ", &id)),
        None => Ok(()),
    };
    proof {
        let v = verdict(*resp, all);
        assert(v.0 == outcome_view(r));
        assert(v.1 =~= s5.1 + s7.1 + s8.1 + s9.1);
        assert forall|k: int| 0 <= k < all.len() implies answered(token_known, #[trigger] v.1[k], all[k]) by {
            if k < g5.len() {
                assert(v.1[k] == s5.1[k]);
                assert(all[k] == g5[k]);
            } else if k < g5.len() + g7.len() {
                assert(v.1[k] == s7.1[k - g5.len()]);
                assert(all[k] == g7[k - g5.len()]);
            } else if k < g5.len() + g7.len() + g8.len() {
                assert(v.1[k] == s8.1[k - g5.len() - g7.len()]);
                assert(all[k] == g8[k - g5.len() - g7.len()]);
            } else {
                assert(v.1[k] == s9.1[k - g5.len() - g7.len() - g8.len()]);
                assert(all[k] == g9[k - g5.len() - g7.len() - g8.len()]);
            }
        }
    }
    r
}

/// Short, stable rule id for a free-text rejection reason.
pub open spec fn rejection_rule(reason: Seq<char>) -> Seq<char> {
    if contains(reason, "not valid Squire protocol JSON"@) {
        "malformed_json"@
    } else if contains(reason, "ask_user and content cannot coexist"@) {
        "ask_user_content_conflict"@
    } else if contains(reason, "empty close response"@) {
        "empty_close_response"@
    } else if starts_with(reason, "undisplayable token"@) {
        "undisplayable_token"@
    } else if starts_with(reason, "undisplayable span reference"@) {
        "undisplayable_span_reference"@
    } else if starts_with(reason, "malformed sigil"@) {
        "malformed_sigil"@
    } else if starts_with(reason, "unclosed"@) {
        "unclosed_span"@
    } else if contains(reason, "preserved token does not exist"@) {
        "preserve_token_unknown"@
    } else if contains(reason, "relationship references unknown token"@) {
        "relationship_unknown_token"@
    } else if contains(reason, "non-invocable token"@) {
        "non_invocable_token"@
    } else if contains(reason, "unrecognized section"@) {
        "unrecognized_section"@
    } else {
        "other"@
    }
}

/// Best-effort classification of a rejection reason into a stable rule id.
pub fn classify_rejection_rule(reason: &str) -> (r: String)
    ensures
        r@ == rejection_rule(reason@),
{
    let v = chars_of(reason);
    if contains_exec(&v, &chars_of("not valid Squire protocol JSON")) {
        lit("malformed_json")
    } else if contains_exec(&v, &chars_of("ask_user and content cannot coexist")) {
        lit("ask_user_content_conflict")
    } else if contains_exec(&v, &chars_of("empty close response")) {
        lit("empty_close_response")
    } else if starts_with_exec(&v, &chars_of("undisplayable token")) {
        lit("undisplayable_token")
    } else if starts_with_exec(&v, &chars_of("undisplayable span reference")) {
        lit("undisplayable_span_reference")
    } else if starts_with_exec(&v, &chars_of("malformed sigil")) {
        lit("malformed_sigil")
    } else if starts_with_exec(&v, &chars_of("unclosed")) {
        lit("unclosed_span")
    } else if contains_exec(&v, &chars_of("preserved token does not exist")) {
        lit("preserve_token_unknown")
    } else if contains_exec(&v, &chars_of("relationship references unknown token")) {
        lit("relationship_unknown_token")
    } else if contains_exec(&v, &chars_of("non-invocable token")) {
        lit("non_invocable_token")
    } else if contains_exec(&v, &chars_of("unrecognized section")) {
        lit("unrecognized_section")
    } else {
        lit("other")
    }
}


// ───────────────────────────── laws ─────────────────────────────

/// A question for the user, with no content, is accepted without looking
/// any token up.
pub proof fn law_question_alone_is_accepted(resp: SquireResponse, answers: Seq<bool>)
    requires
        resp.ask_user@.len() > 0,
        resp.content@.len() == 0,
    ensures
        verdict(resp, answers) == (Ok::<(), Seq<char>>(()), Seq::<Seq<char>>::empty()),
{
}

proof fn lemma_scan_known(ids: Seq<Seq<char>>, resp: SquireResponse, answers: Seq<bool>)
    requires
        answers.len() >= ids.len(),
        forall|i: int| 0 <= i < answers.len() ==> #[trigger] answers[i],
    ensures
        scan(ids, resp, answers).0 is None,
        scan(ids, resp, answers).1.len() <= ids.len(),
        forall|k: int|
            0 <= k < scan(ids, resp, answers).1.len() ==> !defined_inline(
                resp,
                #[trigger] scan(ids, resp, answers).1[k],
            ),
    decreases ids.len(),
{
    if ids.len() > 0 {
        if defined_inline(resp, ids[0]) {
            lemma_scan_known(ids.drop_first(), resp, answers);
        } else {
            assert(answers[0]);
            let a = answers.drop_first();
            assert forall|i: int| 0 <= i < a.len() implies #[trigger] a[i] by {
                assert(a[i] == answers[i + 1]);
            }
            lemma_scan_known(ids.drop_first(), resp, a);
            let rest = scan(ids.drop_first(), resp, a);
            let out = seq![ids[0]] + rest.1;
            assert forall|k: int| 0 <= k < out.len() implies !defined_inline(resp, #[trigger] out[k]) by {
                if k > 0 {
                    assert(out[k] == rest.1[k - 1]);
                }
            }
        }
    }
}

proof fn lemma_skip_known(answers: Seq<bool>, n: int)
    requires
        0 <= n <= answers.len(),
        forall|i: int| 0 <= i < answers.len() ==> #[trigger] answers[i],
    ensures
        forall|i: int| 0 <= i < answers.skip(n).len() ==> #[trigger] answers.skip(n)[i],
{
    assert forall|i: int| 0 <= i < answers.skip(n).len() implies #[trigger] answers.skip(n)[i] by {
        assert(answers.skip(n)[i] == answers[i + n]);
    }
}

/// When every token the response does not define itself is known to the
/// store, a response that is neither empty nor a conflicting question, with
/// well-formed sigils and every span closed, is accepted.
pub proof fn law_known_tokens_are_accepted(resp: SquireResponse, answers: Seq<bool>)
    requires
        resp.ask_user@.len() == 0,
        !(resp.content@.len() == 0 && resp.new_tokens@.len() == 0 && resp.relationships@.len() == 0
            && resp.preserve@.len() == 0),
        sigil_error_from(resp.content@, 0) is None,
        spans(resp.content@).1 is None,
        forall|i: int| 0 <= i < answers.len() ==> #[trigger] answers[i],
        answers.len() >= inline_refs(resp.content@).len() + span_refs(resp.content@).len()
            + resp.preserve@.len() + relationship_ids(resp.relationships@).len(),
    ensures
        verdict(resp, answers).0 == Ok::<(), Seq<char>>(()),
{
    let content = resp.content@;
    let s5 = scan(inline_refs(content), resp, answers);
    lemma_scan_known(inline_refs(content), resp, answers);
    let a7 = answers.skip(s5.1.len() as int);
    lemma_skip_known(answers, s5.1.len() as int);
    let s7 = scan(span_refs(content), resp, a7);
    lemma_scan_known(span_refs(content), resp, a7);
    let q7 = s5.1 + s7.1;
    let a8 = answers.skip(q7.len() as int);
    lemma_skip_known(answers, q7.len() as int);
    assert(sviews(resp.preserve@).len() == resp.preserve@.len());
    let s8 = scan(sviews(resp.preserve@), resp, a8);
    lemma_scan_known(sviews(resp.preserve@), resp, a8);
    let q8 = q7 + s8.1;
    let a9 = answers.skip(q8.len() as int);
    lemma_skip_known(answers, q8.len() as int);
    lemma_scan_known(relationship_ids(resp.relationships@), resp, a9);
}

/// A scan that found nothing unknown made only lookups answered "known", and
/// answers that also say "known" to each of those lookups leave it unchanged.
proof fn lemma_scan_confirmed(ids: Seq<Seq<char>>, resp: SquireResponse, a: Seq<bool>, b: Seq<bool>)
    requires
        scan(ids, resp, a).0 is None,
        scan(ids, resp, a).1.len() <= b.len(),
        forall|k: int| 0 <= k < scan(ids, resp, a).1.len() ==> #[trigger] b[k],
    ensures
        scan(ids, resp, b) == scan(ids, resp, a),
        scan(ids, resp, a).1.len() <= a.len(),
        forall|k: int| 0 <= k < scan(ids, resp, a).1.len() ==> #[trigger] a[k],
    decreases ids.len(),
{
    if ids.len() == 0 {
    } else if defined_inline(resp, ids[0]) {
        assert(scan(ids, resp, a) == scan(ids.drop_first(), resp, a));
        assert(scan(ids, resp, b) == scan(ids.drop_first(), resp, b));
        lemma_scan_confirmed(ids.drop_first(), resp, a, b);
    } else {
        assert(a.len() > 0 && a[0]);
        let a1 = a.drop_first();
        let b1 = b.drop_first();
        let rest = scan(ids.drop_first(), resp, a1);
        assert(scan(ids, resp, a).1 == seq![ids[0]] + rest.1);
        assert(b[0]);
        assert forall|k: int| 0 <= k < rest.1.len() implies #[trigger] b1[k] by {
            assert(b[k + 1]);
        }
        lemma_scan_confirmed(ids.drop_first(), resp, a1, b1);
        assert forall|k: int| 0 <= k < scan(ids, resp, a).1.len() implies #[trigger] a[k] by {
            if k > 0 {
                assert(a1[k - 1]);
            }
        }
    }
}

/// Knowing more tokens never turns an accepted response into a rejected one:
/// every lookup an accepted verdict made was answered "known", and any
/// answers that also say "known" to each of those lookups give the same
/// verdict, with the same lookups.
pub proof fn law_acceptance_survives_more_known_tokens(
    resp: SquireResponse,
    a: Seq<bool>,
    b: Seq<bool>,
)
    requires
        verdict(resp, a).0 is Ok,
        verdict(resp, a).1.len() <= b.len(),
        forall|k: int| 0 <= k < verdict(resp, a).1.len() ==> #[trigger] b[k],
    ensures
        verdict(resp, a).1.len() <= a.len(),
        forall|k: int| 0 <= k < verdict(resp, a).1.len() ==> #[trigger] a[k],
        verdict(resp, b) == verdict(resp, a),
{
    let content = resp.content@;
    if resp.ask_user@.len() > 0 || (content.len() == 0 && resp.new_tokens@.len() == 0
        && resp.relationships@.len() == 0 && resp.preserve@.len() == 0) || sigil_error_from(
        content,
        0,
    ) is Some {
        return;
    }
    let q = verdict(resp, a).1;
    let s5 = scan(inline_refs(content), resp, a);
    let n5 = s5.1.len() as int;
    let s7 = scan(span_refs(content), resp, a.skip(n5));
    let n7 = n5 + s7.1.len();
    let s8 = scan(sviews(resp.preserve@), resp, a.skip(n7));
    let n8 = n7 + s8.1.len();
    let s9 = scan(relationship_ids(resp.relationships@), resp, a.skip(n8));
    assert(q == s5.1 + s7.1 + s8.1 + s9.1);
    assert forall|k: int| 0 <= k < s5.1.len() implies #[trigger] b[k] by {
        assert(k < q.len());
    }
    lemma_scan_confirmed(inline_refs(content), resp, a, b);
    assert forall|k: int| 0 <= k < s7.1.len() implies #[trigger] b.skip(n5)[k] by {
        assert(b[n5 + k]);
    }
    lemma_scan_confirmed(span_refs(content), resp, a.skip(n5), b.skip(n5));
    assert forall|k: int| 0 <= k < s8.1.len() implies #[trigger] b.skip(n7)[k] by {
        assert(b[n7 + k]);
    }
    lemma_scan_confirmed(sviews(resp.preserve@), resp, a.skip(n7), b.skip(n7));
    assert forall|k: int| 0 <= k < s9.1.len() implies #[trigger] b.skip(n8)[k] by {
        assert(b[n8 + k]);
    }
    lemma_scan_confirmed(relationship_ids(resp.relationships@), resp, a.skip(n8), b.skip(n8));
    assert forall|k: int| 0 <= k < q.len() implies #[trigger] a[k] by {
        if k < n5 {
        } else if k < n7 {
            assert(a.skip(n5)[k - n5]);
        } else if k < n8 {
            assert(a.skip(n7)[k - n7]);
        } else {
            assert(a.skip(n8)[k - n8]);
        }
    }
}


/// Knowing more tokens never turns an accepted response into a rejected
/// one, with the lookups answered by token predicates: when `known1`'s
/// answers to the lookups make the verdict accept and every token `known1`
/// knows `known2` knows too, `known2`'s answers to those lookups give the
/// same verdict.
pub proof fn law_knowing_more_tokens_keeps_acceptance(
    resp: SquireResponse,
    a: Seq<bool>,
    known1: spec_fn(Seq<char>) -> bool,
    known2: spec_fn(Seq<char>) -> bool,
)
    requires
        verdict(resp, a).0 is Ok,
        a == verdict(resp, a).1.map_values(|id: Seq<char>| known1(id)),
        forall|id: Seq<char>| #[trigger] known1(id) ==> known2(id),
    ensures
        verdict(resp, verdict(resp, a).1.map_values(|id: Seq<char>| known2(id))) == verdict(resp, a),
{
    let q = verdict(resp, a).1;
    let b = q.map_values(|id: Seq<char>| known2(id));
    let yes = Seq::new(q.len(), |i: int| true);
    law_acceptance_survives_more_known_tokens(resp, a, yes);
    assert forall|k: int| 0 <= k < q.len() implies #[trigger] b[k] by {
        assert(a[k]);
        assert(a[k] == known1(q[k]));
        assert(known1(q[k]));
    }
    law_acceptance_survives_more_known_tokens(resp, a, b);
}

/// `id` was looked up (in `q`, answered by `a`) and found known.
pub open spec fn looked_up_known(q: Seq<Seq<char>>, a: Seq<bool>, id: Seq<char>) -> bool {
    exists|k: int| 0 <= k < q.len() && k < a.len() && q[k] == id && a[k]
}

/// Every id of `ids` is defined by the response or was looked up and found
/// known.
pub open spec fn all_resolve(resp: SquireResponse, ids: Seq<Seq<char>>, q: Seq<Seq<char>>, a: Seq<bool>) -> bool {
    forall|i: int| 0 <= i < ids.len() ==> defined_inline(resp, #[trigger] ids[i]) || looked_up_known(q, a, ids[i])
}

proof fn lemma_scan_covers(ids: Seq<Seq<char>>, resp: SquireResponse, a: Seq<bool>)
    requires
        scan(ids, resp, a).0 is None,
    ensures
        all_resolve(resp, ids, scan(ids, resp, a).1, a),
    decreases ids.len(),
{
    if ids.len() > 0 {
        let s = scan(ids, resp, a);
        if defined_inline(resp, ids[0]) {
            lemma_scan_covers(ids.drop_first(), resp, a);
            assert forall|i: int| 0 <= i < ids.len() implies defined_inline(resp, #[trigger] ids[i])
                || looked_up_known(s.1, a, ids[i]) by {
                if i > 0 {
                    assert(ids[i] == ids.drop_first()[i - 1]);
                }
            }
        } else {
            let rest = scan(ids.drop_first(), resp, a.drop_first());
            lemma_scan_covers(ids.drop_first(), resp, a.drop_first());
            assert(s.1 == seq![ids[0]] + rest.1);
            assert forall|i: int| 0 <= i < ids.len() implies defined_inline(resp, #[trigger] ids[i])
                || looked_up_known(s.1, a, ids[i]) by {
                if i == 0 {
                    assert(s.1[0] == ids[0] && a[0]);
                } else {
                    assert(ids[i] == ids.drop_first()[i - 1]);
                    if !defined_inline(resp, ids[i]) {
                        let k = choose|k: int|
                            0 <= k < rest.1.len() && k < a.drop_first().len() && rest.1[k] == ids[i]
                                && a.drop_first()[k];
                        assert(s.1[k + 1] == rest.1[k]);
                        assert(a[k + 1] == a.drop_first()[k]);
                    }
                }
            }
        }
    }
}

proof fn lemma_resolve_shift(
    resp: SquireResponse,
    ids: Seq<Seq<char>>,
    part: Seq<Seq<char>>,
    q: Seq<Seq<char>>,
    a: Seq<bool>,
    n: int,
)
    requires
        0 <= n <= a.len(),
        n + part.len() <= q.len(),
        q.subrange(n, n + part.len() as int) == part,
        all_resolve(resp, ids, part, a.skip(n)),
    ensures
        all_resolve(resp, ids, q, a),
{
    assert forall|i: int| 0 <= i < ids.len() implies defined_inline(resp, #[trigger] ids[i])
        || looked_up_known(q, a, ids[i]) by {
        if !defined_inline(resp, ids[i]) {
            let k = choose|k: int|
                0 <= k < part.len() && k < a.skip(n).len() && part[k] == ids[i] && a.skip(n)[k];
            assert(q[n + k] == part[k]);
            assert(a[n + k] == a.skip(n)[k]);
        }
    }
}

/// A response without a question that the verdict accepts meets every
/// check: it is not an empty close, its sigils are well formed, no span is
/// left open, and every inline reference, span reference, preserved id and
/// relationship end is defined by the response or was looked up and found
/// known.
pub proof fn law_accepted_response_meets_every_check(resp: SquireResponse, a: Seq<bool>)
    requires
        resp.ask_user@.len() == 0,
        verdict(resp, a).0 is Ok,
    ensures
        !(resp.content@.len() == 0 && resp.new_tokens@.len() == 0 && resp.relationships@.len() == 0
            && resp.preserve@.len() == 0),
        sigil_error_from(resp.content@, 0) is None,
        spans(resp.content@).1 is None,
        all_resolve(resp, inline_refs(resp.content@), verdict(resp, a).1, a),
        all_resolve(resp, span_refs(resp.content@), verdict(resp, a).1, a),
        all_resolve(resp, sviews(resp.preserve@), verdict(resp, a).1, a),
        all_resolve(resp, relationship_ids(resp.relationships@), verdict(resp, a).1, a),
{
    let content = resp.content@;
    let q = verdict(resp, a).1;
    let yes = Seq::new(q.len(), |i: int| true);
    law_acceptance_survives_more_known_tokens(resp, a, yes);
    let s5 = scan(inline_refs(content), resp, a);
    let n5 = s5.1.len() as int;
    let s7 = scan(span_refs(content), resp, a.skip(n5));
    let n7 = n5 + s7.1.len();
    let s8 = scan(sviews(resp.preserve@), resp, a.skip(n7));
    let n8 = n7 + s8.1.len();
    let s9 = scan(relationship_ids(resp.relationships@), resp, a.skip(n8));
    assert(q == s5.1 + s7.1 + s8.1 + s9.1);
    lemma_scan_covers(inline_refs(content), resp, a);
    assert(a.skip(0) =~= a);
    assert(q.subrange(0, n5) =~= s5.1);
    lemma_resolve_shift(resp, inline_refs(content), s5.1, q, a, 0);
    lemma_scan_covers(span_refs(content), resp, a.skip(n5));
    assert(q.subrange(n5, n7) =~= s7.1);
    lemma_resolve_shift(resp, span_refs(content), s7.1, q, a, n5);
    lemma_scan_covers(sviews(resp.preserve@), resp, a.skip(n7));
    assert(q.subrange(n7, n8) =~= s8.1);
    lemma_resolve_shift(resp, sviews(resp.preserve@), s8.1, q, a, n7);
    lemma_scan_covers(relationship_ids(resp.relationships@), resp, a.skip(n8));
    assert(q.subrange(n8, q.len() as int) =~= s9.1);
    lemma_resolve_shift(resp, relationship_ids(resp.relationships@), s9.1, q, a, n8);
}

} // verus!
