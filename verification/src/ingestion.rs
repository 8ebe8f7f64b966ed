//! Writing tools, skills and workflows into a store as tokens.

use vstd::prelude::*;
use crate::backend::{with_upsert, SquireStore};
use crate::chat::ToolDefinition;
use crate::finalize::{ingest_tokens, spec_ids, upsert_all};
use crate::memory::{copy_one_endpoint, count_of, opt_endpoint_view};
use crate::resources::{skill_token, workflow_token, SkillDef, WorkflowDef};
use crate::text::lit;
use crate::types::{NewTokenSpec, ToolEndpoint};

verus! {

/// What `serde_json` prints for a JSON object with the three entries
/// `k1: v1` and `k2: v2` (strings) and `k3: v3`.
pub uninterp spec fn json_object_text(
    k1: Seq<char>,
    v1: Seq<char>,
    k2: Seq<char>,
    v2: Seq<char>,
    k3: Seq<char>,
    v3: serde_json::Value,
) -> Seq<char>;

/// Puts the entries into a `serde_json::Map` (the string values as
/// `Value::String`) and prints the object with `Value`'s `to_string`. The
/// text is named by `json_object_text`; its layout (key order, escaping)
/// is serde_json's and is not stated here.
#[verifier::external_body]
fn object_text(k1: &str, v1: &str, k2: &str, v2: &str, k3: &str, v3: &serde_json::Value) -> (r: String)
    ensures
        r@ == json_object_text(k1@, v1@, k2@, v2@, k3@, *v3),
{
    let mut m = serde_json::Map::new();
    m.insert(k1.to_string(), serde_json::Value::String(v1.to_string()));
    m.insert(k2.to_string(), serde_json::Value::String(v2.to_string()));
    m.insert(k3.to_string(), v3.clone());
    serde_json::Value::Object(m).to_string()
}

/// The JSON text a tool is described by: the object with its `name`,
/// `description` and `input_schema`.
pub open spec fn tool_json(name: Seq<char>, description: Seq<char>, input_schema: serde_json::Value) -> Seq<char> {
    json_object_text("name"@, name, "description"@, description, "input_schema"@, input_schema)
}

/// The endpoint listed for tool `name`: the first pair with that name.
pub open spec fn endpoint_for(eps: Seq<(String, ToolEndpoint)>, name: Seq<char>) -> Option<ToolEndpoint>
    decreases eps.len(),
{
    if eps.len() == 0 {
        None
    } else if eps[0].0@ == name {
        Some(eps[0].1)
    } else {
        endpoint_for(eps.drop_first(), name)
    }
}

fn find_endpoint(eps: &Vec<(String, ToolEndpoint)>, name: &str) -> (r: Option<ToolEndpoint>)
    ensures
        opt_endpoint_view(r) == opt_endpoint_view(endpoint_for(eps@, name@)),
{
    let mut i: usize = 0;
    let mut found: Option<ToolEndpoint> = None;
    let mut done = false;
    assert(eps@.skip(0) =~= eps@);
    while i < eps.len() && !done
        invariant
            i <= eps@.len(),
            done ==> opt_endpoint_view(found) == opt_endpoint_view(endpoint_for(eps@, name@)),
            !done ==> endpoint_for(eps@.skip(i as int), name@) == endpoint_for(eps@, name@),
            !done ==> found is None,
        decreases eps.len() - i,
    {
        let ghost rest = eps@.skip(i as int);
        assert(rest.drop_first() =~= eps@.skip(i + 1));
        assert(rest[0] == eps@[i as int]);
        if crate::text::chars_eq(&crate::text::chars_of(eps[i].0.as_str()), &crate::text::chars_of(name)) {
            found = Some(copy_one_endpoint(&eps[i].1));
            proof {
                assert(opt_endpoint_view(found) == opt_endpoint_view(Some(eps@[i as int].1)));
            }
            done = true;
        }
        i = i + 1;
    }
    if !done {
        assert(eps@.skip(i as int) =~= Seq::<(String, ToolEndpoint)>::empty());
    }
    found
}

/// `t` is the token tool `d` is stored as: its name as id, type `tool`,
/// its description as short description, the JSON of its parts as full
/// description, and the endpoint listed for its name.
pub open spec fn is_tool_token(t: NewTokenSpec, d: ToolDefinition, eps: Seq<(String, ToolEndpoint)>) -> bool {
    &&& t.id@ == d.name@
    &&& t.token_type@ == "tool"@
    &&& t.short_desc@ == d.description@
    &&& t.full_desc matches Some(f) && f@ == tool_json(d.name@, d.description@, d.input_schema)
    &&& opt_endpoint_view(t.endpoint) == opt_endpoint_view(endpoint_for(eps, d.name@))
    &&& t.ranges@.len() == 0
}

/// Stores one `tool` token per definition, in order, in the global session
/// at turn 0; a tool with an endpoint listed under its name carries it.
pub fn ingest_tool_registry<S: SquireStore>(defs: &Vec<ToolDefinition>, store: &mut S, endpoints: &Vec<(String, ToolEndpoint)>)
    requires
        old(store).inv(),
        defs@.len() < u64::MAX,
        forall|k: Seq<char>| old(store).tokens_view().contains_key(k)
            ==> old(store).tokens_view()[k].accumulated_hits + count_of(defs@.map_values(|d: ToolDefinition| d.name@), k) <= u64::MAX,
    ensures
        final(store).inv(),
        exists|ts: Seq<NewTokenSpec>| {
            &&& ts.len() == defs@.len()
            &&& forall|i: int| 0 <= i < ts.len() ==> is_tool_token(#[trigger] ts[i], defs@[i], endpoints@)
            &&& final(store).tokens_view() == upsert_all(old(store).tokens_view(), ts, 0, 0)
        },
        final(store).rels_view() == old(store).rels_view(),
        final(store).preserve_view() == old(store).preserve_view(),
        final(store).turns_view() == old(store).turns_view(),
        final(store).raw_view() == old(store).raw_view(),
        final(store).failures_view() == old(store).failures_view(),
{
    let mut ts: Vec<NewTokenSpec> = Vec::new();
    let mut i: usize = 0;
    while i < defs.len()
        invariant
            i <= defs@.len(),
            ts@.len() == i,
            forall|j: int| 0 <= j < i ==> is_tool_token(#[trigger] ts@[j], defs@[j], endpoints@),
        decreases defs.len() - i,
    {
        let d = &defs[i];
        let t = NewTokenSpec {
            id: crate::chunking::tool_token_id(d.name.as_str()),
            token_type: lit("tool"),
            short_desc: lit(d.description.as_str()),
            full_desc: Some(
                object_text(
                    "name",
                    d.name.as_str(),
                    "description",
                    d.description.as_str(),
                    "input_schema",
                    &d.input_schema,
                ),
            ),
            endpoint: find_endpoint(endpoints, d.name.as_str()),
            ranges: Vec::new(),
        };
        ts.push(t);
        i = i + 1;
    }
    let ghost tv = ts@;
    assert(spec_ids(tv) =~= defs@.map_values(|d: ToolDefinition| d.name@));
    ingest_tokens(store, ts, 0, 0);
}

/// `t` is the token skill `sk` is stored as.
pub open spec fn is_skill_token(t: NewTokenSpec, sk: SkillDef) -> bool {
    &&& t.id@ == sk.id@
    &&& t.token_type@ == "skill"@
    &&& t.short_desc@ == sk.short_desc@
    &&& t.full_desc matches Some(f) && f@ == sk.full_desc@
    &&& t.endpoint is None
    &&& t.ranges@.len() == 0
}

/// `t` is the token workflow `wf` is stored as.
pub open spec fn is_workflow_token(t: NewTokenSpec, wf: WorkflowDef) -> bool {
    &&& t.id@ == wf.id@
    &&& t.token_type@ == "workflow"@
    &&& t.short_desc@ == wf.short_desc@
    &&& t.full_desc matches Some(f) && f@ == wf.full_desc@
    &&& t.endpoint is None
    &&& t.ranges@.len() == 0
}

/// Stores a skill as a `skill` token of the global session at turn 0.
pub fn ingest_one_skill<S: SquireStore>(store: &mut S, sk: &SkillDef)
    requires
        old(store).inv(),
        old(store).tokens_view().contains_key(sk.id@) ==> old(store).tokens_view()[sk.id@].accumulated_hits < u64::MAX,
    ensures
        final(store).inv(),
        exists|t: NewTokenSpec| is_skill_token(t, *sk)
            && final(store).tokens_view() == #[trigger] with_upsert(old(store).tokens_view(), t, 0, 0),
        final(store).rels_view() == old(store).rels_view(),
        final(store).preserve_view() == old(store).preserve_view(),
        final(store).turns_view() == old(store).turns_view(),
        final(store).raw_view() == old(store).raw_view(),
        final(store).failures_view() == old(store).failures_view(),
{
    let t = skill_token(sk);
    let ghost tv = t;
    store.upsert_token(t, 0, 0);
    assert(is_skill_token(tv, *sk));
}

/// Stores a workflow as a `workflow` token of the global session at turn 0.
pub fn ingest_one_workflow<S: SquireStore>(store: &mut S, wf: &WorkflowDef)
    requires
        old(store).inv(),
        old(store).tokens_view().contains_key(wf.id@) ==> old(store).tokens_view()[wf.id@].accumulated_hits < u64::MAX,
    ensures
        final(store).inv(),
        exists|t: NewTokenSpec| is_workflow_token(t, *wf)
            && final(store).tokens_view() == #[trigger] with_upsert(old(store).tokens_view(), t, 0, 0),
        final(store).rels_view() == old(store).rels_view(),
        final(store).preserve_view() == old(store).preserve_view(),
        final(store).turns_view() == old(store).turns_view(),
        final(store).raw_view() == old(store).raw_view(),
        final(store).failures_view() == old(store).failures_view(),
{
    let t = workflow_token(wf);
    let ghost tv = t;
    store.upsert_token(t, 0, 0);
    assert(is_workflow_token(tv, *wf));
}

} // verus!
