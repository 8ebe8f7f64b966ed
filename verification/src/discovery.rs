//! Argument handling and result shaping of the discovery tools (`explore`,
//! `token_to_detail`, `rdf`, `batch`).

use vstd::prelude::*;
use crate::text::{
    chars_eq, chars_of, contains, contains_exec, is_digit, lit, lowercase, push_all, string_of,
    to_lowercase, sviews, vviews,
};
use crate::traverse::{discovered_view, Discovered, Found};
use crate::chat::ToolDefinition;
use crate::stream::{json_value_of, parse_json_value};

verus! {

/// A query that looks like a token id: it holds `_T` and an ASCII digit.
pub open spec fn looks_like_token_id(q: Seq<char>) -> bool {
    contains(q, "_T"@) && exists|i: int| 0 <= i < q.len() && is_digit(#[trigger] q[i])
}

/// Whether `explore` first resolves its query as a token id (and searches
/// with that token's text): only for id-like queries, and not when
/// searching tools.
pub fn query_needs_lookup(query: &str, resource_type: &str) -> (r: bool)
    ensures
        r == (looks_like_token_id(query@) && resource_type@ != "tool"@),
{
    let q = chars_of(query);
    let mut digit = false;
    let mut i: usize = 0;
    while i < q.len()
        invariant
            i <= q.len(),
            digit == exists|k: int| 0 <= k < i && is_digit(#[trigger] q@[k]),
        decreases q.len() - i,
    {
        if '0' <= q[i] && q[i] <= '9' {
            digit = true;
        }
        i = i + 1;
    }
    contains_exec(&q, &chars_of("_T")) && digit && !chars_eq(&chars_of(resource_type), &chars_of("tool"))
}

/// Arguments of an `explore` call, with their defaults.
#[derive(Debug, Clone, PartialEq)]
pub struct ExploreArgs {
    pub resource_type: String,
    pub query: String,
    pub num_hops: u32,
    pub max_results: u32,
    pub vector: String,
}

/// `explore` arguments: resource type `all`, empty query, no hops, ten
/// results and the `content` vector unless given (numbers cut to 32 bits).
pub fn explore_args(
    resource_type: Option<String>,
    query: Option<String>,
    num_hops: Option<u64>,
    max_results: Option<u64>,
    vector: Option<String>,
) -> (r: ExploreArgs)
    ensures
        r.resource_type@ == (match resource_type {
            Some(s) => s@,
            None => "all"@,
        }),
        r.query@ == (match query {
            Some(s) => s@,
            None => Seq::empty(),
        }),
        r.num_hops == (match num_hops {
            Some(n) => n as u32,
            None => 0u32,
        }),
        r.max_results == (match max_results {
            Some(n) => n as u32,
            None => 10u32,
        }),
        r.vector@ == (match vector {
            Some(s) => s@,
            None => "content"@,
        }),
{
    ExploreArgs {
        resource_type: match resource_type {
            Some(s) => s,
            None => lit("all"),
        },
        query: match query {
            Some(s) => s,
            None => String::new(),
        },
        num_hops: match num_hops {
            Some(n) => n as u32,
            None => 0,
        },
        max_results: match max_results {
            Some(n) => n as u32,
            None => 10,
        },
        vector: match vector {
            Some(s) => s,
            None => lit("content"),
        },
    }
}

/// A registry tool matches a lowercased query when the query is empty or
/// its lowercased name or description contains it.
pub open spec fn tool_matches(ql: Seq<char>, name: Seq<char>, description: Seq<char>) -> bool {
    ql.len() == 0 || contains(lowercase(name), ql) || contains(lowercase(description), ql)
}

/// Indices of the matching tools, in registry order, at most `max_results`.
pub open spec fn matching_tools(ql: Seq<char>, names: Seq<Seq<char>>, descs: Seq<Seq<char>>, max_results: nat) -> Seq<nat>
    decreases names.len(),
{
    if names.len() == 0 {
        Seq::empty()
    } else {
        let acc = matching_tools(ql, names.drop_last(), descs, max_results);
        let i = (names.len() - 1) as nat;
        if tool_matches(ql, names.last(), descs[i as int]) && acc.len() < max_results {
            acc.push(i)
        } else {
            acc
        }
    }
}

/// The registry tools an `explore` of tools returns for `query`.
pub fn search_tool_registry(names: &Vec<String>, descriptions: &Vec<String>, query: &str, max_results: u32) -> (r:
    Vec<usize>)
    requires
        names@.len() == descriptions@.len(),
    ensures
        r@.map_values(|i: usize| i as nat) == matching_tools(
            lowercase(query@),
            sviews(names@),
            sviews(descriptions@),
            max_results as nat,
        ),
{
    let ql = chars_of(to_lowercase(query).as_str());
    let ghost ns = sviews(names@);
    let ghost ds = sviews(descriptions@);
    let mut out: Vec<usize> = Vec::new();
    let mut i: usize = 0;
    assert(ns.take(0) =~= Seq::<Seq<char>>::empty());
    assert(out@.map_values(|i: usize| i as nat) =~= Seq::<nat>::empty());
    while i < names.len()
        invariant
            i <= names.len() == descriptions.len(),
            ns == sviews(names@),
            ds == sviews(descriptions@),
            ql@ == lowercase(query@),
            out@.len() <= max_results,
            out@.map_values(|i: usize| i as nat) == matching_tools(ql@, ns.take(i as int), ds, max_results as nat),
        decreases names.len() - i,
    {
        proof {
            assert(ns.take(i + 1).drop_last() =~= ns.take(i as int));
            assert(ns.take(i + 1).last() == ns[i as int]);
        }
        let matched = ql.len() == 0 || contains_exec(&chars_of(to_lowercase(names[i].as_str()).as_str()), &ql)
            || contains_exec(&chars_of(to_lowercase(descriptions[i].as_str()).as_str()), &ql);
        if matched && out.len() < max_results as usize {
            let ghost before = out@.map_values(|i: usize| i as nat);
            out.push(i);
            assert(out@.map_values(|i: usize| i as nat) =~= before.push(i as nat));
        }
        i = i + 1;
    }
    assert(ns.take(ns.len() as int) =~= ns);
    out
}

/// What `token_to_detail` shows of a token with descriptions `short` and
/// `full`: the full description for `full` (the short one when there is
/// none), otherwise the short one.
pub open spec fn detail_shown(detail_level: Seq<char>, short: Seq<char>, full: Option<Seq<char>>) -> Seq<char> {
    if detail_level == "full"@ {
        match full {
            Some(f) => f,
            None => short,
        }
    } else {
        short
    }
}

/// What `token_to_detail` shows (see `detail_shown`).
pub fn detail_output(detail_level: &str, short_desc: String, full_desc: Option<String>) -> (r: String)
    ensures
        r@ == detail_shown(detail_level@, short_desc@, crate::protocol::opt_view(full_desc)),
{
    if chars_eq(&chars_of(detail_level), &chars_of("full")) {
        match full_desc {
            Some(f) => f,
            None => short_desc,
        }
    } else {
        short_desc
    }
}

/// The error for a token that does not exist: `{prefix}{id}`, with prefix
/// `Unknown token: ` or `Unknown seed token: `.
pub fn unknown_token_message(prefix: &str, id: &str) -> (r: String)
    ensures
        r@ == prefix@ + id@,
{
    let mut v = chars_of(prefix);
    push_all(&mut v, &chars_of(id));
    string_of(v.as_slice())
}

/// The first `max_results` (at least one) tokens an `rdf` walk found; the
/// walk finds them hop by hop, so the nearest come first.
pub fn rdf_results(found: Vec<Discovered>, max_results: u32) -> (r: Vec<Discovered>)
    ensures
        discovered_view(r@) == discovered_view(found@).take(
            if (found@.len() as int) < (if max_results == 0 {
                1int
            } else {
                max_results as int
            }) {
                found@.len() as int
            } else if max_results == 0 {
                1int
            } else {
                max_results as int
            },
        ),
{
    let limit: usize = if max_results == 0 {
        1
    } else {
        max_results as usize
    };
    let mut out: Vec<Discovered> = Vec::new();
    let mut i: usize = 0;
    let ghost all = discovered_view(found@);
    while i < found.len() && i < limit
        invariant
            i <= found.len(),
            i <= limit,
            limit == (if max_results == 0 {
                1usize
            } else {
                max_results as usize
            }),
            all == discovered_view(found@),
            discovered_view(out@) == all.take(i as int),
        decreases found.len() - i,
    {
        let d = Discovered {
            token_id: lit(found[i].token_id.as_str()),
            hop_distance: found[i].hop_distance,
            origin: found[i].origin,
        };
        let ghost before = discovered_view(out@);
        out.push(d);
        assert(discovered_view(out@) =~= before.push(all[i as int]));
        assert(all.take(i + 1) =~= all.take(i as int).push(all[i as int]));
        i = i + 1;
    }
    out
}

/// Positions of the first occurrence of each id, in order, at most
/// `limit` of them.
pub open spec fn first_occurrences(ids: Seq<Seq<char>>, limit: nat) -> Seq<nat>
    decreases ids.len(),
{
    if ids.len() == 0 {
        Seq::empty()
    } else {
        let acc = first_occurrences(ids.drop_last(), limit);
        let i = (ids.len() - 1) as nat;
        if ids.drop_last().contains(ids.last()) || acc.len() >= limit {
            acc
        } else {
            acc.push(i)
        }
    }
}

/// The results a `batch` call returns from the concatenated results of its
/// groups (given by token id): each token once, first occurrence kept, at
/// most 200.
pub fn batch_result_positions(ids: &Vec<String>) -> (r: Vec<usize>)
    ensures
        r@.map_values(|i: usize| i as nat) == first_occurrences(sviews(ids@), 200),
{
    let ghost all = sviews(ids@);
    let cs = crate::text::chars_of_all(ids);
    let mut out: Vec<usize> = Vec::new();
    let mut i: usize = 0;
    assert(all.take(0) =~= Seq::<Seq<char>>::empty());
    assert(out@.map_values(|i: usize| i as nat) =~= Seq::<nat>::empty());
    while i < cs.len()
        invariant
            i <= cs.len(),
            vviews(cs@) == all,
            all == sviews(ids@),
            out@.map_values(|i: usize| i as nat) == first_occurrences(all.take(i as int), 200),
            out@.len() <= 200,
        decreases cs.len() - i,
    {
        proof {
            assert(all.take(i + 1).drop_last() =~= all.take(i as int));
            assert(all.take(i + 1).last() == all[i as int]);
        }
        let mut seen = false;
        let mut k: usize = 0;
        while k < i
            invariant
                k <= i < cs.len(),
                vviews(cs@) == all,
                seen == exists|j: int| 0 <= j < k && all[j] == all[i as int],
            decreases i - k,
        {
            assert(all[k as int] == cs@[k as int]@);
            assert(all[i as int] == cs@[i as int]@);
            if chars_eq(&cs[k], &cs[i]) {
                seen = true;
            }
            k = k + 1;
        }
        proof {
            if seen {
                let j = choose|j: int| 0 <= j < i && all[j] == all[i as int];
                assert(all.take(i as int)[j] == all[i as int]);
            }
            if all.take(i as int).contains(all[i as int]) {
                let j = choose|j: int| 0 <= j < i && all.take(i as int)[j] == all[i as int];
                assert(all[j] == all[i as int]);
            }
        }
        if !seen && out.len() < 200 {
            let ghost before = out@.map_values(|i: usize| i as nat);
            out.push(i);
            assert(out@.map_values(|i: usize| i as nat) =~= before.push(i as nat));
        }
        i = i + 1;
    }
    assert(all.take(all.len() as int) =~= all);
    out
}

// ───────────────────────────── tool definitions ─────────────────────────────

/// The Squire protocol tools, as `(name, description, input schema as JSON
/// text)`, in order.
pub open spec fn builtin_tool_list() -> Seq<(Seq<char>, Seq<char>, Seq<char>)> {
    seq![
        ("explore"@, "Search Squire memory and registered resources by semantic similarity, optionally expanding via graph traversal. Use vector='tag' to search against author-curated tags (best for structured content like workflows/skills/tools), vector='content' to search against full prose (default, best for freeform text)."@, "{\"type\":\"object\",\"properties\":{\"resource_type\":{\"type\":\"string\",\"enum\":[\"workflow\",\"tool\",\"skill\",\"tool_skill\",\"memory\",\"concept\",\"referential\",\"all\"]},\"query\":{\"type\":\"string\"},\"num_hops\":{\"type\":\"integer\",\"minimum\":0},\"max_results\":{\"type\":\"integer\",\"minimum\":1},\"vector\":{\"type\":\"string\",\"enum\":[\"content\",\"tag\"],\"description\":\"Which embedding to search: 'content' (default) for prose body, 'tag' for author-curated keyword vector. Tag search is best for structured, self-describing content like workflows, skills, and tools.\"}},\"required\":[\"resource_type\",\"query\"]}"@),
        ("token_to_detail"@, "Retrieve the short or full description of a specific Squire token."@, "{\"type\":\"object\",\"properties\":{\"token_id\":{\"type\":\"string\"},\"detail_level\":{\"type\":\"string\",\"enum\":[\"short\",\"full\"]}},\"required\":[\"token_id\",\"detail_level\"]}"@),
        ("rdf"@, "Walk relationship (triplet) edges outward from a token, returning tokens discovered by graph traversal. Use after explore() to expand context around a seed token. Does NOT reason about which edges matter — that judgment belongs to the AI."@, "{\"type\":\"object\",\"properties\":{\"token_id\":{\"type\":\"string\",\"description\":\"The token to start traversal from\"},\"hops\":{\"type\":\"integer\",\"minimum\":1,\"maximum\":5,\"description\":\"Number of graph hops to walk outward\"},\"max_results\":{\"type\":\"integer\",\"minimum\":1,\"description\":\"Max tokens to return (default 20)\"}},\"required\":[\"token_id\",\"hops\"]}"@),
        ("invoke"@, "Execute a tool or skill by its token_id (discovered via explore(resource_type='tool_skill', ...)). The result is returned as if the tool was called directly."@, "{\"type\":\"object\",\"properties\":{\"token_id\":{\"type\":\"string\",\"description\":\"The token_id of the tool or skill to invoke, as returned by explore()\"},\"params\":{\"type\":\"object\",\"description\":\"Parameters to pass to the tool, matching its input schema\"}},\"required\":[\"token_id\",\"params\"]}"@),
        ("batch"@, "Compose explore/rdf/token_to_detail calls with pipe (|) and parallel (& or ;) operators. Piping explore results into rdf saves round trips and counts as one batch call. Example: explore(memory, 'rust', 1, 10) | rdf(2)"@, "{\"type\":\"object\",\"properties\":{\"expression\":{\"type\":\"string\",\"description\":\"Batch expression using | (pipe), & or ; or newline (parallel). E.g. 'explore(memory, rust, 1, 10) | rdf(2)' or 'explore(memory, X, 1, 5) & explore(workflow, Y, 0, 3)'\"}},\"required\":[\"expression\"]}"@),
    ]
}

/// The tools a Squire turn offers the model: `explore`, `token_to_detail`
/// and `invoke`.
pub open spec fn turn_tool_list() -> Seq<(Seq<char>, Seq<char>, Seq<char>)> {
    seq![builtin_tool_list()[0], builtin_tool_list()[1], builtin_tool_list()[3]]
}

pub open spec fn spec_texts(s: Seq<(&str, &str, &str)>) -> Seq<(Seq<char>, Seq<char>, Seq<char>)> {
    s.map_values(|t: (&str, &str, &str)| (t.0@, t.1@, t.2@))
}

/// Every schema text of `l` is a JSON document.
pub open spec fn schemas_parse(l: Seq<(Seq<char>, Seq<char>, Seq<char>)>) -> bool {
    forall|i: int| 0 <= i < l.len() ==> (#[trigger] json_value_of(l[i].2)) is Some
}

/// `v` holds the tools of `l`, in order, each schema parsed from its text.
pub open spec fn defines_tools(v: Seq<ToolDefinition>, l: Seq<(Seq<char>, Seq<char>, Seq<char>)>) -> bool {
    &&& v.len() == l.len()
    &&& forall|i: int|
        0 <= i < v.len() ==> {
            &&& (#[trigger] v[i]).name@ == l[i].0
            &&& v[i].description@ == l[i].1
            &&& json_value_of(l[i].2) == Some(v[i].input_schema)
        }
}

fn builtin_tool_specs() -> (r: Vec<(&'static str, &'static str, &'static str)>)
    ensures
        spec_texts(r@) == builtin_tool_list(),
{
    let r: Vec<(&'static str, &'static str, &'static str)> = vec![
        ("explore", "Search Squire memory and registered resources by semantic similarity, optionally expanding via graph traversal. Use vector='tag' to search against author-curated tags (best for structured content like workflows/skills/tools), vector='content' to search against full prose (default, best for freeform text).", "{\"type\":\"object\",\"properties\":{\"resource_type\":{\"type\":\"string\",\"enum\":[\"workflow\",\"tool\",\"skill\",\"tool_skill\",\"memory\",\"concept\",\"referential\",\"all\"]},\"query\":{\"type\":\"string\"},\"num_hops\":{\"type\":\"integer\",\"minimum\":0},\"max_results\":{\"type\":\"integer\",\"minimum\":1},\"vector\":{\"type\":\"string\",\"enum\":[\"content\",\"tag\"],\"description\":\"Which embedding to search: 'content' (default) for prose body, 'tag' for author-curated keyword vector. Tag search is best for structured, self-describing content like workflows, skills, and tools.\"}},\"required\":[\"resource_type\",\"query\"]}"),
        ("token_to_detail", "Retrieve the short or full description of a specific Squire token.", "{\"type\":\"object\",\"properties\":{\"token_id\":{\"type\":\"string\"},\"detail_level\":{\"type\":\"string\",\"enum\":[\"short\",\"full\"]}},\"required\":[\"token_id\",\"detail_level\"]}"),
        ("rdf", "Walk relationship (triplet) edges outward from a token, returning tokens discovered by graph traversal. Use after explore() to expand context around a seed token. Does NOT reason about which edges matter — that judgment belongs to the AI.", "{\"type\":\"object\",\"properties\":{\"token_id\":{\"type\":\"string\",\"description\":\"The token to start traversal from\"},\"hops\":{\"type\":\"integer\",\"minimum\":1,\"maximum\":5,\"description\":\"Number of graph hops to walk outward\"},\"max_results\":{\"type\":\"integer\",\"minimum\":1,\"description\":\"Max tokens to return (default 20)\"}},\"required\":[\"token_id\",\"hops\"]}"),
        ("invoke", "Execute a tool or skill by its token_id (discovered via explore(resource_type='tool_skill', ...)). The result is returned as if the tool was called directly.", "{\"type\":\"object\",\"properties\":{\"token_id\":{\"type\":\"string\",\"description\":\"The token_id of the tool or skill to invoke, as returned by explore()\"},\"params\":{\"type\":\"object\",\"description\":\"Parameters to pass to the tool, matching its input schema\"}},\"required\":[\"token_id\",\"params\"]}"),
        ("batch", "Compose explore/rdf/token_to_detail calls with pipe (|) and parallel (& or ;) operators. Piping explore results into rdf saves round trips and counts as one batch call. Example: explore(memory, 'rust', 1, 10) | rdf(2)", "{\"type\":\"object\",\"properties\":{\"expression\":{\"type\":\"string\",\"description\":\"Batch expression using | (pipe), & or ; or newline (parallel). E.g. 'explore(memory, rust, 1, 10) | rdf(2)' or 'explore(memory, X, 1, 5) & explore(workflow, Y, 0, 3)'\"}},\"required\":[\"expression\"]}"),
    ];
    assert(spec_texts(r@) =~= builtin_tool_list());
    r
}

/// The tool `name` with `description`, its input schema parsed from the
/// JSON text `schema`; `None` when that text is no JSON document.
fn tool_definition(name: &str, description: &str, schema: &str) -> (r: Option<ToolDefinition>)
    ensures
        r is None <==> json_value_of(schema@) is None,
        r matches Some(d) ==> d.name@ == name@ && d.description@ == description@ && json_value_of(
            schema@,
        ) == Some(d.input_schema),
{
    match parse_json_value(schema) {
        Some(v) => Some(ToolDefinition { name: lit(name), description: lit(description), input_schema: v }),
        None => None,
    }
}

/// The tools of `specs`, in order; `None` when a schema text is no JSON
/// document.
fn definitions_of(specs: &Vec<(&str, &str, &str)>) -> (r: Option<Vec<ToolDefinition>>)
    ensures
        r is Some <==> schemas_parse(spec_texts(specs@)),
        r matches Some(v) ==> defines_tools(v@, spec_texts(specs@)),
{
    let ghost l = spec_texts(specs@);
    let mut out: Vec<ToolDefinition> = Vec::new();
    let mut i: usize = 0;
    while i < specs.len()
        invariant
            i <= specs@.len(),
            l == spec_texts(specs@),
            out@.len() == i,
            forall|j: int| 0 <= j < i ==> (#[trigger] json_value_of(l[j].2)) is Some,
            forall|j: int|
                0 <= j < i ==> {
                    &&& (#[trigger] out@[j]).name@ == l[j].0
                    &&& out@[j].description@ == l[j].1
                    &&& json_value_of(l[j].2) == Some(out@[j].input_schema)
                },
        decreases specs.len() - i,
    {
        let (name, description, schema) = specs[i];
        match tool_definition(name, description, schema) {
            Some(d) => out.push(d),
            None => {
                assert(json_value_of(l[i as int].2) is None);
                return None;
            },
        }
        i = i + 1;
    }
    Some(out)
}

/// The Squire protocol tools (`explore`, `token_to_detail`, `rdf`,
/// `invoke`, `batch`), in order, each with its input schema parsed from the
/// JSON text of `builtin_tool_list`; `None` when one of those texts is no
/// JSON document.
pub fn built_in_tool_definitions() -> (r: Option<Vec<ToolDefinition>>)
    ensures
        r is Some <==> schemas_parse(builtin_tool_list()),
        r matches Some(v) ==> defines_tools(v@, builtin_tool_list()),
{
    definitions_of(&builtin_tool_specs())
}

/// The tools a Squire turn offers the model in place of the caller's own:
/// `explore`, `token_to_detail` and `invoke`, as `built_in_tool_definitions`
/// defines them; `None` when one of their schema texts is no JSON document.
pub fn turn_tool_definitions() -> (r: Option<Vec<ToolDefinition>>)
    ensures
        r is Some <==> schemas_parse(turn_tool_list()),
        r matches Some(v) ==> defines_tools(v@, turn_tool_list()),
{
    let all = builtin_tool_specs();
    assert(spec_texts(all@).len() == all@.len());
    assert(spec_texts(all@)[0] == builtin_tool_list()[0]);
    assert(spec_texts(all@)[1] == builtin_tool_list()[1]);
    assert(spec_texts(all@)[3] == builtin_tool_list()[3]);
    let picked = vec![all[0], all[1], all[3]];
    assert(spec_texts(picked@) =~= turn_tool_list());
    definitions_of(&picked)
}


/// What `token_to_detail` shows of a stored token depends on its
/// descriptions alone: two tokens with the same descriptions show the same
/// text whatever endpoints they carry, so nothing of an endpoint (whose
/// server configuration may hold secrets) reaches the model.
pub proof fn law_token_detail_shows_no_endpoint(
    detail_level: Seq<char>,
    a: crate::types::TokenDetail,
    b: crate::types::TokenDetail,
)
    requires
        a.short_desc@ == b.short_desc@,
        crate::protocol::opt_view(a.full_desc) == crate::protocol::opt_view(b.full_desc),
    ensures
        detail_shown(detail_level, a.short_desc@, crate::protocol::opt_view(a.full_desc)) == detail_shown(
            detail_level,
            b.short_desc@,
            crate::protocol::opt_view(b.full_desc),
        ),
{
}


// ───────────────────────────── tool-call arguments ─────────────────────────────

/// The error result for a missing argument `name` of call `call_id`.
pub open spec fn is_missing_error(r: crate::types::ToolResult, call_id: Seq<char>, name: Seq<char>) -> bool {
    r.call_id@ == call_id && r.output@ == "Missing required argument: "@ + name && r.is_error
}

/// The non-empty string argument `name` of a call, or the missing-argument
/// error when it is absent, not a string, or empty.
pub fn required_text_argument(call_id: &str, args: &serde_json::Value, name: &str) -> (r: Result<
    String,
    crate::types::ToolResult,
>)
    ensures
        match crate::events::str_field_of(*args, name@) {
            Some(t) => if t.len() > 0 {
                (r matches Ok(v) && v@ == t)
            } else {
                (r matches Err(e) && is_missing_error(e, call_id@, name@))
            },
            None => (r matches Err(e) && is_missing_error(e, call_id@, name@)),
        },
{
    match crate::events::str_field(args, name) {
        Some(t) => {
            if chars_of(t.as_str()).len() > 0 {
                Ok(t)
            } else {
                Err(crate::tools::missing_argument(call_id, name))
            }
        },
        None => Err(crate::tools::missing_argument(call_id, name)),
    }
}

/// The `detail_level` argument of `token_to_detail`: `short` when absent.
pub fn detail_level_argument(args: &serde_json::Value) -> (r: String)
    ensures
        r@ == match crate::events::str_field_of(*args, "detail_level"@) {
            Some(t) => t,
            None => "short"@,
        },
{
    match crate::events::str_field(args, "detail_level") {
        Some(t) => t,
        None => lit("short"),
    }
}

/// The `hops` and `max_results` arguments of `rdf`: 1 and 20 when absent;
/// a given number is cut to its low 32 bits.
pub fn rdf_arguments(args: &serde_json::Value) -> (r: (u32, u32))
    ensures
        r.0 == match crate::events::u64_field_of(*args, "hops"@) {
            Some(h) => h as u32,
            None => 1u32,
        },
        r.1 == match crate::events::u64_field_of(*args, "max_results"@) {
            Some(m) => m as u32,
            None => 20u32,
        },
{
    let hops = match crate::events::u64_field(args, "hops") {
        Some(h) => h as u32,
        None => 1,
    };
    let max_results = match crate::events::u64_field(args, "max_results") {
        Some(m) => m as u32,
        None => 20,
    };
    (hops, max_results)
}

/// The `expression` argument of `batch`, or its error when it is absent,
/// not a string, or empty.
pub fn batch_expression_argument(call_id: &str, args: &serde_json::Value) -> (r: Result<
    String,
    crate::types::ToolResult,
>)
    ensures
        match crate::events::str_field_of(*args, "expression"@) {
            Some(t) => if t.len() > 0 {
                (r matches Ok(v) && v@ == t)
            } else {
                (r matches Err(e) && e.call_id@ == call_id@ && e.output@ == "Missing 'expression' argument"@
                    && e.is_error)
            },
            None => (r matches Err(e) && e.call_id@ == call_id@ && e.output@ == "Missing 'expression' argument"@
                && e.is_error),
        },
{
    let missing = crate::types::ToolResult {
        call_id: lit(call_id),
        output: lit("Missing 'expression' argument"),
        is_error: true,
    };
    match crate::events::str_field(args, "expression") {
        Some(t) => {
            if chars_of(t.as_str()).len() > 0 {
                Ok(t)
            } else {
                Err(missing)
            }
        },
        None => Err(missing),
    }
}


/// The string argument `name` of a call (possibly empty), or the
/// missing-argument error when it is absent or not a string.
pub fn text_argument(call_id: &str, args: &serde_json::Value, name: &str) -> (r: Result<
    String,
    crate::types::ToolResult,
>)
    ensures
        match crate::events::str_field_of(*args, name@) {
            Some(t) => (r matches Ok(v) && v@ == t),
            None => (r matches Err(e) && is_missing_error(e, call_id@, name@)),
        },
{
    match crate::events::str_field(args, name) {
        Some(t) => Ok(t),
        None => Err(crate::tools::missing_argument(call_id, name)),
    }
}

} // verus!
