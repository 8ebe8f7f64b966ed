//! Batch composition expressions: `|` pipes the tokens found by one call
//! into the next, and `&`, `;` or a newline separate independent groups of
//! `explore`, `rdf` and `token_to_detail` calls.

use vstd::prelude::*;
use crate::types::{ToolDanger, ToolResult};
use crate::text::{
    chars_of, find_exec, find_from, lit, parse_u32, parse_u32_exec, push_all, rfind, rfind_exec,
    slice_vec, string_of, dec, push_dec, push_nonempty, clean_pieces, lemma_trim_idempotent, strings_of, sviews, trim, trim_vec, vviews, lemma_find_from, match_at,
};

verus! {

// ───────────────────────────── top-level splitting ─────────────────────────────

/// Scanner state of a top-level split: parenthesis depth, whether a
/// single-quoted string is open, the text of the current piece, and the
/// finished pieces.
pub type SplitState = (int, bool, Seq<char>, Seq<Seq<char>>);

/// Depth and quote state after reading `c`: a quote toggles quoting, and
/// parentheses count only outside quotes.
pub open spec fn quote_depth_step(depth: int, quoted: bool, c: char) -> (int, bool) {
    if c == '\'' {
        (depth, !quoted)
    } else if quoted {
        (depth, quoted)
    } else if c == '(' {
        (depth + 1, quoted)
    } else if c == ')' {
        (depth - 1, quoted)
    } else {
        (depth, quoted)
    }
}

/// The separator of a split: `|` between pipeline stages, otherwise `&`,
/// `;` or a newline between groups.
pub open spec fn is_top_sep(c: char, pipe: bool) -> bool {
    if pipe {
        c == '|'
    } else {
        c == '&' || c == ';' || c == '\n'
    }
}

pub open spec fn unmatched_message(pipe: bool) -> Seq<char> {
    if pipe {
        "Unmatched ')' in pipeline"@
    } else {
        "Unmatched ')' in batch expression"@
    }
}

/// Reads one character. A `)` that closes nothing is an error; a separator
/// at depth 0 outside quotes ends the current piece (trimmed). An empty
/// group is dropped, an empty pipeline stage is an error.
pub open spec fn top_step(st: SplitState, c: char, pipe: bool) -> Result<SplitState, Seq<char>> {
    let (d, q) = quote_depth_step(st.0, st.1, c);
    if d < 0 {
        Err(unmatched_message(pipe))
    } else if d == 0 && !q && is_top_sep(c, pipe) {
        let t = trim(st.2);
        if pipe && t.len() == 0 {
            Err("Empty pipeline stage before '|'"@)
        } else {
            Ok((d, q, Seq::empty(), push_nonempty(st.3, t)))
        }
    } else {
        Ok((d, q, st.2.push(c), st.3))
    }
}

/// Scanner state after reading all of `s`, or the first error.
pub open spec fn top_scan(s: Seq<char>, pipe: bool) -> Result<SplitState, Seq<char>>
    decreases s.len(),
{
    if s.len() == 0 {
        Ok((0, false, Seq::empty(), Seq::empty()))
    } else {
        match top_scan(s.drop_last(), pipe) {
            Ok(st) => top_step(st, s.last(), pipe),
            Err(e) => Err(e),
        }
    }
}

/// The pieces of a top-level split, the last one included when not empty.
pub open spec fn top_level(s: Seq<char>, pipe: bool) -> Result<Seq<Seq<char>>, Seq<char>> {
    match top_scan(s, pipe) {
        Ok(st) => Ok(push_nonempty(st.3, trim(st.2))),
        Err(e) => Err(e),
    }
}

/// Groups of a batch expression.
pub open spec fn groups_of(s: Seq<char>) -> Result<Seq<Seq<char>>, Seq<char>> {
    top_level(s, false)
}

/// Stages of a pipeline; a pipeline without any stage is an error.
pub open spec fn stages_of(s: Seq<char>) -> Result<Seq<Seq<char>>, Seq<char>> {
    match top_level(s, true) {
        Ok(ps) => if ps.len() == 0 {
            Err("Empty pipeline"@)
        } else {
            Ok(ps)
        },
        Err(e) => Err(e),
    }
}

/// A `Result` of strings taken by its character views.
pub open spec fn strings_result(r: Result<Vec<String>, String>) -> Result<Seq<Seq<char>>, Seq<char>> {
    match r {
        Ok(v) => Ok(sviews(v@)),
        Err(e) => Err(e@),
    }
}

proof fn lemma_scan_err_sticky(s: Seq<char>, i: int, j: int, pipe: bool)
    requires
        0 <= i <= j <= s.len(),
        top_scan(s.take(i), pipe) is Err,
    ensures
        top_scan(s.take(j), pipe) == top_scan(s.take(i), pipe),
    decreases j - i,
{
    if j > i {
        lemma_scan_err_sticky(s, i, j - 1, pipe);
        assert(s.take(j).drop_last() =~= s.take(j - 1));
    }
}

proof fn lemma_scan_clean(s: Seq<char>, pipe: bool)
    requires
        top_scan(s, pipe) is Ok,
    ensures
        clean_pieces(top_scan(s, pipe)->Ok_0.3),
        top_scan(s, pipe)->Ok_0.0 >= 0,
    decreases s.len(),
{
    if s.len() > 0 {
        lemma_scan_clean(s.drop_last(), pipe);
        let st = top_scan(s.drop_last(), pipe)->Ok_0;
        lemma_trim_idempotent(st.2);
    }
}

/// Splits `s` at top-level separators (outside parentheses and quotes).
fn split_top_level(s: &Vec<char>, pipe: bool) -> (r: Result<Vec<Vec<char>>, String>)
    ensures
        match r {
            Ok(v) => top_level(s@, pipe) == Ok::<Seq<Seq<char>>, Seq<char>>(vviews(v@)),
            Err(e) => top_level(s@, pipe) == Err::<Seq<Seq<char>>, Seq<char>>(e@),
        },
{
    let mut parts: Vec<Vec<char>> = Vec::new();
    let mut cur: Vec<char> = Vec::new();
    let mut depth: usize = 0;
    let mut quoted = false;
    let mut i: usize = 0;
    assert(vviews(parts@) =~= Seq::<Seq<char>>::empty());
    assert(s@.take(0) =~= Seq::<char>::empty());
    while i < s.len()
        invariant
            i <= s.len(),
            depth <= i,
            top_scan(s@.take(i as int), pipe) == Ok::<SplitState, Seq<char>>(
                (depth as int, quoted, cur@, vviews(parts@)),
            ),
        decreases s.len() - i,
    {
        let c = s[i];
        proof {
            assert(s@.take(i + 1).drop_last() =~= s@.take(i as int));
            assert(s@.take(i + 1).last() == c);
        }
        if c == '\'' {
            quoted = !quoted;
        } else if !quoted {
            if c == '(' {
                depth = depth + 1;
            } else if c == ')' {
                if depth == 0 {
                    let msg = if pipe {
                        lit("Unmatched ')' in pipeline")
                    } else {
                        lit("Unmatched ')' in batch expression")
                    };
                    proof {
                        lemma_scan_err_sticky(s@, i + 1, s@.len() as int, pipe);
                        assert(s@.take(s@.len() as int) =~= s@);
                    }
                    return Err(msg);
                }
                depth = depth - 1;
            }
        }
        let sep = if pipe {
            c == '|'
        } else {
            c == '&' || c == ';' || c == '\n'
        };
        if depth == 0 && !quoted && sep {
            let t = trim_vec(&cur);
            if t.len() > 0 {
                let ghost before = vviews(parts@);
                parts.push(t);
                assert(vviews(parts@) =~= before.push(t@));
            } else if pipe {
                proof {
                    lemma_scan_err_sticky(s@, i + 1, s@.len() as int, pipe);
                    assert(s@.take(s@.len() as int) =~= s@);
                }
                return Err(lit("Empty pipeline stage before '|'"));
            }
            cur = Vec::new();
        } else {
            cur.push(c);
        }
        i = i + 1;
    }
    assert(s@.take(s@.len() as int) =~= s@);
    let t = trim_vec(&cur);
    if t.len() > 0 {
        let ghost before = vviews(parts@);
        parts.push(t);
        assert(vviews(parts@) =~= before.push(t@));
    }
    Ok(parts)
}

/// Splits a batch expression into groups on `&`, `;` or newlines outside
/// parentheses and quotes; empty groups are dropped.
pub fn split_groups(text: &str) -> (r: Result<Vec<String>, String>)
    ensures
        strings_result(r) == groups_of(text@),
{
    let v = chars_of(text);
    match split_top_level(&v, false) {
        Ok(ps) => Ok(strings_of(&ps)),
        Err(e) => Err(e),
    }
}

/// Splits a group into its `|`-separated pipeline stages.
pub fn split_pipeline(text: &str) -> (r: Result<Vec<String>, String>)
    ensures
        strings_result(r) == stages_of(text@),
{
    let v = chars_of(text);
    match split_top_level(&v, true) {
        Ok(ps) => {
            if ps.len() == 0 {
                Err(lit("Empty pipeline"))
            } else {
                Ok(strings_of(&ps))
            }
        },
        Err(e) => Err(e),
    }
}

/// Every group and every pipeline stage produced by a split is non-empty and
/// has no surrounding whitespace.
pub proof fn law_split_pieces_are_trimmed(s: Seq<char>, pipe: bool)
    requires
        top_level(s, pipe) is Ok,
    ensures
        clean_pieces(top_level(s, pipe)->Ok_0),
{
    lemma_scan_clean(s, pipe);
    let st = top_scan(s, pipe)->Ok_0;
    lemma_trim_idempotent(st.2);
}


// ───────────────────────────── call arguments ─────────────────────────────

/// Argument scanner state: whether a quote is open, the current argument,
/// and the finished arguments.
pub type ArgsState = (bool, Seq<char>, Seq<Seq<char>>);

/// Reads one argument character: quotes toggle quoting and are dropped, a
/// comma outside quotes ends the current argument (trimmed, kept even when
/// empty).
pub open spec fn args_step(st: ArgsState, c: char) -> ArgsState {
    if c == '\'' {
        (!st.0, st.1, st.2)
    } else if c == ',' && !st.0 {
        (st.0, Seq::empty(), st.2.push(trim(st.1)))
    } else {
        (st.0, st.1.push(c), st.2)
    }
}

pub open spec fn args_scan(s: Seq<char>) -> ArgsState
    decreases s.len(),
{
    if s.len() == 0 {
        (false, Seq::empty(), Seq::empty())
    } else {
        args_step(args_scan(s.drop_last()), s.last())
    }
}

/// Comma-separated arguments of `s`; single-quoted text may hold commas. The
/// last argument is kept only when not empty; an unclosed quote is an error.
pub open spec fn args_of(s: Seq<char>) -> Result<Seq<Seq<char>>, Seq<char>> {
    let st = args_scan(s);
    if st.0 {
        Err("Unclosed single quote in args"@)
    } else {
        Ok(push_nonempty(st.2, trim(st.1)))
    }
}

fn args_exec(s: &Vec<char>) -> (r: Result<Vec<Vec<char>>, String>)
    ensures
        match r {
            Ok(v) => args_of(s@) == Ok::<Seq<Seq<char>>, Seq<char>>(vviews(v@)),
            Err(e) => args_of(s@) == Err::<Seq<Seq<char>>, Seq<char>>(e@),
        },
{
    let mut args: Vec<Vec<char>> = Vec::new();
    let mut cur: Vec<char> = Vec::new();
    let mut quoted = false;
    let mut i: usize = 0;
    assert(vviews(args@) =~= Seq::<Seq<char>>::empty());
    assert(s@.take(0) =~= Seq::<char>::empty());
    while i < s.len()
        invariant
            i <= s.len(),
            args_scan(s@.take(i as int)) == (quoted, cur@, vviews(args@)),
        decreases s.len() - i,
    {
        let c = s[i];
        proof {
            assert(s@.take(i + 1).drop_last() =~= s@.take(i as int));
            assert(s@.take(i + 1).last() == c);
        }
        if c == '\'' {
            quoted = !quoted;
        } else if c == ',' && !quoted {
            let t = trim_vec(&cur);
            let ghost before = vviews(args@);
            args.push(t);
            assert(vviews(args@) =~= before.push(t@));
            cur = Vec::new();
        } else {
            cur.push(c);
        }
        i = i + 1;
    }
    assert(s@.take(s@.len() as int) =~= s@);
    let t = trim_vec(&cur);
    if t.len() > 0 {
        let ghost before = vviews(args@);
        args.push(t);
        assert(vviews(args@) =~= before.push(t@));
    }
    if quoted {
        return Err(lit("Unclosed single quote in args"));
    }
    Ok(args)
}

/// Parses comma-separated call arguments.
pub fn parse_args(s: &str) -> (r: Result<Vec<String>, String>)
    ensures
        strings_result(r) == args_of(s@),
{
    let v = chars_of(s);
    match args_exec(&v) {
        Ok(a) => Ok(strings_of(&a)),
        Err(e) => Err(e),
    }
}


// ───────────────────────────── calls ─────────────────────────────

/// A call of a batch expression.
#[derive(Debug, Clone, PartialEq)]
pub enum BatchFunc {
    Explore {
        resource_type: String,
        query: String,
        num_hops: u32,
        max_results: u32,
        /// Which embedding to search: "content" (default) or "tag".
        vector: String,
    },
    Rdf { hops: u32, max_results: u32 },
    TokenToDetail { token_id: String },
}

/// A batch call with its strings taken as character sequences.
pub enum BatchCall {
    Explore {
        resource_type: Seq<char>,
        query: Seq<char>,
        num_hops: u32,
        max_results: u32,
        vector: Seq<char>,
    },
    Rdf { hops: u32, max_results: u32 },
    TokenToDetail { token_id: Seq<char> },
}

impl View for BatchFunc {
    type V = BatchCall;

    open spec fn view(&self) -> BatchCall {
        match self {
            BatchFunc::Explore { resource_type, query, num_hops, max_results, vector } =>
                BatchCall::Explore {
                resource_type: resource_type@,
                query: query@,
                num_hops: *num_hops,
                max_results: *max_results,
                vector: vector@,
            },
            BatchFunc::Rdf { hops, max_results } => BatchCall::Rdf {
                hops: *hops,
                max_results: *max_results,
            },
            BatchFunc::TokenToDetail { token_id } => BatchCall::TokenToDetail {
                token_id: token_id@,
            },
        }
    }
}

/// Argument `i` read as a `u32`, or `default` when it is missing or not a
/// number.
pub open spec fn num_arg(args: Seq<Seq<char>>, i: int, default: u32) -> u32 {
    if i < args.len() {
        match parse_u32(args[i]) {
            Some(n) => n as u32,
            None => default,
        }
    } else {
        default
    }
}

pub open spec fn explore_arity_message() -> Seq<char> {
    "explore() requires at least 2 args: (resource_type, query, [num_hops], [max_results], [vector])"@
}

/// The call named `name` with arguments `args`.
pub open spec fn call_of(name: Seq<char>, args: Seq<Seq<char>>) -> Result<BatchCall, Seq<char>> {
    if name == "explore"@ {
        if args.len() < 2 {
            Err(explore_arity_message())
        } else {
            Ok(
                BatchCall::Explore {
                    resource_type: args[0],
                    query: args[1],
                    num_hops: num_arg(args, 2, 0),
                    max_results: num_arg(args, 3, 10),
                    vector: if args.len() > 4 {
                        args[4]
                    } else {
                        "content"@
                    },
                },
            )
        }
    } else if name == "rdf"@ {
        if args.len() == 0 {
            Err("rdf() requires at least 1 arg: (hops, [max_results])"@)
        } else {
            Ok(BatchCall::Rdf { hops: num_arg(args, 0, 1), max_results: num_arg(args, 1, 20) })
        }
    } else if name == "token_to_detail"@ {
        if args.len() == 0 {
            Err("token_to_detail() requires token_id"@)
        } else {
            Ok(BatchCall::TokenToDetail { token_id: args[0] })
        }
    } else {
        Err("Unknown batch function: "@ + name)
    }
}

/// The last `)` of the trimmed call text comes before its first `(`: the
/// argument slice between them does not exist.
pub open spec fn func_call_panics(text: Seq<char>) -> bool {
    let t = trim(text);
    match (find_from(t, seq!['('], 0), rfind(t, seq![')'])) {
        (Some(o), Some(c)) => c < o,
        _ => false,
    }
}

/// A call `name(args)`: the name is the trimmed text before the first `(`,
/// the arguments are read from the trimmed text between it and the last `)`.
pub open spec fn func_call(text: Seq<char>) -> Result<BatchCall, Seq<char>> {
    let t = trim(text);
    match find_from(t, seq!['('], 0) {
        None => Err("Missing '(' in: "@ + t),
        Some(o) => match rfind(t, seq![')']) {
            None => Err("Missing ')' in: "@ + t),
            Some(c) => match args_of(trim(t.subrange(o + 1, c))) {
                Ok(args) => call_of(trim(t.subrange(0, o)), args),
                Err(e) => Err(e),
            },
        },
    }
}

/// A `Result` of a call taken by its view.
pub open spec fn call_result(r: Result<BatchFunc, String>) -> Result<BatchCall, Seq<char>> {
    match r {
        Ok(f) => Ok(f@),
        Err(e) => Err(e@),
    }
}

fn same_chars(a: &Vec<char>, b: &str) -> (r: bool)
    ensures
        r == (a@ == b@),
{
    let w = chars_of(b);
    if a.len() != w.len() {
        return false;
    }
    let mut i: usize = 0;
    while i < a.len()
        invariant
            i <= a.len() == w.len(),
            w@ == b@,
            forall|k: int| 0 <= k < i ==> a@[k] == w@[k],
        decreases a.len() - i,
    {
        if a[i] != w[i] {
            return false;
        }
        i = i + 1;
    }
    assert(a@ =~= w@);
    true
}

fn message_with(prefix: &str, tail: &Vec<char>) -> (r: String)
    ensures
        r@ == prefix@ + tail@,
{
    let mut m = chars_of(prefix);
    push_all(&mut m, tail);
    string_of(m.as_slice())
}

fn num_arg_exec(args: &Vec<Vec<char>>, i: usize, default: u32) -> (r: u32)
    ensures
        r == num_arg(vviews(args@), i as int, default),
{
    if i < args.len() {
        match parse_u32_exec(&args[i]) {
            Some(n) => n,
            None => default,
        }
    } else {
        default
    }
}

fn call_exec(name: &Vec<char>, args: &Vec<Vec<char>>) -> (r: Result<BatchFunc, String>)
    ensures
        call_result(r) == call_of(name@, vviews(args@)),
{
    let ghost a = vviews(args@);
    if same_chars(name, "explore") {
        if args.len() < 2 {
            Err(lit("explore() requires at least 2 args: (resource_type, query, [num_hops], [max_results], [vector])"))
        } else {
            let vector = if args.len() > 4 {
                string_of(args[4].as_slice())
            } else {
                lit("content")
            };
            Ok(
                BatchFunc::Explore {
                    resource_type: string_of(args[0].as_slice()),
                    query: string_of(args[1].as_slice()),
                    num_hops: num_arg_exec(args, 2, 0),
                    max_results: num_arg_exec(args, 3, 10),
                    vector,
                },
            )
        }
    } else if same_chars(name, "rdf") {
        if args.len() == 0 {
            Err(lit("rdf() requires at least 1 arg: (hops, [max_results])"))
        } else {
            Ok(BatchFunc::Rdf { hops: num_arg_exec(args, 0, 1), max_results: num_arg_exec(args, 1, 20) })
        }
    } else if same_chars(name, "token_to_detail") {
        if args.len() == 0 {
            Err(lit("token_to_detail() requires token_id"))
        } else {
            Ok(BatchFunc::TokenToDetail { token_id: string_of(args[0].as_slice()) })
        }
    } else {
        Err(message_with("Unknown batch function: ", name))
    }
}

/// Parses one call; `None` where the last `)` precedes the first `(`.
fn func_call_exec(text: &Vec<char>) -> (r: Option<Result<BatchFunc, String>>)
    ensures
        r is None <==> func_call_panics(text@),
        r matches Some(res) ==> call_result(res) == func_call(text@),
{
    let t = trim_vec(text);
    let open_pat = vec!['('];
    let close_pat = vec![')'];
    assert(open_pat@ == seq!['(']);
    assert(close_pat@ == seq![')']);
    let open = match find_exec(&t, &open_pat) {
        Some(o) => o,
        None => {
            return Some(Err(message_with("Missing '(' in: ", &t)));
        },
    };
    let close = match rfind_exec(&t, &close_pat) {
        Some(c) => c,
        None => {
            return Some(Err(message_with("Missing ')' in: ", &t)));
        },
    };
    proof {
        lemma_find_from(t@, open_pat@, 0);
    }
    if close < open {
        return None;
    }
    assert(match_at(t@, open_pat@, open as int));
    assert(match_at(t@, close_pat@, close as int));
    assert(t@[close as int] == ')');
    assert(close != open);
    let inner = trim_vec(&slice_vec(&t, open + 1, close));
    let name = trim_vec(&slice_vec(&t, 0, open));
    match args_exec(&inner) {
        Ok(args) => Some(call_exec(&name, &args)),
        Err(e) => Some(Err(e)),
    }
}

/// Parses a single call such as `explore(memory, rust, 1, 10)`.
pub fn parse_func_call(text: &str) -> (r: Result<BatchFunc, String>)
    requires
        !func_call_panics(text@),
    ensures
        call_result(r) == func_call(text@),
{
    let v = chars_of(text);
    match func_call_exec(&v) {
        Some(res) => res,
        None => {
            proof {
                assert(false);
            }
            Err(lit(""))
        },
    }
}


// ───────────────────────────── batch expressions ─────────────────────────────

pub open spec fn funcs_view(v: Seq<BatchFunc>) -> Seq<BatchCall> {
    v.map_values(|f: BatchFunc| f@)
}

pub open spec fn groups_view(v: Seq<Vec<BatchFunc>>) -> Seq<Seq<BatchCall>> {
    v.map_values(|g: Vec<BatchFunc>| funcs_view(g@))
}

pub open spec fn batch_view(r: Result<Vec<Vec<BatchFunc>>, String>) -> Result<Seq<Seq<BatchCall>>, Seq<char>> {
    match r {
        Ok(v) => Ok(groups_view(v@)),
        Err(e) => Err(e@),
    }
}

/// The calls of the pipeline stages `ss`, in order; the first error stops
/// the parse, and `None` marks a stage on which the parse does not return.
pub open spec fn stage_calls(ss: Seq<Seq<char>>) -> Option<Result<Seq<BatchCall>, Seq<char>>>
    decreases ss.len(),
{
    if ss.len() == 0 {
        Some(Ok(Seq::empty()))
    } else {
        match stage_calls(ss.drop_last()) {
            Some(Ok(cs)) => if func_call_panics(ss.last()) {
                None
            } else {
                match func_call(ss.last()) {
                    Ok(c) => Some(Ok(cs.push(c))),
                    Err(e) => Some(Err(e)),
                }
            },
            other => other,
        }
    }
}

/// The pipelines of the groups `gs`, in order, with the first error.
pub open spec fn group_calls(gs: Seq<Seq<char>>) -> Option<Result<Seq<Seq<BatchCall>>, Seq<char>>>
    decreases gs.len(),
{
    if gs.len() == 0 {
        Some(Ok(Seq::empty()))
    } else {
        match group_calls(gs.drop_last()) {
            Some(Ok(rs)) => match stages_of(gs.last()) {
                Err(e) => Some(Err(e)),
                Ok(ss) => match stage_calls(ss) {
                    Some(Ok(cs)) => Some(Ok(rs.push(cs))),
                    Some(Err(e)) => Some(Err(e)),
                    None => None,
                },
            },
            other => other,
        }
    }
}

/// A batch expression parsed into groups of pipelined calls; an expression
/// without any group is an error. `None` where a call's last `)` precedes
/// its first `(`.
pub open spec fn batch_expr(s: Seq<char>) -> Option<Result<Seq<Seq<BatchCall>>, Seq<char>>> {
    match groups_of(s) {
        Err(e) => Some(Err(e)),
        Ok(gs) => match group_calls(gs) {
            Some(Ok(rs)) => if rs.len() == 0 {
                Some(Err("Empty batch expression"@))
            } else {
                Some(Ok(rs))
            },
            other => other,
        },
    }
}

proof fn lemma_stage_calls_sticky(ss: Seq<Seq<char>>, i: int, j: int)
    requires
        0 <= i <= j <= ss.len(),
        !(stage_calls(ss.take(i)) matches Some(Ok(_))),
    ensures
        stage_calls(ss.take(j)) == stage_calls(ss.take(i)),
    decreases j - i,
{
    if j > i {
        lemma_stage_calls_sticky(ss, i, j - 1);
        assert(ss.take(j).drop_last() =~= ss.take(j - 1));
    }
}

proof fn lemma_group_calls_sticky(gs: Seq<Seq<char>>, i: int, j: int)
    requires
        0 <= i <= j <= gs.len(),
        !(group_calls(gs.take(i)) matches Some(Ok(_))),
    ensures
        group_calls(gs.take(j)) == group_calls(gs.take(i)),
    decreases j - i,
{
    if j > i {
        lemma_group_calls_sticky(gs, i, j - 1);
        assert(gs.take(j).drop_last() =~= gs.take(j - 1));
    }
}

fn stages_exec(ss: &Vec<Vec<char>>) -> (r: Option<Result<Vec<BatchFunc>, String>>)
    ensures
        match r {
            None => stage_calls(vviews(ss@)) is None,
            Some(Ok(v)) => stage_calls(vviews(ss@)) == Some(
                Ok::<Seq<BatchCall>, Seq<char>>(funcs_view(v@)),
            ),
            Some(Err(e)) => stage_calls(vviews(ss@)) == Some(
                Err::<Seq<BatchCall>, Seq<char>>(e@),
            ),
        },
{
    let ghost all = vviews(ss@);
    let mut out: Vec<BatchFunc> = Vec::new();
    let mut i: usize = 0;
    assert(all.take(0) =~= Seq::<Seq<char>>::empty());
    assert(funcs_view(out@) =~= Seq::<BatchCall>::empty());
    while i < ss.len()
        invariant
            i <= ss.len(),
            all == vviews(ss@),
            stage_calls(all.take(i as int)) == Some(
                Ok::<Seq<BatchCall>, Seq<char>>(funcs_view(out@)),
            ),
        decreases ss.len() - i,
    {
        proof {
            assert(all.take(i + 1).drop_last() =~= all.take(i as int));
            assert(all.take(i + 1).last() == ss@[i as int]@);
        }
        match func_call_exec(&ss[i]) {
            None => {
                proof {
                    lemma_stage_calls_sticky(all, i + 1, all.len() as int);
                    assert(all.take(all.len() as int) =~= all);
                }
                return None;
            },
            Some(Err(e)) => {
                proof {
                    lemma_stage_calls_sticky(all, i + 1, all.len() as int);
                    assert(all.take(all.len() as int) =~= all);
                }
                return Some(Err(e));
            },
            Some(Ok(f)) => {
                let ghost before = funcs_view(out@);
                out.push(f);
                assert(funcs_view(out@) =~= before.push(f@));
            },
        }
        i = i + 1;
    }
    assert(all.take(all.len() as int) =~= all);
    Some(Ok(out))
}

/// Parses a batch expression; `None` where a call's last `)` precedes its
/// first `(`, on which `parse_batch_expr` does not return.
pub fn parse_batch_expr_checked(expr: &str) -> (r: Option<Result<Vec<Vec<BatchFunc>>, String>>)
    ensures
        match r {
            None => batch_expr(expr@) is None,
            Some(res) => batch_expr(expr@) == Some(batch_view(res)),
        },
{
    let v = chars_of(expr);
    let groups = match split_top_level(&v, false) {
        Ok(g) => g,
        Err(e) => {
            return Some(Err(e));
        },
    };
    let ghost all = vviews(groups@);
    let mut out: Vec<Vec<BatchFunc>> = Vec::new();
    let mut i: usize = 0;
    assert(all.take(0) =~= Seq::<Seq<char>>::empty());
    assert(groups_view(out@) =~= Seq::<Seq<BatchCall>>::empty());
    while i < groups.len()
        invariant
            i <= groups.len(),
            all == vviews(groups@),
            groups_of(expr@) == Ok::<Seq<Seq<char>>, Seq<char>>(all),
            group_calls(all.take(i as int)) == Some(
                Ok::<Seq<Seq<BatchCall>>, Seq<char>>(groups_view(out@)),
            ),
            out.len() == i,
        decreases groups.len() - i,
    {
        proof {
            assert(all.take(i + 1).drop_last() =~= all.take(i as int));
            assert(all.take(i + 1).last() == groups@[i as int]@);
        }
        let stages = match split_top_level(&groups[i], true) {
            Ok(s) => s,
            Err(e) => {
                proof {
                    lemma_group_calls_sticky(all, i + 1, all.len() as int);
                    assert(all.take(all.len() as int) =~= all);
                }
                return Some(Err(e));
            },
        };
        if stages.len() == 0 {
            proof {
                lemma_group_calls_sticky(all, i + 1, all.len() as int);
                assert(all.take(all.len() as int) =~= all);
            }
            return Some(Err(lit("Empty pipeline")));
        }
        match stages_exec(&stages) {
            None => {
                proof {
                    lemma_group_calls_sticky(all, i + 1, all.len() as int);
                    assert(all.take(all.len() as int) =~= all);
                }
                return None;
            },
            Some(Err(e)) => {
                proof {
                    lemma_group_calls_sticky(all, i + 1, all.len() as int);
                    assert(all.take(all.len() as int) =~= all);
                }
                return Some(Err(e));
            },
            Some(Ok(fs)) => {
                let ghost before = groups_view(out@);
                out.push(fs);
                assert(groups_view(out@) =~= before.push(funcs_view(fs@)));
            },
        }
        i = i + 1;
    }
    assert(all.take(all.len() as int) =~= all);
    if out.len() == 0 {
        return Some(Err(lit("Empty batch expression")));
    }
    Some(Ok(out))
}

/// Parses a batch expression into groups of pipelined calls: `|` separates
/// the stages of a pipeline, `&`, `;` and newlines separate groups.
pub fn parse_batch_expr(expr: &str) -> (r: Result<Vec<Vec<BatchFunc>>, String>)
    requires
        batch_expr(expr@) is Some,
    ensures
        Some(batch_view(r)) == batch_expr(expr@),
{
    match parse_batch_expr_checked(expr) {
        Some(res) => res,
        None => {
            proof {
                assert(false);
            }
            Err(lit(""))
        },
    }
}


// ───────────────────────────── per-turn discovery cap ─────────────────────────────

/// Default per-turn cap on discovery calls (explore, rdf, token_to_detail).
pub const DEFAULT_BATCH_CAP: u32 = 3;

/// The error a discovery call gets once the cap is used up.
pub open spec fn cap_message(cap: u32, count: u32) -> Seq<char> {
    "Batch retrieval cap ("@ + dec(cap as nat) + ") exceeded. You have already made "@ + dec(
        count as nat,
    )
        + " discovery calls (explore/rdf/token_to_detail) this turn. Respond with the information you have, or use invoke() on tools you have already discovered."@
}

/// The counter after a call that found it at `count`: one more, or back to
/// `cap` once the cap is reached, so that every later call sees it exceeded.
pub open spec fn counter_after(count: u32, cap: u32) -> u32 {
    if count >= cap {
        cap
    } else {
        (count + 1) as u32
    }
}

/// Check-and-increment of the per-turn discovery counter. `count` is the
/// counter's value when the call arrives; the result holds the counter's new
/// value and, when the cap has been reached, the error to return instead of
/// running the call.
pub fn check_batch_cap(count: u32, cap: u32, _tool_name: &str) -> (r: (u32, Option<ToolResult>))
    ensures
        r.0 == counter_after(count, cap),
        r.1 is Some <==> count >= cap,
        r.1 matches Some(res) ==> res.call_id@ == Seq::<char>::empty() && res.output@
            == cap_message(cap, count) && res.is_error,
{
    if count >= cap {
        let mut m = chars_of("Batch retrieval cap (");
        push_dec(&mut m, cap as u64);
        let mid = chars_of(") exceeded. You have already made ");
        push_all(&mut m, &mid);
        push_dec(&mut m, count as u64);
        let tail = chars_of(
            " discovery calls (explore/rdf/token_to_detail) this turn. Respond with the information you have, or use invoke() on tools you have already discovered.",
        );
        push_all(&mut m, &tail);
        let res = ToolResult { call_id: String::new(), output: string_of(m.as_slice()), is_error: true };
        (cap, Some(res))
    } else {
        (count + 1, None)
    }
}

/// The counter after `k` calls in one turn, starting from zero.
pub open spec fn counter_after_calls(cap: u32, k: nat) -> u32
    decreases k,
{
    if k == 0 {
        0
    } else {
        counter_after(counter_after_calls(cap, (k - 1) as nat), cap)
    }
}

/// In a turn, exactly the first `cap` discovery calls are let through; every
/// later one is refused, however many come.
pub proof fn law_batch_cap_admits_first_calls(cap: u32, k: nat)
    ensures
        counter_after_calls(cap, k) == (if k < cap {
            k
        } else {
            cap as nat
        }),
        counter_after_calls(cap, k) < cap <==> k < cap,
    decreases k,
{
    if k > 0 {
        law_batch_cap_admits_first_calls(cap, (k - 1) as nat);
    }
}

// ───────────────────────────── invoke ─────────────────────────────

/// Stand-in for tools and skills found by `explore()`: calls to `invoke` are
/// redirected to the real tool by the orchestration, so this tool itself
/// only reports that the redirection did not happen.
pub struct SquireInvokeTool;

impl SquireInvokeTool {
    pub fn name(&self) -> (r: &'static str)
        ensures
            r@ == "invoke"@,
    {
        "invoke"
    }

    pub fn description(&self) -> (r: &'static str)
        ensures
            r@ == "Execute a tool or skill by its token_id (discovered via explore())."@,
    {
        "Execute a tool or skill by its token_id (discovered via explore())."
    }

    pub fn danger(&self) -> (r: ToolDanger)
        ensures
            r == ToolDanger::Destructive,
    {
        ToolDanger::Destructive
    }

    /// The result of an `invoke` call that reached this tool.
    pub fn execute(&self, _call_id: &str) -> (r: ToolResult)
        ensures
            r.call_id@ == Seq::<char>::empty(),
            r.output@ == "Internal error: invoke tool was not redirected by orchestration"@,
            r.is_error,
    {
        ToolResult {
            call_id: String::new(),
            output: lit("Internal error: invoke tool was not redirected by orchestration"),
            is_error: true,
        }
    }
}

} // verus!
