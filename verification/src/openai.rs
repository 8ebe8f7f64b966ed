//! Request shaping of the OpenAI-compatible provider: thinking levels,
//! reasoning effort and the model families that take one.

use vstd::prelude::*;
use crate::anthropic::{settle_level, settled_level};
use crate::text::{chars_eq, chars_of, contains, contains_exec, lit, lowercase, push_all, starts_with, starts_with_exec, string_of, to_lowercase, trim};

verus! {

/// The requested level lowercased when it is a known one; `default` when
/// it is missing or unknown.
pub fn normalize_level(level: Option<String>) -> (r: String)
    ensures
        r@ == settled_level(
            lowercase(
                match level {
                    Some(l) => l@,
                    None => "default"@,
                },
            ),
            "default"@,
        ),
{
    let raw = match level {
        Some(l) => l,
        None => lit("default"),
    };
    let lowered = to_lowercase(raw.as_str());
    settle_level(lowered.as_str(), "default")
}

/// The first `max_chars` characters of `input`, with `...` appended when
/// something was cut.
pub open spec fn truncated(input: Seq<char>, max_chars: nat) -> Seq<char> {
    if input.len() > max_chars {
        input.take(max_chars as int) + "..."@
    } else {
        input
    }
}

pub fn truncate_chars(input: &str, max_chars: usize) -> (r: String)
    ensures
        r@ == truncated(input@, max_chars as nat),
{
    let v = chars_of(input);
    if v.len() > max_chars {
        let mut head = crate::text::slice_vec(&v, 0, max_chars);
        push_all(&mut head, &chars_of("..."));
        assert(v@.subrange(0, max_chars as int) =~= v@.take(max_chars as int));
        string_of(head.as_slice())
    } else {
        string_of(v.as_slice())
    }
}

/// Reasoning effort sent for a thinking level.
pub open spec fn effort_of(level: Seq<char>) -> Option<Seq<char>> {
    if level == "low"@ {
        Some("low"@)
    } else if level == "mid"@ {
        Some("medium"@)
    } else if level == "high"@ {
        Some("high"@)
    } else {
        None
    }
}

pub fn effort_for_level(level: &str) -> (r: Option<&'static str>)
    ensures
        match r {
            Some(e) => effort_of(level@) == Some(e@),
            None => effort_of(level@) is None,
        },
{
    let v = chars_of(level);
    if chars_eq(&v, &chars_of("low")) {
        Some("low")
    } else if chars_eq(&v, &chars_of("mid")) {
        Some("medium")
    } else if chars_eq(&v, &chars_of("high")) {
        Some("high")
    } else {
        None
    }
}

/// OpenAI reasoning models: names starting with `o1`, `o3`, `o4` or `gpt-5`.
pub open spec fn reasoning_family(m: Seq<char>) -> bool {
    starts_with(m, "o1"@) || starts_with(m, "o3"@) || starts_with(m, "o4"@) || starts_with(m, "gpt-5"@)
}

/// Whether an already lowercased model name is an OpenAI reasoning model.
pub fn is_reasoning_family_name(m: &str) -> (r: bool)
    ensures
        r == reasoning_family(m@),
{
    let v = chars_of(m);
    starts_with_exec(&v, &chars_of("o1")) || starts_with_exec(&v, &chars_of("o3"))
        || starts_with_exec(&v, &chars_of("o4")) || starts_with_exec(&v, &chars_of("gpt-5"))
}

pub fn is_openai_reasoning_family(model: &str) -> (r: bool)
    ensures
        r == reasoning_family(lowercase(model@)),
{
    is_reasoning_family_name(to_lowercase(model).as_str())
}

/// DeepSeek models: names starting with `deepseek-`.
pub open spec fn deepseek_family(m: Seq<char>) -> bool {
    starts_with(m, "deepseek-"@)
}

pub fn is_deepseek_family_name(m: &str) -> (r: bool)
    ensures
        r == deepseek_family(m@),
{
    starts_with_exec(&chars_of(m), &chars_of("deepseek-"))
}

pub fn is_deepseek_family(model: &str) -> (r: bool)
    ensures
        r == deepseek_family(lowercase(model@)),
{
    is_deepseek_family_name(to_lowercase(model).as_str())
}

/// OpenAI-compatible models that take a reasoning effort: names containing
/// `qwen`, `grok`, `glm`, `kimi`, `minimax` or `nemotron`.
pub open spec fn compat_effort_family(m: Seq<char>) -> bool {
    contains(m, "qwen"@) || contains(m, "grok"@) || contains(m, "glm"@) || contains(m, "kimi"@)
        || contains(m, "minimax"@) || contains(m, "nemotron"@)
}

pub fn is_compat_effort_family_name(m: &str) -> (r: bool)
    ensures
        r == compat_effort_family(m@),
{
    let v = chars_of(m);
    contains_exec(&v, &chars_of("qwen")) || contains_exec(&v, &chars_of("grok")) || contains_exec(
        &v,
        &chars_of("glm"),
    ) || contains_exec(&v, &chars_of("kimi")) || contains_exec(&v, &chars_of("minimax"))
        || contains_exec(&v, &chars_of("nemotron"))
}

pub fn is_openai_compat_reasoning_effort_family(model: &str) -> (r: bool)
    ensures
        r == compat_effort_family(lowercase(model@)),
{
    is_compat_effort_family_name(to_lowercase(model).as_str())
}

/// Models an OpenAI-compatible provider accepts: `gpt-`, `o1` and `o3`
/// models, and any other name that is not blank and has no space.
pub open spec fn supported_model(model: Seq<char>) -> bool {
    starts_with(model, "gpt-"@) || starts_with(model, "o1"@) || starts_with(model, "o3"@)
        || (trim(model).len() > 0 && !contains(trim(model), " "@))
}

pub fn supports_model(model: &str) -> (r: bool)
    ensures
        r == supported_model(model@),
{
    let v = chars_of(model);
    if starts_with_exec(&v, &chars_of("gpt-")) || starts_with_exec(&v, &chars_of("o1")) || starts_with_exec(&v, &chars_of("o3")) {
        return true;
    }
    let t = crate::text::trim_vec(&v);
    t.len() > 0 && !contains_exec(&t, &chars_of(" "))
}

} // verus!
