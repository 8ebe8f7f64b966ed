//! Thinking-level handling of the Anthropic provider.

use vstd::prelude::*;
use crate::text::{lit, lowercase, to_lowercase};

verus! {

/// The thinking levels a request may name.
pub open spec fn is_known_level(s: Seq<char>) -> bool {
    s == "default"@ || s == "none"@ || s == "low"@ || s == "mid"@ || s == "high"@
}

/// A lowercased level kept when known, otherwise `fallback`.
pub open spec fn settled_level(lowered: Seq<char>, fallback: Seq<char>) -> Seq<char> {
    if is_known_level(lowered) {
        lowered
    } else {
        fallback
    }
}

/// Keeps an already lowercased level when it is known, otherwise gives
/// `fallback`.
pub fn settle_level(lowered: &str, fallback: &str) -> (r: String)
    ensures
        r@ == settled_level(lowered@, fallback@),
{
    let v = crate::text::chars_of(lowered);
    let known = crate::text::chars_eq(&v, &crate::text::chars_of("default"))
        || crate::text::chars_eq(&v, &crate::text::chars_of("none"))
        || crate::text::chars_eq(&v, &crate::text::chars_of("low"))
        || crate::text::chars_eq(&v, &crate::text::chars_of("mid"))
        || crate::text::chars_eq(&v, &crate::text::chars_of("high"));
    if known {
        lit(lowered)
    } else {
        lit(fallback)
    }
}

/// The requested level lowercased when it is a known one; `mid` when it is
/// missing or unknown.
pub fn normalize_level(level: Option<String>) -> (r: String)
    ensures
        r@ == settled_level(
            lowercase(
                match level {
                    Some(l) => l@,
                    None => "mid"@,
                },
            ),
            "mid"@,
        ),
{
    let raw = match level {
        Some(l) => l,
        None => lit("mid"),
    };
    let lowered = to_lowercase(raw.as_str());
    settle_level(lowered.as_str(), "mid")
}

/// Extended-thinking budget in tokens for a level.
pub open spec fn budget_of(level: Seq<char>) -> Option<u32> {
    if level == "low"@ {
        Some(1024)
    } else if level == "mid"@ {
        Some(4096)
    } else if level == "high"@ {
        Some(8192)
    } else {
        None
    }
}

pub fn anthropic_budget_tokens(level: &str) -> (r: Option<u32>)
    ensures
        r == budget_of(level@),
{
    let v = crate::text::chars_of(level);
    if crate::text::chars_eq(&v, &crate::text::chars_of("low")) {
        Some(1024)
    } else if crate::text::chars_eq(&v, &crate::text::chars_of("mid")) {
        Some(4096)
    } else if crate::text::chars_eq(&v, &crate::text::chars_of("high")) {
        Some(8192)
    } else {
        None
    }
}

} // verus!
