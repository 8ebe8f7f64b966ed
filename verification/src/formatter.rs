//! The formatter pass's legacy JSON output: locating the JSON object in the
//! model's text, and turning the parsed object into a close response.

use vstd::prelude::*;
use crate::text::{
    byte_len, chars_of, find_exec, find_from, lit, rfind, rfind_exec, slice_vec, starts_with,
    string_of, trim, trim_vec, match_at, lemma_find_from, str_byte_len,
};
use crate::types::{NewTokenSpec, Relationship, SquireResponse};

verus! {

/// A token of the formatter's JSON output.
#[derive(Debug, Clone, PartialEq)]
pub struct FormatterJsonToken {
    pub id: String,
    pub token_type: String,
    pub short_desc: String,
    pub full_desc: Option<String>,
}

/// A relationship of the formatter's JSON output.
#[derive(Debug, Clone, PartialEq)]
pub struct FormatterJsonRelationship {
    pub subject: String,
    pub predicate: String,
    pub object: String,
}

/// The formatter's JSON output.
#[derive(Debug, Clone, PartialEq)]
pub struct FormatterOutput {
    pub new_tokens: Vec<FormatterJsonToken>,
    pub relationships: Vec<FormatterJsonRelationship>,
    pub preserve: Vec<String>,
}

/// Text between an opening fence (ending at `after`) and the next fence,
/// trimmed; `None` when no closing fence follows.
pub open spec fn fenced(t: Seq<char>, after: int) -> Option<Seq<char>> {
    let a = t.skip(after);
    match find_from(a, "```"@, 0) {
        Some(e) => Some(trim(a.take(e))),
        None => None,
    }
}

/// The first `{` comes after the last `}` by more than one position: the
/// slice between them does not exist.
pub open spec fn extract_json_panics(text: Seq<char>) -> bool {
    let t = trim(text);
    !starts_with(t, "{"@) && find_from(t, "```json"@, 0) is None && (match find_from(t, "```"@, 0) {
        Some(s) => fenced(t, s + 3) is None,
        None => true,
    }) && match (find_from(t, "{"@, 0), rfind(t, "}"@)) {
        (Some(s), Some(e)) => e + 1 < s,
        _ => false,
    }
}

/// The JSON object in a formatter reply: the whole trimmed text when it
/// starts with `{`; else the body of a ```` ```json ```` fence (up to the
/// next fence, or to the end); else the body of a closed ```` ``` ````
/// fence; else the text from the first `{` to the last `}` when longer
/// than ten bytes.
pub open spec fn extracted_json(text: Seq<char>) -> Option<Seq<char>> {
    let t = trim(text);
    if starts_with(t, "{"@) {
        Some(t)
    } else {
        match find_from(t, "```json"@, 0) {
            Some(s) => match fenced(t, s + 7) {
                Some(b) => Some(b),
                None => Some(trim(t.skip(s + 7))),
            },
            None => {
                let plain = match find_from(t, "```"@, 0) {
                    Some(s) => fenced(t, s + 3),
                    None => None,
                };
                match plain {
                    Some(b) => Some(b),
                    None => match (find_from(t, "{"@, 0), rfind(t, "}"@)) {
                        (Some(s), Some(e)) => {
                            let c = t.subrange(s, e + 1);
                            if byte_len(c) > 10 {
                                Some(c)
                            } else {
                                None
                            }
                        },
                        _ => None,
                    },
                }
            },
        }
    }
}

fn fenced_exec(t: &Vec<char>, after: usize) -> (r: Option<Vec<char>>)
    requires
        after <= t.len(),
    ensures
        match r {
            Some(b) => fenced(t@, after as int) == Some(b@),
            None => fenced(t@, after as int) is None,
        },
{
    let a = slice_vec(t, after, t.len());
    assert(a@ =~= t@.skip(after as int));
    proof {
        reveal_strlit("```");
    }
    let fence = chars_of("```");
    match find_exec(&a, &fence) {
        Some(e) => {
            proof {
                lemma_find_from(a@, fence@, 0);
            }
            let body = slice_vec(&a, 0, e);
            assert(body@ =~= a@.take(e as int));
            Some(trim_vec(&body))
        },
        None => None,
    }
}

/// Finds the JSON object in a formatter reply (see `extracted_json`).
pub fn try_extract_json(text: &str) -> (r: Option<String>)
    requires
        !extract_json_panics(text@),
    ensures
        match r {
            Some(s) => extracted_json(text@) == Some(s@),
            None => extracted_json(text@) is None,
        },
{
    proof {
        reveal_strlit("```json");
        reveal_strlit("```");
        reveal_strlit("{");
        reveal_strlit("}");
    }
    let t = trim_vec(&chars_of(text));
    let open = chars_of("{");
    if crate::text::starts_with_exec(&t, &open) {
        return Some(string_of(t.as_slice()));
    }
    let json_fence = chars_of("```json");
    match find_exec(&t, &json_fence) {
        Some(s) => {
            proof {
                lemma_find_from(t@, json_fence@, 0);
            }
            match fenced_exec(&t, s + 7) {
                Some(b) => {
                    return Some(string_of(b.as_slice()));
                },
                None => {
                    let rest = slice_vec(&t, s + 7, t.len());
                    assert(rest@ =~= t@.skip(s + 7));
                    return Some(string_of(trim_vec(&rest).as_slice()));
                },
            }
        },
        None => {},
    }
    let fence = chars_of("```");
    let plain = match find_exec(&t, &fence) {
        Some(s) => {
            proof {
                lemma_find_from(t@, fence@, 0);
            }
            fenced_exec(&t, s + 3)
        },
        None => None,
    };
    if let Some(b) = plain {
        return Some(string_of(b.as_slice()));
    }
    let close = chars_of("}");
    match (find_exec(&t, &open), rfind_exec(&t, &close)) {
        (Some(s), Some(e)) => {
            proof {
                lemma_find_from(t@, open@, 0);
            }
            assert(match_at(t@, close@, e as int));
            assert(s <= e + 1);
            let c = slice_vec(&t, s, e + 1);
            let cs = string_of(c.as_slice());
            if str_byte_len(cs.as_str()) > 10 {
                Some(cs)
            } else {
                None
            }
        },
        _ => None,
    }
}

pub open spec fn formatter_token_ok(t: NewTokenSpec, f: FormatterJsonToken) -> bool {
    &&& t.id@ == f.id@
    &&& t.token_type@ == f.token_type@
    &&& t.short_desc@ == f.short_desc@
    &&& crate::protocol::opt_view(t.full_desc) == crate::protocol::opt_view(f.full_desc)
    &&& t.endpoint is None
    &&& t.ranges@.len() == 0
}

/// `r` is the close response formatter output `output` stands for.
pub open spec fn formatter_response_of(output: FormatterOutput, r: SquireResponse) -> bool {
    &&& r.content@.len() == 0
    &&& r.ask_user@.len() == 0
    &&& r.new_tokens@.len() == output.new_tokens@.len()
    &&& forall|i: int|
        0 <= i < r.new_tokens@.len() ==> formatter_token_ok(
            #[trigger] r.new_tokens@[i],
            output.new_tokens@[i],
        )
    &&& r.relationships@.len() == output.relationships@.len()
    &&& forall|i: int|
        0 <= i < r.relationships@.len() ==> {
            let a = #[trigger] r.relationships@[i];
            let b = output.relationships@[i];
            a.subject@ == b.subject@ && a.predicate@ == b.predicate@ && a.object@ == b.object@
        }
    &&& r.preserve@.len() == output.preserve@.len()
    &&& forall|i: int| 0 <= i < r.preserve@.len() ==> (#[trigger] r.preserve@[i])@ == output.preserve@[i]@
}

/// The close response a formatter output stands for: its tokens (no
/// endpoint, no ranges), relationships and preserve list, with empty
/// content and no question.
pub fn formatter_response(output: &FormatterOutput) -> (r: SquireResponse)
    ensures
        formatter_response_of(*output, r),
        r.content@.len() == 0,
        r.ask_user@.len() == 0,
        r.new_tokens@.len() == output.new_tokens@.len(),
        forall|i: int|
            0 <= i < r.new_tokens@.len() ==> formatter_token_ok(
                #[trigger] r.new_tokens@[i],
                output.new_tokens@[i],
            ),
        r.relationships@.len() == output.relationships@.len(),
        forall|i: int|
            0 <= i < r.relationships@.len() ==> {
                let a = #[trigger] r.relationships@[i];
                let b = output.relationships@[i];
                a.subject@ == b.subject@ && a.predicate@ == b.predicate@ && a.object@ == b.object@
            },
        r.preserve@.len() == output.preserve@.len(),
        forall|i: int| 0 <= i < r.preserve@.len() ==> (#[trigger] r.preserve@[i])@ == output.preserve@[i]@,
{
    let mut new_tokens: Vec<NewTokenSpec> = Vec::new();
    let mut i: usize = 0;
    while i < output.new_tokens.len()
        invariant
            i <= output.new_tokens.len(),
            new_tokens@.len() == i,
            forall|k: int| 0 <= k < i ==> formatter_token_ok(#[trigger] new_tokens@[k], output.new_tokens@[k]),
        decreases output.new_tokens.len() - i,
    {
        let f = &output.new_tokens[i];
        let full_desc = match &f.full_desc {
            Some(d) => Some(lit(d.as_str())),
            None => None,
        };
        new_tokens.push(
            NewTokenSpec {
                id: lit(f.id.as_str()),
                token_type: lit(f.token_type.as_str()),
                short_desc: lit(f.short_desc.as_str()),
                full_desc,
                endpoint: None,
                ranges: Vec::new(),
            },
        );
        i = i + 1;
    }
    let mut relationships: Vec<Relationship> = Vec::new();
    let mut j: usize = 0;
    while j < output.relationships.len()
        invariant
            j <= output.relationships.len(),
            relationships@.len() == j,
            forall|k: int|
                0 <= k < j ==> {
                    let a = #[trigger] relationships@[k];
                    let b = output.relationships@[k];
                    a.subject@ == b.subject@ && a.predicate@ == b.predicate@ && a.object@ == b.object@
                },
        decreases output.relationships.len() - j,
    {
        let f = &output.relationships[j];
        relationships.push(
            Relationship {
                subject: lit(f.subject.as_str()),
                predicate: lit(f.predicate.as_str()),
                object: lit(f.object.as_str()),
            },
        );
        j = j + 1;
    }
    let mut preserve: Vec<String> = Vec::new();
    let mut k: usize = 0;
    while k < output.preserve.len()
        invariant
            k <= output.preserve.len(),
            preserve@.len() == k,
            forall|m: int| 0 <= m < k ==> (#[trigger] preserve@[m])@ == output.preserve@[m]@,
        decreases output.preserve.len() - k,
    {
        preserve.push(lit(output.preserve[k].as_str()));
        k = k + 1;
    }
    SquireResponse { ask_user: String::new(), content: String::new(), preserve, new_tokens, relationships }
}


/// Whether finding the JSON object in `text` would cut a slice that does
/// not exist (see `extract_json_panics`).
fn extract_json_panics_exec(text: &str) -> (r: bool)
    ensures
        r == extract_json_panics(text@),
{
    proof {
        reveal_strlit("```json");
        reveal_strlit("```");
        reveal_strlit("{");
        reveal_strlit("}");
    }
    let t = trim_vec(&chars_of(text));
    let open = chars_of("{");
    let close = chars_of("}");
    if crate::text::starts_with_exec(&t, &open) {
        return false;
    }
    if find_exec(&t, &chars_of("```json")).is_some() {
        return false;
    }
    let fence = chars_of("```");
    match find_exec(&t, &fence) {
        Some(s) => {
            proof {
                lemma_find_from(t@, fence@, 0);
            }
            assert(s + 3 <= t.len());
            if fenced_exec(&t, s + 3).is_some() {
                return false;
            }
        },
        None => {},
    }
    match (find_exec(&t, &open), rfind_exec(&t, &close)) {
        (Some(s), Some(e)) => {
            assert(match_at(t@, close@, e as int));
            assert(e < t.len());
            e + 1 < s
        },
        _ => false,
    }
}

/// The JSON text to read a formatter reply as: the object found in it (see
/// `extracted_json`), or `None` when there is none or finding it would cut
/// a slice that does not exist.
pub fn formatter_json_text(text: &str) -> (r: Option<String>)
    ensures
        extract_json_panics(text@) ==> r is None,
        !extract_json_panics(text@) ==> match r {
            Some(s) => extracted_json(text@) == Some(s@),
            None => extracted_json(text@) is None,
        },
{
    if extract_json_panics_exec(text) {
        None
    } else {
        try_extract_json(text)
    }
}

/// The error for a formatter reply that is neither formatter JSON nor the
/// Bookmark Protocol, given what reading its JSON text gave.
pub open spec fn formatter_failure(json_error: Option<Seq<char>>) -> Seq<char> {
    match json_error {
        Some(e) => "Formatter output parse failed: JSON error: "@ + e + ", also not valid Bookmark Protocol"@,
        None => "Formatter output parse failed: no JSON object, also not valid Bookmark Protocol"@,
    }
}

/// Reads a formatter reply, given what parsing its JSON text (from
/// `formatter_json_text`) as formatter output gave (`None` when it has no
/// JSON text): formatter JSON that parsed is taken; otherwise a reply with
/// a section header is read as the Bookmark Protocol; anything else is
/// refused.
pub fn formatter_reply(text: &str, json: Option<Result<FormatterOutput, String>>) -> (r: Result<
    SquireResponse,
    String,
>)
    ensures
        json matches Some(Ok(o)) ==> r matches Ok(resp) && formatter_response_of(o, resp),
        !(json matches Some(Ok(_))) ==> (crate::bookmark::holds_section_header(text@) ==> (r matches Ok(
            resp,
        ) && crate::bookmark::bookmark_parse_of(text@, resp))),
        !(json matches Some(Ok(_))) ==> (!crate::bookmark::holds_section_header(text@) ==> (r matches Err(
            m,
        ) && m@ == formatter_failure(
            match json {
                Some(Err(e)) => Some(e@),
                _ => None,
            },
        ))),
{
    match json {
        Some(Ok(o)) => {
            return Ok(formatter_response(&o));
        },
        _ => {},
    }
    if crate::bookmark::has_section_header(text) {
        return Ok(crate::bookmark::parse_normalized_bookmark_protocol(text));
    }
    match json {
        Some(Err(e)) => {
            let mut v = chars_of("Formatter output parse failed: JSON error: ");
            crate::text::push_all(&mut v, &chars_of(e.as_str()));
            crate::text::push_all(&mut v, &chars_of(", also not valid Bookmark Protocol"));
            Err(string_of(v.as_slice()))
        },
        _ => Err(lit("Formatter output parse failed: no JSON object, also not valid Bookmark Protocol")),
    }
}

} // verus!
