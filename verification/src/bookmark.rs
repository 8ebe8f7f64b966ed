//! Bookmark Protocol: `§#section` headers with `|`-delimited data lines, and
//! the normalisation passes that repair common model syntax mistakes.

use vstd::prelude::*;
use crate::text::{
    trim_end_bound, contains, contains_exec, ends_with, find_from, find_from_exec, lemma_emit_concat,
    lemma_emit_push, lemma_find_from, match_at, match_at_exec, push_line, trim_end, trim_end_vec,
    trim_start, trim_start_bound, trim_vec, chars_of, count_char, count_char_exec, emit, join, join_exec, lines, lines_exec, newline,
    push_all, push_range, slice_vec, split, split_exec, starts_with, starts_with_exec, string_of,
    sviews, trim, trim_bounds, vviews, rfind, rfind_exec, last_from, is_ws, split_from,
    lemma_split_nonempty,
};
use crate::types::{NewTokenSpec, Relationship, SquireResponse};
use crate::protocol::opt_view;

verus! {

// ───────────────────────────── sections ─────────────────────────────

/// Section names, in the order headers are matched: 1 `new_tokens`,
/// 2 `relationships`, 3 `preserve`, 4 `ask_user`.
pub open spec fn section_name(k: int) -> Seq<char> {
    if k == 1 {
        "new_tokens"@
    } else if k == 2 {
        "relationships"@
    } else if k == 3 {
        "preserve"@
    } else {
        "ask_user"@
    }
}

/// A trimmed line is a header for section `k` when it starts with `§#name`
/// or `#name` (a colon may follow).
pub open spec fn is_header_for(t: Seq<char>, k: int) -> bool {
    starts_with(t, "§#"@ + section_name(k)) || starts_with(t, "#"@ + section_name(k))
}

/// The first section whose header the trimmed line is, or 0.
pub open spec fn header_of(t: Seq<char>) -> int {
    if is_header_for(t, 1) {
        1
    } else if is_header_for(t, 2) {
        2
    } else if is_header_for(t, 3) {
        3
    } else if is_header_for(t, 4) {
        4
    } else {
        0
    }
}

fn header_of_exec(t: &Vec<char>) -> (r: u8)
    ensures
        r == header_of(t@),
{
    let names = ["new_tokens", "relationships", "preserve", "ask_user"];
    let mut k: usize = 0;
    while k < 4
        invariant
            k <= 4,
            names@.len() == 4,
            names@[0]@ == section_name(1),
            names@[1]@ == section_name(2),
            names@[2]@ == section_name(3),
            names@[3]@ == section_name(4),
            forall|m: int| 1 <= m <= k ==> !is_header_for(t@, m),
        decreases 4 - k,
    {
        let name = chars_of(names[k]);
        let mut p1 = chars_of("§#");
        push_all(&mut p1, &name);
        let mut p2 = chars_of("#");
        push_all(&mut p2, &name);
        if starts_with_exec(t, &p1) || starts_with_exec(t, &p2) {
            assert(is_header_for(t@, k + 1));
            return (k + 1) as u8;
        }
        k = k + 1;
    }
    0
}

/// Fields of a `|`-delimited data line: the trimmed line split on `|`, each trimmed.
pub open spec fn fields(t: Seq<char>) -> Seq<Seq<char>> {
    split(t, seq!['|']).map_values(|p: Seq<char>| trim(p))
}

/// `(id, type, short_desc, full_desc)` of a token.
pub open spec fn token_view(t: NewTokenSpec) -> (Seq<char>, Seq<char>, Seq<char>, Option<Seq<char>>) {
    (t.id@, t.token_type@, t.short_desc@, opt_view(t.full_desc))
}

pub open spec fn rel_view(r: Relationship) -> (Seq<char>, Seq<char>, Seq<char>) {
    (r.subject@, r.predicate@, r.object@)
}

/// Parser state after some lines: current section, content lines, tokens,
/// relationships, preserved ids and the accumulated `ask_user` text.
pub type ParseState = (
    int,
    Seq<Seq<char>>,
    Seq<(Seq<char>, Seq<char>, Seq<char>, Option<Seq<char>>)>,
    Seq<(Seq<char>, Seq<char>, Seq<char>)>,
    Seq<Seq<char>>,
    Seq<char>,
);

/// Effect of one line on the parser state.
pub open spec fn parse_step(st: ParseState, line: Seq<char>) -> ParseState {
    let t = trim(line);
    let h = header_of(t);
    if h != 0 {
        (h, st.1, st.2, st.3, st.4, st.5)
    } else if st.0 == 0 {
        (st.0, st.1.push(line), st.2, st.3, st.4, st.5)
    } else if st.0 == 1 {
        let f = fields(t);
        if t.len() > 0 && f.len() >= 3 {
            let full = if f.len() > 3 { Some(f[3]) } else { None };
            (st.0, st.1, st.2.push((f[0], f[1], f[2], full)), st.3, st.4, st.5)
        } else {
            st
        }
    } else if st.0 == 2 {
        let f = fields(t);
        if t.len() > 0 && f.len() >= 3 {
            (st.0, st.1, st.2, st.3.push((f[0], f[1], f[2])), st.4, st.5)
        } else {
            st
        }
    } else if st.0 == 3 {
        if t.len() > 0 {
            (st.0, st.1, st.2, st.3, st.4.push(t), st.5)
        } else {
            st
        }
    } else {
        if t.len() > 0 {
            (st.0, st.1, st.2, st.3, st.4, st.5 + t + newline())
        } else {
            st
        }
    }
}

/// Parser state after the given lines.
pub open spec fn parse_lines(ls: Seq<Seq<char>>) -> ParseState
    decreases ls.len(),
{
    if ls.len() == 0 {
        (0, Seq::empty(), Seq::empty(), Seq::empty(), Seq::empty(), Seq::empty())
    } else {
        parse_step(parse_lines(ls.drop_last()), ls.last())
    }
}

/// Trimmed fields of the trimmed line `t`.
fn fields_exec(t: &Vec<char>) -> (r: Vec<Vec<char>>)
    ensures
        vviews(r@) == fields(t@),
{
    let bar = vec!['|'];
    let parts = split_exec(t, &bar);
    assert(bar@ == seq!['|']);
    let ghost ps = vviews(parts@);
    let mut out: Vec<Vec<char>> = Vec::new();
    let mut i: usize = 0;
    while i < parts.len()
        invariant
            i <= parts.len(),
            ps == vviews(parts@),
            ps == split(t@, seq!['|']),
            vviews(out@) == ps.subrange(0, i as int).map_values(|p: Seq<char>| trim(p)),
        decreases parts.len() - i,
    {
        let (a, b) = trim_bounds(&parts[i], 0, parts[i].len());
        assert(parts[i as int]@.subrange(0, parts[i as int]@.len() as int) =~= ps[i as int]);
        let f = slice_vec(&parts[i], a, b);
        let ghost o = vviews(out@);
        out.push(f);
        assert(vviews(out@) =~= o.push(f@));
        assert(ps.subrange(0, i + 1).map_values(|p: Seq<char>| trim(p)) =~= o.push(trim(ps[i as int])));
        i = i + 1;
    }
    assert(ps.subrange(0, ps.len() as int) =~= ps);
    out
}

fn owned(v: &Vec<char>) -> (r: String)
    ensures
        r@ == v@,
{
    string_of(v.as_slice())
}

/// Parses a Bookmark Protocol response: lines before the first section
/// header form `content`; `§#new_tokens` lines are `id | type | short_desc
/// [| full_desc]`; `§#relationships` lines are `subject | predicate |
/// object`; `§#preserve` lines are token ids; `§#ask_user` lines form the
/// question.
pub fn parse_bookmark_protocol(text: &str) -> (r: SquireResponse)
    ensures
        ({
            let st = parse_lines(lines(text@));
            &&& r.content@ == trim(join(st.1, newline()))
            &&& r.new_tokens@.map_values(|t: NewTokenSpec| token_view(t)) == st.2
            &&& r.relationships@.map_values(|x: Relationship| rel_view(x)) == st.3
            &&& sviews(r.preserve@) == st.4
            &&& r.ask_user@ == trim(st.5)
        }),
        forall|i: int|
            0 <= i < r.new_tokens@.len() ==> (#[trigger] r.new_tokens@[i]).endpoint is None
                && r.new_tokens@[i].ranges@.len() == 0,
{
    let v = chars_of(text);
    let ls = lines_exec(&v);
    let ghost lsv = vviews(ls@);
    let mut section: u8 = 0;
    let mut content_lines: Vec<Vec<char>> = Vec::new();
    let mut tokens: Vec<NewTokenSpec> = Vec::new();
    let mut rels: Vec<Relationship> = Vec::new();
    let mut preserve: Vec<String> = Vec::new();
    let mut ask: Vec<char> = Vec::new();
    let mut i: usize = 0;
    while i < ls.len()
        invariant
            i <= ls.len(),
            lsv == vviews(ls@),
            lsv == lines(text@),
            ({
                let st = parse_lines(lsv.subrange(0, i as int));
                &&& st.0 == section as int
                &&& st.1 == vviews(content_lines@)
                &&& st.2 == tokens@.map_values(|t: NewTokenSpec| token_view(t))
                &&& st.3 == rels@.map_values(|x: Relationship| rel_view(x))
                &&& st.4 == sviews(preserve@)
                &&& st.5 == ask@
            }),
            0 <= section <= 4,
            forall|k: int|
                0 <= k < tokens@.len() ==> (#[trigger] tokens@[k]).endpoint is None
                    && tokens@[k].ranges@.len() == 0,
        decreases ls.len() - i,
    {
        let line = &ls[i];
        assert(line@ == lsv[i as int]);
        assert(lsv.subrange(0, i + 1).drop_last() =~= lsv.subrange(0, i as int));
        let (a, b) = trim_bounds(line, 0, line.len());
        assert(line@.subrange(0, line@.len() as int) =~= line@);
        let t = slice_vec(line, a, b);
        let h = header_of_exec(&t);
        if h != 0 {
            section = h;
        } else if section == 0 {
            let ghost o = vviews(content_lines@);
            content_lines.push(line.clone());
            assert(vviews(content_lines@) =~= o.push(line@));
        } else if section == 1 || section == 2 {
            if t.len() > 0 {
                let f = fields_exec(&t);
                if f.len() >= 3 {
                    if section == 1 {
                        let full = if f.len() > 3 { Some(owned(&f[3])) } else { None };
                        let tok = NewTokenSpec {
                            id: owned(&f[0]),
                            token_type: owned(&f[1]),
                            short_desc: owned(&f[2]),
                            full_desc: full,
                            endpoint: None,
                            ranges: Vec::new(),
                        };
                        let ghost o = tokens@.map_values(|t: NewTokenSpec| token_view(t));
                        tokens.push(tok);
                        assert(tokens@.map_values(|t: NewTokenSpec| token_view(t)) =~= o.push(
                            token_view(tok),
                        ));
                    } else {
                        let rel = Relationship {
                            subject: owned(&f[0]),
                            predicate: owned(&f[1]),
                            object: owned(&f[2]),
                        };
                        let ghost o = rels@.map_values(|x: Relationship| rel_view(x));
                        rels.push(rel);
                        assert(rels@.map_values(|x: Relationship| rel_view(x)) =~= o.push(
                            rel_view(rel),
                        ));
                    }
                }
            }
        } else if section == 3 {
            if t.len() > 0 {
                let ghost o = sviews(preserve@);
                let s = owned(&t);
                preserve.push(s);
                assert(sviews(preserve@) =~= o.push(t@));
            }
        } else {
            if t.len() > 0 {
                push_all(&mut ask, &t);
                ask.push('\n');
                assert(ask@ =~= parse_lines(lsv.subrange(0, i as int)).5 + t@ + newline());
            }
        }
        i = i + 1;
    }
    assert(lsv.subrange(0, lsv.len() as int) =~= lsv);
    let nl = vec!['\n'];
    assert(nl@ == newline());
    let joined = join_exec(&content_lines, &nl);
    let (ca, cb) = trim_bounds(&joined, 0, joined.len());
    assert(joined@.subrange(0, joined@.len() as int) =~= joined@);
    let (aa, ab) = trim_bounds(&ask, 0, ask.len());
    assert(ask@.subrange(0, ask@.len() as int) =~= ask@);
    SquireResponse {
        ask_user: owned(&slice_vec(&ask, aa, ab)),
        content: owned(&slice_vec(&joined, ca, cb)),
        preserve,
        new_tokens: tokens,
        relationships: rels,
    }
}

// ───────────────────────────── normalisation: empty predicates ─────────────────────────────

pub open spec fn bar() -> Seq<char> {
    seq!['|']
}

/// `a | | b` becomes `a | b`; other lines are kept.
pub open spec fn strip_predicate_line(line: Seq<char>) -> Seq<char> {
    let parts = split(trim(line), bar());
    if parts.len() == 3 && trim(parts[1]).len() == 0 {
        trim(parts[0]) + " | "@ + trim(parts[2])
    } else {
        line
    }
}

pub open spec fn strip_predicate_lines(ls: Seq<Seq<char>>) -> Seq<Seq<char>> {
    ls.map_values(|l: Seq<char>| strip_predicate_line(l))
}

/// Fix 4: lines `token | | CONCEPT_X` collapse to `token | CONCEPT_X`.
pub open spec fn stripped_empty_predicates(text: Seq<char>) -> Seq<char> {
    trim_end(emit(strip_predicate_lines(lines(text))))
}

fn strip_predicate_line_exec(line: &Vec<char>) -> (r: Vec<char>)
    ensures
        r@ == strip_predicate_line(line@),
{
    let t = trim_vec(line);
    let b = vec!['|'];
    assert(b@ == bar());
    let parts = split_exec(&t, &b);
    if parts.len() == 3 {
        let mid = trim_vec(&parts[1]);
        if mid.len() == 0 {
            let mut out = trim_vec(&parts[0]);
            push_all(&mut out, &chars_of(" | "));
            push_all(&mut out, &trim_vec(&parts[2]));
            return out;
        }
    }
    line.clone()
}

/// Fix 4 of the normalisation: strip empty predicate fields.
pub fn strip_empty_predicates(text: &str) -> (r: String)
    ensures
        r@ == stripped_empty_predicates(text@),
{
    let ls = lines_exec(&chars_of(text));
    let ghost lsv = vviews(ls@);
    let mut out: Vec<char> = Vec::new();
    let mut i: usize = 0;
    while i < ls.len()
        invariant
            i <= ls.len(),
            lsv == vviews(ls@),
            out@ == emit(strip_predicate_lines(lsv.subrange(0, i as int))),
        decreases ls.len() - i,
    {
        let l = strip_predicate_line_exec(&ls[i]);
        assert(ls[i as int]@ == lsv[i as int]);
        proof {
            assert(strip_predicate_lines(lsv.subrange(0, i + 1)) =~= strip_predicate_lines(
                lsv.subrange(0, i as int),
            ).push(l@));
            lemma_emit_push(strip_predicate_lines(lsv.subrange(0, i as int)), l@);
        }
        push_line(&mut out, &l);
        i = i + 1;
    }
    assert(lsv.subrange(0, lsv.len() as int) =~= lsv);
    string_of(trim_end_vec(&out).as_slice())
}

// ───────────────────────────── normalisation: section headers ─────────────────────────────

/// Whether `t` is one of the four section names.
pub open spec fn is_section_name(t: Seq<char>) -> bool {
    t == section_name(1) || t == section_name(2) || t == section_name(3) || t == section_name(4)
}

/// `t` with its first matching markdown header prefix (`### `, `## `, `# `) removed.
pub open spec fn markdown_stripped(t: Seq<char>) -> Option<Seq<char>> {
    if starts_with(t, "### "@) {
        Some(t.skip(4))
    } else if starts_with(t, "## "@) {
        Some(t.skip(3))
    } else if starts_with(t, "# "@) {
        Some(t.skip(2))
    } else {
        None
    }
}

/// `s` without its trailing `:` characters.
pub open spec fn trim_end_colons(s: Seq<char>) -> Seq<char>
    decreases s.len(),
{
    if s.len() > 0 && s.last() == ':' {
        trim_end_colons(s.drop_last())
    } else {
        s
    }
}

/// Fix 3 on one line: map markdown or instruction-style headers to the
/// canonical `§#keyword` form.
pub open spec fn normalize_header_line(line: Seq<char>) -> Seq<char> {
    let t = trim(line);
    if markdown_stripped(t) is Some && starts_with(markdown_stripped(t)->0, "§#"@) {
        markdown_stripped(t)->0
    } else if (starts_with(t, "### Step "@) || starts_with(t, "Step "@)) && !contains(t, "§#"@) {
        if contains(t, "referential"@) {
            "§#new_tokens"@
        } else if contains(t, "relationship"@) {
            "§#relationships"@
        } else if contains(t, "preserve"@) {
            "§#preserve"@
        } else if contains(t, "concept"@) {
            "§#new_tokens"@
        } else {
            line
        }
    } else if starts_with(t, "§#"@) && is_section_name(trim(trim_end_colons(t.skip(2)))) {
        "§#"@ + trim(trim_end_colons(t.skip(2)))
    } else if is_section_name(t) {
        "§#"@ + t
    } else if t == "### Preserve"@ {
        "§#preserve"@
    } else if t == "### Relationships"@ {
        "§#relationships"@
    } else if t == "### New Tokens"@ || t == "### New tokens"@ {
        "§#new_tokens"@
    } else {
        line
    }
}

pub open spec fn normalize_header_lines(ls: Seq<Seq<char>>) -> Seq<Seq<char>> {
    ls.map_values(|l: Seq<char>| normalize_header_line(l))
}

/// Fix 3: canonical section headers.
pub open spec fn normalized_headers(text: Seq<char>) -> Seq<char> {
    trim_end(emit(normalize_header_lines(lines(text))))
}

fn lit_v(s: &str) -> (r: Vec<char>)
    ensures
        r@ == s@,
{
    chars_of(s)
}

fn eq_lit(t: &Vec<char>, s: &str) -> (r: bool)
    ensures
        r == (t@ == s@),
{
    let v = chars_of(s);
    crate::text::lex_compare(t, &v) == 0
}

fn is_section_name_exec(t: &Vec<char>) -> (r: bool)
    ensures
        r == is_section_name(t@),
{
    eq_lit(t, "new_tokens") || eq_lit(t, "relationships") || eq_lit(t, "preserve") || eq_lit(
        t,
        "ask_user",
    )
}

fn normalize_header_line_exec(line: &Vec<char>) -> (r: Vec<char>)
    ensures
        r@ == normalize_header_line(line@),
{
    let t = trim_vec(line);
    proof {
        reveal_strlit("### ");
        reveal_strlit("## ");
        reveal_strlit("# ");
        reveal_strlit("§#");
    }
    let stripped: Option<Vec<char>> = if starts_with_exec(&t, &lit_v("### ")) {
        Some(slice_vec(&t, 4, t.len()))
    } else if starts_with_exec(&t, &lit_v("## ")) {
        Some(slice_vec(&t, 3, t.len()))
    } else if starts_with_exec(&t, &lit_v("# ")) {
        Some(slice_vec(&t, 2, t.len()))
    } else {
        None
    };
    assert(stripped matches Some(x) ==> markdown_stripped(t@) == Some(x@));
    assert(stripped is None ==> markdown_stripped(t@) is None);
    if let Some(x) = &stripped {
        if starts_with_exec(x, &lit_v("§#")) {
            return x.clone();
        }
    }
    if (starts_with_exec(&t, &lit_v("### Step ")) || starts_with_exec(&t, &lit_v("Step ")))
        && !contains_exec(&t, &lit_v("§#")) {
        if contains_exec(&t, &lit_v("referential")) {
            return lit_v("§#new_tokens");
        } else if contains_exec(&t, &lit_v("relationship")) {
            return lit_v("§#relationships");
        } else if contains_exec(&t, &lit_v("preserve")) {
            return lit_v("§#preserve");
        } else if contains_exec(&t, &lit_v("concept")) {
            return lit_v("§#new_tokens");
        } else {
            return line.clone();
        }
    }
    if starts_with_exec(&t, &lit_v("§#")) {
        let mut e = t.len();
        while e > 2 && t[e - 1] == ':'
            invariant
                2 <= e <= t.len(),
                trim_end_colons(t@.skip(2)) == trim_end_colons(t@.subrange(2, e as int)),
            decreases e,
        {
            assert(t@.subrange(2, e as int).drop_last() =~= t@.subrange(2, e - 1));
            e = e - 1;
        }
        proof {
            assert(t@.subrange(2, t@.len() as int) =~= t@.skip(2));
        }
        let rest = trim_vec(&slice_vec(&t, 2, e));
        if is_section_name_exec(&rest) {
            let mut out = lit_v("§#");
            push_all(&mut out, &rest);
            return out;
        }
    }
    if is_section_name_exec(&t) {
        let mut out = lit_v("§#");
        push_all(&mut out, &t);
        return out;
    }
    if eq_lit(&t, "### Preserve") {
        lit_v("§#preserve")
    } else if eq_lit(&t, "### Relationships") {
        lit_v("§#relationships")
    } else if eq_lit(&t, "### New Tokens") || eq_lit(&t, "### New tokens") {
        lit_v("§#new_tokens")
    } else {
        line.clone()
    }
}

/// Fix 3 of the normalisation: canonical section headers.
pub fn normalize_section_headers(text: &str) -> (r: String)
    ensures
        r@ == normalized_headers(text@),
{
    let ls = lines_exec(&chars_of(text));
    let ghost lsv = vviews(ls@);
    let mut out: Vec<char> = Vec::new();
    let mut i: usize = 0;
    while i < ls.len()
        invariant
            i <= ls.len(),
            lsv == vviews(ls@),
            out@ == emit(normalize_header_lines(lsv.subrange(0, i as int))),
        decreases ls.len() - i,
    {
        let l = normalize_header_line_exec(&ls[i]);
        assert(ls[i as int]@ == lsv[i as int]);
        proof {
            assert(normalize_header_lines(lsv.subrange(0, i + 1)) =~= normalize_header_lines(
                lsv.subrange(0, i as int),
            ).push(l@));
            lemma_emit_push(normalize_header_lines(lsv.subrange(0, i as int)), l@);
        }
        push_line(&mut out, &l);
        i = i + 1;
    }
    assert(lsv.subrange(0, lsv.len() as int) =~= lsv);
    string_of(trim_end_vec(&out).as_slice())
}

// ───────────────────────────── normalisation: unclosed spans ─────────────────────────────

pub open spec fn marker() -> Seq<char> {
    seq!['§', '^']
}

/// Number of (non-overlapping) `§^` markers in `s`.
pub open spec fn marker_count(s: Seq<char>) -> int {
    split(s, marker()).len() - 1
}

/// Fix 1: with an odd number of `§^` markers, the last one opens an unclosed
/// span; close it at the end of the text, or drop it (with the trailing
/// whitespace before it) when nothing follows it.
pub open spec fn fixed_unclosed_spans(s: Seq<char>) -> Seq<char> {
    if marker_count(s) % 2 == 0 {
        s
    } else {
        match rfind(s, marker()) {
            Some(p) => if trim(s.skip(p + 2)).len() == 0 {
                trim_end(s.take(p))
            } else {
                s + marker()
            },
            None => s,
        }
    }
}

/// Fix 1 of the normalisation: auto-close an unclosed `§^` span.
pub fn fix_unclosed_spans(text: &str) -> (r: String)
    ensures
        r@ == fixed_unclosed_spans(text@),
{
    let v = chars_of(text);
    let m = vec!['§', '^'];
    assert(m@ == marker());
    let parts = split_exec(&v, &m);
    let count = parts.len() - 1;
    if count % 2 == 0 {
        return string_of(v.as_slice());
    }
    match rfind_exec(&v, &m) {
        Some(p) => {
            assert(m@.len() == 2);
            assert(match_at(v@, m@, p as int));
            let n = v.len();
            assert(p + 2 <= n);
            let (a, b) = trim_bounds(&v, p + 2, n);
            assert(v@.subrange(p + 2, v@.len() as int) =~= v@.skip(p + 2));
            if a == b {
                let e = trim_end_bound(&v, 0, p);
                assert(v@.subrange(0, p as int) =~= v@.take(p as int));
                string_of(slice_vec(&v, 0, e).as_slice())
            } else {
                let mut out = v.clone();
                push_all(&mut out, &m);
                string_of(out.as_slice())
            }
        },
        None => string_of(v.as_slice()),
    }
}

// ───────────────────────────── normalisation: concatenated relationships ─────────────────────────────

/// Position of the second `|` of `r`.
pub open spec fn second_bar(r: Seq<char>) -> Option<int> {
    match find_from(r, bar(), 0) {
        Some(k1) => find_from(r, bar(), k1 + 1),
        None => None,
    }
}

/// Splits a line holding more than one `a | p | b` relationship: after each
/// second `|`, the next relationship starts at the first non-whitespace
/// character. Returns the trimmed, non-empty pieces.
pub open spec fn rel_pieces(r: Seq<char>) -> Seq<Seq<char>>
    decreases r.len(),
{
    if count_char(r, '|') <= 2 {
        if r.len() > 0 {
            seq![r]
        } else {
            Seq::empty()
        }
    } else {
        match second_bar(r) {
            Some(i) => if 0 <= i < r.len() {
                let after = r.subrange(i + 1, r.len() as int);
                let sa = i + 1 + (after.len() - trim_start(after).len());
                let first = trim(r.take(sa));
                let rest = trim(r.skip(sa));
                proof {
                    crate::text::lemma_trim_start_empty_iff(after);
                    crate::text::lemma_trim_empty_iff(r.skip(sa));
                    lemma_trim_len(r.skip(sa));
                }
                if rest.len() < r.len() {
                    (if first.len() > 0 {
                        seq![first]
                    } else {
                        Seq::empty()
                    }) + rel_pieces(rest)
                } else {
                    Seq::empty()
                }
            } else {
                Seq::empty()
            },
            None => Seq::empty(),
        }
    }
}

pub proof fn lemma_trim_len(s: Seq<char>)
    ensures
        trim(s).len() <= s.len(),
{
    crate::text::lemma_trim_start_empty_iff(s);
    crate::text::lemma_trim_end_empty_iff(crate::text::trim_start(s));
}

/// Output lines for one input line under fix 2.
pub open spec fn rel_line_output(line: Seq<char>) -> Seq<Seq<char>> {
    let t = trim(line);
    if count_char(t, '|') <= 2 {
        seq![line]
    } else if rel_pieces(t).len() == 0 {
        seq![line]
    } else {
        rel_pieces(t)
    }
}

/// Output lines for the given input lines under fix 2.
pub open spec fn rel_lines_output(ls: Seq<Seq<char>>) -> Seq<Seq<char>>
    decreases ls.len(),
{
    if ls.len() == 0 {
        Seq::empty()
    } else {
        rel_lines_output(ls.drop_last()) + rel_line_output(ls.last())
    }
}

/// Fix 2: split relationship lines that were run together.
pub open spec fn fixed_concatenated_rel_lines(text: Seq<char>) -> Seq<char> {
    trim_end(emit(rel_lines_output(lines(text))))
}

fn rel_pieces_exec(t: &Vec<char>) -> (r: Vec<Vec<char>>)
    ensures
        vviews(r@) == rel_pieces(t@),
{
    let b = vec!['|'];
    assert(b@ == bar());
    let mut out: Vec<Vec<char>> = Vec::new();
    let mut rem = t.clone();
    loop
        invariant
            b@ == bar(),
            vviews(out@) + rel_pieces(rem@) == rel_pieces(t@),
        decreases rem.len(),
    {
        let ghost o = vviews(out@);
        if count_char_exec(&rem, 0, rem.len(), '|') <= 2 {
            assert(rem@.subrange(0, rem@.len() as int) =~= rem@);
            if rem.len() > 0 {
                out.push(rem.clone());
                assert(vviews(out@) =~= o + rel_pieces(rem@));
            } else {
                assert(o + rel_pieces(rem@) =~= o);
            }
            return out;
        }
        assert(rem@.subrange(0, rem@.len() as int) =~= rem@);
        let k1 = find_from_exec(&rem, &b, 0);
        proof {
            lemma_find_from(rem@, bar(), 0);
        }
        let i = match k1 {
            Some(k1) => {
                proof {
                    lemma_find_from(rem@, bar(), k1 + 1);
                }
                match find_from_exec(&rem, &b, k1 + 1) {
                    Some(i) => i,
                    None => {
                        assert(o + rel_pieces(rem@) =~= o);
                        return out;
                    },
                }
            },
            None => {
                assert(o + rel_pieces(rem@) =~= o);
                return out;
            },
        };
        let ts = trim_start_bound(&rem, i + 1, rem.len());
        let sa = ts;
        proof {
            let after = rem@.subrange(i + 1, rem@.len() as int);
            assert(sa == i + 1 + (after.len() - trim_start(after).len()));
            lemma_trim_len(rem@.skip(sa as int));
        }
        let first = trim_vec(&slice_vec(&rem, 0, sa));
        assert(rem@.subrange(0, sa as int) =~= rem@.take(sa as int));
        let rest = trim_vec(&slice_vec(&rem, sa, rem.len()));
        assert(rem@.subrange(sa as int, rem@.len() as int) =~= rem@.skip(sa as int));
        if first.len() > 0 {
            out.push(first);
            assert(vviews(out@) =~= o + seq![first@]);
        }
        assert(o + rel_pieces(rem@) =~= vviews(out@) + rel_pieces(rest@));
        rem = rest;
    }
}

fn rel_line_output_exec(line: &Vec<char>) -> (r: Vec<Vec<char>>)
    ensures
        vviews(r@) == rel_line_output(line@),
{
    let t = trim_vec(line);
    let mut out: Vec<Vec<char>> = Vec::new();
    if count_char_exec(&t, 0, t.len(), '|') <= 2 {
        assert(t@.subrange(0, t@.len() as int) =~= t@);
        out.push(line.clone());
        assert(vviews(out@) =~= seq![line@]);
        return out;
    }
    assert(t@.subrange(0, t@.len() as int) =~= t@);
    let pieces = rel_pieces_exec(&t);
    if pieces.len() == 0 {
        out.push(line.clone());
        assert(vviews(out@) =~= seq![line@]);
        out
    } else {
        pieces
    }
}

/// Fix 2 of the normalisation: de-concatenate relationship lines.
pub fn fix_concatenated_rel_lines(text: &str) -> (r: String)
    ensures
        r@ == fixed_concatenated_rel_lines(text@),
{
    let ls = lines_exec(&chars_of(text));
    let ghost lsv = vviews(ls@);
    let mut out: Vec<char> = Vec::new();
    let mut i: usize = 0;
    while i < ls.len()
        invariant
            i <= ls.len(),
            lsv == vviews(ls@),
            out@ == emit(rel_lines_output(lsv.subrange(0, i as int))),
        decreases ls.len() - i,
    {
        assert(ls[i as int]@ == lsv[i as int]);
        let pieces = rel_line_output_exec(&ls[i]);
        let ghost done = rel_lines_output(lsv.subrange(0, i as int));
        assert(lsv.subrange(0, i + 1).drop_last() =~= lsv.subrange(0, i as int));
        let mut k: usize = 0;
        while k < pieces.len()
            invariant
                k <= pieces.len(),
                out@ == emit(done + vviews(pieces@).subrange(0, k as int)),
            decreases pieces.len() - k,
        {
            proof {
                assert(done + vviews(pieces@).subrange(0, k + 1) =~= (done + vviews(
                    pieces@,
                ).subrange(0, k as int)).push(pieces[k as int]@));
                lemma_emit_push(done + vviews(pieces@).subrange(0, k as int), pieces[k as int]@);
            }
            push_line(&mut out, &pieces[k]);
            k = k + 1;
        }
        assert(done + vviews(pieces@).subrange(0, k as int) =~= rel_lines_output(
            lsv.subrange(0, i + 1),
        ));
        i = i + 1;
    }
    assert(lsv.subrange(0, lsv.len() as int) =~= lsv);
    string_of(trim_end_vec(&out).as_slice())
}

// ───────────────────────────── full normalisation and parsing ─────────────────────────────

/// All normalisation passes, in order: unclosed spans, concatenated
/// relationships, section headers, empty predicates.
pub open spec fn normalized(raw: Seq<char>) -> Seq<char> {
    stripped_empty_predicates(
        normalized_headers(fixed_concatenated_rel_lines(fixed_unclosed_spans(raw))),
    )
}

/// Applies all normalisation passes to raw model output.
pub fn normalize_bookmark_protocol(raw: &str) -> (r: String)
    ensures
        r@ == normalized(raw@),
{
    let a = fix_unclosed_spans(raw);
    let b = fix_concatenated_rel_lines(a.as_str());
    let c = normalize_section_headers(b.as_str());
    strip_empty_predicates(c.as_str())
}

/// Whether the text is legacy JSON (its trimmed form starts with `{`).
pub open spec fn looks_like_json(text: Seq<char>) -> bool {
    trim(text).len() > 0 && trim(text)[0] == '{'
}

pub fn is_legacy_json(text: &str) -> (r: bool)
    ensures
        r == looks_like_json(text@),
{
    let t = trim_vec(&chars_of(text));
    t.len() > 0 && t[0] == '{'
}

/// The Bookmark Protocol branch of format detection: normalise, then parse.
pub fn parse_normalized_bookmark_protocol(text: &str) -> (r: SquireResponse)
    ensures
        ({
            let st = parse_lines(lines(normalized(text@)));
            &&& r.content@ == trim(join(st.1, newline()))
            &&& r.new_tokens@.map_values(|t: NewTokenSpec| token_view(t)) == st.2
            &&& r.relationships@.map_values(|x: Relationship| rel_view(x)) == st.3
            &&& sviews(r.preserve@) == st.4
            &&& r.ask_user@ == trim(st.5)
        }),
        forall|i: int|
            0 <= i < r.new_tokens@.len() ==> (#[trigger] r.new_tokens@[i]).endpoint is None
                && r.new_tokens@[i].ranges@.len() == 0,
{
    let n = normalize_bookmark_protocol(text);
    parse_bookmark_protocol(n.as_str())
}


/// `r` is what parsing the normalised `text` as the Bookmark Protocol gives
/// (see `parse_normalized_bookmark_protocol`).
pub open spec fn bookmark_parse_of(text: Seq<char>, r: SquireResponse) -> bool {
    let st = parse_lines(lines(normalized(text)));
    &&& r.content@ == trim(join(st.1, newline()))
    &&& r.new_tokens@.map_values(|t: NewTokenSpec| token_view(t)) == st.2
    &&& r.relationships@.map_values(|x: Relationship| rel_view(x)) == st.3
    &&& sviews(r.preserve@) == st.4
    &&& r.ask_user@ == trim(st.5)
    &&& forall|i: int|
        0 <= i < r.new_tokens@.len() ==> (#[trigger] r.new_tokens@[i]).endpoint is None
            && r.new_tokens@[i].ranges@.len() == 0
}

/// Some line of the normalised `text` is a section header.
pub open spec fn holds_section_header(text: Seq<char>) -> bool {
    exists|i: int|
        0 <= i < lines(normalized(text)).len() && header_of(
            trim(#[trigger] lines(normalized(text))[i]),
        ) != 0
}

/// Whether the text, once normalised, has a section header line.
pub fn has_section_header(text: &str) -> (r: bool)
    ensures
        r == holds_section_header(text@),
{
    let n = normalize_bookmark_protocol(text);
    let ls = lines_exec(&chars_of(n.as_str()));
    let ghost lv = lines(normalized(text@));
    assert(vviews(ls@) == lv);
    let mut i: usize = 0;
    while i < ls.len()
        invariant
            i <= ls.len(),
            vviews(ls@) == lv,
            lv == lines(normalized(text@)),
            forall|k: int| 0 <= k < i ==> header_of(trim(#[trigger] lv[k])) == 0,
        decreases ls.len() - i,
    {
        assert(ls@[i as int]@ == lv[i as int]);
        if header_of_exec(&trim_vec(&ls[i])) != 0 {
            assert(header_of(trim(lv[i as int])) != 0);
            return true;
        }
        i = i + 1;
    }
    false
}

// ───────────────────────────── laws ─────────────────────────────

proof fn lemma_parse_plain(ls: Seq<Seq<char>>)
    requires
        forall|i: int| 0 <= i < ls.len() ==> header_of(trim(#[trigger] ls[i])) == 0,
    ensures
        parse_lines(ls) == (
            0int,
            ls,
            Seq::<(Seq<char>, Seq<char>, Seq<char>, Option<Seq<char>>)>::empty(),
            Seq::<(Seq<char>, Seq<char>, Seq<char>)>::empty(),
            Seq::<Seq<char>>::empty(),
            Seq::<char>::empty(),
        ),
    decreases ls.len(),
{
    if ls.len() > 0 {
        let init = ls.drop_last();
        assert forall|i: int| 0 <= i < init.len() implies header_of(trim(#[trigger] init[i])) == 0 by {
            assert(init[i] == ls[i]);
        }
        lemma_parse_plain(init);
        assert(header_of(trim(ls[ls.len() - 1])) == 0);
        assert(init.push(ls.last()) =~= ls);
    }
}

proof fn lemma_join_cons(x: Seq<char>, rest: Seq<Seq<char>>, sep: Seq<char>)
    requires
        rest.len() > 0,
    ensures
        join(seq![x] + rest, sep) == x + sep + join(rest, sep),
    decreases rest.len(),
{
    let all = seq![x] + rest;
    assert(all.len() == rest.len() + 1);
    assert(all.last() == rest.last());
    if rest.len() == 1 {
        assert(all.drop_last() =~= seq![x]);
        assert(join(seq![x], sep) == x);
        assert(join(rest, sep) == rest[0]);
    } else {
        assert(all.drop_last() =~= seq![x] + rest.drop_last());
        lemma_join_cons(x, rest.drop_last(), sep);
        assert(x + sep + join(rest.drop_last(), sep) + sep + rest.last() =~= x + sep + (join(
            rest.drop_last(),
            sep,
        ) + sep + rest.last()));
    }
}

/// Joining the pieces of a split on newlines with newlines gives back the text.
proof fn lemma_join_split(s: Seq<char>, i: int)
    requires
        0 <= i <= s.len(),
    ensures
        join(split_from(s, newline(), i), newline()) == s.subrange(i, s.len() as int),
    decreases s.len() - i,
{
    lemma_find_from(s, newline(), i);
    match find_from(s, newline(), i) {
        None => {},
        Some(j) => {
            lemma_join_split(s, j + 1);
            lemma_split_nonempty(s, newline(), j + 1);
            lemma_join_cons(s.subrange(i, j), split_from(s, newline(), j + 1), newline());
            assert(s.subrange(j, j + 1) == newline());
            assert(s.subrange(i, s.len() as int) =~= s.subrange(i, j) + newline() + s.subrange(
                j + 1,
                s.len() as int,
            ));
        },
    }
}

/// No piece of a split holds a character the text does not hold.
proof fn lemma_split_pieces_avoid(s: Seq<char>, i: int, c: char)
    requires
        0 <= i <= s.len(),
        forall|m: int| 0 <= m < s.len() ==> s[m] != c,
    ensures
        forall|k: int, m: int|
            0 <= k < split_from(s, newline(), i).len() && 0 <= m < split_from(
                s,
                newline(),
                i,
            )[k].len() ==> #[trigger] split_from(s, newline(), i)[k][m] != c,
    decreases s.len() - i,
{
    lemma_find_from(s, newline(), i);
    let ps = split_from(s, newline(), i);
    match find_from(s, newline(), i) {
        None => {
            assert forall|k: int, m: int| 0 <= k < ps.len() && 0 <= m < ps[k].len() implies #[trigger] ps[k][m]
                != c by {
                assert(ps[k][m] == s[i + m]);
            }
        },
        Some(j) => {
            lemma_split_pieces_avoid(s, j + 1, c);
            let rest = split_from(s, newline(), j + 1);
            assert(ps == seq![s.subrange(i, j)] + rest);
            assert forall|k: int, m: int| 0 <= k < ps.len() && 0 <= m < ps[k].len() implies #[trigger] ps[k][m]
                != c by {
                if k == 0 {
                    assert(ps[k][m] == s[i + m]);
                } else {
                    assert(ps[k] == rest[k - 1]);
                    assert(rest[k - 1][m] != c);
                }
            }
        },
    }
}

proof fn lemma_trim_start_push_ws(x: Seq<char>, c: char)
    requires
        is_ws(c),
    ensures
        trim_start(x.push(c)) == (if trim_start(x).len() == 0 {
            Seq::<char>::empty()
        } else {
            trim_start(x).push(c)
        }),
    decreases x.len(),
{
    assert(x.push(c)[0] == if x.len() == 0 { c } else { x[0] });
    if x.len() == 0 {
        assert(x.push(c).drop_first() =~= Seq::<char>::empty());
        assert(trim_start(Seq::<char>::empty()) == Seq::<char>::empty());
    } else if is_ws(x[0]) {
        assert(x.push(c).drop_first() =~= x.drop_first().push(c));
        lemma_trim_start_push_ws(x.drop_first(), c);
    }
}

/// A trailing whitespace character does not change the trimmed text.
proof fn lemma_trim_push_ws(x: Seq<char>, c: char)
    requires
        is_ws(c),
    ensures
        trim(x.push(c)) == trim(x),
{
    lemma_trim_start_push_ws(x, c);
    let y = trim_start(x);
    if y.len() > 0 {
        assert(y.push(c).drop_last() =~= y);
    }
}

/// A response without a carriage return and without a section header line is
/// all content: the content is the trimmed text, and there are no tokens,
/// relationships, preserved ids or question.
pub proof fn law_text_without_headers_is_all_content(text: Seq<char>)
    requires
        forall|m: int| 0 <= m < text.len() ==> text[m] != '\r',
        forall|i: int| 0 <= i < lines(text).len() ==> header_of(trim(#[trigger] lines(text)[i])) == 0,
    ensures
        ({
            let st = parse_lines(lines(text));
            &&& trim(join(st.1, newline())) == trim(text)
            &&& st.2.len() == 0
            &&& st.3.len() == 0
            &&& st.4.len() == 0
            &&& trim(st.5).len() == 0
        }),
{
    let ls = lines(text);
    lemma_parse_plain(ls);
    let parts = split(text, newline());
    lemma_split_nonempty(text, newline(), 0);
    lemma_split_pieces_avoid(text, 0, '\r');
    lemma_join_split(text, 0);
    assert(text.subrange(0, text.len() as int) =~= text);
    let n = if parts.last().len() == 0 { parts.len() - 1 } else { parts.len() as int };
    assert forall|i: int| 0 <= i < n implies #[trigger] ls[i] == parts[i] by {
        if parts[i].len() > 0 {
            assert(parts[i][parts[i].len() - 1] != '\r');
        }
    }
    assert(ls =~= parts.take(n));
    if parts.last().len() == 0 {
        if parts.len() == 1 {
            assert(text.len() == 0);
            assert(ls.len() == 0);
        } else {
            assert(ls =~= parts.drop_last());
            assert(text =~= join(ls, newline()).push('\n'));
            lemma_trim_push_ws(join(ls, newline()), '\n');
        }
    } else {
        assert(ls =~= parts);
    }
    assert(trim(Seq::<char>::empty()) =~= Seq::<char>::empty());
}


/// The non-empty lines of a block, each trimmed, in order.
pub open spec fn nonblank_trimmed(body: Seq<Seq<char>>) -> Seq<Seq<char>> {
    body.map_values(|l: Seq<char>| trim(l)).filter(|t: Seq<char>| t.len() > 0)
}

/// Every non-empty line of a `§#preserve` section is a preserved id: after
/// a preserve header and lines that are not headers, the preserved ids are
/// those gathered before the header followed by each non-empty line of the
/// section, trimmed, in order, however many came before; the section stays
/// open and the content, tokens, relationships and question are unchanged.
pub proof fn law_preserve_section_keeps_every_id(
    pre: Seq<Seq<char>>,
    header: Seq<char>,
    body: Seq<Seq<char>>,
)
    requires
        header_of(trim(header)) == 3,
        forall|i: int| 0 <= i < body.len() ==> header_of(trim(#[trigger] body[i])) == 0,
    ensures
        ({
            let before = parse_lines(pre);
            let after = parse_lines(pre.push(header) + body);
            &&& after.4 == before.4 + nonblank_trimmed(body)
            &&& after.4.len() == before.4.len() + nonblank_trimmed(body).len()
            &&& after.0 == 3
            &&& after.1 == before.1
            &&& after.2 == before.2
            &&& after.3 == before.3
            &&& after.5 == before.5
        }),
    decreases body.len(),
{
    reveal(Seq::filter);
    let ls = pre.push(header) + body;
    if body.len() == 0 {
        assert(ls =~= pre.push(header));
        assert(ls.drop_last() =~= pre);
        assert(body.map_values(|l: Seq<char>| trim(l)) =~= Seq::<Seq<char>>::empty());
        assert(nonblank_trimmed(body) =~= Seq::<Seq<char>>::empty());
        assert(parse_lines(pre).4 + nonblank_trimmed(body) =~= parse_lines(pre).4);
    } else {
        let init = body.drop_last();
        assert forall|i: int| 0 <= i < init.len() implies header_of(trim(#[trigger] init[i])) == 0 by {
            assert(init[i] == body[i]);
        }
        law_preserve_section_keeps_every_id(pre, header, init);
        assert(ls.drop_last() =~= pre.push(header) + init);
        assert(ls.last() == body.last());
        assert(header_of(trim(body[body.len() - 1])) == 0);
        let tb = body.map_values(|l: Seq<char>| trim(l));
        assert(tb.drop_last() =~= init.map_values(|l: Seq<char>| trim(l)));
        assert(tb.last() == trim(body.last()));
        let before = parse_lines(pre);
        if trim(body.last()).len() > 0 {
            assert(nonblank_trimmed(body) == nonblank_trimmed(init).push(trim(body.last())));
            assert(before.4 + nonblank_trimmed(init).push(trim(body.last())) =~= (before.4
                + nonblank_trimmed(init)).push(trim(body.last())));
        } else {
            assert(nonblank_trimmed(body) == nonblank_trimmed(init));
        }
    }
}

} // verus!
