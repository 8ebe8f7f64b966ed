//! Splitting user input and model responses into chunk tokens: blank-line
//! paragraphs, with long paragraphs split further at sentence ends.

use vstd::prelude::*;
use crate::text::{
    chars_of, clean_pieces, dec, is_ws, lemma_trim_idempotent, lit,
    push_all, push_dec, push_nonempty, slice_vec, split, split_exec, string_of, strings_of,
    sviews, trim, trim_vec, vviews, all_ws, lemma_trim_empty_iff, split_from, find_from,
    lemma_find_from, match_at,
};
use crate::types::NewTokenSpec;
use crate::protocol::opt_view;

verus! {

/// Paragraphs longer than this many characters are split at sentence ends.
pub const CHUNK_SOFT_LIMIT_CHARS: usize = 400;

/// Token id of a tool from the tool registry: its registry name.
pub fn tool_token_id(registry_name: &str) -> (r: String)
    ensures
        r@ == registry_name@,
{
    lit(registry_name)
}

// ───────────────────────────── sentences ─────────────────────────────

pub open spec fn is_terminal(c: char) -> bool {
    c == '.' || c == '!' || c == '?'
}

/// Position `k` of `s` ends a sentence: `.`, `!` or `?` followed by
/// whitespace or by the end of `s`.
pub open spec fn sentence_end(s: Seq<char>, k: int) -> bool {
    is_terminal(s[k]) && (k + 1 >= s.len() || is_ws(s[k + 1]))
}

/// The open sentence and the finished (trimmed, non-empty) sentences after
/// reading the first `n` characters of `s`.
pub open spec fn sentence_scan(s: Seq<char>, n: int) -> (Seq<char>, Seq<Seq<char>>)
    decreases n,
{
    if n <= 0 {
        (Seq::empty(), Seq::empty())
    } else {
        let st = sentence_scan(s, n - 1);
        let cur = st.0.push(s[n - 1]);
        if sentence_end(s, n - 1) {
            (Seq::empty(), push_nonempty(st.1, trim(cur)))
        } else {
            (cur, st.1)
        }
    }
}

/// The sentences of a paragraph, or the paragraph itself when it holds no
/// non-blank text.
pub open spec fn sentences(s: Seq<char>) -> Seq<Seq<char>> {
    let st = sentence_scan(s, s.len() as int);
    let r = push_nonempty(st.1, trim(st.0));
    if r.len() == 0 {
        seq![s]
    } else {
        r
    }
}

fn sentences_exec(s: &Vec<char>) -> (r: Vec<Vec<char>>)
    ensures
        vviews(r@) == sentences(s@),
{
    let mut out: Vec<Vec<char>> = Vec::new();
    let mut cur: Vec<char> = Vec::new();
    let mut i: usize = 0;
    assert(vviews(out@) =~= Seq::<Seq<char>>::empty());
    while i < s.len()
        invariant
            i <= s.len(),
            sentence_scan(s@, i as int) == (cur@, vviews(out@)),
        decreases s.len() - i,
    {
        let c = s[i];
        cur.push(c);
        let boundary = (c == '.' || c == '!' || c == '?') && (i + 1 >= s.len()
            || crate::text::char_is_ws(s[i + 1]));
        if boundary {
            let t = trim_vec(&cur);
            if t.len() > 0 {
                let ghost before = vviews(out@);
                out.push(t);
                assert(vviews(out@) =~= before.push(t@));
            }
            cur = Vec::new();
        }
        i = i + 1;
    }
    let t = trim_vec(&cur);
    if t.len() > 0 {
        let ghost before = vviews(out@);
        out.push(t);
        assert(vviews(out@) =~= before.push(t@));
    }
    if out.len() == 0 {
        let mut one: Vec<Vec<char>> = Vec::new();
        one.push(s.clone());
        assert(vviews(one@) =~= seq![s@]);
        return one;
    }
    out
}

/// Splits a paragraph after every `.`, `!` or `?` that is followed by
/// whitespace or ends the paragraph; sentences are trimmed and empty ones
/// dropped.
pub fn split_into_sentences(paragraph: &str) -> (r: Vec<String>)
    ensures
        sviews(r@) == sentences(paragraph@),
{
    let v = chars_of(paragraph);
    strings_of(&sentences_exec(&v))
}

// ───────────────────────────── chunks ─────────────────────────────

pub open spec fn blank_line() -> Seq<char> {
    seq!['\n', '\n']
}

/// The chunks of one paragraph: itself when it fits the soft limit,
/// otherwise its sentences.
pub open spec fn paragraph_chunks(p: Seq<char>) -> Seq<Seq<char>> {
    if p.len() <= CHUNK_SOFT_LIMIT_CHARS {
        seq![p]
    } else {
        sentences(p)
    }
}

/// Chunks of the blank-line separated pieces `ps`: each piece trimmed,
/// empty ones dropped, the rest split by `paragraph_chunks`.
pub open spec fn chunks_of(ps: Seq<Seq<char>>) -> Seq<Seq<char>>
    decreases ps.len(),
{
    if ps.len() == 0 {
        Seq::empty()
    } else {
        let p = trim(ps.last());
        if p.len() == 0 {
            chunks_of(ps.drop_last())
        } else {
            chunks_of(ps.drop_last()) + paragraph_chunks(p)
        }
    }
}

/// The chunks of a text.
pub open spec fn text_chunks(text: Seq<char>) -> Seq<Seq<char>> {
    chunks_of(split(text, blank_line()))
}

/// Splits `text` into chunks: blank-line paragraphs, trimmed, with those
/// longer than `CHUNK_SOFT_LIMIT_CHARS` characters split into sentences.
pub fn chunk_user_input(text: &str) -> (r: Vec<String>)
    ensures
        sviews(r@) == text_chunks(text@),
{
    let v = chars_of(text);
    let sep = vec!['\n', '\n'];
    assert(sep@ == blank_line());
    let parts = split_exec(&v, &sep);
    let ghost ps = vviews(parts@);
    let mut out: Vec<Vec<char>> = Vec::new();
    let mut i: usize = 0;
    assert(ps.take(0) =~= Seq::<Seq<char>>::empty());
    assert(vviews(out@) =~= Seq::<Seq<char>>::empty());
    while i < parts.len()
        invariant
            i <= parts.len(),
            ps == vviews(parts@),
            ps == split(text@, blank_line()),
            vviews(out@) == chunks_of(ps.take(i as int)),
        decreases parts.len() - i,
    {
        proof {
            assert(ps.take(i + 1).drop_last() =~= ps.take(i as int));
            assert(ps.take(i + 1).last() == parts@[i as int]@);
        }
        let p = trim_vec(&parts[i]);
        if p.len() > 0 {
            let ghost before = vviews(out@);
            if p.len() <= CHUNK_SOFT_LIMIT_CHARS {
                out.push(p);
                assert(vviews(out@) =~= before + seq![p@]);
            } else {
                let ss = sentences_exec(&p);
                let mut k: usize = 0;
                while k < ss.len()
                    invariant
                        k <= ss.len(),
                        vviews(out@) == before + vviews(ss@).take(k as int),
                    decreases ss.len() - k,
                {
                    let ghost b2 = vviews(out@);
                    out.push(ss[k].clone());
                    assert(vviews(out@) =~= b2.push(ss@[k as int]@));
                    assert(vviews(ss@).take(k + 1) =~= vviews(ss@).take(k as int).push(
                        ss@[k as int]@,
                    ));
                    assert(before + vviews(ss@).take(k + 1) =~= (before + vviews(ss@).take(
                        k as int,
                    )).push(ss@[k as int]@));
                    k = k + 1;
                }
                assert(vviews(ss@).take(ss.len() as int) =~= vviews(ss@));
            }
        }
        i = i + 1;
    }
    assert(ps.take(ps.len() as int) =~= ps);
    strings_of(&out)
}

// ───────────────────────────── first sentence ─────────────────────────────

/// Position `k` ends the first sentence of a chunk: a newline or a sentence
/// end.
pub open spec fn stops_at(s: Seq<char>, k: int) -> bool {
    s[k] == '\n' || sentence_end(s, k)
}

/// The first stopping position at or after `k`.
pub open spec fn first_stop_from(s: Seq<char>, k: int) -> Option<int>
    decreases s.len() - k,
{
    if k < 0 || k >= s.len() {
        None
    } else if stops_at(s, k) {
        Some(k)
    } else {
        first_stop_from(s, k + 1)
    }
}

/// The chunk up to and including its first stop, trimmed; the whole chunk,
/// trimmed, when it has none.
pub open spec fn first_sentence_of(s: Seq<char>) -> Seq<char> {
    match first_stop_from(s, 0) {
        Some(k) => trim(s.take(k + 1)),
        None => trim(s),
    }
}

/// First sentence of a chunk, used as the short description of its token.
pub fn first_sentence(chunk: &str) -> (r: String)
    ensures
        r@ == first_sentence_of(chunk@),
{
    let v = chars_of(chunk);
    let mut k: usize = 0;
    while k < v.len()
        invariant
            k <= v.len(),
            v@ == chunk@,
            first_stop_from(v@, 0) == first_stop_from(v@, k as int),
        decreases v.len() - k,
    {
        let c = v[k];
        let stop = c == '\n' || ((c == '.' || c == '!' || c == '?') && (k + 1 >= v.len()
            || crate::text::char_is_ws(v[k + 1])));
        if stop {
            assert(stops_at(v@, k as int));
            assert(first_stop_from(v@, k as int) == Some(k as int));
            let head = slice_vec(&v, 0, k + 1);
            assert(head@ =~= v@.take(k + 1));
            return string_of(trim_vec(&head).as_slice());
        }
        k = k + 1;
    }
    string_of(trim_vec(&v).as_slice())
}

proof fn lemma_no_stop_before(s: Seq<char>, j: int, k: int)
    requires
        0 <= j <= k < s.len(),
        forall|m: int| j <= m < k ==> !stops_at(s, m),
    ensures
        first_stop_from(s, j) == first_stop_from(s, k),
    decreases k - j,
{
    if j < k {
        lemma_no_stop_before(s, j + 1, k);
    }
}

/// The first sentence of a chunk runs through its first newline or its
/// first `.`, `!` or `?` that whitespace or the end of the chunk follows,
/// the three marks alike: if position `k` is such a place and no earlier
/// position is, the first sentence is the chunk through `k`, trimmed.
pub proof fn law_first_sentence_ends_at_first_mark(s: Seq<char>, k: int)
    requires
        0 <= k < s.len(),
        s[k] == '\n' || ((s[k] == '.' || s[k] == '!' || s[k] == '?') && (k + 1 == s.len() || is_ws(
            s[k + 1],
        ))),
        forall|j: int|
            0 <= j < k ==> (#[trigger] s[j]) != '\n' && !((s[j] == '.' || s[j] == '!' || s[j] == '?')
                && is_ws(s[j + 1])),
    ensures
        first_sentence_of(s) == trim(s.take(k + 1)),
{
    assert forall|m: int| 0 <= m < k implies !stops_at(s, m) by {
        assert(s[m] != '\n');
        assert(!((s[m] == '.' || s[m] == '!' || s[m] == '?') && is_ws(s[m + 1])));
    }
    lemma_no_stop_before(s, 0, k);
}

/// A chunk with no newline and no `.`, `!` or `?` before whitespace or its
/// end is its own first sentence, trimmed.
pub proof fn law_first_sentence_without_mark_is_whole(s: Seq<char>)
    requires
        forall|j: int|
            0 <= j < s.len() ==> (#[trigger] s[j]) != '\n' && !((s[j] == '.' || s[j] == '!' || s[j] == '?')
                && (j + 1 == s.len() || is_ws(s[j + 1]))),
    ensures
        first_sentence_of(s) == trim(s),
{
    if s.len() > 0 {
        assert forall|m: int| 0 <= m < s.len() - 1 implies !stops_at(s, m) by {
            assert(s[m] != '\n');
        }
        lemma_no_stop_before(s, 0, s.len() - 1);
        assert(!stops_at(s, s.len() - 1)) by {
            assert(s[s.len() - 1] != '\n');
        }
        assert(first_stop_from(s, s.len() as int) == None::<int>);
    }
}


// ───────────────────────────── chunk tokens ─────────────────────────────

/// `n` in decimal, zero-padded to at least three digits (`{:03}`).
pub open spec fn dec3(n: nat) -> Seq<char> {
    if n < 10 {
        seq!['0', '0'] + dec(n)
    } else if n < 100 {
        seq!['0'] + dec(n)
    } else {
        dec(n)
    }
}

/// Id of the `index`-th (from 1) chunk token of a turn:
/// `{prefix}_T{turn}_{index:03}_{session_tag}`.
pub open spec fn chunk_id(prefix: Seq<char>, turn: u64, index: nat, session_tag: Seq<char>) -> Seq<char> {
    prefix + "_T"@ + dec(turn as nat) + seq!['_'] + dec3(index) + seq!['_'] + session_tag
}

/// Text stored for the chunk at position `i` (from 0): a bare bookmark
/// `§^chunk_{i}§^` followed by the chunk.
pub open spec fn bookmarked_chunk(i: nat, chunk: Seq<char>) -> Seq<char> {
    "§^chunk_"@ + dec(i) + "§^"@ + chunk
}

/// The token for chunk `i` (from 0) of `chunks`: a `system_referential`
/// token whose short description is the chunk's first sentence.
pub open spec fn is_chunk_token(
    t: NewTokenSpec,
    prefix: Seq<char>,
    turn: u64,
    session_tag: Seq<char>,
    i: nat,
    chunk: Seq<char>,
) -> bool {
    &&& t.id@ == chunk_id(prefix, turn, i + 1, session_tag)
    &&& t.token_type@ == "system_referential"@
    &&& t.short_desc@ == first_sentence_of(chunk)
    &&& opt_view(t.full_desc) == Some(bookmarked_chunk(i, chunk))
    &&& t.endpoint is None
    &&& t.ranges@.len() == 0
}

fn push_dec3(out: &mut Vec<char>, n: u64)
    ensures
        final(out)@ == old(out)@ + dec3(n as nat),
{
    let ghost start = out@;
    if n < 10 {
        out.push('0');
        out.push('0');
    } else if n < 100 {
        out.push('0');
    }
    let ghost mid = out@;
    push_dec(out, n);
    proof {
        if n < 10 {
            assert(mid =~= start + seq!['0', '0']);
        } else if n < 100 {
            assert(mid =~= start + seq!['0']);
        } else {
            assert(mid =~= start);
        }
        assert(out@ =~= start + dec3(n as nat));
    }
}

/// The chunk tokens to store for `text` at `turn`: one per chunk of
/// `chunk_user_input`, in order. `prefix` is `USR` for user input and `RESP`
/// for model responses; `session_tag` (the tag of the session id, see
/// `finalize::session_tag`) keeps ids of different sessions apart.
pub fn text_chunk_tokens(text: &str, turn: u64, prefix: &str, session_tag: &str) -> (r: Vec<
    NewTokenSpec,
>)
    ensures
        r@.len() == text_chunks(text@).len(),
        forall|i: int|
            0 <= i < r@.len() ==> is_chunk_token(
                #[trigger] r@[i],
                prefix@,
                turn,
                session_tag@,
                i as nat,
                text_chunks(text@)[i],
            ),
{
    let chunks = chunk_user_input(text);
    let ghost cs = text_chunks(text@);
    let pre = chars_of(prefix);
    let short = chars_of(session_tag);
    let mut out: Vec<NewTokenSpec> = Vec::new();
    let mut i: usize = 0;
    while i < chunks.len()
        invariant
            i <= chunks.len(),
            sviews(chunks@) == cs,
            cs == text_chunks(text@),
            pre@ == prefix@,
            short@ == session_tag@,
            out@.len() == i,
            forall|k: int|
                0 <= k < i ==> is_chunk_token(
                    #[trigger] out@[k],
                    prefix@,
                    turn,
                    session_tag@,
                    k as nat,
                    cs[k],
                ),
        decreases chunks.len() - i,
    {
        let chunk = chars_of(chunks[i].as_str());
        assert(chunk@ == cs[i as int]);
        let mut id = pre.clone();
        let t_marker = chars_of("_T");
        push_all(&mut id, &t_marker);
        push_dec(&mut id, turn);
        id.push('_');
        push_dec3(&mut id, (i + 1) as u64);
        id.push('_');
        push_all(&mut id, &short);
        assert(id@ =~= chunk_id(prefix@, turn, (i + 1) as nat, session_tag@));
        let mut body = chars_of("§^chunk_");
        push_dec(&mut body, i as u64);
        let close = chars_of("§^");
        push_all(&mut body, &close);
        push_all(&mut body, &chunk);
        assert(body@ =~= bookmarked_chunk(i as nat, cs[i as int]));
        let tok = NewTokenSpec {
            id: string_of(id.as_slice()),
            token_type: lit("system_referential"),
            short_desc: first_sentence(chunks[i].as_str()),
            full_desc: Some(string_of(body.as_slice())),
            endpoint: None,
            ranges: Vec::new(),
        };
        out.push(tok);
        i = i + 1;
    }
    out
}


// ───────────────────────────── laws ─────────────────────────────

proof fn lemma_sentence_scan_clean(s: Seq<char>, n: int)
    requires
        0 <= n <= s.len(),
    ensures
        clean_pieces(sentence_scan(s, n).1),
    decreases n,
{
    if n > 0 {
        lemma_sentence_scan_clean(s, n - 1);
        let st = sentence_scan(s, n - 1);
        lemma_trim_idempotent(st.0.push(s[n - 1]));
    }
}

proof fn lemma_sentences_clean(p: Seq<char>)
    requires
        p.len() > 0,
        trim(p) == p,
    ensures
        clean_pieces(sentences(p)),
        sentences(p).len() > 0,
{
    lemma_sentence_scan_clean(p, p.len() as int);
    let st = sentence_scan(p, p.len() as int);
    lemma_trim_idempotent(st.0);
}

proof fn lemma_chunks_of(ps: Seq<Seq<char>>)
    ensures
        clean_pieces(chunks_of(ps)),
        chunks_of(ps).len() == 0 <==> forall|k: int| 0 <= k < ps.len() ==> all_ws(#[trigger] ps[k]),
    decreases ps.len(),
{
    if ps.len() > 0 {
        let rest = ps.drop_last();
        lemma_chunks_of(rest);
        let p = trim(ps.last());
        lemma_trim_empty_iff(ps.last());
        if p.len() > 0 {
            lemma_trim_idempotent(ps.last());
            if p.len() > CHUNK_SOFT_LIMIT_CHARS {
                lemma_sentences_clean(p);
            }
            let pc = paragraph_chunks(p);
            assert(pc.len() > 0);
            assert(clean_pieces(pc));
            let all = chunks_of(rest) + pc;
            assert forall|k: int| 0 <= k < all.len() implies (#[trigger] all[k]).len() > 0 && trim(
                all[k],
            ) == all[k] by {
                if k < chunks_of(rest).len() {
                    assert(all[k] == chunks_of(rest)[k]);
                } else {
                    assert(all[k] == pc[k - chunks_of(rest).len()]);
                }
            }
            assert(!all_ws(ps[ps.len() - 1]));
        } else {
            assert forall|k: int| 0 <= k < ps.len() - 1 implies (all_ws(#[trigger] ps[k]) <==> all_ws(
                rest[k],
            )) by {
                assert(rest[k] == ps[k]);
            }
            if chunks_of(rest).len() == 0 {
                assert forall|k: int| 0 <= k < ps.len() implies all_ws(#[trigger] ps[k]) by {
                    if k < ps.len() - 1 {
                        assert(rest[k] == ps[k]);
                    }
                }
            } else {
                let k0 = choose|k: int| 0 <= k < rest.len() && !all_ws(#[trigger] rest[k]);
                assert(ps[k0] == rest[k0]);
            }
        }
    }
}

proof fn lemma_split_all_ws(s: Seq<char>, pat: Seq<char>, i: int)
    requires
        pat.len() > 0,
        all_ws(pat),
        0 <= i <= s.len(),
    ensures
        (forall|k: int|
            0 <= k < split_from(s, pat, i).len() ==> all_ws(#[trigger] split_from(s, pat, i)[k]))
            <==> all_ws(s.subrange(i, s.len() as int)),
    decreases s.len() - i,
{
    lemma_find_from(s, pat, i);
    let ps = split_from(s, pat, i);
    let tail = s.subrange(i, s.len() as int);
    match find_from(s, pat, i) {
        None => {
            assert(ps == seq![tail]);
            assert(ps[0] == tail);
            if all_ws(tail) {
                assert forall|k: int| 0 <= k < ps.len() implies all_ws(#[trigger] ps[k]) by {
                    assert(k == 0);
                }
            }
        },
        Some(j) => {
            let e = j + pat.len();
            lemma_split_all_ws(s, pat, e);
            let head = s.subrange(i, j);
            let rest = split_from(s, pat, e);
            assert(ps == seq![head] + rest);
            assert(s.subrange(j, e) == pat);
            if all_ws(tail) {
                assert forall|k: int| 0 <= k < head.len() implies is_ws(#[trigger] head[k]) by {
                    assert(head[k] == tail[k]);
                }
                assert forall|k: int| 0 <= k < s.len() - e implies is_ws(
                    #[trigger] s.subrange(e, s.len() as int)[k],
                ) by {
                    assert(s.subrange(e, s.len() as int)[k] == tail[k + e - i]);
                }
                assert forall|k: int| 0 <= k < ps.len() implies all_ws(#[trigger] ps[k]) by {
                    if k > 0 {
                        assert(ps[k] == rest[k - 1]);
                    }
                }
            }
            if forall|k: int| 0 <= k < ps.len() ==> all_ws(#[trigger] ps[k]) {
                assert(all_ws(ps[0]));
                assert forall|k: int| 0 <= k < rest.len() implies all_ws(#[trigger] rest[k]) by {
                    assert(ps[k + 1] == rest[k]);
                }
                assert forall|k: int| 0 <= k < tail.len() implies is_ws(#[trigger] tail[k]) by {
                    if k < j - i {
                        assert(tail[k] == head[k]);
                    } else if k < e - i {
                        assert(tail[k] == s.subrange(j, e)[k - (j - i)]);
                    } else {
                        assert(tail[k] == s.subrange(e, s.len() as int)[k - (e - i)]);
                    }
                }
            }
        },
    }
}

/// Every chunk is non-empty and has no surrounding whitespace, and a text
/// has no chunk exactly when it is empty or all whitespace.
pub proof fn law_chunks_are_clean(text: Seq<char>)
    ensures
        clean_pieces(text_chunks(text)),
        text_chunks(text).len() == 0 <==> all_ws(text),
{
    lemma_chunks_of(split(text, blank_line()));
    assert(all_ws(blank_line())) by {
        assert forall|k: int| 0 <= k < blank_line().len() implies is_ws(
            #[trigger] blank_line()[k],
        ) by {}
    }
    lemma_split_all_ws(text, blank_line(), 0);
    assert(text.subrange(0, text.len() as int) =~= text);
}


/// A text without a blank line whose trimmed form is non-empty and within
/// the soft limit is one chunk: the trimmed text, not split into sentences.
pub proof fn law_short_paragraph_is_one_chunk(text: Seq<char>)
    requires
        !crate::text::contains(text, blank_line()),
        trim(text).len() > 0,
        trim(text).len() <= CHUNK_SOFT_LIMIT_CHARS,
    ensures
        text_chunks(text) == seq![trim(text)],
{
    crate::protocol::lemma_split_without_pattern(text, blank_line());
    let ps = seq![text];
    assert(split(text, blank_line()) == ps);
    assert(ps.drop_last() =~= Seq::<Seq<char>>::empty());
    assert(ps.last() == text);
    assert(chunks_of(Seq::<Seq<char>>::empty()) == Seq::<Seq<char>>::empty());
    assert(paragraph_chunks(trim(text)) == seq![trim(text)]);
    assert(chunks_of(ps) == chunks_of(ps.drop_last()) + paragraph_chunks(trim(text)));
    assert(Seq::<Seq<char>>::empty() + seq![trim(text)] =~= seq![trim(text)]);
}

} // verus!
