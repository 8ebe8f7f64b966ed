//! Character-level text model shared by every parser in the crate.
//!
//! Text is modelled as `Seq<char>` (the view of `str`/`String`); the
//! executable helpers work on `Vec<char>` buffers and index ranges.

use vstd::prelude::*;
use vstd::utf8::{encode_scalar, encode_utf8};

verus! {

// ───────────────────────────── character classes ─────────────────────────────

/// Unicode `White_Space` property, which is exactly what `char::is_whitespace` tests.
pub open spec fn is_ws(c: char) -> bool {
    ||| ('\u{9}' <= c && c <= '\u{d}')
    ||| c == ' '
    ||| c == '\u{85}'
    ||| c == '\u{a0}'
    ||| c == '\u{1680}'
    ||| ('\u{2000}' <= c && c <= '\u{200a}')
    ||| c == '\u{2028}'
    ||| c == '\u{2029}'
    ||| c == '\u{202f}'
    ||| c == '\u{205f}'
    ||| c == '\u{3000}'
}

pub fn char_is_ws(c: char) -> (r: bool)
    ensures
        r == is_ws(c),
{
    ('\u{9}' <= c && c <= '\u{d}') || c == ' ' || c == '\u{85}' || c == '\u{a0}' || c
        == '\u{1680}' || ('\u{2000}' <= c && c <= '\u{200a}') || c == '\u{2028}' || c
        == '\u{2029}' || c == '\u{202f}' || c == '\u{205f}' || c == '\u{3000}'
}

/// ASCII letters and digits (`char::is_ascii_alphanumeric`).
pub open spec fn is_ascii_alnum(c: char) -> bool {
    ('a' <= c && c <= 'z') || ('A' <= c && c <= 'Z') || ('0' <= c && c <= '9')
}

/// ASCII whitespace (`char::is_ascii_whitespace`): space, tab, LF, FF, CR.
pub open spec fn is_ascii_ws(c: char) -> bool {
    c == ' ' || c == '\t' || c == '\n' || c == '\u{c}' || c == '\r'
}

/// ASCII decimal digit.
pub open spec fn is_digit(c: char) -> bool {
    '0' <= c && c <= '9'
}

// ───────────────────────────── conversions ─────────────────────────────

/// The characters of a string slice, in order (`str::chars` collected).
#[verifier::external_body]
pub fn chars_of(s: &str) -> (r: Vec<char>)
    ensures
        r@ == s@,
{
    s.chars().collect()
}

/// A `String` holding exactly the given characters (`String::from_iter`).
#[verifier::external_body]
pub fn string_of(v: &[char]) -> (r: String)
    ensures
        r@ == v@,
{
    String::from_iter(v)
}

// ───────────────────────────── trimming ─────────────────────────────

/// `s` without its leading whitespace.
pub open spec fn trim_start(s: Seq<char>) -> Seq<char>
    decreases s.len(),
{
    if s.len() > 0 && is_ws(s[0]) {
        trim_start(s.drop_first())
    } else {
        s
    }
}

/// `s` without its trailing whitespace.
pub open spec fn trim_end(s: Seq<char>) -> Seq<char>
    decreases s.len(),
{
    if s.len() > 0 && is_ws(s.last()) {
        trim_end(s.drop_last())
    } else {
        s
    }
}

/// `str::trim`: `s` without leading and trailing whitespace.
pub open spec fn trim(s: Seq<char>) -> Seq<char> {
    trim_end(trim_start(s))
}

/// Every character of `s` is whitespace.
pub open spec fn all_ws(s: Seq<char>) -> bool {
    forall|i: int| 0 <= i < s.len() ==> is_ws(#[trigger] s[i])
}

pub proof fn lemma_trim_start_empty_iff(s: Seq<char>)
    ensures
        trim_start(s).len() == 0 <==> all_ws(s),
        trim_start(s).len() <= s.len(),
        trim_start(s).len() > 0 ==> !is_ws(trim_start(s)[0]),
    decreases s.len(),
{
    if s.len() > 0 && is_ws(s[0]) {
        lemma_trim_start_empty_iff(s.drop_first());
        if all_ws(s.drop_first()) {
            assert forall|i: int| 0 <= i < s.len() implies is_ws(#[trigger] s[i]) by {
                if i > 0 {
                    assert(s[i] == s.drop_first()[i - 1]);
                }
            }
        }
        if all_ws(s) {
            assert forall|i: int| 0 <= i < s.drop_first().len() implies is_ws(
                #[trigger] s.drop_first()[i],
            ) by {
                assert(s.drop_first()[i] == s[i + 1]);
            }
        }
    } else if s.len() > 0 {
        assert(!is_ws(s[0]));
    }
}

pub proof fn lemma_trim_end_empty_iff(s: Seq<char>)
    ensures
        trim_end(s).len() == 0 <==> all_ws(s),
        trim_end(s).len() <= s.len(),
    decreases s.len(),
{
    if s.len() > 0 && is_ws(s.last()) {
        lemma_trim_end_empty_iff(s.drop_last());
        if all_ws(s.drop_last()) {
            assert forall|i: int| 0 <= i < s.len() implies is_ws(#[trigger] s[i]) by {
                if i < s.len() - 1 {
                    assert(s[i] == s.drop_last()[i]);
                }
            }
        }
        if all_ws(s) {
            assert forall|i: int| 0 <= i < s.drop_last().len() implies is_ws(
                #[trigger] s.drop_last()[i],
            ) by {
                assert(s.drop_last()[i] == s[i]);
            }
        }
    } else if s.len() > 0 {
        assert(!is_ws(s[s.len() - 1]));
    }
}

/// `trim(s)` is empty exactly when `s` is all whitespace.
pub proof fn lemma_trim_empty_iff(s: Seq<char>)
    ensures
        trim(s).len() == 0 <==> all_ws(s),
{
    lemma_trim_start_empty_iff(s);
    lemma_trim_end_empty_iff(trim_start(s));
    let t = trim_start(s);
    if all_ws(t) && t.len() > 0 {
        assert(is_ws(t[0]));
    }
}

/// `trim_end(s)` is a prefix of `s` that does not end in whitespace.
pub proof fn lemma_trim_end_prefix(s: Seq<char>)
    ensures
        trim_end(s) == s.take(trim_end(s).len() as int),
        trim_end(s).len() <= s.len(),
        trim_end(s).len() > 0 ==> !is_ws(trim_end(s).last()),
    decreases s.len(),
{
    if s.len() > 0 && is_ws(s.last()) {
        lemma_trim_end_prefix(s.drop_last());
        let k = trim_end(s.drop_last()).len() as int;
        assert(s.drop_last().take(k) =~= s.take(k));
    } else {
        assert(s.take(s.len() as int) =~= s);
    }
}

/// Trimming twice is trimming once.
pub proof fn lemma_trim_idempotent(s: Seq<char>)
    ensures
        trim(trim(s)) == trim(s),
{
    let t = trim_start(s);
    let u = trim_end(t);
    lemma_trim_start_empty_iff(s);
    lemma_trim_end_prefix(t);
    if u.len() > 0 {
        assert(u[0] == t[0]);
        assert(trim_start(u) == u);
        lemma_trim_end_prefix(u);
        assert(trim_end(u) == u);
    } else {
        assert(trim_start(u) == u);
        assert(trim_end(u) == u);
    }
}

/// Bounds `(a, b)` within `[lo, hi)` such that `s[a..b] == trim(s[lo..hi])`.
pub fn trim_bounds(s: &Vec<char>, lo: usize, hi: usize) -> (r: (usize, usize))
    requires
        lo <= hi <= s.len(),
    ensures
        lo <= r.0 <= r.1 <= hi,
        s@.subrange(r.0 as int, r.1 as int) == trim(s@.subrange(lo as int, hi as int)),
{
    let mut i = lo;
    while i < hi && char_is_ws(s[i])
        invariant
            lo <= i <= hi <= s.len(),
            trim_start(s@.subrange(lo as int, hi as int)) == trim_start(
                s@.subrange(i as int, hi as int),
            ),
        decreases hi - i,
    {
        assert(s@.subrange(i as int, hi as int).drop_first() =~= s@.subrange(
            i + 1,
            hi as int,
        ));
        i = i + 1;
    }
    let mut j = hi;
    while j > i && char_is_ws(s[j - 1])
        invariant
            lo <= i <= j <= hi <= s.len(),
            trim_end(s@.subrange(i as int, hi as int)) == trim_end(
                s@.subrange(i as int, j as int),
            ),
        decreases j - i,
    {
        assert(s@.subrange(i as int, j as int).drop_last() =~= s@.subrange(
            i as int,
            j - 1,
        ));
        j = j - 1;
    }
    (i, j)
}

// ───────────────────────────── searching ─────────────────────────────

/// `pat` occurs in `s` starting at position `i`.
pub open spec fn match_at(s: Seq<char>, pat: Seq<char>, i: int) -> bool {
    0 <= i && i + pat.len() <= s.len() && s.subrange(i, i + pat.len()) == pat
}

/// Leftmost occurrence of `pat` in `s` at or after position `i`.
pub open spec fn find_from(s: Seq<char>, pat: Seq<char>, i: int) -> Option<int>
    decreases s.len() + 1 - i,
{
    if i < 0 || i + pat.len() > s.len() {
        None
    } else if match_at(s, pat, i) {
        Some(i)
    } else {
        find_from(s, pat, i + 1)
    }
}

/// `s` contains `pat` (`str::contains`).
pub open spec fn contains(s: Seq<char>, pat: Seq<char>) -> bool {
    exists|i: int| match_at(s, pat, i)
}

/// `s` starts with `p` (`str::starts_with`).
pub open spec fn starts_with(s: Seq<char>, p: Seq<char>) -> bool {
    p.len() <= s.len() && s.subrange(0, p.len() as int) == p
}

/// `s` ends with `p` (`str::ends_with`).
pub open spec fn ends_with(s: Seq<char>, p: Seq<char>) -> bool {
    p.len() <= s.len() && s.subrange(s.len() - p.len(), s.len() as int) == p
}

pub proof fn lemma_find_from(s: Seq<char>, pat: Seq<char>, i: int)
    requires
        0 <= i,
    ensures
        find_from(s, pat, i) matches Some(j) ==> i <= j && match_at(s, pat, j) && forall|k: int|
            i <= k < j ==> !match_at(s, pat, k),
        find_from(s, pat, i) is None ==> forall|k: int| i <= k ==> !match_at(s, pat, k),
    decreases s.len() + 1 - i,
{
    if i + pat.len() > s.len() {
    } else if match_at(s, pat, i) {
    } else {
        lemma_find_from(s, pat, i + 1);
    }
}

/// `find_from(s, pat, 0)` is `Some` exactly when `s` contains `pat`.
pub proof fn lemma_contains_find(s: Seq<char>, pat: Seq<char>)
    ensures
        contains(s, pat) <==> find_from(s, pat, 0) is Some,
{
    lemma_find_from(s, pat, 0);
    if find_from(s, pat, 0) is Some {
        let j = find_from(s, pat, 0)->0;
        assert(match_at(s, pat, j));
    }
}

/// Whether `pat` occurs in `s` at position `i`.
pub fn match_at_exec(s: &Vec<char>, pat: &Vec<char>, i: usize) -> (r: bool)
    ensures
        r == match_at(s@, pat@, i as int),
{
    if i > s.len() || pat.len() > s.len() - i {
        return false;
    }
    let mut k: usize = 0;
    while k < pat.len()
        invariant
            i + pat.len() <= s.len(),
            k <= pat.len(),
            forall|m: int| 0 <= m < k ==> s@[i + m] == pat@[m],
        decreases pat.len() - k,
    {
        if s[i + k] != pat[k] {
            assert(s@.subrange(i as int, i + pat.len())[k as int] != pat@[k as int]);
            return false;
        }
        k = k + 1;
    }
    assert(s@.subrange(i as int, i + pat.len()) =~= pat@);
    true
}

/// Leftmost occurrence of `pat` in `s` at or after `i`.
pub fn find_from_exec(s: &Vec<char>, pat: &Vec<char>, i: usize) -> (r: Option<usize>)
    ensures
        r matches Some(j) ==> find_from(s@, pat@, i as int) == Some(j as int),
        r is None ==> find_from(s@, pat@, i as int) is None,
{
    let mut k = i;
    while k <= s.len() && pat.len() <= s.len() - k
        invariant
            i <= k,
            find_from(s@, pat@, i as int) == find_from(s@, pat@, k as int),
        decreases s.len() + 1 - k,
    {
        if match_at_exec(s, pat, k) {
            return Some(k);
        }
        if k >= s.len() {
            assert(find_from(s@, pat@, k + 1) is None);
            return None;
        }
        k = k + 1;
    }
    None
}

/// Leftmost occurrence of `pat` in `s`, if any.
pub fn find_exec(s: &Vec<char>, pat: &Vec<char>) -> (r: Option<usize>)
    ensures
        r matches Some(j) ==> find_from(s@, pat@, 0) == Some(j as int),
        r is None ==> find_from(s@, pat@, 0) is None,
        r is Some <==> contains(s@, pat@),
{
    proof {
        lemma_contains_find(s@, pat@);
    }
    find_from_exec(s, pat, 0)
}

/// Whether `s` contains `pat`.
pub fn contains_exec(s: &Vec<char>, pat: &Vec<char>) -> (r: bool)
    ensures
        r == contains(s@, pat@),
{
    find_exec(s, pat).is_some()
}

/// Whether `s` starts with `p`.
pub fn starts_with_exec(s: &Vec<char>, p: &Vec<char>) -> (r: bool)
    ensures
        r == starts_with(s@, p@),
{
    let r = match_at_exec(s, p, 0);
    proof {
        if p.len() <= s.len() {
            assert(s@.subrange(0, p@.len() as int) == s@.subrange(0, 0 + p@.len() as int));
        }
    }
    r
}

/// Whether `s` ends with `p`.
pub fn ends_with_exec(s: &Vec<char>, p: &Vec<char>) -> (r: bool)
    ensures
        r == ends_with(s@, p@),
{
    if p.len() > s.len() {
        return false;
    }
    match_at_exec(s, p, s.len() - p.len())
}

/// Whether `c` occurs in `s`.
pub fn has_char(s: &Vec<char>, c: char) -> (r: bool)
    ensures
        r == s@.contains(c),
{
    let mut i: usize = 0;
    while i < s.len()
        invariant
            i <= s.len(),
            forall|k: int| 0 <= k < i ==> s@[k] != c,
        decreases s.len() - i,
    {
        if s[i] == c {
            return true;
        }
        i = i + 1;
    }
    false
}

// ───────────────────────────── splitting ─────────────────────────────

/// The character sequences held by a vector of buffers.
pub open spec fn vviews(v: Seq<Vec<char>>) -> Seq<Seq<char>> {
    v.map_values(|x: Vec<char>| x@)
}

/// The character sequences held by a vector of strings.
pub open spec fn sviews(v: Seq<String>) -> Seq<Seq<char>> {
    v.map_values(|x: String| x@)
}

/// `str::split` with a non-empty pattern, on the part of `s` from `i`.
pub open spec fn split_from(s: Seq<char>, pat: Seq<char>, i: int) -> Seq<Seq<char>>
    recommends
        pat.len() > 0,
    decreases s.len() - i,
    when pat.len() > 0 && 0 <= i <= s.len()
{
    match find_from(s, pat, i) {
        None => seq![s.subrange(i, s.len() as int)],
        Some(j) => if i <= j && j + pat.len() <= s.len() {
            seq![s.subrange(i, j)] + split_from(s, pat, j + pat.len())
        } else {
            seq![]
        },
    }
}

/// `str::split` with a non-empty pattern.
pub open spec fn split(s: Seq<char>, pat: Seq<char>) -> Seq<Seq<char>> {
    split_from(s, pat, 0)
}

/// Copy of `s[a..b]`.
pub fn slice_vec(s: &Vec<char>, a: usize, b: usize) -> (r: Vec<char>)
    requires
        a <= b <= s.len(),
    ensures
        r@ == s@.subrange(a as int, b as int),
{
    let mut r: Vec<char> = Vec::new();
    let mut k = a;
    while k < b
        invariant
            a <= k <= b <= s.len(),
            r@ == s@.subrange(a as int, k as int),
        decreases b - k,
    {
        r.push(s[k]);
        assert(s@.subrange(a as int, k + 1) =~= s@.subrange(a as int, k as int).push(s@[k as int]));
        k = k + 1;
    }
    r
}

/// `str::split` with a non-empty pattern.
pub fn split_exec(s: &Vec<char>, pat: &Vec<char>) -> (r: Vec<Vec<char>>)
    requires
        pat.len() > 0,
    ensures
        vviews(r@) == split(s@, pat@),
        r.len() >= 1,
{
    let mut r: Vec<Vec<char>> = Vec::new();
    let mut i: usize = 0;
    loop
        invariant
            pat.len() > 0,
            i <= s.len(),
            vviews(r@) + split_from(s@, pat@, i as int) == split(s@, pat@),
        decreases s.len() - i,
    {
        let f = find_from_exec(s, pat, i);
        proof {
            lemma_find_from(s@, pat@, i as int);
        }
        match f {
            None => {
                let piece = slice_vec(s, i, s.len());
                let ghost old_r = vviews(r@);
                r.push(piece);
                assert(vviews(r@) =~= old_r.push(piece@));
                assert(old_r.push(piece@) =~= old_r + split_from(s@, pat@, i as int));
                return r;
            },
            Some(j) => {
                let piece = slice_vec(s, i, j);
                let ghost old_r = vviews(r@);
                r.push(piece);
                assert(vviews(r@) =~= old_r.push(piece@));
                assert(old_r + split_from(s@, pat@, i as int) =~= vviews(r@) + split_from(
                    s@,
                    pat@,
                    j + pat.len(),
                ));
                i = j + pat.len();
            },
        }
    }
}

/// Appends `s[a..b]` to `out`.
pub fn push_range(out: &mut Vec<char>, s: &Vec<char>, a: usize, b: usize)
    requires
        a <= b <= s.len(),
    ensures
        final(out)@ == old(out)@ + s@.subrange(a as int, b as int),
{
    let ghost o = out@;
    let mut k = a;
    while k < b
        invariant
            a <= k <= b <= s.len(),
            out@ == o + s@.subrange(a as int, k as int),
        decreases b - k,
    {
        out.push(s[k]);
        assert(o + s@.subrange(a as int, k + 1) =~= (o + s@.subrange(a as int, k as int)).push(
            s@[k as int],
        ));
        k = k + 1;
    }
}

/// Appends all of `s` to `out`.
pub fn push_all(out: &mut Vec<char>, s: &Vec<char>)
    ensures
        final(out)@ == old(out)@ + s@,
{
    push_range(out, s, 0, s.len());
    assert(s@.subrange(0, s@.len() as int) =~= s@);
}

// ───────────────────────────── joining ─────────────────────────────

/// `[T]::join`: the pieces separated by `sep`.
pub open spec fn join(pieces: Seq<Seq<char>>, sep: Seq<char>) -> Seq<char>
    decreases pieces.len(),
{
    if pieces.len() == 0 {
        Seq::empty()
    } else if pieces.len() == 1 {
        pieces[0]
    } else {
        join(pieces.drop_last(), sep) + sep + pieces.last()
    }
}

/// The pieces separated by `sep`.
pub fn join_exec(pieces: &Vec<Vec<char>>, sep: &Vec<char>) -> (r: Vec<char>)
    ensures
        r@ == join(vviews(pieces@), sep@),
{
    let ghost ps = vviews(pieces@);
    let mut out: Vec<char> = Vec::new();
    let mut i: usize = 0;
    while i < pieces.len()
        invariant
            i <= pieces.len(),
            ps == vviews(pieces@),
            out@ == join(ps.subrange(0, i as int), sep@),
        decreases pieces.len() - i,
    {
        assert(ps.subrange(0, i + 1).drop_last() =~= ps.subrange(0, i as int));
        assert(ps[i as int] == pieces@[i as int]@);
        if i > 0 {
            push_all(&mut out, sep);
        } else {
            assert(out@ == Seq::<char>::empty());
        }
        push_all(&mut out, &pieces[i]);
        if i == 0 {
            assert(out@ =~= ps.subrange(0, 1)[0]);
        }
        i = i + 1;
    }
    assert(ps.subrange(0, ps.len() as int) =~= ps);
    out
}

// ───────────────────────────── decimal numbers ─────────────────────────────

pub open spec fn digit_char(d: nat) -> char {
    if d == 0 { '0' } else if d == 1 { '1' } else if d == 2 { '2' } else if d == 3 { '3' }
    else if d == 4 { '4' } else if d == 5 { '5' } else if d == 6 { '6' } else if d == 7 { '7' }
    else if d == 8 { '8' } else { '9' }
}

/// Decimal representation of `n` (as `Display` writes it).
pub open spec fn dec(n: nat) -> Seq<char>
    decreases n,
{
    if n < 10 {
        seq![digit_char(n)]
    } else {
        dec(n / 10).push(digit_char(n % 10))
    }
}

fn digit_char_exec(d: u64) -> (c: char)
    requires
        d < 10,
    ensures
        c == digit_char(d as nat),
{
    if d == 0 { '0' } else if d == 1 { '1' } else if d == 2 { '2' } else if d == 3 { '3' }
    else if d == 4 { '4' } else if d == 5 { '5' } else if d == 6 { '6' } else if d == 7 { '7' }
    else if d == 8 { '8' } else { '9' }
}

/// Appends the decimal representation of `n` to `out`.
pub fn push_dec(out: &mut Vec<char>, n: u64)
    ensures
        final(out)@ == old(out)@ + dec(n as nat),
    decreases n,
{
    if n < 10 {
        out.push(digit_char_exec(n));
        assert(dec(n as nat) == seq![digit_char(n as nat)]);
    } else {
        push_dec(out, n / 10);
        out.push(digit_char_exec(n % 10));
        assert(dec(n as nat) == dec((n / 10) as nat).push(digit_char((n % 10) as nat)));
    }
}

pub proof fn lemma_dec_nonempty(n: nat)
    ensures
        dec(n).len() >= 1,
    decreases n,
{
    if n >= 10 {
        lemma_dec_nonempty(n / 10);
    }
}

pub proof fn lemma_digit_char_injective(a: nat, b: nat)
    requires
        a < 10,
        b < 10,
        digit_char(a) == digit_char(b),
    ensures
        a == b,
{
    if a == 0 {} else if a == 1 {} else if a == 2 {} else if a == 3 {} else if a == 4 {}
    else if a == 5 {} else if a == 6 {} else if a == 7 {} else if a == 8 {} else {}
}

pub proof fn lemma_dec_injective(a: nat, b: nat)
    requires
        dec(a) == dec(b),
    ensures
        a == b,
    decreases a + b,
{
    if a < 10 && b < 10 {
        assert(dec(a) == seq![digit_char(a)]);
        assert(dec(b) == seq![digit_char(b)]);
        assert(dec(a)[0] == digit_char(a));
        assert(dec(b)[0] == digit_char(b));
        lemma_digit_char_injective(a, b);
    } else if a < 10 {
        lemma_dec_nonempty(b / 10);
        assert(dec(b).len() >= 2);
    } else if b < 10 {
        lemma_dec_nonempty(a / 10);
        assert(dec(a).len() >= 2);
    } else {
        assert(dec(a) == dec(a / 10).push(digit_char(a % 10)));
        assert(dec(b) == dec(b / 10).push(digit_char(b % 10)));
        assert(dec(a).last() == digit_char(a % 10));
        assert(dec(b).last() == digit_char(b % 10));
        lemma_digit_char_injective(a % 10, b % 10);
        assert(dec(a).drop_last() =~= dec(a / 10));
        assert(dec(b).drop_last() =~= dec(b / 10));
        lemma_dec_injective(a / 10, b / 10);
    }
}

// ───────────────────────────── UTF-8 lengths ─────────────────────────────

/// Number of UTF-8 bytes of `s` (what `str::len` counts).
pub open spec fn byte_len(s: Seq<char>) -> nat {
    encode_utf8(s).len()
}

pub proof fn lemma_encode_push(s: Seq<char>, c: char)
    ensures
        encode_utf8(s.push(c)) == encode_utf8(s) + encode_scalar(c as u32),
    decreases s.len(),
{
    if s.len() == 0 {
        assert(s.push(c).drop_first() =~= Seq::<char>::empty());
        assert(encode_utf8(Seq::<char>::empty()) == Seq::<u8>::empty());
        assert(encode_utf8(s.push(c)) =~= encode_scalar(c as u32));
    } else {
        assert(s.push(c).drop_first() =~= s.drop_first().push(c));
        lemma_encode_push(s.drop_first(), c);
        assert(encode_utf8(s.push(c)) =~= encode_utf8(s) + encode_scalar(c as u32));
    }
}

/// UTF-8 width of a character.
pub fn char_width(c: char) -> (w: usize)
    ensures
        w == encode_scalar(c as u32).len(),
        1 <= w <= 4,
{
    let v = c as u32;
    if v <= 0x7f {
        1
    } else if v <= 0x7ff {
        2
    } else if v <= 0xffff && !(0xd800 <= v && v <= 0xdfff) {
        3
    } else {
        4
    }
}

/// Byte length of a string slice (`str::len`, documented as the length in bytes).
#[verifier::external_body]
pub fn str_byte_len(s: &str) -> (r: usize)
    ensures
        r == byte_len(s@),
{
    s.len()
}

pub proof fn lemma_encode_concat(a: Seq<char>, b: Seq<char>)
    ensures
        encode_utf8(a + b) == encode_utf8(a) + encode_utf8(b),
    decreases b.len(),
{
    if b.len() == 0 {
        assert(a + b =~= a);
        assert(encode_utf8(b) =~= Seq::<u8>::empty());
        assert(encode_utf8(a) + encode_utf8(b) =~= encode_utf8(a));
    } else {
        let b1 = b.drop_last();
        assert(a + b =~= (a + b1).push(b.last()));
        assert(b =~= b1.push(b.last()));
        lemma_encode_concat(a, b1);
        lemma_encode_push(a + b1, b.last());
        lemma_encode_push(b1, b.last());
        assert(encode_utf8(a + b) =~= encode_utf8(a) + encode_utf8(b));
    }
}

pub proof fn lemma_byte_len_prefix(s: Seq<char>, k: int)
    requires
        0 <= k <= s.len(),
    ensures
        byte_len(s.take(k)) <= byte_len(s),
    decreases s.len() - k,
{
    if k < s.len() {
        lemma_byte_len_prefix(s, k + 1);
        assert(s.take(k + 1) =~= s.take(k).push(s[k]));
        lemma_encode_push(s.take(k), s[k]);
    } else {
        assert(s.take(k) =~= s);
    }
}

/// Whether `s` takes at most `limit` bytes in UTF-8.
pub fn byte_len_at_most(s: &Vec<char>, limit: usize) -> (r: bool)
    ensures
        r == (byte_len(s@) <= limit),
{
    let mut sum: usize = 0;
    let mut i: usize = 0;
    assert(s@.take(0) =~= Seq::<char>::empty());
    assert(encode_utf8(Seq::<char>::empty()) =~= Seq::<u8>::empty());
    while i < s.len()
        invariant
            i <= s.len(),
            sum == byte_len(s@.take(i as int)),
            sum <= limit,
        decreases s.len() - i,
    {
        let w = char_width(s[i]);
        proof {
            assert(s@.take(i + 1) =~= s@.take(i as int).push(s@[i as int]));
            lemma_encode_push(s@.take(i as int), s@[i as int]);
        }
        if w > limit - sum {
            proof {
                lemma_byte_len_prefix(s@, i + 1);
            }
            return false;
        }
        sum = sum + w;
        i = i + 1;
    }
    assert(s@.take(s@.len() as int) =~= s@);
    true
}

/// Whether two buffers hold the same characters.
pub fn chars_eq(a: &Vec<char>, b: &Vec<char>) -> (r: bool)
    ensures
        r == (a@ == b@),
{
    if a.len() != b.len() {
        return false;
    }
    let mut i: usize = 0;
    while i < a.len()
        invariant
            i <= a.len() == b.len(),
            forall|k: int| 0 <= k < i ==> a@[k] == b@[k],
        decreases a.len() - i,
    {
        if a[i] != b[i] {
            return false;
        }
        i = i + 1;
    }
    assert(a@ =~= b@);
    true
}

/// The characters of each string, in order.
pub fn chars_of_all(v: &Vec<String>) -> (r: Vec<Vec<char>>)
    ensures
        vviews(r@) == sviews(v@),
{
    let mut out: Vec<Vec<char>> = Vec::new();
    let mut i: usize = 0;
    while i < v.len()
        invariant
            i <= v.len(),
            vviews(out@) == sviews(v@).take(i as int),
        decreases v.len() - i,
    {
        let c = chars_of(v[i].as_str());
        let ghost before = vviews(out@);
        out.push(c);
        assert(vviews(out@) =~= before.push(c@));
        assert(sviews(v@).take(i + 1) =~= sviews(v@).take(i as int).push(v@[i as int]@));
        i = i + 1;
    }
    assert(sviews(v@).take(v.len() as int) =~= sviews(v@));
    out
}

/// What `str::to_lowercase` gives for `s` (full Unicode lowercase mapping).
pub uninterp spec fn lowercase(s: Seq<char>) -> Seq<char>;

/// `str::to_lowercase`. On ASCII text the Unicode lowercase mapping is the
/// ASCII one (what `str::to_ascii_lowercase` gives); beyond ASCII the result
/// is named by `lowercase`.
#[verifier::external_body]
pub fn to_lowercase(s: &str) -> (r: String)
    ensures
        r@ == lowercase(s@),
        (forall|i: int| 0 <= i < s@.len() ==> (#[trigger] s@[i]) as u32 <= 0x7f) ==> r@ == ascii_lowercase(s@),
{
    s.to_lowercase()
}

/// ASCII lowercase of one character (`char::to_ascii_lowercase`).
pub open spec fn ascii_lower(c: char) -> char {
    if 'A' <= c && c <= 'Z' {
        ((c as u32) + 32) as char
    } else {
        c
    }
}

/// `str::to_ascii_lowercase`: ASCII letters lowercased, all else kept.
pub open spec fn ascii_lowercase(s: Seq<char>) -> Seq<char> {
    s.map_values(|c: char| ascii_lower(c))
}

pub fn to_ascii_lowercase_vec(s: &Vec<char>) -> (r: Vec<char>)
    ensures
        r@ == ascii_lowercase(s@),
{
    let mut out: Vec<char> = Vec::new();
    let mut i: usize = 0;
    while i < s.len()
        invariant
            i <= s.len(),
            out@ == ascii_lowercase(s@).take(i as int),
        decreases s.len() - i,
    {
        let c = s[i];
        let l = if 'A' <= c && c <= 'Z' {
            ((c as u8) + 32) as char
        } else {
            c
        };
        assert(l == ascii_lower(c)) by {
            if 'A' <= c && c <= 'Z' {
                assert((c as u8) as u32 == c as u32);
            }
        }
        out.push(l);
        assert(out@ =~= ascii_lowercase(s@).take(i + 1));
        i = i + 1;
    }
    assert(ascii_lowercase(s@).take(s.len() as int) =~= ascii_lowercase(s@));
    out
}

/// `ps` with `x` appended when `x` is not empty.
pub open spec fn push_nonempty(ps: Seq<Seq<char>>, x: Seq<char>) -> Seq<Seq<char>> {
    if x.len() > 0 {
        ps.push(x)
    } else {
        ps
    }
}

/// Every piece is non-empty and has no surrounding whitespace.
pub open spec fn clean_pieces(ps: Seq<Seq<char>>) -> bool {
    forall|k: int| 0 <= k < ps.len() ==> (#[trigger] ps[k]).len() > 0 && trim(ps[k]) == ps[k]
}

// ───────────────────────────── ordering ─────────────────────────────

/// Lexicographic order by code point (the order of `String`'s `Ord`).
pub open spec fn lex_lt(a: Seq<char>, b: Seq<char>) -> bool
    decreases a.len(),
{
    if a.len() == 0 {
        b.len() > 0
    } else if b.len() == 0 {
        false
    } else if a[0] != b[0] {
        a[0] < b[0]
    } else {
        lex_lt(a.drop_first(), b.drop_first())
    }
}

pub proof fn lemma_lex_trichotomy(a: Seq<char>, b: Seq<char>)
    ensures
        lex_lt(a, b) || lex_lt(b, a) || a == b,
        !(lex_lt(a, b) && lex_lt(b, a)),
        !lex_lt(a, a),
    decreases a.len(),
{
    if a.len() > 0 && b.len() > 0 {
        lemma_lex_trichotomy(a.drop_first(), b.drop_first());
        if a[0] == b[0] && a.drop_first() == b.drop_first() {
            assert(a =~= seq![a[0]] + a.drop_first());
            assert(b =~= seq![b[0]] + b.drop_first());
        }
    } else if a.len() == 0 && b.len() == 0 {
        assert(a =~= b);
    }
    if a.len() > 0 {
        lemma_lex_trichotomy(a.drop_first(), a.drop_first());
    }
}

pub proof fn lemma_lex_transitive(a: Seq<char>, b: Seq<char>, c: Seq<char>)
    requires
        lex_lt(a, b),
        lex_lt(b, c),
    ensures
        lex_lt(a, c),
    decreases a.len(),
{
    if a.len() > 0 && b.len() > 0 && c.len() > 0 && a[0] == b[0] && b[0] == c[0] {
        lemma_lex_transitive(a.drop_first(), b.drop_first(), c.drop_first());
    }
}

/// Compares two buffers: `-1`, `0` or `1` as `a` is below, equal to or above `b`.
pub fn lex_compare(a: &Vec<char>, b: &Vec<char>) -> (r: i8)
    ensures
        r == -1 <==> lex_lt(a@, b@),
        r == 0 <==> a@ == b@,
        r == 1 <==> lex_lt(b@, a@),
        -1 <= r <= 1,
{
    proof {
        lemma_lex_trichotomy(a@, b@);
    }
    assert(a@.skip(0) =~= a@);
    assert(b@.skip(0) =~= b@);
    let mut k: usize = 0;
    while k < a.len() && k < b.len()
        invariant
            k <= a.len(),
            k <= b.len(),
            a@.subrange(0, k as int) == b@.subrange(0, k as int),
            lex_lt(a@, b@) == lex_lt(a@.skip(k as int), b@.skip(k as int)),
            lex_lt(b@, a@) == lex_lt(b@.skip(k as int), a@.skip(k as int)),
        decreases a.len() - k,
    {
        if a[k] != b[k] {
            assert(a@.skip(k as int)[0] == a@[k as int]);
            assert(b@.skip(k as int)[0] == b@[k as int]);
            proof {
                if a@ == b@ {
                    assert(a@[k as int] == b@[k as int]);
                }
            }
            if a[k] < b[k] {
                return -1;
            } else {
                return 1;
            }
        }
        assert(a@.skip(k as int).drop_first() =~= a@.skip(k + 1));
        assert(b@.skip(k as int).drop_first() =~= b@.skip(k + 1));
        assert(a@.subrange(0, k + 1) =~= a@.subrange(0, k as int).push(a@[k as int]));
        assert(b@.subrange(0, k + 1) =~= b@.subrange(0, k as int).push(b@[k as int]));
        k = k + 1;
    }
    if a.len() == b.len() {
        assert(a@ =~= a@.subrange(0, k as int));
        assert(b@ =~= b@.subrange(0, k as int));
        0
    } else if a.len() < b.len() {
        assert(a@.skip(k as int).len() == 0);
        proof {
            if a@ == b@ {
                assert(a@.len() == b@.len());
            }
        }
        -1
    } else {
        assert(b@.skip(k as int).len() == 0);
        proof {
            if a@ == b@ {
                assert(a@.len() == b@.len());
            }
        }
        1
    }
}

// ───────────────────────────── lines ─────────────────────────────

pub open spec fn newline() -> Seq<char> {
    seq!['\n']
}

/// `str::lines`: pieces between `\n`s, a final empty piece dropped, and a
/// `\r` ending a piece that precedes a `\n` removed.
pub open spec fn lines(s: Seq<char>) -> Seq<Seq<char>> {
    let parts = split(s, newline());
    let n = if parts.last().len() == 0 { parts.len() - 1 } else { parts.len() as int };
    Seq::new(
        n as nat,
        |i: int|
            if i + 1 < parts.len() && parts[i].len() > 0 && parts[i].last() == '\r' {
                parts[i].drop_last()
            } else {
                parts[i]
            },
    )
}

pub proof fn lemma_split_nonempty(s: Seq<char>, pat: Seq<char>, i: int)
    requires
        pat.len() > 0,
        0 <= i <= s.len(),
    ensures
        split_from(s, pat, i).len() >= 1,
    decreases s.len() - i,
{
    lemma_find_from(s, pat, i);
    match find_from(s, pat, i) {
        None => {},
        Some(j) => {
            lemma_split_nonempty(s, pat, j + pat.len());
        },
    }
}

/// `str::lines`.
pub fn lines_exec(s: &Vec<char>) -> (r: Vec<Vec<char>>)
    ensures
        vviews(r@) == lines(s@),
{
    let nl = vec!['\n'];
    assert(nl@ == newline());
    let parts = split_exec(s, &nl);
    let ghost ps = vviews(parts@);
    let n = if parts[parts.len() - 1].len() == 0 { parts.len() - 1 } else { parts.len() };
    assert(parts@[parts@.len() - 1]@ == ps.last());
    let mut out: Vec<Vec<char>> = Vec::new();
    let mut i: usize = 0;
    while i < n
        invariant
            i <= n <= parts.len(),
            ps == vviews(parts@),
            ps == split(s@, newline()),
            n == (if ps.last().len() == 0 { ps.len() - 1 } else { ps.len() as int }),
            vviews(out@) == lines(s@).subrange(0, i as int),
        decreases n - i,
    {
        let p = &parts[i];
        assert(p@ == ps[i as int]);
        let line = if i + 1 < parts.len() && p.len() > 0 && p[p.len() - 1] == '\r' {
            slice_vec(p, 0, p.len() - 1)
        } else {
            p.clone()
        };
        assert(line@ == lines(s@)[i as int]);
        let ghost o = vviews(out@);
        out.push(line);
        assert(vviews(out@) =~= o.push(line@));
        assert(vviews(out@) =~= lines(s@).subrange(0, i + 1));
        i = i + 1;
    }
    assert(lines(s@).subrange(0, n as int) =~= lines(s@));
    out
}

/// Concatenation of the pieces, each followed by a newline.
pub open spec fn emit(pieces: Seq<Seq<char>>) -> Seq<char>
    decreases pieces.len(),
{
    if pieces.len() == 0 {
        Seq::empty()
    } else {
        emit(pieces.drop_last()) + pieces.last() + newline()
    }
}

/// Number of occurrences of `c` in `s`.
pub open spec fn count_char(s: Seq<char>, c: char) -> nat
    decreases s.len(),
{
    if s.len() == 0 {
        0
    } else {
        count_char(s.drop_last(), c) + if s.last() == c { 1nat } else { 0nat }
    }
}

/// Number of occurrences of `c` in `s[a..b]`.
pub fn count_char_exec(s: &Vec<char>, a: usize, b: usize, c: char) -> (r: usize)
    requires
        a <= b <= s.len(),
    ensures
        r == count_char(s@.subrange(a as int, b as int), c),
{
    let mut k = a;
    let mut n: usize = 0;
    assert(s@.subrange(a as int, a as int) =~= Seq::<char>::empty());
    while k < b
        invariant
            a <= k <= b <= s.len(),
            n == count_char(s@.subrange(a as int, k as int), c),
            n <= k - a,
        decreases b - k,
    {
        assert(s@.subrange(a as int, k + 1).drop_last() =~= s@.subrange(a as int, k as int));
        if s[k] == c {
            n = n + 1;
        }
        k = k + 1;
    }
    n
}

/// Length of `trim_end(s[lo..hi])`, measured from `lo`.
pub fn trim_end_bound(s: &Vec<char>, lo: usize, hi: usize) -> (r: usize)
    requires
        lo <= hi <= s.len(),
    ensures
        lo <= r <= hi,
        s@.subrange(lo as int, r as int) == trim_end(s@.subrange(lo as int, hi as int)),
{
    let mut j = hi;
    while j > lo && char_is_ws(s[j - 1])
        invariant
            lo <= j <= hi <= s.len(),
            trim_end(s@.subrange(lo as int, hi as int)) == trim_end(s@.subrange(lo as int, j as int)),
        decreases j - lo,
    {
        assert(s@.subrange(lo as int, j as int).drop_last() =~= s@.subrange(lo as int, j - 1));
        j = j - 1;
    }
    j
}

/// Start of `trim_start(s[lo..hi])`.
pub fn trim_start_bound(s: &Vec<char>, lo: usize, hi: usize) -> (r: usize)
    requires
        lo <= hi <= s.len(),
    ensures
        lo <= r <= hi,
        s@.subrange(r as int, hi as int) == trim_start(s@.subrange(lo as int, hi as int)),
{
    let mut i = lo;
    while i < hi && char_is_ws(s[i])
        invariant
            lo <= i <= hi <= s.len(),
            trim_start(s@.subrange(lo as int, hi as int)) == trim_start(s@.subrange(i as int, hi as int)),
        decreases hi - i,
    {
        assert(s@.subrange(i as int, hi as int).drop_first() =~= s@.subrange(i + 1, hi as int));
        i = i + 1;
    }
    i
}

/// `trim_end` of a buffer, copied.
pub fn trim_end_vec(s: &Vec<char>) -> (r: Vec<char>)
    ensures
        r@ == trim_end(s@),
{
    let e = trim_end_bound(s, 0, s.len());
    assert(s@.subrange(0, s@.len() as int) =~= s@);
    slice_vec(s, 0, e)
}

/// `trim` of a buffer, copied.
pub fn trim_vec(s: &Vec<char>) -> (r: Vec<char>)
    ensures
        r@ == trim(s@),
{
    let (a, b) = trim_bounds(s, 0, s.len());
    assert(s@.subrange(0, s@.len() as int) =~= s@);
    slice_vec(s, a, b)
}

/// Appends `line` and a newline to `out`.
pub fn push_line(out: &mut Vec<char>, line: &Vec<char>)
    ensures
        final(out)@ == old(out)@ + line@ + newline(),
{
    push_all(out, line);
    out.push('\n');
    assert(final(out)@ =~= old(out)@ + line@ + newline());
}

pub proof fn lemma_emit_push(ps: Seq<Seq<char>>, x: Seq<char>)
    ensures
        emit(ps.push(x)) == emit(ps) + x + newline(),
{
    assert(ps.push(x).drop_last() =~= ps);
}

pub proof fn lemma_emit_concat(a: Seq<Seq<char>>, b: Seq<Seq<char>>)
    ensures
        emit(a + b) == emit(a) + emit(b),
    decreases b.len(),
{
    if b.len() == 0 {
        assert(a + b =~= a);
        assert(emit(a) + emit(b) =~= emit(a));
    } else {
        assert((a + b).drop_last() =~= a + b.drop_last());
        lemma_emit_concat(a, b.drop_last());
        assert(emit(a + b) =~= emit(a) + emit(b));
    }
}

// ───────────────────────────── number parsing ─────────────────────────────

/// Value of a string of decimal digits.
pub open spec fn digits_value(d: Seq<char>) -> nat
    decreases d.len(),
{
    if d.len() == 0 {
        0
    } else {
        digits_value(d.drop_last()) * 10 + ((d.last() as u32 - '0' as u32) as nat)
    }
}

/// `str::parse` for an unsigned integer type whose maximum is `max`: an
/// optional `+`, then one or more ASCII digits whose value is at most `max`.
pub open spec fn parse_uint(s: Seq<char>, max: nat) -> Option<nat> {
    let d = unsigned_digits(s);
    if d.len() > 0 && all_digits(d) && digits_value(d) <= max {
        Some(digits_value(d))
    } else {
        None
    }
}

/// `str::parse::<usize>`.
pub open spec fn parse_usize(s: Seq<char>) -> Option<nat> {
    parse_uint(s, usize::MAX as nat)
}

/// `str::parse::<u32>`.
pub open spec fn parse_u32(s: Seq<char>) -> Option<nat> {
    parse_uint(s, u32::MAX as nat)
}

/// `s` without one leading `+`.
pub open spec fn unsigned_digits(s: Seq<char>) -> Seq<char> {
    if s.len() > 0 && s[0] == '+' {
        s.drop_first()
    } else {
        s
    }
}

pub open spec fn all_digits(d: Seq<char>) -> bool {
    forall|i: int| 0 <= i < d.len() ==> is_digit(#[trigger] d[i])
}

proof fn lemma_digits_value_mono(d: Seq<char>, k: int)
    requires
        0 <= k <= d.len(),
        forall|i: int| 0 <= i < d.len() ==> is_digit(#[trigger] d[i]),
    ensures
        digits_value(d.take(k)) <= digits_value(d),
    decreases d.len() - k,
{
    if k < d.len() {
        lemma_digits_value_mono(d, k + 1);
        assert(d.take(k + 1).drop_last() =~= d.take(k));
        assert(d.take(k + 1).last() == d[k]);
    } else {
        assert(d.take(k) =~= d);
    }
}

/// Parses `s[a..b]` as an unsigned integer no larger than `max`.
pub fn parse_uint_range(s: &Vec<char>, a: usize, b: usize, max: u64) -> (r: Option<u64>)
    requires
        a <= b <= s.len(),
    ensures
        r matches Some(n) ==> parse_uint(s@.subrange(a as int, b as int), max as nat) == Some(
            n as nat,
        ) && n <= max,
        r is None ==> parse_uint(s@.subrange(a as int, b as int), max as nat) is None,
{
    let ghost w = s@.subrange(a as int, b as int);
    let mut i = a;
    if i < b && s[i] == '+' {
        i = i + 1;
    }
    let ghost d = unsigned_digits(w);
    assert(d =~= s@.subrange(i as int, b as int));
    if i == b {
        return None;
    }
    let mut v: u64 = 0;
    let mut k = i;
    while k < b
        invariant
            i <= k <= b <= s.len(),
            d == s@.subrange(i as int, b as int),
            d == unsigned_digits(w),
            w == s@.subrange(a as int, b as int),
            forall|m: int| i <= m < k ==> is_digit(#[trigger] s@[m]),
            v == digits_value(s@.subrange(i as int, k as int)),
            v <= max,
        decreases b - k,
    {
        let c = s[k];
        if !('0' <= c && c <= '9') {
            assert(d[k - i] == c);
            assert(!is_digit(d[k - i]));
            assert(!all_digits(d));
            return None;
        }
        let dv = (c as u32 - '0' as u32) as u64;
        assert(s@.subrange(i as int, k + 1).drop_last() =~= s@.subrange(i as int, k as int));
        if dv > max || v > (max - dv) / 10 {
            proof {
                assert(v * 10 + dv > max) by (nonlinear_arith)
                    requires
                        dv > max || v > (max - dv) / 10,
                        dv <= 9,
                ;
                assert(s@.subrange(i as int, k + 1).last() == c);
                assert(digits_value(s@.subrange(i as int, k + 1)) == v * 10 + dv);
                if all_digits(d) {
                    lemma_digits_value_mono(d, k + 1 - i);
                    assert(d.take(k + 1 - i) =~= s@.subrange(i as int, k + 1));
                    assert(digits_value(d) > max);
                }
                assert(parse_uint(w, max as nat) is None);
            }
            return None;
        }
        proof {
            assert(v * 10 + dv <= max) by (nonlinear_arith)
                requires
                    v <= (max - dv) / 10,
                    dv <= 9,
                    dv <= max,
            ;
            assert(s@.subrange(i as int, k + 1).last() == c);
        }
        v = v * 10 + dv;
        k = k + 1;
    }
    assert(s@.subrange(i as int, k as int) =~= d);
    assert forall|m: int| 0 <= m < d.len() implies is_digit(#[trigger] d[m]) by {
        assert(d[m] == s@[i + m]);
    };
    assert(all_digits(d));
    Some(v)
}

/// Parses `s[a..b]` as a `usize`.
pub fn parse_usize_range(s: &Vec<char>, a: usize, b: usize) -> (r: Option<usize>)
    requires
        a <= b <= s.len(),
    ensures
        r matches Some(n) ==> parse_usize(s@.subrange(a as int, b as int)) == Some(n as nat),
        r is None ==> parse_usize(s@.subrange(a as int, b as int)) is None,
{
    match parse_uint_range(s, a, b, usize::MAX as u64) {
        Some(n) => Some(n as usize),
        None => None,
    }
}

/// `str::parse::<u64>`.
pub open spec fn parse_u64(s: Seq<char>) -> Option<nat> {
    parse_uint(s, u64::MAX as nat)
}

/// Parses `s[a..b]` as a `u64`.
pub fn parse_u64_range(s: &Vec<char>, a: usize, b: usize) -> (r: Option<u64>)
    requires
        a <= b <= s.len(),
    ensures
        r matches Some(n) ==> parse_u64(s@.subrange(a as int, b as int)) == Some(n as nat),
        r is None ==> parse_u64(s@.subrange(a as int, b as int)) is None,
{
    parse_uint_range(s, a, b, u64::MAX)
}

/// Parses `s` as a `u32`.
pub fn parse_u32_exec(s: &Vec<char>) -> (r: Option<u32>)
    ensures
        r matches Some(n) ==> parse_u32(s@) == Some(n as nat),
        r is None ==> parse_u32(s@) is None,
{
    assert(s@.subrange(0, s@.len() as int) =~= s@);
    match parse_uint_range(s, 0, s.len(), u32::MAX as u64) {
        Some(n) => Some(n as u32),
        None => None,
    }
}

// ───────────────────────────── searching from the end ─────────────────────────────

/// Last occurrence of `pat` in `s` starting at or before `k`.
pub open spec fn last_from(s: Seq<char>, pat: Seq<char>, k: int) -> Option<int>
    decreases k + 1,
{
    if k < 0 {
        None
    } else if match_at(s, pat, k) {
        Some(k)
    } else {
        last_from(s, pat, k - 1)
    }
}

/// `str::rfind`: the last occurrence of `pat` in `s`.
pub open spec fn rfind(s: Seq<char>, pat: Seq<char>) -> Option<int> {
    last_from(s, pat, s.len() - pat.len())
}

/// Position of the last occurrence of `pat` in `s` (`str::rfind`).
pub fn rfind_exec(s: &Vec<char>, pat: &Vec<char>) -> (r: Option<usize>)
    ensures
        r matches Some(k) ==> rfind(s@, pat@) == Some(k as int) && match_at(s@, pat@, k as int),
        r is None ==> rfind(s@, pat@) is None,
{
    if pat.len() > s.len() {
        assert(rfind(s@, pat@) is None);
        return None;
    }
    let mut k = s.len() - pat.len();
    loop
        invariant
            k <= s.len() - pat.len(),
            pat.len() <= s.len(),
            rfind(s@, pat@) == last_from(s@, pat@, k as int),
        decreases k,
    {
        if match_at_exec(s, pat, k) {
            return Some(k);
        }
        if k == 0 {
            assert(last_from(s@, pat@, -1) is None);
            return None;
        }
        k = k - 1;
    }
}

/// An owned copy of a string slice.
pub fn lit(s: &str) -> (r: String)
    ensures
        r@ == s@,
{
    string_of(chars_of(s).as_slice())
}

/// One `String` per character buffer, in order.
pub fn strings_of(parts: &Vec<Vec<char>>) -> (r: Vec<String>)
    ensures
        sviews(r@) == vviews(parts@),
{
    let mut out: Vec<String> = Vec::new();
    let mut i: usize = 0;
    while i < parts.len()
        invariant
            i <= parts.len(),
            sviews(out@) == vviews(parts@).take(i as int),
        decreases parts.len() - i,
    {
        let s = string_of(parts[i].as_slice());
        let ghost before = sviews(out@);
        out.push(s);
        assert(sviews(out@) =~= before.push(s@));
        assert(vviews(parts@).take(i + 1) =~= vviews(parts@).take(i as int).push(parts@[i as int]@));
        i = i + 1;
    }
    assert(vviews(parts@).take(parts.len() as int) =~= vviews(parts@));
    out
}

} // verus!
