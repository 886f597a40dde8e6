//! Extraction of word tokens from raw corpus text.
use vstd::prelude::*;
use crate::text::{is_letter, lower_all, is_ascii_letter, to_lower, chars_of, string_from};

verus! {

/// Length of the longest prefix of `s` made of letters and of apostrophes that
/// each stand between two letters, where `s` is read as the continuation of a
/// token (`s` begins with a letter, or just after one).
pub open spec fn word_span(s: Seq<char>) -> nat
    decreases s.len(),
{
    if s.len() > 0 && is_letter(s[0]) {
        1 + word_span(s.drop_first())
    } else if s.len() > 1 && s[0] == '\'' && is_letter(s[1]) {
        2 + word_span(s.skip(2))
    } else {
        0
    }
}

pub proof fn lemma_word_span_bounds(s: Seq<char>)
    ensures
        word_span(s) <= s.len(),
        s.len() > 0 && is_letter(s[0]) ==> word_span(s) >= 1,
    decreases s.len(),
{
    if s.len() > 0 && is_letter(s[0]) {
        lemma_word_span_bounds(s.drop_first());
    } else if s.len() > 1 && s[0] == '\'' && is_letter(s[1]) {
        lemma_word_span_bounds(s.skip(2));
    }
}

/// The tokens of `s`, left to right: each maximal run of ASCII letters, with
/// apostrophes allowed between letters, lowercased. All other characters separate.
pub open spec fn tokens(s: Seq<char>) -> Seq<Seq<char>>
    decreases s.len(),
{
    if s.len() == 0 {
        seq![]
    } else if !is_letter(s[0]) {
        tokens(s.drop_first())
    } else {
        proof {
            lemma_word_span_bounds(s);
        }
        let n = word_span(s) as int;
        seq![lower_all(s.take(n))] + tokens(s.skip(n))
    }
}

/// Views of a sequence of strings.
pub open spec fn views(v: Seq<String>) -> Seq<Seq<char>> {
    v.map_values(|t: String| t@)
}

/// End of the token that starts at `start` in `cs`.
fn span_end(cs: &Vec<char>, start: usize) -> (end: usize)
    requires
        start < cs@.len(),
        is_letter(cs@[start as int]),
    ensures
        start < end <= cs@.len(),
        end - start == word_span(cs@.skip(start as int)),
{
    let n = cs.len();
    let mut j: usize = start + 1;
    proof {
        assert(cs@.skip(start as int).drop_first() =~= cs@.skip(j as int));
    }
    while j < n
        invariant
            start < j <= n,
            n == cs@.len(),
            word_span(cs@.skip(start as int)) == (j - start) + word_span(cs@.skip(j as int)),
        ensures
            start < j <= n,
            word_span(cs@.skip(start as int)) == j - start,
        decreases n - j,
    {
        assert(j + 1 == n ==> cs@.skip(j + 1).len() == 0);
        assert(j + 2 == n ==> cs@.skip(j + 2).len() == 0);
        if is_ascii_letter(cs[j]) {
            assert(cs@.skip(j as int).drop_first() =~= cs@.skip(j + 1));
            j = j + 1;
        } else if cs[j] == '\'' && j + 1 < n && is_ascii_letter(cs[j + 1]) {
            assert(cs@.skip(j as int).skip(2) =~= cs@.skip(j + 2));
            j = j + 2;
        } else {
            let ghost rest = cs@.skip(j as int);
            assert(rest[0] == cs@[j as int]);
            assert(j + 1 < n ==> rest[1] == cs@[j + 1]);
            assert(word_span(rest) == 0);
            break;
        }
    }
    j
}

/// Splits `text` into its word tokens.
pub fn words(text: &str) -> (r: Vec<String>)
    ensures
        views(r@) == tokens(text@),
{
    let cs = chars_of(text);
    let n = cs.len();
    let mut out: Vec<String> = Vec::new();
    let mut i: usize = 0;
    assert(cs@.skip(0) =~= cs@);
    assert(views(out@) + tokens(cs@.skip(0)) =~= tokens(text@));
    while i < n
        invariant
            n == cs@.len(),
            cs@ == text@,
            i <= n,
            views(out@) + tokens(cs@.skip(i as int)) == tokens(text@),
        decreases n - i,
    {
        let ghost rest = cs@.skip(i as int);
        if !is_ascii_letter(cs[i]) {
            assert(rest.drop_first() =~= cs@.skip(i + 1));
            i = i + 1;
        } else {
            let end = span_end(&cs, i);
            let mut word: Vec<char> = Vec::new();
            let mut k: usize = i;
            while k < end
                invariant
                    i <= k <= end <= n,
                    n == cs@.len(),
                    word@ == lower_all(cs@.subrange(i as int, k as int)),
                decreases end - k,
            {
                word.push(to_lower(cs[k]));
                assert(cs@.subrange(i as int, k + 1) =~= cs@.subrange(i as int, k as int).push(cs@[k as int]));
                k = k + 1;
            }
            let token = string_from(word.as_slice());
            assert(rest.take(end - i) =~= cs@.subrange(i as int, end as int));
            assert(rest.skip(end - i) =~= cs@.skip(end as int));
            assert(views(out@.push(token)) =~= views(out@).push(token@));
            assert(views(out@) + tokens(rest) =~= views(out@).push(token@) + tokens(cs@.skip(end as int)));
            out.push(token);
            i = end;
        }
    }
    assert(cs@.skip(n as int) =~= Seq::<char>::empty());
    assert(views(out@) + tokens(cs@.skip(n as int)) =~= views(out@));
    out
}

} // verus!
