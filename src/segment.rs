//! Maximum-score segmentation of a letter stream into words.
use vstd::prelude::*;
use vstd::string::StrSliceExecFns;
use crate::text::{is_letter, lower, lower_all, letters_of, letters, string_from};
use crate::model::{Words, WordsModel, score, unit, model_wf};

verus! {

pub open spec fn min(a: nat, b: nat) -> nat {
    if a < b { a } else { b }
}

/// The word of length `w` that ends at position `i` of `x`.
pub open spec fn word_at(x: Seq<char>, i: int, w: int) -> Seq<char> {
    x.subrange(i - w, i)
}

/// Best score of a segmentation of `x[0..i)`, with the length of its last word.
/// Last words of length 1 to `min(max_len, i)` are tried; the shortest wins ties.
pub open spec fn best(m: WordsModel, x: Seq<char>, i: nat) -> (int, nat)
    decreases i, i + 1,
{
    if i == 0 {
        (0, 0)
    } else {
        best_upto(m, x, i, min(m.max_len, i))
    }
}

/// Best score of a segmentation of `x[0..i)` whose last word has length 1 to `k`,
/// with the length of that last word (the shortest among equal scores).
pub open spec fn best_upto(m: WordsModel, x: Seq<char>, i: nat, k: nat) -> (int, nat)
    decreases i, k,
{
    if k == 0 || k > i {
        (0, 0)
    } else if k == 1 {
        (best(m, x, (i - 1) as nat).0 + score(m, word_at(x, i as int, 1)), 1)
    } else {
        let prev = best_upto(m, x, i, (k - 1) as nat);
        let c = best(m, x, (i - k) as nat).0 + score(m, word_at(x, i as int, k as int));
        if c > prev.0 {
            (c, k)
        } else {
            prev
        }
    }
}

/// The words of the best segmentation of `x[0..i)`, left to right.
pub open spec fn words_upto(m: WordsModel, x: Seq<char>, i: nat) -> Seq<Seq<char>>
    decreases i,
{
    let w = best(m, x, i).1;
    if i == 0 || w == 0 || w > i {
        seq![]
    } else {
        words_upto(m, x, (i - w) as nat).push(word_at(x, i as int, w as int))
    }
}

/// The words of the best segmentation of `x`.
pub open spec fn segmentation(m: WordsModel, x: Seq<char>) -> Seq<Seq<char>> {
    words_upto(m, x, x.len())
}

/// The words of `ws` joined by single spaces.
pub open spec fn join(ws: Seq<Seq<char>>) -> Seq<char>
    decreases ws.len(),
{
    if ws.len() == 0 {
        seq![]
    } else if ws.len() == 1 {
        ws[0]
    } else {
        join(ws.drop_last()) + seq![' '] + ws.last()
    }
}

/// The segmented rendering of a query text.
pub open spec fn segmented(m: WordsModel, s: Seq<char>) -> Seq<char> {
    join(segmentation(m, letters_of(s)))
}

pub proof fn lemma_score_bounds(m: WordsModel, w: Seq<char>)
    requires
        model_wf(m),
        w.len() >= 1,
    ensures
        -10 * unit(m) * w.len() <= score(m, w) <= unit(m),
{
    let u = unit(m);
    assert(-10 * u * w.len() <= 0 && 0 - 10 * u * w.len() <= u) by (nonlinear_arith)
        requires
            u >= 1,
            w.len() >= 1,
    ;
}

/// Bounds on the dynamic program's values, and the range of the chosen last word.
pub proof fn lemma_best_bounds(m: WordsModel, x: Seq<char>, i: nat)
    requires
        model_wf(m),
        i <= x.len(),
    ensures
        -10 * unit(m) * i <= best(m, x, i).0 <= unit(m) * i,
        i > 0 ==> 1 <= best(m, x, i).1 <= min(m.max_len, i),
    decreases i, i + 1,
{
    if i > 0 {
        lemma_best_upto_bounds(m, x, i, min(m.max_len, i));
    }
}

pub proof fn lemma_best_upto_bounds(m: WordsModel, x: Seq<char>, i: nat, k: nat)
    requires
        model_wf(m),
        i <= x.len(),
        1 <= k <= i,
    ensures
        -10 * unit(m) * i <= best_upto(m, x, i, k).0 <= unit(m) * i,
        1 <= best_upto(m, x, i, k).1 <= k,
    decreases i, k,
{
    let u = unit(m);
    lemma_best_bounds(m, x, (i - k) as nat);
    lemma_score_bounds(m, word_at(x, i as int, k as int));
    assert(-10 * u * (i - k) + -10 * u * k == -10 * u * i) by (nonlinear_arith);
    assert(u * (i - k) + u <= u * i) by (nonlinear_arith)
        requires
            k >= 1,
            u >= 0,
    ;
    if k > 1 {
        lemma_best_upto_bounds(m, x, i, (k - 1) as nat);
    }
}

/// Comparing `q1 * u + r1` with `q2 * u + r2`, where both remainders lie in `[0, u)`,
/// compares the pairs `(q, r)` lexicographically.
proof fn lemma_lex(u: int, q1: int, r1: int, q2: int, r2: int)
    requires
        u > 0,
        0 <= r1 < u,
        0 <= r2 < u,
    ensures
        (q1 * u + r1 > q2 * u + r2) <==> (q1 > q2 || (q1 == q2 && r1 > r2)),
{
    if q1 > q2 {
        assert(q1 * u >= q2 * u + u) by (nonlinear_arith)
            requires
                q1 > q2,
                u > 0,
        ;
    } else if q1 < q2 {
        assert(q2 * u >= q1 * u + u) by (nonlinear_arith)
            requires
                q2 > q1,
                u > 0,
        ;
    }
}

/// `e` holds the dynamic program's entry `v` for a prefix of `j` letters: its score as
/// `e.0 * u + e.1` with `0 <= e.1 < u`, and its last word's length.
pub open spec fn holds(e: (i128, u64, usize), u: int, v: (int, nat), j: int) -> bool {
    &&& e.0 * u + e.1 == v.0
    &&& e.1 < u
    &&& e.2 == v.1
    &&& -10 * j <= e.0 <= j
}

/// Adds the score of `piece`, a word of `k` letters ending at position `i`, to the score
/// `q * u + rem` of the prefix before it.
fn extend(words: &Words, u: u64, q: i128, rem: u64, piece: &str, i: usize, k: usize) -> (r: (i128, u64))
    requires
        words.wf(),
        u == unit(words@),
        rem < u,
        1 <= k <= i,
        -10 * (i - k) <= q <= i - k,
        piece@.len() == k,
    ensures
        r.1 < u,
        r.0 * u + r.1 == q * u + rem + score(words@, piece@),
        -10 * i <= r.0 <= i,
{
    match words.count(piece) {
        Some(c) => {
            assert(c <= words@.total);
            let sum = rem as u128 + c as u128;
            if sum >= u as u128 {
                assert((q + 1) * u + (sum - u) == q * u + rem + c) by (nonlinear_arith)
                    requires
                        sum == rem + c,
                ;
                (q + 1, (sum - u as u128) as u64)
            } else {
                (q, sum as u64)
            }
        },
        None => {
            assert((q - 10 * k) * u + rem == q * u + rem + -10 * unit(words@) * k) by (nonlinear_arith)
                requires
                    u == unit(words@),
            ;
            (q - 10 * (k as i128), rem)
        },
    }
}

proof fn lemma_letters_lowercase(s: Seq<char>)
    ensures
        forall|i: int| 0 <= i < letters_of(s).len() ==> 'a' <= #[trigger] letters_of(s)[i] <= 'z',
        letters_of(s).len() <= s.len(),
{
    let f = s.filter(|c: char| is_letter(c));
    broadcast use vstd::seq_lib::group_filter_ensures;
    assert forall|i: int| 0 <= i < letters_of(s).len() implies 'a' <= #[trigger] letters_of(s)[i] <= 'z' by {
        let c = f[i];
        assert(is_letter(c));
        assert(letters_of(s)[i] == lower(c));
    }
}

/// Segments `s` into the most probable sequence of words: its letters, lowercased, are split
/// into the partition of highest total score, and the words are joined by single spaces.
pub fn segment_str(s: &str, words: &Words) -> (r: String)
    requires
        words.wf(),
    ensures
        r@ == segmented(words@, s@),
{
    let ghost m = words@;
    let max_len = words.max_len();
    let u = words.unit();
    let x = letters(s);
    let ghost xs = x@;
    let n = x.len();
    proof {
        lemma_letters_lowercase(s@);
    }
    let text = string_from(x.as_slice());
    assert(text.is_ascii());
    // Each score `v` is kept as `(q, rem)` with `v == q * u + rem` and `0 <= rem < u`,
    // so that no sum of scores can overflow.
    let mut table: Vec<(i128, u64, usize)> = Vec::new();
    table.push((0, 0, 0));
    assert(best(m, xs, 0) == (0int, 0nat));
    assert(table@[0] == (0i128, 0u64, 0usize));
    assert(0 * (u as int) == 0);
    assert(holds(table@[0], u as int, best(m, xs, 0), 0));
    let mut i: usize = 0;
    while i < n
        invariant
            model_wf(m),
            m == words@,
            words.wf(),
            max_len == m.max_len,
            u == unit(m),
            xs == x@,
            text@ == xs,
            text.is_ascii(),
            n == xs.len(),
            i <= n,
            table@.len() == i + 1,
            forall|j: int| 0 <= j <= i ==> holds(#[trigger] table@[j], u as int, best(m, xs, j as nat), j),
        decreases n - i,
    {
        i = i + 1;
        let kmax = if max_len < i { max_len } else { i };
        let first = text.as_str().substring_ascii(i - 1, i);
        let (q1, r1) = extend(words, u, table[i - 1].0, table[i - 1].1, first, i, 1);
        let mut cur: (i128, u64, usize) = (q1, r1, 1);
        let mut k: usize = 1;
        while k < kmax
            invariant
                model_wf(m),
                m == words@,
                words.wf(),
                u == unit(m),
                text@ == xs,
                text.is_ascii(),
                n == xs.len(),
                1 <= i <= n,
                kmax == min(m.max_len, i as nat),
                1 <= k <= kmax,
                table@.len() == i,
                forall|j: int| 0 <= j < i ==> holds(#[trigger] table@[j], u as int, best(m, xs, j as nat), j),
                holds(cur, u as int, best_upto(m, xs, i as nat, k as nat), i as int),
            decreases kmax - k,
        {
            k = k + 1;
            let piece = text.as_str().substring_ascii(i - k, i);
            let (q, r) = extend(words, u, table[i - k].0, table[i - k].1, piece, i, k);
            proof {
                lemma_lex(u as int, q as int, r as int, cur.0 as int, cur.1 as int);
            }
            if q > cur.0 || (q == cur.0 && r > cur.1) {
                cur = (q, r, k);
            }
        }
        table.push(cur);
    }
    // Walk back from the end, collecting word boundaries right to left.
    let mut bounds: Vec<(usize, usize)> = Vec::new();
    let mut j: usize = n;
    while j > 0
        invariant
            model_wf(m),
            n == xs.len(),
            j <= n,
            table@.len() == n + 1,
            u == unit(m),
            forall|t: int| 0 <= t <= n ==> holds(#[trigger] table@[t], u as int, best(m, xs, t as nat), t),
            forall|t: int| 0 <= t < bounds@.len() ==> #[trigger] bounds@[t].0 < bounds@[t].1 <= n,
            segmentation(m, xs) == words_upto(m, xs, j as nat) + Seq::new(
                bounds@.len(),
                |t: int| xs.subrange(bounds@[bounds@.len() - 1 - t].0 as int, bounds@[bounds@.len() - 1 - t].1 as int),
            ),
        decreases j,
    {
        proof {
            lemma_best_bounds(m, xs, j as nat);
        }
        let w = table[j].2;
        let ghost old_bounds = bounds@;
        bounds.push((j - w, j));
        proof {
            let tail_old = Seq::new(
                old_bounds.len(),
                |t: int| xs.subrange(old_bounds[old_bounds.len() - 1 - t].0 as int, old_bounds[old_bounds.len() - 1 - t].1 as int),
            );
            let tail_new = Seq::new(
                bounds@.len(),
                |t: int| xs.subrange(bounds@[bounds@.len() - 1 - t].0 as int, bounds@[bounds@.len() - 1 - t].1 as int),
            );
            assert(tail_new =~= seq![word_at(xs, j as int, w as int)] + tail_old);
            assert(words_upto(m, xs, j as nat) == words_upto(m, xs, (j - w) as nat).push(word_at(xs, j as int, w as int)));
            assert(words_upto(m, xs, j as nat) + tail_old =~= words_upto(m, xs, (j - w) as nat) + tail_new);
        }
        j = j - w;
    }
    let ghost ws = segmentation(m, xs);
    assert(ws =~= Seq::new(
        bounds@.len(),
        |t: int| xs.subrange(bounds@[bounds@.len() - 1 - t].0 as int, bounds@[bounds@.len() - 1 - t].1 as int),
    ));
    // Emit the words left to right, separated by single spaces.
    let nb = bounds.len();
    let mut out: Vec<char> = Vec::new();
    let mut t: usize = 0;
    while t < nb
        invariant
            nb == bounds@.len(),
            n == xs.len(),
            xs == x@,
            ws.len() == nb,
            forall|q: int| 0 <= q < nb ==> #[trigger] bounds@[q].0 < bounds@[q].1 <= n,
            forall|q: int| 0 <= q < nb ==> #[trigger] ws[q] == xs.subrange(bounds@[nb - 1 - q].0 as int, bounds@[nb - 1 - q].1 as int),
            t <= nb,
            out@ == join(ws.take(t as int)),
        decreases nb - t,
    {
        let (a, b) = bounds[nb - 1 - t];
        let ghost before = out@;
        if t > 0 {
            out.push(' ');
        }
        let mut p: usize = a;
        while p < b
            invariant
                a < b <= n,
                n == x@.len(),
                a <= p <= b,
                out@ == (if t > 0 { before + seq![' '] } else { before }) + x@.subrange(a as int, p as int),
            decreases b - p,
        {
            out.push(x[p]);
            assert(x@.subrange(a as int, p + 1) =~= x@.subrange(a as int, p as int).push(x@[p as int]));
            p = p + 1;
        }
        assert(ws.take(t + 1).drop_last() =~= ws.take(t as int));
        assert(ws.take(t + 1).last() == ws[t as int]);
        if t == 0 {
            assert(out@ =~= join(ws.take(1)));
        } else {
            assert(out@ =~= join(ws.take(t + 1)));
        }
        t = t + 1;
    }
    assert(ws.take(nb as int) =~= ws);
    string_from(out.as_slice())
}

/// The words of `ws` written one after another.
pub open spec fn concat(ws: Seq<Seq<char>>) -> Seq<char>
    decreases ws.len(),
{
    if ws.len() == 0 {
        seq![]
    } else {
        concat(ws.drop_last()) + ws.last()
    }
}

/// `t` without its spaces.
pub open spec fn strip_spaces(t: Seq<char>) -> Seq<char> {
    t.filter(|c: char| c != ' ')
}

proof fn lemma_filter_keeps_all(s: Seq<char>, pred: spec_fn(char) -> bool)
    requires
        forall|i: int| 0 <= i < s.len() ==> pred(#[trigger] s[i]),
    ensures
        s.filter(pred) == s,
    decreases s.len(),
{
    reveal(Seq::filter);
    if s.len() > 0 {
        lemma_filter_keeps_all(s.drop_last(), pred);
        assert(s.drop_last().push(s.last()) =~= s);
    } else {
        assert(s.filter(pred) =~= s);
    }
}

/// The best segmentation of a prefix covers it exactly, with non-empty words taken from `x`.
proof fn lemma_words_upto_cover(m: WordsModel, x: Seq<char>, i: nat)
    requires
        model_wf(m),
        i <= x.len(),
    ensures
        concat(words_upto(m, x, i)) == x.take(i as int),
        forall|q: int, j: int| 0 <= q < words_upto(m, x, i).len() && 0 <= j < words_upto(m, x, i)[q].len()
            ==> x.contains(#[trigger] words_upto(m, x, i)[q][j]),
    decreases i,
{
    if i > 0 {
        lemma_best_bounds(m, x, i);
        let w = best(m, x, i).1;
        let prev = (i - w) as nat;
        lemma_words_upto_cover(m, x, prev);
        let ws = words_upto(m, x, i);
        assert(ws.drop_last() == words_upto(m, x, prev));
        assert(x.take(prev as int) + word_at(x, i as int, w as int) =~= x.take(i as int));
        assert forall|q: int, j: int| 0 <= q < ws.len() && 0 <= j < ws[q].len() implies x.contains(#[trigger] ws[q][j]) by {
            if q == ws.len() - 1 {
                assert(ws[q][j] == x[prev + j]);
            } else {
                assert(ws[q] == words_upto(m, x, prev)[q]);
            }
        }
    } else {
        assert(x.take(0) =~= Seq::<char>::empty());
    }
}

proof fn lemma_strip_join(ws: Seq<Seq<char>>)
    requires
        forall|q: int, j: int| 0 <= q < ws.len() && 0 <= j < ws[q].len() ==> #[trigger] ws[q][j] != ' ',
    ensures
        strip_spaces(join(ws)) == concat(ws),
    decreases ws.len(),
{
    broadcast use vstd::seq_lib::group_filter_ensures;
    let keep = |c: char| c != ' ';
    if ws.len() == 0 {
        assert(strip_spaces(join(ws)) =~= Seq::<char>::empty());
    } else {
        let last = ws.last();
        assert forall|j: int| 0 <= j < last.len() implies keep(#[trigger] last[j]) by {
            assert(ws[ws.len() - 1][j] != ' ');
        }
        lemma_filter_keeps_all(last, keep);
        if ws.len() == 1 {
            assert(concat(ws) =~= concat(ws.drop_last()) + last);
            assert(concat(ws.drop_last()) =~= Seq::<char>::empty());
        } else {
            let front = ws.drop_last();
            assert forall|q: int, j: int| 0 <= q < front.len() && 0 <= j < front[q].len() implies #[trigger] front[q][j] != ' ' by {
                assert(front[q] == ws[q]);
            }
            lemma_strip_join(front);
            let space: Seq<char> = seq![' '];
            Seq::filter_distributes_over_add(join(front) + space, last, keep);
            Seq::filter_distributes_over_add(join(front), space, keep);
            reveal(Seq::filter);
            assert(space.filter(keep) =~= Seq::<char>::empty()) by {
                assert(space.drop_last() =~= Seq::<char>::empty());
                assert(space.last() == ' ');
                assert(!keep(' '));
                assert(Seq::<char>::empty().filter(keep) =~= Seq::<char>::empty());
            }
        }
    }
}

/// Segmentation only inserts separators: with the spaces taken out, the result is exactly
/// the lowercase-letter projection of the text.
pub proof fn lemma_segmented_keeps_letters(m: WordsModel, s: Seq<char>)
    requires
        model_wf(m),
    ensures
        strip_spaces(segmented(m, s)) == letters_of(s),
{
    let x = letters_of(s);
    lemma_letters_lowercase(s);
    lemma_words_upto_cover(m, x, x.len());
    let ws = segmentation(m, x);
    assert forall|q: int, j: int| 0 <= q < ws.len() && 0 <= j < ws[q].len() implies #[trigger] ws[q][j] != ' ' by {
        assert(x.contains(ws[q][j]));
    }
    lemma_strip_join(ws);
    assert(x.take(x.len() as int) =~= x);
}

/// The letter projection of a letter projection is itself.
pub proof fn lemma_letters_of_letters(s: Seq<char>)
    ensures
        letters_of(letters_of(s)) == letters_of(s),
{
    let x = letters_of(s);
    lemma_letters_lowercase(s);
    lemma_filter_keeps_all(x, |c: char| is_letter(c));
    assert(lower_all(x) =~= x);
}

/// The segmentation of a text depends on its letters alone (and on the model): texts with
/// the same lowercase-letter projection give identical results.
pub proof fn lemma_segmented_deterministic(m: WordsModel, s: Seq<char>, t: Seq<char>)
    requires
        letters_of(s) == letters_of(t),
    ensures
        segmented(m, s) == segmented(m, t),
{
}

/// Segmenting again the result of a segmentation, with its spaces stripped, gives the same
/// result; so does segmenting the result as it stands.
pub proof fn lemma_segmented_idempotent(m: WordsModel, s: Seq<char>)
    requires
        model_wf(m),
    ensures
        segmented(m, strip_spaces(segmented(m, s))) == segmented(m, s),
        segmented(m, segmented(m, s)) == segmented(m, s),
{
    let out = segmented(m, s);
    lemma_segmented_keeps_letters(m, s);
    lemma_letters_of_letters(s);
    let x = letters_of(s);
    lemma_letters_lowercase(s);
    lemma_words_upto_cover(m, x, x.len());
    let ws = segmentation(m, x);
    // Every character of the output is a lowercase letter or a space.
    lemma_join_chars(ws, x);
    let is_l = |c: char| is_letter(c);
    let keep = |c: char| c != ' ';
    assert(out.filter(is_l) == out.filter(keep)) by {
        lemma_filter_same(out, is_l, keep);
    }
    assert forall|j: int| 0 <= j < x.len() implies lower(#[trigger] x[j]) == x[j] by {}
    assert(lower_all(x) =~= x);
}

proof fn lemma_join_chars(ws: Seq<Seq<char>>, x: Seq<char>)
    requires
        forall|q: int, j: int| 0 <= q < ws.len() && 0 <= j < ws[q].len() ==> x.contains(#[trigger] ws[q][j]),
    ensures
        forall|j: int| 0 <= j < join(ws).len() ==> #[trigger] join(ws)[j] == ' ' || x.contains(join(ws)[j]),
    decreases ws.len(),
{
    if ws.len() > 1 {
        let front = ws.drop_last();
        assert forall|q: int, j: int| 0 <= q < front.len() && 0 <= j < front[q].len() implies x.contains(#[trigger] front[q][j]) by {
            assert(front[q] == ws[q]);
        }
        lemma_join_chars(front, x);
        let y = join(ws);
        assert forall|j: int| 0 <= j < y.len() implies #[trigger] y[j] == ' ' || x.contains(y[j]) by {
            let jf = join(front).len();
            if j < jf {
                assert(y[j] == join(front)[j]);
            } else if j > jf {
                assert(y[j] == ws[ws.len() - 1][j - jf - 1]);
            }
        }
    } else if ws.len() == 1 {
        assert forall|j: int| 0 <= j < join(ws).len() implies #[trigger] join(ws)[j] == ' ' || x.contains(join(ws)[j]) by {
            assert(join(ws)[j] == ws[0][j]);
        }
    }
}

proof fn lemma_filter_same(s: Seq<char>, p: spec_fn(char) -> bool, q: spec_fn(char) -> bool)
    requires
        forall|i: int| 0 <= i < s.len() ==> p(#[trigger] s[i]) == q(s[i]),
    ensures
        s.filter(p) == s.filter(q),
    decreases s.len(),
{
    reveal(Seq::filter);
    if s.len() > 0 {
        lemma_filter_same(s.drop_last(), p, q);
        assert(p(s.last()) == q(s.last()));
    }
}

/// An empty text segments to the empty string.
pub proof fn lemma_segmented_empty(m: WordsModel)
    ensures
        segmented(m, Seq::<char>::empty()) == Seq::<char>::empty(),
{
    reveal(Seq::filter);
    assert(letters_of(Seq::<char>::empty()) =~= Seq::<char>::empty());
}

/// With a model whose longest word has length 1 (the model of an empty corpus), every
/// letter of the text becomes a word of its own.
pub proof fn lemma_single_letters(m: WordsModel, x: Seq<char>, i: nat)
    requires
        model_wf(m),
        m.max_len == 1,
        i <= x.len(),
    ensures
        words_upto(m, x, i) == Seq::new(i, |j: int| seq![x[j]]),
    decreases i,
{
    if i > 0 {
        lemma_best_bounds(m, x, i);
        lemma_single_letters(m, x, (i - 1) as nat);
        assert(word_at(x, i as int, 1) =~= seq![x[i - 1]]);
        assert(words_upto(m, x, i) =~= Seq::new(i, |j: int| seq![x[j]]));
    } else {
        assert(words_upto(m, x, 0) =~= Seq::new(0, |j: int| seq![x[j]]));
    }
}

/// Sum of the scores of the words of `ws`.
pub open spec fn total_score(m: WordsModel, ws: Seq<Seq<char>>) -> int
    decreases ws.len(),
{
    if ws.len() == 0 {
        0
    } else {
        total_score(m, ws.drop_last()) + score(m, ws.last())
    }
}

/// `ws` splits `x` into consecutive words of 1 to `max_len` letters.
pub open spec fn is_partition(m: WordsModel, ws: Seq<Seq<char>>, x: Seq<char>) -> bool {
    &&& concat(ws) == x
    &&& forall|q: int| 0 <= q < ws.len() ==> 1 <= #[trigger] ws[q].len() <= m.max_len
}

proof fn lemma_best_upto_attained(m: WordsModel, x: Seq<char>, i: nat, k: nat)
    requires
        model_wf(m),
        1 <= k <= i <= x.len(),
    ensures
        ({
            let w = best_upto(m, x, i, k).1;
            best_upto(m, x, i, k).0 == best(m, x, (i - w) as nat).0 + score(m, word_at(x, i as int, w as int))
        }),
        forall|w: nat| 1 <= w <= k ==> #[trigger] best(m, x, (i - w) as nat).0 + score(m, word_at(x, i as int, w as int))
            <= best_upto(m, x, i, k).0,
    decreases k,
{
    if k > 1 {
        lemma_best_upto_attained(m, x, i, (k - 1) as nat);
    }
}

proof fn lemma_best_is_words_score(m: WordsModel, x: Seq<char>, i: nat)
    requires
        model_wf(m),
        i <= x.len(),
    ensures
        best(m, x, i).0 == total_score(m, words_upto(m, x, i)),
        forall|q: int| 0 <= q < words_upto(m, x, i).len() ==> 1 <= #[trigger] words_upto(m, x, i)[q].len() <= m.max_len,
    decreases i,
{
    if i > 0 {
        lemma_best_bounds(m, x, i);
        lemma_best_upto_attained(m, x, i, min(m.max_len, i));
        let w = best(m, x, i).1;
        lemma_best_is_words_score(m, x, (i - w) as nat);
        let ws = words_upto(m, x, i);
        assert(ws.drop_last() == words_upto(m, x, (i - w) as nat));
        assert forall|q: int| 0 <= q < ws.len() implies 1 <= #[trigger] ws[q].len() <= m.max_len by {
            if q < ws.len() - 1 {
                assert(ws[q] == words_upto(m, x, (i - w) as nat)[q]);
            }
        }
    }
}

proof fn lemma_partition_below_best(m: WordsModel, x: Seq<char>, ws: Seq<Seq<char>>, i: nat)
    requires
        model_wf(m),
        i <= x.len(),
        is_partition(m, ws, x.take(i as int)),
    ensures
        total_score(m, ws) <= best(m, x, i).0,
    decreases ws.len(),
{
    if ws.len() == 0 {
        if i > 0 {
            assert(concat(ws).len() == 0);
            assert(x.take(i as int).len() == i);
        }
    } else {
        let front = ws.drop_last();
        let last = ws.last();
        let w = last.len();
        assert(1 <= ws[ws.len() - 1].len() <= m.max_len);
        assert(concat(ws) == concat(front) + last);
        assert(w <= i);
        let p = (i - w) as nat;
        assert(concat(front) =~= x.take(p as int)) by {
            assert(concat(ws).take(p as int) =~= concat(front));
            assert(x.take(i as int).take(p as int) =~= x.take(p as int));
        }
        assert(last =~= word_at(x, i as int, w as int)) by {
            assert(concat(ws).skip(p as int) =~= last);
        }
        assert forall|q: int| 0 <= q < front.len() implies 1 <= #[trigger] front[q].len() <= m.max_len by {
            assert(front[q] == ws[q]);
        }
        lemma_partition_below_best(m, x, front, p);
        lemma_best_upto_attained(m, x, i, min(m.max_len, i));
    }
}

/// The segmentation is the best partition: it splits the letters into words of 1 to
/// `max_len` letters, and no such partition has a higher total score.
pub proof fn lemma_segmentation_optimal(m: WordsModel, x: Seq<char>, ws: Seq<Seq<char>>)
    requires
        model_wf(m),
        is_partition(m, ws, x),
    ensures
        is_partition(m, segmentation(m, x), x),
        total_score(m, ws) <= total_score(m, segmentation(m, x)),
{
    lemma_words_upto_cover(m, x, x.len());
    lemma_best_is_words_score(m, x, x.len());
    assert(x.take(x.len() as int) =~= x);
    lemma_partition_below_best(m, x, ws, x.len());
}

} // verus!
