//! The unigram word model: counts of each word of a corpus, and scores derived from them.
use vstd::prelude::*;
use vstd::hash_map::StringHashMap;
use vstd::string::StrSliceExecFns;
use crate::tokenize::{words, tokens, views};

verus! {

/// Number of times `w` occurs in `ws`.
pub open spec fn occurrences(ws: Seq<Seq<char>>, w: Seq<char>) -> nat
    decreases ws.len(),
{
    if ws.len() == 0 {
        0
    } else {
        occurrences(ws.drop_last(), w) + if ws.last() == w { 1nat } else { 0nat }
    }
}

/// The count table of `ws`: each distinct word mapped to its number of occurrences.
pub open spec fn count_table(ws: Seq<Seq<char>>) -> Map<Seq<char>, nat> {
    Map::new(|w: Seq<char>| occurrences(ws, w) > 0, |w: Seq<char>| occurrences(ws, w))
}

/// Distinct keys, each with its number of occurrences in `ws`, and every word of `ws` present.
pub open spec fn is_count_list(r: Seq<(String, usize)>, ws: Seq<Seq<char>>) -> bool {
    &&& forall|i: int, j: int| 0 <= i < j < r.len() ==> r[i].0@ != r[j].0@
    &&& forall|i: int| 0 <= i < r.len() ==> r[i].1 == occurrences(ws, r[i].0@) && r[i].1 > 0
    &&& forall|w: Seq<char>| occurrences(ws, w) > 0 ==> exists|i: int| 0 <= i < r.len() && r[i].0@ == w
}

/// `w` occurs among the first `k` words of `ws`.
pub open spec fn occurs_before(ws: Seq<Seq<char>>, k: int, w: Seq<char>) -> bool {
    exists|k2: int| 0 <= k2 < k && ws[k2] == w
}

/// Each listed word occurs in `ws` before every occurrence of the words listed after it.
pub open spec fn first_seen_order(r: Seq<(String, usize)>, ws: Seq<Seq<char>>) -> bool {
    forall|a: int, b: int, k: int|
        #![trigger r[a], r[b], ws[k]]
        0 <= a < b < r.len() && 0 <= k < ws.len() && ws[k] == r[b].0@ ==> occurs_before(ws, k, r[a].0@)
}

pub proof fn lemma_occurrences_bound(ws: Seq<Seq<char>>, w: Seq<char>)
    ensures
        occurrences(ws, w) <= ws.len(),
    decreases ws.len(),
{
    if ws.len() > 0 {
        lemma_occurrences_bound(ws.drop_last(), w);
    }
}

pub proof fn lemma_occurrences_member(ws: Seq<Seq<char>>, w: Seq<char>)
    ensures
        occurrences(ws, w) > 0 <==> ws.contains(w),
    decreases ws.len(),
{
    if ws.len() > 0 {
        lemma_occurrences_member(ws.drop_last(), w);
        if ws.drop_last().contains(w) {
            let k = choose|k: int| 0 <= k < ws.drop_last().len() && ws.drop_last()[k] == w;
            assert(ws[k] == w);
        }
        if ws.contains(w) && ws.last() != w {
            let k = choose|k: int| 0 <= k < ws.len() && ws[k] == w;
            assert(ws.drop_last()[k] == w);
        }
    }
}

/// Counts the occurrences of each distinct word, listed in order of first occurrence.
pub fn frequencies(words: Vec<String>) -> (r: Vec<(String, usize)>)
    ensures
        is_count_list(r@, views(words@)),
        first_seen_order(r@, views(words@)),
{
    let ghost ws = views(words@);
    let n = words.len();
    let mut index: StringHashMap<usize> = StringHashMap::new();
    let mut r: Vec<(String, usize)> = Vec::new();
    let mut i: usize = 0;
    while i < n
        invariant
            n == words@.len(),
            ws == views(words@),
            i <= n,
            forall|a: int, b: int| 0 <= a < b < r@.len() ==> r@[a].0@ != r@[b].0@,
            forall|a: int| 0 <= a < r@.len() ==> r@[a].1 == occurrences(ws.take(i as int), r@[a].0@) && r@[a].1 > 0,
            forall|w: Seq<char>| #[trigger] index@.contains_key(w) ==> index@[w] < r@.len() && r@[index@[w] as int].0@ == w,
            forall|a: int| 0 <= a < r@.len() ==> index@.contains_key(#[trigger] r@[a].0@),
            forall|w: Seq<char>| occurrences(ws.take(i as int), w) > 0 ==> #[trigger] index@.contains_key(w),
            first_seen_order(r@, ws.take(i as int)),
            forall|a: int| 0 <= a < r@.len() ==> occurs_before(ws, i as int, #[trigger] r@[a].0@),
        decreases n - i,
    {
        let ghost before = ws.take(i as int);
        let ghost after = ws.take(i + 1);
        assert(after.drop_last() =~= before);
        assert(after.last() == words@[i as int]@);
        proof {
            lemma_occurrences_bound(before, words@[i as int]@);
        }
        let w = &words[i];
        let ghost old_r = r@;
        assert(ws[i as int] == w@);
        match index.get(w.as_str()) {
            Some(p) => {
                let p = *p;
                let c = r[p].1;
                let entry = (r[p].0.clone(), c + 1);
                r.set(p, entry);
            },
            None => {
                assert(occurrences(before, w@) == 0);
                index.insert(w.clone(), r.len());
                r.push((w.clone(), 1));
            },
        }
        proof {
            let t0 = ws.take(i as int);
            let t1 = ws.take(i + 1);
            assert forall|a: int| 0 <= a < old_r.len() implies #[trigger] r@[a].0@ == old_r[a].0@ by {}
            assert forall|a: int, b: int, k: int|
                #![trigger r@[a], r@[b], t1[k]]
                0 <= a < b < r@.len() && 0 <= k < t1.len() && t1[k] == r@[b].0@ implies occurs_before(t1, k, r@[a].0@) by {
                assert(r@[a].0@ == old_r[a].0@);
                assert(occurs_before(ws, i as int, old_r[a].0@));
                let k0 = choose|k0: int| 0 <= k0 < i && ws[k0] == old_r[a].0@;
                if k < i {
                    assert(t0[k] == t1[k]);
                    if b < old_r.len() {
                        assert(r@[b].0@ == old_r[b].0@);
                        assert(t0[k] == old_r[b].0@);
                        assert(occurs_before(t0, k, old_r[a].0@));
                        let k2 = choose|k2: int| 0 <= k2 < k && t0[k2] == old_r[a].0@;
                        assert(t1[k2] == t0[k2]);
                    } else {
                        assert(t0[k] == w@);
                        lemma_occurrences_member(t0, w@);
                    }
                } else {
                    assert(t1[k0] == ws[k0]);
                }
            }
            assert forall|a: int| 0 <= a < r@.len() implies occurs_before(ws, i + 1, #[trigger] r@[a].0@) by {
                if a < old_r.len() {
                    assert(r@[a].0@ == old_r[a].0@);
                    assert(occurs_before(ws, i as int, old_r[a].0@));
                    let k = choose|k: int| 0 <= k < i && ws[k] == old_r[a].0@;
                } else {
                    assert(ws[i as int] == r@[a].0@);
                }
            }
        }
        i = i + 1;
    }
    assert(ws.take(n as int) =~= ws);
    assert forall|w: Seq<char>| occurrences(ws, w) > 0 implies exists|a: int|
        0 <= a < r@.len() && r@[a].0@ == w by {
        assert(index@.contains_key(w));
        let a = index@[w] as int;
        assert(r@[a].0@ == w);
    }
    r
}

/// Counts never increase along `v`.
pub open spec fn by_count_desc(v: Seq<(String, usize)>) -> bool {
    forall|a: int, b: int| 0 <= a < b < v.len() ==> v[a].1 >= v[b].1
}

/// Merges two lists ordered by decreasing count.
fn merge_by_count(a: &Vec<(String, usize)>, b: &Vec<(String, usize)>) -> (r: Vec<(String, usize)>)
    requires
        by_count_desc(a@),
        by_count_desc(b@),
    ensures
        by_count_desc(r@),
        r@.to_multiset() == a@.to_multiset().add(b@.to_multiset()),
{
    broadcast use vstd::multiset::group_multiset_axioms;

    let na = a.len();
    let nb = b.len();
    let mut r: Vec<(String, usize)> = Vec::new();
    let mut i: usize = 0;
    let mut j: usize = 0;
    assert(a@.take(0) =~= Seq::<(String, usize)>::empty());
    assert(b@.take(0) =~= Seq::<(String, usize)>::empty());
    proof {
        vstd::seq_lib::to_multiset_len(r@);
        vstd::seq_lib::to_multiset_len(a@.take(0));
        vstd::seq_lib::to_multiset_len(b@.take(0));
    }
    assert(r@.to_multiset() =~= a@.take(0).to_multiset().add(b@.take(0).to_multiset()));
    while i < na || j < nb
        invariant
            na == a@.len(),
            nb == b@.len(),
            by_count_desc(a@),
            by_count_desc(b@),
            i <= na,
            j <= nb,
            r@.len() == i + j,
            by_count_desc(r@),
            r@.to_multiset() == a@.take(i as int).to_multiset().add(b@.take(j as int).to_multiset()),
            r@.len() > 0 && i < na ==> r@.last().1 >= a@[i as int].1,
            r@.len() > 0 && j < nb ==> r@.last().1 >= b@[j as int].1,
        decreases na + nb - i - j,
    {
        let ghost before = r@;
        if j >= nb || (i < na && a[i].1 >= b[j].1) {
            let e = (a[i].0.clone(), a[i].1);
            assert(e == a@[i as int]);
            let ghost x = a@.take(i as int);
            let ghost y = b@.take(j as int);
            assert(a@.take(i + 1) =~= x.push(e));
            r.push(e);
            i = i + 1;
            assert(r@ == before.push(e));
            proof {
                vstd::seq_lib::to_multiset_build(before, e);
                vstd::seq_lib::to_multiset_build(x, e);
            }
            assert(x.to_multiset().insert(e).add(y.to_multiset()) =~= x.to_multiset().add(y.to_multiset()).insert(e));
        } else {
            let e = (b[j].0.clone(), b[j].1);
            assert(e == b@[j as int]);
            let ghost x = a@.take(i as int);
            let ghost y = b@.take(j as int);
            assert(b@.take(j + 1) =~= y.push(e));
            r.push(e);
            j = j + 1;
            assert(r@ == before.push(e));
            proof {
                vstd::seq_lib::to_multiset_build(before, e);
                vstd::seq_lib::to_multiset_build(y, e);
            }
            assert(x.to_multiset().add(y.to_multiset().insert(e)) =~= x.to_multiset().add(y.to_multiset()).insert(e));
        }
        assert forall|x: int, y: int| 0 <= x < y < r@.len() implies r@[x].1 >= r@[y].1 by {
            if y == r@.len() - 1 && x < before.len() - 1 {
                assert(before[x].1 >= before.last().1);
            }
        }
    }
    assert(a@.take(na as int) =~= a@);
    assert(b@.take(nb as int) =~= b@);
    r
}

/// The entries ordered by decreasing count, most frequent first.
pub fn by_frequency(v: Vec<(String, usize)>) -> (r: Vec<(String, usize)>)
    ensures
        by_count_desc(r@),
        r@.to_multiset() == v@.to_multiset(),
    decreases v@.len(),
{
    let n = v.len();
    if n <= 1 {
        return v;
    }
    let mut left = v;
    let ghost whole = left@;
    let right = left.split_off(n / 2);
    assert(whole =~= left@ + right@);
    let l = by_frequency(left);
    let r = by_frequency(right);
    let m = merge_by_count(&l, &r);
    proof {
        vstd::seq_lib::lemma_multiset_commutative(left@, right@);
    }
    m
}

/// The mathematical content of a word model.
pub struct WordsModel {
    /// Each known word, with its number of occurrences in the corpus.
    pub counts: Map<Seq<char>, nat>,
    /// Total number of tokens in the corpus (the sum of all counts).
    pub total: nat,
    /// Length of the longest known word, at least 1.
    pub max_len: nat,
}

/// The longest length among `ts`, and 1 when `ts` holds nothing longer.
pub open spec fn longest(ts: Seq<Seq<char>>) -> nat
    decreases ts.len(),
{
    if ts.len() == 0 {
        1
    } else {
        let m = longest(ts.drop_last());
        if ts.last().len() > m { ts.last().len() } else { m }
    }
}

/// The model learned from the token stream `ts`.
pub open spec fn model_of(ts: Seq<Seq<char>>) -> WordsModel {
    WordsModel { counts: count_table(ts), total: ts.len(), max_len: longest(ts) }
}

/// The model learned from a raw corpus.
pub open spec fn corpus_model(corpus: Seq<char>) -> WordsModel {
    model_of(tokens(corpus))
}

/// `N`, the denominator of relative frequencies (1 for an empty corpus, where no word is known).
pub open spec fn unit(m: WordsModel) -> nat {
    if m.total == 0 { 1 } else { m.total }
}

/// The score of a word. A known word scores its relative frequency `c / N`; an unknown
/// word scores `-10 * len`. Scores are kept exact by counting them in units of `1 / N`:
/// a known word scores `c`, an unknown one `-10 * N * len`. Only sums and comparisons of
/// scores are ever used, and both are unchanged in meaning by this common positive scale.
pub open spec fn score(m: WordsModel, w: Seq<char>) -> int {
    if m.counts.contains_key(w) {
        m.counts[w] as int
    } else {
        -10 * unit(m) * w.len()
    }
}

/// Every count is bounded by the total; `max_len` is the length of the longest known word,
/// or 1 when no known word is longer.
pub open spec fn model_wf(m: WordsModel) -> bool {
    &&& m.max_len >= 1
    &&& forall|w: Seq<char>| #[trigger] m.counts.contains_key(w) ==> m.counts[w] <= m.total && w.len() <= m.max_len
    &&& m.max_len == 1 || exists|w: Seq<char>| #[trigger] m.counts.contains_key(w) && w.len() == m.max_len
}

/// Scores of texts up to `n` letters, and their sums, fit in an `i128`.
pub open spec fn fits(m: WordsModel, n: nat) -> bool {
    11 * unit(m) * (n + 1) <= i128::MAX
}

/// `v` has distinct keys and lists exactly the entries of `counts`.
pub open spec fn lists(v: Seq<(String, u64)>, counts: Map<Seq<char>, nat>) -> bool {
    &&& forall|a: int, b: int| 0 <= a < b < v.len() ==> v[a].0@ != v[b].0@
    &&& forall|a: int| 0 <= a < v.len() ==> counts.contains_key(#[trigger] v[a].0@) && counts[v[a].0@] == v[a].1
    &&& forall|w: Seq<char>| #[trigger] counts.contains_key(w) ==> exists|a: int| 0 <= a < v.len() && v[a].0@ == w
}

/// The keys of a list of entries.
pub open spec fn keys(v: Seq<(String, u64)>) -> Seq<Seq<char>> {
    v.map_values(|e: (String, u64)| e.0@)
}

/// Sum of the counts of a list of entries.
pub open spec fn count_sum(v: Seq<(String, u64)>) -> nat
    decreases v.len(),
{
    if v.len() == 0 {
        0
    } else {
        count_sum(v.drop_last()) + v.last().1 as nat
    }
}

/// A word model: the count of every word of a corpus and the corpus size.
pub struct Words {
    table: StringHashMap<u64>,
    entries: Vec<(String, u64)>,
    total: u64,
    max_len: usize,
}

impl View for Words {
    type V = WordsModel;

    closed spec fn view(&self) -> WordsModel {
        WordsModel {
            counts: self.table@.map_values(|c: u64| c as nat),
            total: self.total as nat,
            max_len: self.max_len as nat,
        }
    }
}

pub proof fn lemma_longest_bound(ts: Seq<Seq<char>>, i: int)
    requires
        0 <= i < ts.len(),
    ensures
        ts[i].len() <= longest(ts),
    decreases ts.len(),
{
    if i < ts.len() - 1 {
        lemma_longest_bound(ts.drop_last(), i);
    }
}

proof fn lemma_count_sum_prefix(v: Seq<(String, u64)>, i: int)
    requires
        0 <= i <= v.len(),
    ensures
        count_sum(v.take(i)) <= count_sum(v),
    decreases v.len(),
{
    if i < v.len() {
        assert(v.drop_last().take(i) =~= v.take(i));
        lemma_count_sum_prefix(v.drop_last(), i);
    } else {
        assert(v.take(i) =~= v);
    }
}

pub proof fn lemma_longest_attained(ts: Seq<Seq<char>>)
    ensures
        longest(ts) == 1 || exists|i: int| 0 <= i < ts.len() && #[trigger] ts[i].len() == longest(ts),
    decreases ts.len(),
{
    if ts.len() > 0 {
        lemma_longest_attained(ts.drop_last());
        if longest(ts) != 1 && ts.last().len() <= longest(ts.drop_last()) {
            let i = choose|i: int| 0 <= i < ts.drop_last().len() && #[trigger] ts.drop_last()[i].len() == longest(ts.drop_last());
            assert(ts[i] == ts.drop_last()[i]);
        }
    }
}

pub proof fn lemma_longest_positive(ts: Seq<Seq<char>>)
    ensures
        longest(ts) >= 1,
    decreases ts.len(),
{
    if ts.len() > 0 {
        lemma_longest_positive(ts.drop_last());
    }
}

pub proof fn lemma_model_of_wf(ts: Seq<Seq<char>>)
    ensures
        model_wf(model_of(ts)),
{
    assert forall|w: Seq<char>| #[trigger] model_of(ts).counts.contains_key(w) implies
        model_of(ts).counts[w] <= model_of(ts).total && w.len() <= model_of(ts).max_len by {
        lemma_occurrences_bound(ts, w);
        lemma_occurrences_member(ts, w);
        let k = choose|k: int| 0 <= k < ts.len() && ts[k] == w;
        lemma_longest_bound(ts, k);
    }
    lemma_longest_positive(ts);
    lemma_longest_attained(ts);
    if longest(ts) != 1 {
        let i = choose|i: int| 0 <= i < ts.len() && #[trigger] ts[i].len() == longest(ts);
        assert(ts.contains(ts[i]));
        lemma_occurrences_member(ts, ts[i]);
        assert(model_of(ts).counts.contains_key(ts[i]));
    }
}

impl Words {
    /// The entry list and the lookup table agree.
    pub closed spec fn inv(&self) -> bool {
        lists(self.entries@, self@.counts)
    }

    pub open spec fn wf(&self) -> bool {
        model_wf(self@) && self.inv()
    }

    /// Learns the model of a corpus: tokenizes it and counts each distinct token.
    pub fn new(corpus: &str) -> (r: Words)
        ensures
            r.wf(),
            r@ == corpus_model(corpus@),
    {
        let ts = words(corpus);
        let ghost ws = views(ts@);
        let n = ts.len();
        let mut max_len: usize = 1;
        let mut i: usize = 0;
        while i < n
            invariant
                n == ts@.len(),
                ws == views(ts@),
                i <= n,
                max_len == longest(ws.take(i as int)),
            decreases n - i,
        {
            assert(ws.take(i + 1).drop_last() =~= ws.take(i as int));
            let len = ts[i].as_str().unicode_len();
            if len > max_len {
                max_len = len;
            }
            i = i + 1;
        }
        assert(ws.take(n as int) =~= ws);
        let total = n as u64;
        let freqs = frequencies(ts);
        let mut table: StringHashMap<u64> = StringHashMap::new();
        let mut entries: Vec<(String, u64)> = Vec::new();
        let m = freqs.len();
        let mut j: usize = 0;
        while j < m
            invariant
                m == freqs@.len(),
                is_count_list(freqs@, ws),
                j <= m,
                forall|w: Seq<char>| #[trigger] table@.contains_key(w) <==>
                    exists|a: int| 0 <= a < j && freqs@[a].0@ == w,
                forall|a: int| 0 <= a < j ==> table@[#[trigger] freqs@[a].0@] == freqs@[a].1,
                entries@.len() == j,
                forall|a: int| 0 <= a < j ==> #[trigger] entries@[a].0@ == freqs@[a].0@ && entries@[a].1 == freqs@[a].1,
            decreases m - j,
        {
            let key = freqs[j].0.clone();
            let c = freqs[j].1 as u64;
            table.insert(key, c);
            entries.push((freqs[j].0.clone(), c));
            j = j + 1;
        }
        let r = Words { table, entries, total, max_len };
        assert(r@.counts =~= count_table(ws)) by {
            assert forall|w: Seq<char>| r@.counts.contains_key(w) implies count_table(ws).contains_key(w)
                && r@.counts[w] == count_table(ws)[w] by {
                let a = choose|a: int| 0 <= a < m && freqs@[a].0@ == w;
            }
            assert forall|w: Seq<char>| count_table(ws).contains_key(w) implies r@.counts.contains_key(w) by {
                let a = choose|a: int| 0 <= a < m && freqs@[a].0@ == w;
            }
        }
        proof {
            lemma_model_of_wf(ws);
        }
        assert forall|w: Seq<char>| #[trigger] r@.counts.contains_key(w) implies exists|a: int|
            0 <= a < r.entries@.len() && r.entries@[a].0@ == w by {
            let a = choose|a: int| 0 <= a < m && freqs@[a].0@ == w;
            assert(r.entries@[a].0@ == w);
        }
        assert forall|a: int, b: int| 0 <= a < b < r.entries@.len() implies r.entries@[a].0@ != r.entries@[b].0@ by {
            assert(r.entries@[a].0@ == freqs@[a].0@);
            assert(r.entries@[b].0@ == freqs@[b].0@);
        }
        r
    }

    /// Each known word with its count, every word once.
    pub fn entries(&self) -> (r: &Vec<(String, u64)>)
        requires
            self.wf(),
        ensures
            lists(r@, self@.counts),
    {
        &self.entries
    }

    /// Rebuilds a model from its entries. Fails when a word is listed twice or when the
    /// counts sum beyond `u64::MAX`.
    pub fn from_entries(v: Vec<(String, u64)>) -> (r: Option<Words>)
        ensures
            match r {
                Some(w) => w.wf() && lists(v@, w@.counts) && w@.total == count_sum(v@)
                    && w@.max_len == longest(keys(v@)),
                None => count_sum(v@) > u64::MAX || exists|a: int, b: int|
                    0 <= a < b < v@.len() && v@[a].0@ == v@[b].0@,
            },
    {
        let n = v.len();
        let mut table: StringHashMap<u64> = StringHashMap::new();
        let mut entries: Vec<(String, u64)> = Vec::new();
        let mut total: u64 = 0;
        let mut max_len: usize = 1;
        let mut i: usize = 0;
        while i < n
            invariant
                n == v@.len(),
                i <= n,
                entries@ == v@.take(i as int),
                lists(entries@, table@.map_values(|c: u64| c as nat)),
                total == count_sum(v@.take(i as int)),
                max_len == longest(keys(v@.take(i as int))),
                forall|a: int| 0 <= a < i ==> #[trigger] v@[a].1 <= total,
            decreases n - i,
        {
            let ghost before = v@.take(i as int);
            assert(v@.take(i + 1).drop_last() =~= before);
            assert(keys(v@.take(i + 1)).drop_last() =~= keys(before));
            let key = v[i].0.as_str();
            if table.contains_key(key) {
                assert(table@.map_values(|c: u64| c as nat).contains_key(key@));
                let ghost a = choose|a: int| 0 <= a < entries@.len() && entries@[a].0@ == key@;
                assert(v@[a].0@ == v@[i as int].0@);
                return None;
            }
            let c = v[i].1;
            if c > u64::MAX - total {
                proof {
                    lemma_count_sum_prefix(v@, i as int + 1);
                }
                return None;
            }
            let len = key.unicode_len();
            if len > max_len {
                max_len = len;
            }
            total = total + c;
            let ghost old_table = table@.map_values(|c: u64| c as nat);
            table.insert(v[i].0.clone(), c);
            let ghost old_entries = entries@;
            entries.push((v[i].0.clone(), c));
            assert(entries@ =~= v@.take(i + 1));
            assert(table@.map_values(|c: u64| c as nat) =~= old_table.insert(key@, c as nat));
            proof {
                let new_table = table@.map_values(|c: u64| c as nat);
                assert forall|a: int| 0 <= a < old_entries.len() implies #[trigger] old_entries[a].0@ != key@ by {
                    assert(old_table.contains_key(old_entries[a].0@));
                }
                assert(entries@[i as int].0@ == key@);
                assert forall|a: int, b: int| 0 <= a < b < entries@.len() implies entries@[a].0@ != entries@[b].0@ by {
                    if b == i {
                        assert(entries@[a] == old_entries[a]);
                    } else {
                        assert(entries@[a] == old_entries[a]);
                        assert(entries@[b] == old_entries[b]);
                    }
                }
                assert forall|a: int| 0 <= a < entries@.len() implies new_table.contains_key(#[trigger] entries@[a].0@)
                    && new_table[entries@[a].0@] == entries@[a].1 by {
                    if a < i {
                        assert(entries@[a] == old_entries[a]);
                        assert(old_entries[a].0@ != key@);
                    }
                }
                assert forall|w: Seq<char>| #[trigger] new_table.contains_key(w) implies exists|a: int|
                    0 <= a < entries@.len() && entries@[a].0@ == w by {
                    if w == key@ {
                        assert(entries@[i as int].0@ == w);
                    } else {
                        assert(old_table.contains_key(w));
                        let a = choose|a: int| 0 <= a < old_entries.len() && old_entries[a].0@ == w;
                        assert(entries@[a] == old_entries[a]);
                    }
                }
            }
            i = i + 1;
        }
        assert(v@.take(n as int) =~= v@);
        let r = Words { table, entries, total, max_len };
        proof {
            lemma_longest_positive(keys(v@));
            lemma_longest_attained(keys(v@));
            if r@.max_len != 1 {
                let a = choose|a: int| 0 <= a < keys(v@).len() && #[trigger] keys(v@)[a].len() == longest(keys(v@));
                assert(r@.counts.contains_key(v@[a].0@));
            }
            assert forall|w: Seq<char>| #[trigger] r@.counts.contains_key(w) implies r@.counts[w] <= r@.total
                && w.len() <= r@.max_len by {
                let a = choose|a: int| 0 <= a < v@.len() && v@[a].0@ == w;
                lemma_longest_bound(keys(v@), a);
            }
        }
        Some(r)
    }

    /// Length of the longest known word, 1 when no known word is longer.
    pub fn max_len(&self) -> (r: usize)
        requires
            self.wf(),
        ensures
            r == self@.max_len,
            r >= 1,
            forall|w: Seq<char>| #[trigger] self@.counts.contains_key(w) ==> w.len() <= r,
            r == 1 || exists|w: Seq<char>| #[trigger] self@.counts.contains_key(w) && w.len() == r,
    {
        self.max_len
    }

    /// Whether texts of `n` characters can be segmented with this model: the scores of
    /// their words, and all sums of them, fit in an `i128`.
    pub fn fits_len(&self, n: usize) -> (r: bool)
        ensures
            r == fits(self@, n as nat),
    {
        let u: u64 = if self.total == 0 { 1 } else { self.total };
        let a = (u as u128) * 11;
        let b = (n as u128) + 1;
        if a > (i128::MAX as u128) / b {
            assert(a * b > i128::MAX) by (nonlinear_arith)
                requires
                    a > (i128::MAX as u128) / b,
                    b >= 1,
            ;
            false
        } else {
            assert(a * b <= i128::MAX) by (nonlinear_arith)
                requires
                    a <= (i128::MAX as u128) / b,
                    b >= 1,
            ;
            true
        }
    }

    /// `N`, the denominator of relative frequencies.
    pub(crate) fn unit(&self) -> (r: u64)
        ensures
            r == unit(self@),
    {
        if self.total == 0 { 1 } else { self.total }
    }

    /// The count of a known word, `None` for an unknown one.
    pub(crate) fn count(&self, word: &str) -> (r: Option<u64>)
        ensures
            match r {
                Some(c) => self@.counts.contains_key(word@) && c == self@.counts[word@],
                None => !self@.counts.contains_key(word@),
            },
    {
        match self.table.get(word) {
            Some(c) => Some(*c),
            None => None,
        }
    }

    /// Score of a word of `len` characters.
    pub(crate) fn score_with_len(&self, word: &str, len: usize) -> (r: i128)
        requires
            self.wf(),
            word@.len() == len,
            fits(self@, len as nat),
        ensures
            r == score(self@, word@),
    {
        match self.table.get(word) {
            Some(c) => *c as i128,
            None => {
                let u: u64 = if self.total == 0 { 1 } else { self.total };
                assert(u == unit(self@));
                assert(11 * (u as int) * (len + 1) <= i128::MAX);
                assert(0 <= (u as int) * (len as int) && 10 * ((u as int) * (len as int)) <= i128::MAX)
                    by (nonlinear_arith)
                    requires
                        11 * (u as int) * (len + 1) <= i128::MAX,
                        u >= 1,
                ;
                let p = (u as i128) * (len as i128);
                assert(-10 * unit(self@) * len == 0 - 10 * ((u as int) * (len as int))) by (nonlinear_arith)
                    requires
                        u == unit(self@),
                ;
                0 - 10 * p
            },
        }
    }

    /// Score of a word: its relative frequency if known, the out-of-vocabulary penalty otherwise.
    pub fn score(&self, word: &str) -> (r: i128)
        requires
            self.wf(),
            fits(self@, word@.len()),
        ensures
            r == score(self@, word@),
    {
        let len = word.unicode_len();
        self.score_with_len(word, len)
    }
}

/// The model of an empty corpus knows no word, and its longest word length is 1.
pub proof fn lemma_empty_corpus_model()
    ensures
        corpus_model(Seq::<char>::empty()).counts == Map::<Seq<char>, nat>::empty(),
        corpus_model(Seq::<char>::empty()).max_len == 1,
        model_wf(corpus_model(Seq::<char>::empty())),
{
    let ts = tokens(Seq::<char>::empty());
    assert(ts =~= Seq::<Seq<char>>::empty());
    assert(count_table(ts) =~= Map::<Seq<char>, nat>::empty());
    lemma_model_of_wf(ts);
}

/// Every token of a corpus is a known word of its model, scored by its count; and of two
/// words of equal length, the one more frequent in the corpus scores strictly higher.
pub proof fn lemma_observed_scores(corpus: Seq<char>, a: Seq<char>, b: Seq<char>)
    requires
        a.len() == b.len(),
    ensures
        tokens(corpus).contains(a) ==> corpus_model(corpus).counts.contains_key(a)
            && score(corpus_model(corpus), a) == occurrences(tokens(corpus), a)
            && score(corpus_model(corpus), a) >= 1,
        occurrences(tokens(corpus), a) > occurrences(tokens(corpus), b) ==> score(corpus_model(corpus), a)
            > score(corpus_model(corpus), b),
{
    let ts = tokens(corpus);
    let m = corpus_model(corpus);
    lemma_occurrences_member(ts, a);
    if !m.counts.contains_key(b) {
        let u = unit(m);
        assert(-10 * u * b.len() <= 0) by (nonlinear_arith)
            requires
                u >= 1,
        ;
    }
}

} // verus!
