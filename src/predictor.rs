use vstd::prelude::*;
use crate::dictionary::{SortedDictionary, strictly_sorted, word_lt, lemma_lt_irreflexive, lemma_lt_transitive, compare_words};
use crate::text::strings_view;
use std::cmp::Ordering;
use rand::Rng;

verus! {

/// The sum of a sequence of counts.
pub open spec fn sum(s: Seq<u32>) -> int
    decreases s.len(),
{
    if s.len() == 0 {
        0
    } else {
        sum(s.drop_last()) + s.last() as int
    }
}

/// How often `a` is immediately followed by `b` in `t`.
pub open spec fn pair_count(t: Seq<Seq<char>>, a: Seq<char>, b: Seq<char>) -> nat
    decreases t.len(),
{
    if t.len() < 2 {
        0
    } else {
        pair_count(t.drop_last(), a, b) + if t[t.len() - 2] == a && t[t.len() - 1] == b { 1nat } else { 0nat }
    }
}

/// How often `a` is immediately followed by some word in `t`.
pub open spec fn lead_count(t: Seq<Seq<char>>, a: Seq<char>) -> nat
    decreases t.len(),
{
    if t.len() < 2 {
        0
    } else {
        lead_count(t.drop_last(), a) + if t[t.len() - 2] == a { 1nat } else { 0nat }
    }
}

/// The number of adjacent pairs in a sequence of `n` words.
pub open spec fn pairs_in(n: nat) -> nat {
    if n < 2 { 0 } else { (n - 1) as nat }
}

/// Adding one to a count adds one to the sum.
pub proof fn lemma_sum_increment(s: Seq<u32>, i: int)
    requires
        0 <= i < s.len(),
        s[i] < u32::MAX,
    ensures
        sum(s.update(i, (s[i] + 1) as u32)) == sum(s) + 1,
    decreases s.len(),
{
    let u = s.update(i, (s[i] + 1) as u32);
    if i == s.len() - 1 {
        assert(u.drop_last() =~= s.drop_last());
    } else {
        lemma_sum_increment(s.drop_last(), i);
        assert(u.drop_last() =~= s.drop_last().update(i, (s[i] + 1) as u32));
    }
}

/// Zero counts sum to zero.
pub proof fn lemma_sum_zeros(s: Seq<u32>)
    requires
        forall|k: int| 0 <= k < s.len() ==> s[k] == 0,
    ensures
        sum(s) == 0,
    decreases s.len(),
{
    if s.len() > 0 {
        lemma_sum_zeros(s.drop_last());
    }
}

/// One word of the model, with the counts of the words that followed it.
pub struct DictionaryWord {
    pub name: String,
    pub total: u32,
    pub amounts: Vec<u32>,
}

/// A first-order Markov chain over the words of a text.
pub struct Predictor {
    words: Vec<DictionaryWord>,
}

/// The names of the entries, in order.
pub open spec fn names_of(e: Seq<DictionaryWord>) -> Seq<Seq<char>> {
    e.map_values(|d: DictionaryWord| d.name@)
}

/// The totals of the entries, in order.
pub open spec fn totals_of(e: Seq<DictionaryWord>) -> Seq<u32> {
    e.map_values(|d: DictionaryWord| d.total)
}

/// Entries that make a model: names strictly ascending, one count per word
/// in each entry, and each total the sum of its counts.
pub open spec fn valid_entries(e: Seq<DictionaryWord>) -> bool {
    &&& strictly_sorted(names_of(e))
    &&& forall|i: int| 0 <= i < e.len() ==> (#[trigger] e[i]).amounts@.len() == e.len()
    &&& forall|i: int| 0 <= i < e.len() ==> (#[trigger] e[i]).total == sum(e[i].amounts@)
}

/// The model that training on the words `t` yields: one entry per distinct
/// word, in ascending order, counting each word that followed it.
pub open spec fn trained_on(e: Seq<DictionaryWord>, t: Seq<Seq<char>>) -> bool {
    &&& forall|x: Seq<char>| names_of(e).contains(x) <==> t.contains(x)
    &&& forall|i: int, j: int| 0 <= i < e.len() && 0 <= j < e.len()
        ==> (#[trigger] e[i]).amounts@[j] == pair_count(t, e[i].name@, #[trigger] e[j].name@)
    &&& forall|i: int| 0 <= i < e.len() ==> (#[trigger] e[i]).total == lead_count(t, e[i].name@)
}

impl View for Predictor {
    type V = Seq<DictionaryWord>;

    closed spec fn view(&self) -> Seq<DictionaryWord> {
        self.words@
    }
}

/// `j` is the entry that the draw `r` selects from the counts `a`: the first
/// whose running sum exceeds `r`.
pub open spec fn selects(a: Seq<u32>, r: int, j: int) -> bool {
    0 <= j < a.len() && sum(a.subrange(0, j)) <= r < sum(a.subrange(0, j + 1))
}

/// Relies on rand::thread_rng and rand::Rng::gen_range: a value drawn
/// uniformly from `0..bound`.
#[verifier::external_body]
fn random_below(bound: u32) -> (r: u32)
    requires
        bound > 0,
    ensures
        r < bound,
{
    rand::thread_rng().gen_range(0..bound)
}

/// A prefix of counts sums to no more than the whole.
pub proof fn lemma_sum_prefix(a: Seq<u32>, j: int)
    requires
        0 <= j <= a.len(),
    ensures
        sum(a.subrange(0, j)) <= sum(a),
    decreases a.len(),
{
    if j == a.len() {
        assert(a.subrange(0, j) =~= a);
    } else {
        lemma_sum_prefix(a.drop_last(), j);
        assert(a.drop_last().subrange(0, j) =~= a.subrange(0, j));
    }
}

proof fn lemma_adjacent_sorted(s: Seq<Seq<char>>)
    requires
        forall|k: int| 0 <= k < s.len() - 1 ==> word_lt(#[trigger] s[k], s[k + 1]),
    ensures
        strictly_sorted(s),
    decreases s.len(),
{
    if s.len() > 1 {
        let d = s.drop_last();
        assert forall|k: int| 0 <= k < d.len() - 1 implies word_lt(#[trigger] d[k], d[k + 1]) by {
            assert(d[k] == s[k] && d[k + 1] == s[k + 1]);
        }
        lemma_adjacent_sorted(d);
        assert forall|i: int, j: int| 0 <= i < j < s.len() implies word_lt(#[trigger] s[i], #[trigger] s[j]) by {
            if j < s.len() - 1 {
                assert(d[i] == s[i] && d[j] == s[j]);
            } else if i < j - 1 {
                assert(d[i] == s[i] && d[j - 1] == s[j - 1]);
                assert(word_lt(s[j - 1], s[j]));
                lemma_lt_transitive(s[i], s[j - 1], s[j]);
            }
        }
    }
}

/// The sum of `a`, if it fits in a `u32`.
fn checked_sum(a: &Vec<u32>) -> (r: Option<u32>)
    ensures
        match r {
            Some(x) => x == sum(a@),
            None => sum(a@) > u32::MAX,
        },
{
    let mut acc: u64 = 0;
    let mut i: usize = 0;
    assert(a@.subrange(0, 0) =~= Seq::<u32>::empty());
    while i < a.len()
        invariant
            i <= a@.len(),
            acc == sum(a@.subrange(0, i as int)),
            acc <= u32::MAX,
        decreases a@.len() - i,
    {
        assert(a@.subrange(0, i + 1).drop_last() =~= a@.subrange(0, i as int));
        acc = acc + a[i] as u64;
        if acc > u32::MAX as u64 {
            proof {
                lemma_sum_prefix(a@, i + 1);
            }
            return None;
        }
        i = i + 1;
    }
    assert(a@.subrange(0, i as int) =~= a@);
    Some(acc as u32)
}

/// `n` zero counts.
fn zeros(n: usize) -> (r: Vec<u32>)
    ensures
        r@.len() == n,
        forall|k: int| 0 <= k < n ==> r@[k] == 0,
{
    let mut r: Vec<u32> = Vec::new();
    while r.len() < n
        invariant
            r@.len() <= n,
            forall|k: int| 0 <= k < r@.len() ==> r@[k] == 0,
        decreases n - r@.len(),
    {
        r.push(0);
    }
    r
}

/// The words of a strictly sorted sequence are distinct.
pub proof fn lemma_sorted_distinct(s: Seq<Seq<char>>, i: int, j: int)
    requires
        strictly_sorted(s),
        0 <= i < s.len(),
        0 <= j < s.len(),
        i != j,
    ensures
        s[i] != s[j],
{
    if i < j {
        assert(word_lt(s[i], s[j]));
        lemma_lt_irreflexive(s[i]);
    } else {
        assert(word_lt(s[j], s[i]));
        lemma_lt_irreflexive(s[j]);
    }
}

impl Predictor {
    /// Trains a model on the words `words`, in order: for each adjacent pair
    /// the first word's count of the second, and its total, grow by one.
    pub fn create(words: &Vec<String>) -> (r: Self)
        requires
            words@.len() <= u32::MAX + 1,
        ensures
            valid_entries(r@),
            trained_on(r@, strings_view(words@)),
            r@.len() <= words@.len(),
            sum(totals_of(r@)) == pairs_in(words@.len() as nat),
    {
        let ghost t = strings_view(words@);
        let copy = words.clone();
        assert(strings_view(copy@) =~= t);
        let dictionary = SortedDictionary::new(copy);
        let names = dictionary.words();
        let n_words = dictionary.len();
        let mut out: Vec<DictionaryWord> = Vec::new();
        let mut i: usize = 0;
        while i < n_words
            invariant
                n_words == dictionary@.len(),
                strings_view(names@) == dictionary@,
                i <= n_words,
                out@.len() == i,
                forall|a: int| 0 <= a < i ==> (#[trigger] out@[a]).name@ == dictionary@[a],
                forall|a: int| 0 <= a < i ==> (#[trigger] out@[a]).total == 0,
                forall|a: int| 0 <= a < i ==> (#[trigger] out@[a]).amounts@.len() == n_words,
                forall|a: int, b: int| 0 <= a < i && 0 <= b < n_words ==> #[trigger] out@[a].amounts@[b] == 0,
            decreases n_words - i,
        {
            assert(strings_view(names@)[i as int] == names@[i as int]@);
            out.push(DictionaryWord { name: names[i].clone(), total: 0, amounts: zeros(n_words) });
            i = i + 1;
        }
        proof {
            assert(names_of(out@) =~= dictionary@);
            assert(totals_of(out@) =~= Seq::new(n_words as nat, |a: int| 0u32));
            lemma_sum_zeros(totals_of(out@));
            assert forall|a: int| 0 <= a < n_words implies (#[trigger] out@[a]).total == sum(out@[a].amounts@) by {
                lemma_sum_zeros(out@[a].amounts@);
            }
        }
        let n = words.len();
        let mut k: usize = if n == 0 { 0 } else { 1 };
        while k < n
            invariant
                n == t.len(),
                n == words@.len(),
                t == strings_view(words@),
                n <= u32::MAX + 1,
                k <= n,
                n > 0 ==> k >= 1,
                dictionary.wf(),
                forall|x: Seq<char>| dictionary@.contains(x) <==> t.contains(x),
                n_words == dictionary@.len(),
                out@.len() == n_words,
                names_of(out@) == dictionary@,
                forall|a: int| 0 <= a < n_words ==> (#[trigger] out@[a]).amounts@.len() == n_words,
                forall|a: int, b: int| 0 <= a < n_words && 0 <= b < n_words ==> #[trigger] out@[a].amounts@[b]
                    == pair_count(t.subrange(0, k as int), dictionary@[a], dictionary@[b]),
                forall|a: int| 0 <= a < n_words ==> (#[trigger] out@[a]).total == lead_count(t.subrange(0, k as int), dictionary@[a]),
                forall|a: int| 0 <= a < n_words ==> (#[trigger] out@[a]).total == sum(out@[a].amounts@),
                forall|a: int| 0 <= a < n_words ==> n > 0 ==> (#[trigger] out@[a]).total < k,
                forall|a: int, b: int| 0 <= a < n_words && 0 <= b < n_words ==> n > 0 ==> #[trigger] out@[a].amounts@[b] < k,
                sum(totals_of(out@)) == pairs_in(k as nat),
            decreases n - k,
        {
            assert(t[k - 1] == words@[k - 1]@ && t[k as int] == words@[k as int]@);
            assert(t.contains(t[k - 1]) && t.contains(t[k as int]));
            let ci = match dictionary.index_of(words[k - 1].as_str()) {
                Some(x) => x,
                None => {
                    assert(false);
                    0
                },
            };
            let ni = match dictionary.index_of(words[k].as_str()) {
                Some(x) => x,
                None => {
                    assert(false);
                    0
                },
            };
            let ghost before = out@;
            let ghost tk = t.subrange(0, k as int);
            let ghost tk1 = t.subrange(0, k + 1);
            assert(tk1.drop_last() =~= tk);
            assert(tk1[k - 1] == t[k - 1] && tk1[k as int] == t[k as int]);
            assert(names_of(out@)[ci as int] == out@[ci as int].name@);
            let mut entry = out.remove(ci);
            entry.total = entry.total + 1;
            let ghost old_amounts = entry.amounts@;
            let mut row = entry.amounts;
            let v = row[ni];
            row.set(ni, v + 1);
            proof {
                lemma_sum_increment(old_amounts, ni as int);
                assert(row@ == old_amounts.update(ni as int, (old_amounts[ni as int] + 1) as u32));
            }
            let updated = DictionaryWord { name: entry.name, total: entry.total, amounts: row };
            out.insert(ci, updated);
            proof {
                assert(out@ =~= before.update(ci as int, updated));
                assert(names_of(out@) =~= names_of(before));
                assert(totals_of(out@) =~= totals_of(before).update(ci as int, (totals_of(before)[ci as int] + 1) as u32));
                lemma_sum_increment(totals_of(before), ci as int);
                assert forall|a: int, b: int| 0 <= a < n_words && 0 <= b < n_words implies #[trigger] out@[a].amounts@[b]
                    == pair_count(tk1, dictionary@[a], dictionary@[b]) by {
                    if a != ci {
                        lemma_sorted_distinct(dictionary@, a, ci as int);
                    }
                    if b != ni {
                        lemma_sorted_distinct(dictionary@, b, ni as int);
                    }
                }
                assert forall|a: int| 0 <= a < n_words implies (#[trigger] out@[a]).total == lead_count(tk1, dictionary@[a]) by {
                    if a != ci {
                        lemma_sorted_distinct(dictionary@, a, ci as int);
                    }
                }
            }
            k = k + 1;
        }
        proof {
            if n > 0 {
                assert(t.subrange(0, k as int) =~= t);
            }
            assert forall|x: Seq<char>| names_of(out@).contains(x) <==> t.contains(x) by {}
            assert forall|a: int, b: int| 0 <= a < out@.len() && 0 <= b < out@.len() implies
                (#[trigger] out@[a]).amounts@[b] == pair_count(t, out@[a].name@, #[trigger] out@[b].name@) by {
                assert(names_of(out@)[a] == out@[a].name@ && names_of(out@)[b] == out@[b].name@);
                if n == 0 {
                    assert(false);
                }
            }
            assert forall|a: int| 0 <= a < out@.len() implies (#[trigger] out@[a]).total == lead_count(t, out@[a].name@) by {
                assert(names_of(out@)[a] == out@[a].name@);
                if n == 0 {
                    assert(false);
                }
            }
        }
        Predictor { words: out }
    }

    /// The model made of `entries`, if they make one (see `valid_entries`).
    pub fn from_entries(entries: Vec<DictionaryWord>) -> (r: Option<Self>)
        ensures
            r is Some <==> valid_entries(entries@),
            r matches Some(p) ==> p@ == entries@,
    {
        let n = entries.len();
        let ghost names = names_of(entries@);
        let mut i: usize = 0;
        while i < n
            invariant
                n == entries@.len(),
                names == names_of(entries@),
                i <= n,
                forall|k: int| 0 <= k < i ==> (#[trigger] entries@[k]).amounts@.len() == n,
                forall|k: int| 0 <= k < i ==> (#[trigger] entries@[k]).total == sum(entries@[k].amounts@),
                forall|k: int| 0 <= k < i && k + 1 < n ==> word_lt(#[trigger] names[k], names[k + 1]),
            decreases n - i,
        {
            if entries[i].amounts.len() != n {
                return None;
            }
            match checked_sum(&entries[i].amounts) {
                Some(x) => {
                    if x != entries[i].total {
                        return None;
                    }
                },
                None => {
                    return None;
                },
            }
            if i + 1 < n {
                assert(names[i as int] == entries@[i as int].name@);
                assert(names[i + 1] == entries@[i + 1].name@);
                match compare_words(entries[i].name.as_str(), entries[i + 1].name.as_str()) {
                    Ordering::Less => {},
                    _ => {
                        proof {
                            assert(!word_lt(names[i as int], names[i + 1]));
                        }
                        return None;
                    },
                }
            }
            i = i + 1;
        }
        proof {
            lemma_adjacent_sorted(names);
        }
        Some(Predictor { words: entries })
    }

    /// The entries of the model, in ascending order of name.
    pub fn entries(&self) -> (r: &Vec<DictionaryWord>)
        ensures
            r@ == self@,
    {
        &self.words
    }

    /// The index of the entry named `other`, if there is one.
    pub fn index_of(&self, other: &str) -> (r: Option<usize>)
        requires
            valid_entries(self@),
        ensures
            match r {
                Some(i) => i < self@.len() && self@[i as int].name@ == other@,
                None => !names_of(self@).contains(other@),
            },
    {
        let ghost names = names_of(self.words@);
        let mut lo: usize = 0;
        let mut hi: usize = self.words.len();
        while lo < hi
            invariant
                lo <= hi <= self.words@.len(),
                names == names_of(self.words@),
                strictly_sorted(names),
                forall|k: int| 0 <= k < lo ==> word_lt(#[trigger] names[k], other@),
                forall|k: int| hi <= k < names.len() ==> word_lt(other@, #[trigger] names[k]),
            decreases hi - lo,
        {
            let mid = lo + (hi - lo) / 2;
            assert(names[mid as int] == self.words@[mid as int].name@);
            match compare_words(self.words[mid].name.as_str(), other) {
                Ordering::Equal => {
                    return Some(mid);
                },
                Ordering::Less => {
                    assert forall|k: int| 0 <= k < mid + 1 implies word_lt(#[trigger] names[k], other@) by {
                        if k < mid {
                            lemma_lt_transitive(names[k], names[mid as int], other@);
                        }
                    }
                    lo = mid + 1;
                },
                Ordering::Greater => {
                    assert forall|k: int| mid <= k < names.len() implies word_lt(other@, #[trigger] names[k]) by {
                        if k > mid {
                            lemma_lt_transitive(other@, names[mid as int], names[k]);
                        }
                    }
                    hi = mid;
                },
            }
        }
        proof {
            lemma_lt_irreflexive(other@);
        }
        None
    }

    /// The name of the entry that the draw `draw` selects among the
    /// successors of entry `index`, or `None` when the draw is not below its
    /// total.
    pub fn pick_by_draw(&self, index: usize, draw: u32) -> (r: Option<String>)
        requires
            valid_entries(self@),
            index < self@.len(),
        ensures
            r is None <==> self@[index as int].total <= draw,
            match r {
                Some(w) => exists|j: int| #![auto] selects(self@[index as int].amounts@, draw as int, j)
                    && self@[index as int].amounts@[j] > 0
                    && w@ == self@[j].name@,
                None => true,
            },
    {
        let ghost a = self.words@[index as int].amounts@;
        let n = self.words[index].amounts.len();
        let mut counter: u64 = 0;
        let mut i: usize = 0;
        assert(a.subrange(0, 0) =~= Seq::<u32>::empty());
        while i < n
            invariant
                a == self.words@[index as int].amounts@,
                valid_entries(self@),
                index < self.words@.len(),
                n == a.len(),
                n == self.words@.len(),
                i <= n,
                counter == sum(a.subrange(0, i as int)),
                counter <= draw,
            decreases n - i,
        {
            assert(a.subrange(0, i + 1).drop_last() =~= a.subrange(0, i as int));
            counter = counter + self.words[index].amounts[i] as u64;
            if counter > draw as u64 {
                let w = self.words[i].name.clone();
                assert(selects(a, draw as int, i as int));
                proof {
                    lemma_sum_prefix(a, i + 1);
                }
                return Some(w);
            }
            i = i + 1;
        }
        assert(a.subrange(0, n as int) =~= a);
        None
    }

    /// A successor of `word` drawn at random, each with the weight of its
    /// count; `None` when `word` is unknown or was never followed by a word.
    pub fn predict_word(&self, word: &str) -> (r: Option<String>)
        requires
            valid_entries(self@),
        ensures
            !names_of(self@).contains(word@) ==> r is None,
            forall|i: int| 0 <= i < self@.len() && #[trigger] self@[i].name@ == word@ ==> {
                &&& (self@[i].total == 0 ==> r is None)
                &&& (self@[i].total > 0 ==> r is Some)
                &&& (self@[i].total > 0 ==> exists|j: int, d: int| #![auto]
                        0 <= d < self@[i].total && selects(self@[i].amounts@, d, j)
                        && self@[i].amounts@[j] > 0 && r->0@ == self@[j].name@)
            },
    {
        match self.index_of(word) {
            None => {
                proof {
                    assert forall|i: int| 0 <= i < self@.len() implies #[trigger] self@[i].name@ != word@ by {
                        assert(names_of(self@)[i] == self@[i].name@);
                    }
                }
                None
            },
            Some(index) => {
                proof {
                    assert(names_of(self@)[index as int] == self@[index as int].name@);
                    assert forall|i: int| 0 <= i < self@.len() && #[trigger] self@[i].name@ == word@
                        implies i == index by {
                        if i != index {
                            assert(names_of(self@)[i] == self@[i].name@);
                            assert(names_of(self@)[index as int] == self@[index as int].name@);
                            lemma_sorted_distinct(names_of(self@), i, index as int);
                        }
                    }
                }
                let total = self.words[index].total;
                if total == 0 {
                    None
                } else {
                    let draw = random_below(total);
                    let r = self.pick_by_draw(index, draw);
                    proof {
                        let j = choose|j: int| #![auto] selects(self@[index as int].amounts@, draw as int, j)
                            && self@[index as int].amounts@[j] > 0 && r->0@ == self@[j].name@;
                        assert(0 <= draw < self@[index as int].total && selects(self@[index as int].amounts@, draw as int, j)
                            && self@[index as int].amounts@[j] > 0 && r->0@ == self@[j].name@);
                    }
                    r
                }
            },
        }
    }
}

} // verus!
