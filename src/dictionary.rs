use vstd::prelude::*;
use vstd::string::StrSliceExecFns;
use std::cmp::Ordering;
use crate::text::strings_view;

verus! {

/// Lexicographic order on words, character by character; a proper prefix
/// comes first.
pub open spec fn word_lt(a: Seq<char>, b: Seq<char>) -> bool
    decreases a.len(),
{
    if a.len() == 0 {
        b.len() > 0
    } else if b.len() == 0 {
        false
    } else if (a[0] as u32) < (b[0] as u32) {
        true
    } else if a[0] == b[0] {
        word_lt(a.drop_first(), b.drop_first())
    } else {
        false
    }
}

/// Every word comes strictly before each word that follows it.
pub open spec fn strictly_sorted(s: Seq<Seq<char>>) -> bool {
    forall|i: int, j: int| 0 <= i < j < s.len() ==> word_lt(#[trigger] s[i], #[trigger] s[j])
}

/// No word comes before itself.
pub proof fn lemma_lt_irreflexive(a: Seq<char>)
    ensures
        !word_lt(a, a),
    decreases a.len(),
{
    if a.len() > 0 {
        lemma_lt_irreflexive(a.drop_first());
    }
}

/// The order on words is transitive.
pub proof fn lemma_lt_transitive(a: Seq<char>, b: Seq<char>, c: Seq<char>)
    requires
        word_lt(a, b),
        word_lt(b, c),
    ensures
        word_lt(a, c),
    decreases a.len(),
{
    if a.len() > 0 && b.len() > 0 && c.len() > 0 && a[0] == b[0] && b[0] == c[0] {
        lemma_lt_transitive(a.drop_first(), b.drop_first(), c.drop_first());
    }
}

/// Compares two words in the order `word_lt`.
pub fn compare_words(a: &str, b: &str) -> (r: Ordering)
    ensures
        r == Ordering::Less <==> word_lt(a@, b@),
        r == Ordering::Equal <==> a@ == b@,
        r == Ordering::Greater <==> word_lt(b@, a@),
{
    let na = a.unicode_len();
    let nb = b.unicode_len();
    let mut i: usize = 0;
    proof {
        assert(a@.skip(0) =~= a@);
        assert(b@.skip(0) =~= b@);
    }
    while i < na && i < nb
        invariant
            na == a@.len(),
            nb == b@.len(),
            i <= na,
            i <= nb,
            a@.subrange(0, i as int) == b@.subrange(0, i as int),
            word_lt(a@, b@) == word_lt(a@.skip(i as int), b@.skip(i as int)),
            word_lt(b@, a@) == word_lt(b@.skip(i as int), a@.skip(i as int)),
        decreases na - i,
    {
        let ca = a.get_char(i);
        let cb = b.get_char(i);
        let ghost sa = a@.skip(i as int);
        let ghost sb = b@.skip(i as int);
        assert(sa[0] == ca && sb[0] == cb);
        if (ca as u32) < (cb as u32) {
            return Ordering::Less;
        }
        if (cb as u32) < (ca as u32) {
            return Ordering::Greater;
        }
        assert(sa.drop_first() =~= a@.skip(i + 1));
        assert(sb.drop_first() =~= b@.skip(i + 1));
        assert(a@.subrange(0, i + 1) =~= a@.subrange(0, i as int).push(ca));
        assert(b@.subrange(0, i + 1) =~= b@.subrange(0, i as int).push(cb));
        i = i + 1;
    }
    if na == nb {
        assert(a@ =~= a@.subrange(0, i as int));
        assert(b@ =~= b@.subrange(0, i as int));
        proof {
            lemma_lt_irreflexive(a@);
        }
        Ordering::Equal
    } else if na < nb {
        assert(a@.skip(i as int).len() == 0);
        Ordering::Less
    } else {
        assert(b@.skip(i as int).len() == 0);
        Ordering::Greater
    }
}

/// Where `w` stands in the strictly sorted `words`: `Ok` with its index, or
/// `Err` with the index at which it would be inserted.
pub fn locate(words: &Vec<String>, w: &str) -> (r: Result<usize, usize>)
    requires
        strictly_sorted(strings_view(words@)),
    ensures
        match r {
            Ok(i) => i < words@.len() && words@[i as int]@ == w@,
            Err(p) => p <= words@.len()
                && (forall|k: int| 0 <= k < p ==> word_lt(#[trigger] words@[k]@, w@))
                && (forall|k: int| p <= k < words@.len() ==> word_lt(w@, #[trigger] words@[k]@)),
        },
{
    let mut lo: usize = 0;
    let mut hi: usize = words.len();
    while lo < hi
        invariant
            lo <= hi <= words@.len(),
            strictly_sorted(strings_view(words@)),
            forall|k: int| 0 <= k < lo ==> word_lt(#[trigger] words@[k]@, w@),
            forall|k: int| hi <= k < words@.len() ==> word_lt(w@, #[trigger] words@[k]@),
        decreases hi - lo,
    {
        let mid = lo + (hi - lo) / 2;
        match compare_words(words[mid].as_str(), w) {
            Ordering::Equal => {
                return Ok(mid);
            },
            Ordering::Less => {
                assert forall|k: int| 0 <= k < mid + 1 implies word_lt(#[trigger] words@[k]@, w@) by {
                    if k < mid {
                        assert(strings_view(words@)[k] == words@[k]@);
                        assert(strings_view(words@)[mid as int] == words@[mid as int]@);
                        lemma_lt_transitive(words@[k]@, words@[mid as int]@, w@);
                    }
                }
                lo = mid + 1;
            },
            Ordering::Greater => {
                assert forall|k: int| mid <= k < words@.len() implies word_lt(w@, #[trigger] words@[k]@) by {
                    if k > mid {
                        assert(strings_view(words@)[k] == words@[k]@);
                        assert(strings_view(words@)[mid as int] == words@[mid as int]@);
                        lemma_lt_transitive(w@, words@[mid as int]@, words@[k]@);
                    }
                }
                hi = mid;
            },
        }
    }
    Err(lo)
}

/// The words of a text, each once, in ascending order.
pub struct SortedDictionary {
    words: Vec<String>,
}

impl View for SortedDictionary {
    type V = Seq<Seq<char>>;

    closed spec fn view(&self) -> Seq<Seq<char>> {
        strings_view(self.words@)
    }
}

impl SortedDictionary {
    /// The words are strictly ascending, hence distinct.
    pub open spec fn wf(&self) -> bool {
        strictly_sorted(self@)
    }

    /// The distinct words of `words`, sorted.
    pub fn new(words: Vec<String>) -> (r: Self)
        ensures
            r.wf(),
            r@.len() <= words@.len(),
            forall|x: Seq<char>| r@.contains(x) <==> strings_view(words@).contains(x),
    {
        let mut out: Vec<String> = Vec::new();
        let mut i: usize = 0;
        while i < words.len()
            invariant
                i <= words@.len(),
                out@.len() <= i,
                strictly_sorted(strings_view(out@)),
                forall|x: Seq<char>| strings_view(out@).contains(x) <==>
                    strings_view(words@.subrange(0, i as int)).contains(x),
            decreases words@.len() - i,
        {
            let ghost before = strings_view(out@);
            let ghost w = words@[i as int]@;
            let ghost pre0 = strings_view(words@.subrange(0, i as int));
            let ghost pre1 = strings_view(words@.subrange(0, i + 1));
            assert(pre1 =~= pre0.push(w));
            assert forall|x: Seq<char>| pre1.contains(x) <==> (pre0.contains(x) || x == w) by {
                if pre1.contains(x) {
                    let k = choose|k: int| 0 <= k < pre1.len() && pre1[k] == x;
                    if k < i {
                        assert(pre0[k] == x);
                    }
                }
                if pre0.contains(x) {
                    let k = choose|k: int| 0 <= k < pre0.len() && pre0[k] == x;
                    assert(pre1[k] == x);
                }
                if x == w {
                    assert(pre1[i as int] == x);
                }
            }
            match locate(&out, words[i].as_str()) {
                Ok(k) => {
                    assert(before[k as int] == w);
                },
                Err(p) => {
                    out.insert(p, words[i].clone());
                    proof {
                        let after = strings_view(out@);
                        assert(after =~= before.insert(p as int, w));
                        assert forall|a: int, b: int| 0 <= a < b < after.len()
                            implies word_lt(#[trigger] after[a], #[trigger] after[b]) by {
                            if b < p {
                                assert(after[a] == before[a] && after[b] == before[b]);
                            } else if b == p {
                                assert(after[a] == before[a]);
                            } else if a == p {
                                assert(after[b] == before[b - 1]);
                            } else if a < p {
                                assert(after[a] == before[a] && after[b] == before[b - 1]);
                            } else {
                                assert(after[a] == before[a - 1] && after[b] == before[b - 1]);
                            }
                        }
                        assert forall|x: Seq<char>| after.contains(x) <==> (before.contains(x) || x == w) by {
                            if after.contains(x) {
                                let k = choose|k: int| 0 <= k < after.len() && after[k] == x;
                                if k < p {
                                    assert(before[k] == x);
                                } else if k > p {
                                    assert(before[k - 1] == x);
                                }
                            }
                            if before.contains(x) {
                                let k = choose|k: int| 0 <= k < before.len() && before[k] == x;
                                if k < p {
                                    assert(after[k] == x);
                                } else {
                                    assert(after[k + 1] == x);
                                }
                            }
                            if x == w {
                                assert(after[p as int] == x);
                            }
                        }
                    }
                },
            }
            i = i + 1;
        }
        assert(words@.subrange(0, i as int) =~= words@);
        SortedDictionary { words: out }
    }

    /// The words, in ascending order.
    pub fn words(&self) -> (r: Vec<String>)
        ensures
            strings_view(r@) == self@,
    {
        self.words.clone()
    }

    /// The number of words.
    pub fn len(&self) -> (r: usize)
        ensures
            r == self@.len(),
    {
        self.words.len()
    }

    /// The index of `other` among the words, if it is one of them.
    pub fn index_of(&self, other: &str) -> (r: Option<usize>)
        requires
            self.wf(),
        ensures
            match r {
                Some(i) => i < self@.len() && self@[i as int] == other@,
                None => !self@.contains(other@),
            },
    {
        match locate(&self.words, other) {
            Ok(i) => Some(i),
            Err(p) => {
                proof {
                    assert forall|k: int| 0 <= k < self@.len() implies self@[k] != other@ by {
                        assert(self@[k] == self.words@[k]@);
                        lemma_lt_irreflexive(other@);
                    }
                }
                None
            },
        }
    }
}

} // verus!
