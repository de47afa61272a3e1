use vstd::prelude::*;
use vstd::string::StrSliceExecFns;

verus! {

/// The characters on which text is split into words.
pub open spec fn is_delimiter(c: char) -> bool {
    c == ' ' || c == '\n' || c == ',' || c == '.'
}

/// The words still to come from `s`, given the part `cur` of a word that was
/// begun before `s`.
pub open spec fn split_from(s: Seq<char>, cur: Seq<char>) -> Seq<Seq<char>>
    decreases s.len(),
{
    if s.len() == 0 {
        if cur.len() > 0 { seq![cur] } else { seq![] }
    } else if is_delimiter(s[0]) {
        let head: Seq<Seq<char>> = if cur.len() > 0 { seq![cur] } else { seq![] };
        head + split_from(s.drop_first(), seq![])
    } else {
        split_from(s.drop_first(), cur.push(s[0]))
    }
}

/// The words of `s`: its maximal runs of characters that are not delimiters.
pub open spec fn split_words(s: Seq<char>) -> Seq<Seq<char>> {
    split_from(s, seq![])
}

/// A word as the tokenizer makes them: not empty, and free of delimiters.
pub open spec fn is_word(w: Seq<char>) -> bool {
    w.len() > 0 && forall|k: int| 0 <= k < w.len() ==> !is_delimiter(#[trigger] w[k])
}

/// The texts of a sequence of strings.
pub open spec fn strings_view(v: Seq<String>) -> Seq<Seq<char>> {
    v.map_values(|x: String| x@)
}

proof fn lemma_split_from_words(s: Seq<char>, cur: Seq<char>)
    requires
        forall|k: int| 0 <= k < cur.len() ==> !is_delimiter(#[trigger] cur[k]),
    ensures
        forall|i: int| 0 <= i < split_from(s, cur).len() ==> is_word(#[trigger] split_from(s, cur)[i]),
    decreases s.len(),
{
    if s.len() == 0 {
        if cur.len() > 0 {
            assert(seq![cur][0] == cur);
        }
    } else if is_delimiter(s[0]) {
        lemma_split_from_words(s.drop_first(), seq![]);
        if cur.len() > 0 {
            assert(seq![cur][0] == cur);
        }
        let head: Seq<Seq<char>> = if cur.len() > 0 { seq![cur] } else { seq![] };
        let rest = split_from(s.drop_first(), seq![]);
        assert(split_from(s, cur) == head + rest);
        assert forall|i: int| 0 <= i < (head + rest).len() implies is_word(#[trigger] (head + rest)[i]) by {
            if i >= head.len() {
                assert((head + rest)[i] == rest[i - head.len()]);
            }
        }
    } else {
        let c2 = cur.push(s[0]);
        assert forall|k: int| 0 <= k < c2.len() implies !is_delimiter(#[trigger] c2[k]) by {
            if k < cur.len() {
                assert(c2[k] == cur[k]);
            }
        }
        lemma_split_from_words(s.drop_first(), c2);
        assert(split_from(s, cur) == split_from(s.drop_first(), c2));
    }
}

/// Every word that `split_words` yields is non-empty and holds no delimiter.
pub proof fn lemma_words_are_words(s: Seq<char>)
    ensures
        forall|i: int| 0 <= i < split_words(s).len() ==> is_word(#[trigger] split_words(s)[i]),
{
    lemma_split_from_words(s, seq![]);
}

/// The words `ts` written out with the characters `ds`, in turn, between
/// each two.
pub open spec fn join_with(ts: Seq<Seq<char>>, ds: Seq<char>) -> Seq<char>
    decreases ts.len(),
{
    if ts.len() == 0 {
        seq![]
    } else if ts.len() == 1 {
        ts[0]
    } else {
        ts[0] + (seq![ds[0]] + join_with(ts.drop_first(), ds.drop_first()))
    }
}

proof fn lemma_split_after_word(w: Seq<char>, rest: Seq<char>, cur: Seq<char>)
    requires
        forall|k: int| 0 <= k < w.len() ==> !is_delimiter(#[trigger] w[k]),
    ensures
        split_from(w + rest, cur) == split_from(rest, cur + w),
    decreases w.len(),
{
    if w.len() == 0 {
        assert(w + rest =~= rest);
        assert(cur + w =~= cur);
    } else {
        let s = w + rest;
        assert(s[0] == w[0]);
        assert(s.drop_first() =~= w.drop_first() + rest);
        lemma_split_after_word(w.drop_first(), rest, cur.push(w[0]));
        assert(cur.push(w[0]) + w.drop_first() =~= cur + w);
    }
}

/// Splitting words that were joined by delimiters, any one in each gap,
/// gives back those words.
pub proof fn lemma_split_of_joined(ts: Seq<Seq<char>>, ds: Seq<char>)
    requires
        ds.len() + 1 >= ts.len(),
        forall|k: int| 0 <= k < ds.len() ==> is_delimiter(#[trigger] ds[k]),
        forall|i: int| 0 <= i < ts.len() ==> is_word(#[trigger] ts[i]),
    ensures
        split_words(join_with(ts, ds)) == ts,
    decreases ts.len(),
{
    if ts.len() == 0 {
    } else {
        let w = ts[0];
        assert(is_word(w));
        if ts.len() == 1 {
            lemma_split_after_word(w, seq![], seq![]);
            assert(w + Seq::<char>::empty() =~= w);
            assert(Seq::<char>::empty() + w =~= w);
            assert(seq![w] =~= ts);
        } else {
            let rest = ts.drop_first();
            assert forall|i: int| 0 <= i < rest.len() implies is_word(#[trigger] rest[i]) by {
                assert(rest[i] == ts[i + 1]);
            }
            let d = ds[0];
            let dr = ds.drop_first();
            assert forall|k: int| 0 <= k < dr.len() implies is_delimiter(#[trigger] dr[k]) by {
                assert(dr[k] == ds[k + 1]);
            }
            lemma_split_of_joined(rest, dr);
            let tail = seq![d] + join_with(rest, dr);
            lemma_split_after_word(w, tail, seq![]);
            assert(Seq::<char>::empty() + w =~= w);
            assert(tail[0] == d);
            assert(tail.drop_first() =~= join_with(rest, dr));
            assert(split_from(tail, w) == seq![w] + split_from(join_with(rest, dr), seq![]));
            assert(seq![w] + rest =~= ts);
        }
    }
}

/// Splits `text` into its words, in order, on space, newline, comma and period.
pub fn word_split(text: &str) -> (r: Vec<String>)
    ensures
        strings_view(r@) == split_words(text@),
        forall|i: int| 0 <= i < r@.len() ==> is_word(#[trigger] r@[i]@),
{
    let n = text.unicode_len();
    let mut out: Vec<String> = Vec::new();
    let mut start: usize = 0;
    let mut i: usize = 0;
    assert(text@.skip(0) =~= text@);
    assert(text@.subrange(0, 0) =~= Seq::<char>::empty());
    assert(strings_view(out@) =~= Seq::<Seq<char>>::empty());
    while i < n
        invariant
            n == text@.len(),
            start <= i <= n,
            strings_view(out@) + split_from(text@.skip(i as int), text@.subrange(start as int, i as int))
                == split_words(text@),
        decreases n - i,
    {
        let c = text.get_char(i);
        let ghost rest = text@.skip(i as int);
        let ghost cur = text@.subrange(start as int, i as int);
        assert(rest[0] == c);
        assert(rest.drop_first() == text@.skip(i + 1));
        if c == ' ' || c == '\n' || c == ',' || c == '.' {
            if start < i {
                let w = text.substring_char(start, i).to_owned();
                proof {
                    assert(strings_view(out@.push(w)) == strings_view(out@).push(w@));
                    assert(seq![cur] + split_from(text@.skip(i + 1), seq![])
                        == split_from(text@.skip(i + 1), seq![]).insert(0, cur));
                }
                out.push(w);
                proof {
                    assert(strings_view(out@) + split_from(text@.skip(i + 1), seq![])
                        =~= strings_view(out@).drop_last() + (seq![cur] + split_from(text@.skip(i + 1), seq![])));
                }
            } else {
                assert(seq![] + split_from(text@.skip(i + 1), seq![]) =~= split_from(text@.skip(i + 1), seq![]));
            }
            assert(text@.subrange((i + 1) as int, (i + 1) as int) =~= seq![]);
            start = i + 1;
        } else {
            assert(cur.push(c) =~= text@.subrange(start as int, i + 1));
        }
        i = i + 1;
    }
    let ghost cur = text@.subrange(start as int, n as int);
    assert(text@.skip(n as int) =~= Seq::<char>::empty());
    assert(split_from(text@.skip(n as int), cur) == (if cur.len() > 0 { seq![cur] } else { seq![] }));
    if start < n {
        let w = text.substring_char(start, n).to_owned();
        proof {
            assert(strings_view(out@.push(w)) == strings_view(out@).push(w@));
        }
        out.push(w);
        assert(strings_view(out@) =~= strings_view(out@).drop_last() + seq![cur]);
    } else {
        assert(strings_view(out@) =~= strings_view(out@) + Seq::<Seq<char>>::empty());
    }
    proof {
        lemma_words_are_words(text@);
        assert forall|i: int| 0 <= i < out@.len() implies is_word(#[trigger] out@[i]@) by {
            assert(strings_view(out@)[i] == out@[i]@);
            assert(is_word(split_words(text@)[i]));
        }
    }
    out
}

} // verus!
