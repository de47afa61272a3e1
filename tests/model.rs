use chains::dictionary::{compare_words, SortedDictionary};
use chains::predictor::{DictionaryWord, Predictor};
use chains::text::word_split;
use std::cmp::Ordering;

fn train(text: &str) -> Predictor {
    Predictor::create(&word_split(text))
}

fn entry<'a>(p: &'a Predictor, name: &str) -> &'a DictionaryWord {
    let i = p.index_of(name).expect("word in the model");
    &p.entries()[i]
}

#[test]
fn split_on_every_delimiter() {
    let words = word_split("a b,,c.\nd  e.");
    assert_eq!(words, vec!["a", "b", "c", "d", "e"]);
}

#[test]
fn split_empty_and_only_delimiters() {
    assert!(word_split("").is_empty());
    assert!(word_split(" ,.\n ").is_empty());
}

#[test]
fn split_keeps_other_punctuation_and_case() {
    assert_eq!(word_split("Hi! there;you"), vec!["Hi!", "there;you"]);
}

#[test]
fn split_rejoined_with_delimiters_gives_same_words() {
    let words = word_split("one two,three.four\nfive");
    for sep in [" ", "\n", ",", "."] {
        assert_eq!(word_split(&words.join(sep)), words);
    }
}

#[test]
fn split_rejoined_with_mixed_delimiters_gives_same_words() {
    let words = word_split("one two three four five");
    let seps = ["\n", ",", " ", "."];
    let mut text = words[0].clone();
    for (w, sep) in words[1..].iter().zip(seps.iter()) {
        text.push_str(sep);
        text.push_str(w);
    }
    assert_eq!(text, "one\ntwo,three four.five");
    assert_eq!(word_split(&text), words);
}

#[test]
fn dictionary_is_sorted_and_unique() {
    let words: Vec<String> = vec!["b", "a", "c", "a", "b"].into_iter().map(String::from).collect();
    let d = SortedDictionary::new(words);
    assert_eq!(d.words(), vec!["a", "b", "c"]);
    assert_eq!(d.len(), 3);
    assert_eq!(d.index_of("b"), Some(1));
    assert_eq!(d.index_of("z"), None);
}

#[test]
fn dictionary_of_nothing_is_empty() {
    let d = SortedDictionary::new(Vec::new());
    assert_eq!(d.len(), 0);
    assert_eq!(d.index_of("a"), None);
}

#[test]
fn words_compare_lexicographically() {
    assert_eq!(compare_words("a", "b"), Ordering::Less);
    assert_eq!(compare_words("ab", "a"), Ordering::Greater);
    assert_eq!(compare_words("abc", "abc"), Ordering::Equal);
    assert_eq!(compare_words("B", "a"), Ordering::Less);
}

#[test]
fn training_scenario() {
    let words = word_split("a b a c a b");
    assert_eq!(words, vec!["a", "b", "a", "c", "a", "b"]);
    let p = Predictor::create(&words);
    let names: Vec<&str> = p.entries().iter().map(|e| e.name.as_str()).collect();
    assert_eq!(names, vec!["a", "b", "c"]);
    let a = entry(&p, "a");
    assert_eq!(a.total, 3);
    assert_eq!(a.amounts, vec![0, 2, 1]);
    assert_eq!(entry(&p, "b").total, 1);
    assert_eq!(entry(&p, "b").amounts, vec![1, 0, 0]);
    assert_eq!(entry(&p, "c").total, 1);
    assert_eq!(entry(&p, "c").amounts, vec![1, 0, 0]);
}

#[test]
fn counts_are_conserved() {
    let words = word_split("the cat sat on the mat. the cat ran");
    let p = Predictor::create(&words);
    let mut all = 0u32;
    for e in p.entries() {
        assert_eq!(e.total, e.amounts.iter().sum::<u32>());
        all += e.total;
    }
    assert_eq!(all as usize, words.len() - 1);
}

#[test]
fn unknown_word_predicts_nothing() {
    let p = train("a b c");
    assert_eq!(p.predict_word("z"), None);
}

#[test]
fn terminal_word_predicts_nothing() {
    let p = train("a b");
    assert_eq!(p.predict_word("b"), None);
}

#[test]
fn single_choice_is_always_taken() {
    let p = train("a b a b");
    assert_eq!(entry(&p, "a").total, 2);
    let a = p.index_of("a").unwrap();
    assert_eq!(p.pick_by_draw(a, 0), Some("b".to_string()));
    assert_eq!(p.pick_by_draw(a, 1), Some("b".to_string()));
    for _ in 0..20 {
        assert_eq!(p.predict_word("a"), Some("b".to_string()));
    }
}

#[test]
fn draws_walk_the_running_sum() {
    let p = train("a b a c a b");
    let a = p.index_of("a").unwrap();
    assert_eq!(p.pick_by_draw(a, 0), Some("b".to_string()));
    assert_eq!(p.pick_by_draw(a, 1), Some("b".to_string()));
    assert_eq!(p.pick_by_draw(a, 2), Some("c".to_string()));
    assert_eq!(p.pick_by_draw(a, 3), None);
}

#[test]
fn predictions_have_been_seen() {
    let p = train("x y x z y x");
    for _ in 0..50 {
        let w = p.predict_word("x").unwrap();
        assert!(w == "y" || w == "z");
        assert_eq!(p.predict_word("y"), Some("x".to_string()));
    }
}

#[test]
fn empty_and_single_word_corpora() {
    let p = train("");
    assert!(p.entries().is_empty());
    assert_eq!(p.predict_word("a"), None);
    let q = train("solo");
    assert_eq!(entry(&q, "solo").total, 0);
    assert_eq!(entry(&q, "solo").amounts, vec![0]);
    assert_eq!(q.predict_word("solo"), None);
}

fn copy_entries(p: &Predictor) -> Vec<DictionaryWord> {
    p.entries()
        .iter()
        .map(|e| DictionaryWord { name: e.name.clone(), total: e.total, amounts: e.amounts.clone() })
        .collect()
}

#[test]
fn entries_of_a_model_make_the_same_model() {
    let p = train("a b a c a b");
    let q = Predictor::from_entries(copy_entries(&p)).expect("valid entries");
    assert_eq!(copy_entries(&q).len(), 3);
    for (x, y) in p.entries().iter().zip(q.entries().iter()) {
        assert_eq!(x.name, y.name);
        assert_eq!(x.total, y.total);
        assert_eq!(x.amounts, y.amounts);
    }
}

#[test]
fn malformed_entries_are_refused() {
    let p = train("a b a c a b");
    let mut e = copy_entries(&p);
    e[0].total += 1;
    assert!(Predictor::from_entries(e).is_none());
    let mut e = copy_entries(&p);
    e.swap(0, 1);
    assert!(Predictor::from_entries(e).is_none());
    let mut e = copy_entries(&p);
    e[2].amounts.pop();
    assert!(Predictor::from_entries(e).is_none());
}
