use cipher_segment::{frequencies, words, Words};

#[test]
fn words_are_lowercased_letter_runs() {
    assert_eq!(
        words("Don't stop-believing, it's 3AM!"),
        vec!["don't", "stop", "believing", "it's", "am"]
    );
}

#[test]
fn words_keep_inner_apostrophes_only() {
    assert_eq!(words("'quoted' can't've o'' x'y"), vec!["quoted", "can't've", "o", "x'y"]);
}

#[test]
fn words_of_empty_or_non_letters() {
    assert!(words("").is_empty());
    assert!(words("123 -- ... 'é'").is_empty());
    assert_eq!(words("café"), vec!["caf"]);
}

#[test]
fn frequencies_count_each_word() {
    let ws = vec!["a".to_string(), "b".to_string(), "a".to_string(), "c".to_string(), "a".to_string()];
    let f = frequencies(ws);
    assert_eq!(f, vec![("a".to_string(), 3), ("b".to_string(), 1), ("c".to_string(), 1)]);
    assert!(frequencies(Vec::new()).is_empty());
}

#[test]
fn model_scores_known_and_unknown_words() {
    let model = Words::new("the cat sat on the mat");
    assert_eq!(model.score("the"), 2);
    assert_eq!(model.score("cat"), 1);
    assert_eq!(model.score("on"), 1);
    // Unknown: -10 * len in units of 1/N, N = 6.
    assert_eq!(model.score("xyz"), -180);
    assert_eq!(model.score("x"), -60);
    assert_eq!(model.score(""), 0);
    assert_eq!(model.entries().len(), 5);
}

#[test]
fn empty_model_penalises_by_length() {
    let model = Words::new("");
    assert_eq!(model.score("ab"), -20);
    assert!(model.entries().is_empty());
}

#[test]
fn every_token_scores_and_frequency_orders_scores() {
    let corpus = "a a a b b c dd ee ee";
    let model = Words::new(corpus);
    for w in words(corpus) {
        assert!(model.score(&w) >= 1);
    }
    assert!(model.score("a") > model.score("b"));
    assert!(model.score("b") > model.score("c"));
    assert!(model.score("c") > model.score("z"));
    assert!(model.score("ee") > model.score("dd"));
    assert_eq!(model.max_len(), 2);
}

#[test]
fn entries_round_trip() {
    let model = Words::new("one two two three three three");
    let mut entries = model.entries().clone();
    entries.reverse();
    let back = Words::from_entries(entries).expect("distinct keys");
    for w in ["one", "two", "three", "four"] {
        assert_eq!(back.score(w), model.score(w));
    }
    assert_eq!(back.max_len(), 5);
}

#[test]
fn from_entries_rejects_duplicates_and_overflow() {
    let dup = vec![("a".to_string(), 1u64), ("b".to_string(), 2), ("a".to_string(), 3)];
    assert!(Words::from_entries(dup).is_none());
    let big = vec![("a".to_string(), u64::MAX), ("b".to_string(), 1)];
    assert!(Words::from_entries(big).is_none());
    let empty = Words::from_entries(Vec::new()).expect("empty model");
    assert_eq!(empty.max_len(), 1);
}

#[test]
fn by_frequency_orders_most_frequent_first() {
    let f = frequencies(words("c b a b c c d"));
    let sorted = cipher_segment::by_frequency(f);
    let counts: Vec<usize> = sorted.iter().map(|e| e.1).collect();
    assert_eq!(counts, vec![3, 2, 1, 1]);
    assert_eq!(sorted[0].0, "c");
    assert_eq!(sorted[1].0, "b");
    let mut rest: Vec<&str> = sorted[2..].iter().map(|e| e.0.as_str()).collect();
    rest.sort();
    assert_eq!(rest, vec!["a", "d"]);
    assert!(cipher_segment::by_frequency(Vec::new()).is_empty());
}
