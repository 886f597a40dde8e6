use cipher_segment::{segment_str, Words};

fn cat_model() -> Words {
    Words::new("the cat sat on the mat")
}

#[test]
fn segments_known_sentence() {
    let model = cat_model();
    assert_eq!(model.max_len(), 3);
    assert_eq!(segment_str("thecatsatonthemat", &model), "the cat sat on the mat");
}

#[test]
fn unknown_letters_split_one_by_one() {
    let model = cat_model();
    assert_eq!(segment_str("xyz", &model), "x y z");
}

#[test]
fn empty_text_gives_empty_result() {
    assert_eq!(segment_str("", &cat_model()), "");
    assert_eq!(segment_str("", &Words::new("")), "");
    assert_eq!(segment_str("  ,.! 42", &cat_model()), "");
}

#[test]
fn empty_model_splits_every_letter() {
    let empty = Words::new("");
    assert_eq!(empty.max_len(), 1);
    assert_eq!(segment_str("ab", &empty), "a b");
    assert_eq!(segment_str("Hello", &empty), "h e l l o");
}

#[test]
fn keeps_letters_and_drops_the_rest() {
    let model = cat_model();
    let text = "The Cat, sat -- on 1 THE mat!";
    let out = segment_str(text, &model);
    assert_eq!(out, "the cat sat on the mat");
    let stripped: String = out.chars().filter(|c| *c != ' ').collect();
    let letters: String = text
        .chars()
        .filter(|c| c.is_ascii_alphabetic())
        .map(|c| c.to_ascii_lowercase())
        .collect();
    assert_eq!(stripped, letters);
}

#[test]
fn letters_kept_with_unknown_words() {
    let model = cat_model();
    let text = "quickthecatjumps";
    let out = segment_str(text, &model);
    let stripped: String = out.chars().filter(|c| *c != ' ').collect();
    assert_eq!(stripped, text);
}

#[test]
fn same_input_same_output() {
    let model = cat_model();
    let a = segment_str("onthematthecatsat", &model);
    let b = segment_str("onthematthecatsat", &model);
    assert_eq!(a, b);
    assert_eq!(a, "on the mat the cat sat");
}

#[test]
fn resegmenting_is_stable() {
    let model = cat_model();
    for text in ["thecatsatonthemat", "xyzthecat", "matonsat", "qq"] {
        let out = segment_str(text, &model);
        let stripped: String = out.chars().filter(|c| *c != ' ').collect();
        assert_eq!(segment_str(&stripped, &model), out);
        assert_eq!(segment_str(&out, &model), out);
    }
}

#[test]
fn ties_go_to_the_shorter_last_word() {
    // "ab" scores 2 as one word and 1 + 1 as two: the shorter last word wins the tie.
    let model = Words::new("ab ab a b");
    assert_eq!(segment_str("ab", &model), "a b");
    // With "ab" more frequent than "a" and "b" together, it is kept whole.
    let model = Words::new("ab ab ab a b");
    assert_eq!(segment_str("ab", &model), "ab");
}

#[test]
fn long_unknown_word_is_fragmented() {
    let model = Words::new("a bb");
    assert_eq!(model.max_len(), 2);
    assert_eq!(segment_str("abba", &model), "a bb a");
}

#[test]
fn fits_len_accepts_ordinary_sizes() {
    let model = cat_model();
    assert!(model.fits_len(1_000_000));
    assert!(model.fits_len(usize::MAX));
    let huge = Words::from_entries(vec![("a".to_string(), u64::MAX)]).unwrap();
    assert!(huge.fits_len(1_000_000));
    assert!(!huge.fits_len(usize::MAX));
}

#[test]
fn segments_with_counts_near_the_limit() {
    let model = Words::from_entries(vec![("ab".to_string(), u64::MAX - 1), ("a".to_string(), 1)]).unwrap();
    assert!(!model.fits_len(usize::MAX));
    assert_eq!(segment_str("abab", &model), "ab ab");
    assert_eq!(segment_str("aba", &model), "ab a");
    assert_eq!(segment_str("abz", &model), "ab z");
}
