use cipher_segment::{CipherConfig, CipherError, LangMeta};

#[test]
fn new_config_is_empty() {
    let cfg = CipherConfig::new();
    assert_eq!(cfg.selected_lang(), None);
    assert!(cfg.lang_names().is_empty());
    assert_eq!(cfg.selected_id(), Err(CipherError::NoLangSelected));
}

#[test]
fn add_select_and_look_up() {
    let mut cfg = CipherConfig::new();
    assert_eq!(cfg.add_lang("  english ", 26, vec![26, 52]), Ok(0));
    assert_eq!(cfg.add_lang("english", 26, vec![]), Err(CipherError::LangAlreadyExists));
    assert_eq!(cfg.lang_names(), vec!["english".to_string()]);
    let meta = cfg.lang_meta(" english\t").expect("present");
    assert_eq!(meta.primary, 26);
    assert_eq!(meta.alphabets, vec![26, 52]);
    assert!(cfg.lang_meta("french").is_none());
    assert_eq!(cfg.set_selected("french"), Err(CipherError::LangNotFound));
    assert_eq!(cfg.selected_lang(), None);
    assert_eq!(cfg.set_selected(" english "), Ok(()));
    assert_eq!(cfg.selected_lang(), Some("english"));
    assert_eq!(cfg.lang_id("english"), Ok(0));
    assert_eq!(cfg.selected_id(), Ok(0));
}

#[test]
fn new_ids_follow_the_largest_in_use() {
    let mut cfg = CipherConfig::new();
    let langs = vec![
        ("a".to_string(), LangMeta { id: 4, primary: 1, alphabets: vec![] }),
        ("b".to_string(), LangMeta { id: 9, primary: 1, alphabets: vec![] }),
    ];
    cfg = CipherConfig::from_parts(None, langs).expect("distinct");
    assert_eq!(cfg.add_lang("c", 3, vec![3]), Ok(10));
    assert_eq!(cfg.lang_id("c"), Ok(10));
    assert_eq!(cfg.lang_id("b"), Ok(9));
    assert_eq!(cfg.lang_id(" a"), Ok(4));
    assert_eq!(cfg.add_lang("d", 3, vec![3]), Ok(11));
}

#[test]
fn ids_never_repeat() {
    let mut cfg = CipherConfig::new();
    assert_eq!(cfg.add_lang("x", 1, vec![]), Ok(0));
    assert_eq!(cfg.add_lang("y", 1, vec![]), Ok(1));
    assert_eq!(cfg.add_lang("z", 1, vec![]), Ok(2));
    assert_eq!(cfg.rm_lang("y"), Ok(1));
    assert_eq!(cfg.add_lang("w", 1, vec![]), Ok(3));
}

#[test]
fn ids_exhausted() {
    let langs = vec![("a".to_string(), LangMeta { id: usize::MAX, primary: 1, alphabets: vec![] })];
    let mut cfg = CipherConfig::from_parts(None, langs).expect("distinct");
    assert_eq!(cfg.add_lang("b", 1, vec![]), Err(CipherError::IdsExhausted));
    assert_eq!(cfg.lang_names(), vec!["a".to_string()]);
    assert_eq!(CipherError::IdsExhausted.message(), "No free language id is left");
}

#[test]
fn lang_or_selected_falls_back() {
    let mut cfg = CipherConfig::new();
    cfg.add_lang("x", 1, vec![]).unwrap();
    assert_eq!(cfg.lang_id_or_selected(Some("y")), Err(CipherError::NoLangSelected));
    cfg.set_selected("x").unwrap();
    assert_eq!(cfg.lang_id_or_selected(Some("y")), Ok(0));
    assert_eq!(cfg.lang_id_or_selected(Some("x")), Ok(0));
    assert_eq!(cfg.lang_id_or_selected(None), Ok(0));
}

#[test]
fn remove_clears_selection() {
    let mut cfg = CipherConfig::new();
    cfg.add_lang("x", 1, vec![]).unwrap();
    cfg.add_lang("y", 1, vec![]).unwrap();
    cfg.set_selected("x").unwrap();
    assert_eq!(cfg.rm_lang("z"), Err(CipherError::LangNotFound));
    assert_eq!(cfg.rm_lang(" y "), Ok(1));
    assert_eq!(cfg.selected_lang(), Some("x"));
    assert_eq!(cfg.rm_lang("x"), Ok(0));
    assert_eq!(cfg.selected_lang(), None);
    assert!(cfg.lang_names().is_empty());
}

#[test]
fn set_primary_alphabet() {
    let mut cfg = CipherConfig::new();
    assert_eq!(cfg.set_primary_alph(None, 5), Err(CipherError::NoLangSelected));
    assert_eq!(cfg.set_primary_alph(Some("x"), 5), Err(CipherError::LangNotFound));
    cfg.add_lang("x", 26, vec![26]).unwrap();
    assert_eq!(cfg.set_primary_alph(Some(" x"), 20), Ok(0));
    assert_eq!(cfg.lang_meta("x").unwrap().primary, 20);
    cfg.set_selected("x").unwrap();
    assert_eq!(cfg.set_primary_alph(None, 24), Ok(0));
    assert_eq!(cfg.lang_meta("x").unwrap().primary, 24);
    assert_eq!(cfg.lang_meta("x").unwrap().alphabets, vec![26]);
}

#[test]
fn from_parts_rejects_duplicate_names() {
    let langs = vec![
        ("a".to_string(), LangMeta { id: 0, primary: 1, alphabets: vec![] }),
        ("a".to_string(), LangMeta { id: 1, primary: 1, alphabets: vec![] }),
    ];
    assert!(CipherConfig::from_parts(None, langs).is_none());
    let cfg = CipherConfig::from_parts(Some("a".to_string()), Vec::new()).unwrap();
    assert_eq!(cfg.selected_lang(), Some("a"));
    assert_eq!(cfg.langs().len(), 0);
}

#[test]
fn error_messages() {
    assert_eq!(CipherError::LangAlreadyExists.message(), "Lang name already exists");
    assert_eq!(CipherError::LangNotFound.message(), "Lang with specified name did not exist");
    assert_eq!(
        CipherError::NoLangSelected.message(),
        "No language was selected.\n\ttry `cipher lang set -n <name>`"
    );
}

#[test]
fn load_uses_stored_parts_or_default() {
    let cfg = CipherConfig::load(None);
    assert_eq!(cfg.selected_lang(), None);
    assert!(cfg.lang_names().is_empty());
    let stored = vec![("en".to_string(), LangMeta { id: 2, primary: 26, alphabets: vec![26] })];
    let cfg = CipherConfig::load(Some((Some("en".to_string()), stored)));
    assert_eq!(cfg.selected_lang(), Some("en"));
    assert_eq!(cfg.lang_id("en"), Ok(2));
    let dup = vec![
        ("en".to_string(), LangMeta { id: 0, primary: 1, alphabets: vec![] }),
        ("en".to_string(), LangMeta { id: 1, primary: 1, alphabets: vec![] }),
    ];
    let cfg = CipherConfig::load(Some((Some("en".to_string()), dup)));
    assert_eq!(cfg.selected_lang(), None);
    assert!(cfg.lang_names().is_empty());
}

#[test]
fn names_are_trimmed_of_unicode_white_space() {
    let mut cfg = CipherConfig::new();
    assert_eq!(cfg.add_lang("\u{3000}english\u{a0}", 26, vec![26]), Ok(0));
    assert_eq!(cfg.lang_names(), vec!["english".to_string()]);
    assert_eq!(cfg.set_selected("\u{2003}english\n"), Ok(()));
    assert_eq!(cfg.selected_lang(), Some("english"));
}
