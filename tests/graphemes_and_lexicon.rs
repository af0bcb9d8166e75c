use language_alchemist::grapheme::{Grapheme, GraphemeSet, GraphemeStorage, MasterGraphemeStorage};
use language_alchemist::lexicon::{Lexicon, LexiconEditWindow, LexiconSearchMode};
use language_alchemist::synthesis::{LeafRule, SyllableVars};
use language_alchemist::translate::translate_word;
use language_alchemist::util::NonEmptyList;

fn g(s: &str) -> Grapheme {
    Grapheme::new(s.to_string())
}

fn texts(v: &[Grapheme]) -> Vec<String> {
    v.iter().map(|x| x.as_str().to_string()).collect()
}

#[test]
fn master_set_keeps_one_copy() {
    let mut set: MasterGraphemeStorage = GraphemeSet::new();
    set.add(g("sh"));
    set.add(g("sh"));
    assert_eq!(set.len(), 1);
    assert!(set.contains(&g("sh")));
}

#[test]
fn ordered_list_keeps_duplicates() {
    let mut list: Vec<Grapheme> = Vec::new();
    list.add(g("sh"));
    list.add(g("sh"));
    assert_eq!(list.len(), 2);
    assert!(GraphemeStorage::contains(&list, &g("sh")));
}

#[test]
fn master_set_is_sorted() {
    let mut set = GraphemeSet::new();
    for s in ["t", "ch", "a", "sh", "b", "c"] {
        set.add(g(s));
    }
    assert_eq!(texts(&set.items), vec!["a", "b", "c", "ch", "sh", "t"]);
}

#[test]
fn update_removes_rejected_graphemes() {
    let mut set = GraphemeSet::new();
    let mut list: Vec<Grapheme> = Vec::new();
    for s in ["a", "b", "c", "b"] {
        set.add(g(s));
        list.add(g(s));
    }
    set.update(|x: &Grapheme| x.as_str() != "b");
    list.update(|x: &Grapheme| x.as_str() != "b");
    assert_eq!(texts(&set.items), vec!["a", "c"]);
    assert_eq!(texts(&list), vec!["a", "c"]);
    assert!(!GraphemeStorage::is_empty(&set));
    set.update(|_: &Grapheme| false);
    assert!(GraphemeStorage::is_empty(&set));
    assert!(!set.contains(&g("a")));
}

fn lexicon(pairs: &[(&str, &str)]) -> Lexicon {
    let mut l = Lexicon::new();
    for (k, v) in pairs {
        l.insert(k.to_string(), v.to_string());
    }
    l
}

#[test]
fn lexicon_insert_get_remove() {
    let mut l = lexicon(&[("dog", "kat"), ("cat", "mip")]);
    assert_eq!(l.get("dog").map(|s| s.as_str()), Some("kat"));
    l.insert("dog".to_string(), "tok".to_string());
    assert_eq!(l.len(), 2);
    assert_eq!(l.get("dog").map(|s| s.as_str()), Some("tok"));
    l.remove("dog");
    assert!(l.get("dog").is_none());
    assert_eq!(l.len(), 1);
    l.remove("bird");
    assert_eq!(l.len(), 1);
}

#[test]
fn search_mode_matches_substrings() {
    assert!(LexiconSearchMode::Native.matches("hello", "kat", "ell"));
    assert!(!LexiconSearchMode::Native.matches("hello", "kat", "kat"));
    assert!(LexiconSearchMode::Conlang.matches("hello", "kat", "at"));
    assert!(LexiconSearchMode::Conlang.matches("hello", "kat", ""));
    assert!(!LexiconSearchMode::Conlang.matches("hello", "kat", "kata"));
    assert_eq!(LexiconSearchMode::default(), LexiconSearchMode::Native);
}

#[test]
fn edit_window_renames_an_entry() {
    let mut l = lexicon(&[("dog", "kat"), ("cat", "mip")]);
    let mut w = LexiconEditWindow::edit_entry("dog", &l);
    assert_eq!(w.conlang_phrase, "kat");
    w.set_native_phrase("cat".to_string(), &l);
    assert_eq!(w.overwrite_warning.as_deref(), Some("Already mapped to <mip>"));
    assert!(!w.can_edit_lexicon());
    assert!(!w.apply(&mut l));
    w.set_native_phrase("hound".to_string(), &l);
    assert!(w.can_edit_lexicon());
    assert!(w.apply(&mut l));
    assert!(l.get("dog").is_none());
    assert_eq!(l.get("hound").map(|s| s.as_str()), Some("kat"));
    w.delete(&mut l);
    assert!(l.get("dog").is_none());
    assert_eq!(l.len(), 2);
}

#[test]
fn new_entry_window_adds() {
    let mut l = Lexicon::new();
    let mut w = LexiconEditWindow::new_entry();
    assert!(!w.can_edit_lexicon());
    w.set_native_phrase("sun".to_string(), &l);
    w.conlang_phrase = "ra".to_string();
    assert!(w.apply(&mut l));
    assert_eq!(l.get("sun").map(|s| s.as_str()), Some("ra"));
}

#[test]
fn translate_word_uses_the_lowercase_entry() {
    let mut l = lexicon(&[("hello", "kat")]);
    let vars = SyllableVars::new();
    let weights = (vec![100u16], vec![100u16]);
    assert_eq!(translate_word("HeLLo", &mut l, &vars, &weights), "kat");
    assert_eq!(l.len(), 1);
}

#[test]
fn translate_word_mints_and_records_new_words() {
    let mut l = Lexicon::new();
    let mut vars = SyllableVars::new();
    vars.roots.single = NonEmptyList::new(NonEmptyList::new(LeafRule::Sequence(
        vec![g("n"), g("u")],
        String::new(),
    )));
    let weights = (vec![0u16, 100u16], vec![100u16]);
    assert_eq!(translate_word("Sun", &mut l, &vars, &weights), "nu");
    assert_eq!(l.get("sun").map(|s| s.as_str()), Some("nu"));
    assert!(l.get("Sun").is_none());
}
