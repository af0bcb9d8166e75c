use language_alchemist::grapheme::{
    add_typed_graphemes, commit_typed_grapheme, not_in_inventory, Grapheme, GraphemeSet, GraphemeStorage,
};
use language_alchemist::lexicon::Lexicon;
use language_alchemist::synthesis::{LeafRule, SyllableVars};
use language_alchemist::translate::translate_text;
use language_alchemist::util::NonEmptyList;

fn texts(v: &[Grapheme]) -> Vec<String> {
    v.iter().map(|x| x.as_str().to_string()).collect()
}

#[test]
fn typed_text_splits_on_whitespace() {
    let mut list: Vec<Grapheme> = Vec::new();
    let mut input = "sh a  ch\tb".to_string();
    add_typed_graphemes(&mut list, &mut input);
    assert_eq!(texts(&list), vec!["sh", "a", "ch"]);
    assert_eq!(input, "b");
    commit_typed_grapheme(&mut list, &mut input);
    assert_eq!(texts(&list), vec!["sh", "a", "ch", "b"]);
    assert_eq!(input, "");
    commit_typed_grapheme(&mut list, &mut input);
    assert_eq!(list.len(), 4);
}

#[test]
fn typed_text_into_a_set_deduplicates() {
    let mut set = GraphemeSet::new();
    let mut input = "sh sh a ".to_string();
    add_typed_graphemes(&mut set, &mut input);
    assert_eq!(texts(&set.items), vec!["a", "sh"]);
    assert_eq!(input, "");
}

#[test]
fn inventory_check_flags_unknown_graphemes() {
    let mut master = GraphemeSet::new();
    master.add(Grapheme::new("a".to_string()));
    let a = Grapheme::new("a".to_string());
    let z = Grapheme::new("z".to_string());
    assert!(!not_in_inventory(&a, Some(&master)));
    assert!(not_in_inventory(&z, Some(&master)));
    assert!(!not_in_inventory(&z, None));
}

#[test]
fn text_translation_keeps_punctuation() {
    let mut l = Lexicon::new();
    l.insert("hello".to_string(), "kat".to_string());
    l.insert("world".to_string(), "mu".to_string());
    let vars = SyllableVars::new();
    let weights = (vec![100u16], vec![100u16]);
    assert_eq!(translate_text("Hello, World!", &mut l, &vars, &weights), "kat, mu!");
    assert_eq!(translate_text("hello world", &mut l, &vars, &weights), "kat mu");
    assert_eq!(translate_text("", &mut l, &vars, &weights), "");
    assert_eq!(l.len(), 2);
}

#[test]
fn text_translation_mints_each_new_word_once() {
    let mut l = Lexicon::new();
    let mut vars = SyllableVars::new();
    vars.roots.single = NonEmptyList::new(NonEmptyList::new(LeafRule::Sequence(
        vec![Grapheme::new("n".to_string()), Grapheme::new("u".to_string())],
        String::new(),
    )));
    let weights = (vec![100u16], vec![100u16]);
    assert_eq!(translate_text("Sun sun... 2 suns", &mut l, &vars, &weights), "nu nu... nu nu");
    assert_eq!(l.len(), 3);
    assert_eq!(l.get("2").map(|s| s.as_str()), Some("nu"));
}
