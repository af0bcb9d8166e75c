use language_alchemist::grammar::{
    load_grammar_serde_metadata, recompute_pattern_labels, save_grammar_serde_metadata, FindPattern,
    GrammarRule, GrammarTab, PatternType, PhraseType, ReplacePattern, WordType,
};
use language_alchemist::util::Reordering;

fn labels(rule: &GrammarRule) -> Vec<String> {
    rule.find_patterns.iter().map(|p| p.label.clone()).collect()
}

fn short_labels(rule: &GrammarRule) -> Vec<String> {
    rule.find_patterns.iter().map(|p| p.short_label.clone()).collect()
}

fn noun() -> PatternType {
    PatternType::Word(WordType::Noun)
}

fn verb() -> PatternType {
    PatternType::Word(WordType::Verb)
}

#[test]
fn unique_patterns_get_plain_labels() {
    let mut rule = GrammarRule::new();
    rule.push_find_pattern(noun());
    rule.push_find_pattern(verb());
    assert_eq!(short_labels(&rule), vec!["Noun", "Verb"]);
    assert_eq!(labels(&rule), vec!["Noun", "Verb"]);
}

#[test]
fn duplicate_patterns_are_numbered_in_order() {
    let mut rule = GrammarRule::new();
    rule.push_find_pattern(noun());
    rule.push_find_pattern(verb());
    rule.push_find_pattern(noun());
    rule.push_find_pattern(noun());
    assert_eq!(short_labels(&rule), vec!["Noun 1", "Verb", "Noun 2", "Noun 3"]);
}

#[test]
fn modifiers_change_label_and_class() {
    let mut rule = GrammarRule::new();
    rule.push_find_pattern(noun());
    rule.push_find_pattern(noun());
    rule.push_find_pattern(noun());
    rule.push_find_pattern(PatternType::Phrase(PhraseType::Argument));
    rule.set_modifiers(0, true, true);
    rule.set_modifiers(1, true, false);
    rule.set_modifiers(3, false, true);
    assert_eq!(short_labels(&rule), vec!["Noun*", "Noun+", "Noun", "Arg?"]);
    rule.set_modifiers(0, false, false);
    assert_eq!(short_labels(&rule), vec!["Noun 1", "Noun+", "Noun 2", "Arg?"]);
}

#[test]
fn literal_label_is_quoted() {
    let mut rule = GrammarRule::new();
    rule.push_find_pattern(PatternType::Literal("the".to_string()));
    rule.push_find_pattern(PatternType::Literal("the".to_string()));
    rule.push_find_pattern(PatternType::Literal("a".to_string()));
    assert_eq!(short_labels(&rule), vec!["\"the\" 1", "\"the\" 2", "\"a\""]);
}

#[test]
fn deep_matches_nest_in_full_label_and_share_counters() {
    let mut rule = GrammarRule::new();
    rule.push_find_pattern(PatternType::Phrase(PhraseType::Clause));
    rule.push_find_pattern(noun());
    rule.add_deep_match(0, noun());
    rule.add_deep_match(0, verb());
    // forest order: Clause, Noun (child), Verb (child), Noun (root)
    assert_eq!(short_labels(&rule), vec!["Clause", "Noun 1", "Verb", "Noun 2"]);
    assert_eq!(labels(&rule), vec!["Clause { Noun 1 Verb }", "Noun 1", "Verb", "Noun 2"]);
    assert_eq!(rule.find_patterns[1].depth, 1);
    assert_eq!(rule.find_patterns[3].depth, 0);
}

#[test]
fn nested_deep_matches_label_recursively() {
    let mut rule = GrammarRule::new();
    rule.push_find_pattern(PatternType::Phrase(PhraseType::Clause));
    rule.add_deep_match(0, PatternType::Phrase(PhraseType::Action));
    rule.add_deep_match(1, verb());
    rule.add_deep_match(0, noun());
    assert_eq!(labels(&rule)[0], "Clause { Action { Verb } Noun }");
    assert_eq!(labels(&rule)[1], "Action { Verb }");
}

#[test]
fn recomputing_labels_twice_changes_nothing() {
    let mut rule = GrammarRule::new();
    rule.push_find_pattern(noun());
    rule.push_find_pattern(noun());
    rule.add_deep_match(1, PatternType::Literal("x".to_string()));
    let first = (labels(&rule), short_labels(&rule));
    recompute_pattern_labels(&mut rule);
    recompute_pattern_labels(&mut rule);
    assert_eq!((labels(&rule), short_labels(&rule)), first);
}

#[test]
fn insert_find_pattern_goes_in_front() {
    let mut rule = GrammarRule::new();
    rule.push_find_pattern(noun());
    rule.insert_find_pattern(0, verb());
    assert_eq!(short_labels(&rule), vec!["Verb", "Noun"]);
}

#[test]
fn capture_survives_save_and_load() {
    let mut rule = GrammarRule::new();
    rule.push_find_pattern(noun());
    rule.push_find_pattern(verb());
    let capture = rule.capture(0);
    rule.push_replace_pattern(capture);
    let mut rules = vec![rule];
    save_grammar_serde_metadata(&mut rules);
    match &rules[0].replace_patterns[0] {
        ReplacePattern::Capture { serde_label, .. } => assert_eq!(serde_label, "Noun"),
        ReplacePattern::Literal(_) => panic!("expected a capture"),
    }
    load_grammar_serde_metadata(&mut rules);
    let rule = &rules[0];
    assert!(rule.replace_patterns[0].is_valid(rule));
    assert_eq!(rule.replace_patterns[0].as_dbg_text(rule), "Noun");
}

#[test]
fn load_of_unknown_label_leaves_capture_unresolved() {
    let mut rule = GrammarRule::new();
    rule.push_find_pattern(noun());
    rule.push_replace_pattern(ReplacePattern::Capture { capture: None, serde_label: "Verb".to_string() });
    let mut rules = vec![rule];
    load_grammar_serde_metadata(&mut rules);
    let rule = &rules[0];
    assert!(!rule.replace_patterns[0].is_valid(rule));
    assert_eq!(rule.replace_patterns[0].as_dbg_text(rule), "");
}

#[test]
fn load_resolves_a_nested_pattern() {
    let mut rule = GrammarRule::new();
    rule.push_find_pattern(PatternType::Phrase(PhraseType::Clause));
    rule.add_deep_match(0, verb());
    rule.push_replace_pattern(ReplacePattern::Capture { capture: None, serde_label: "Verb".to_string() });
    let mut rules = vec![rule];
    load_grammar_serde_metadata(&mut rules);
    let rule = &rules[0];
    match &rule.replace_patterns[0] {
        ReplacePattern::Capture { capture, .. } => assert_eq!(*capture, Some(rule.find_patterns[1].node_id)),
        ReplacePattern::Literal(_) => panic!("expected a capture"),
    }
}

#[test]
fn deleting_a_captured_pattern_unresolves_the_capture() {
    let mut rule = GrammarRule::new();
    rule.push_find_pattern(noun());
    rule.push_find_pattern(verb());
    rule.push_find_pattern(PatternType::Phrase(PhraseType::Relation));
    let capture = rule.capture(1);
    rule.push_replace_pattern(capture);
    rule.delete_find_pattern(2);
    assert!(rule.replace_patterns[0].is_valid(&rule));
    assert_eq!(rule.replace_patterns[0].as_dbg_text(&rule), "Verb");
    rule.delete_find_pattern(1);
    assert!(!rule.replace_patterns[0].is_valid(&rule));
    assert_eq!(rule.replace_patterns[0].as_dbg_text(&rule), "");
    assert_eq!(short_labels(&rule), vec!["Noun"]);
}

#[test]
fn deleting_a_parent_removes_its_children_and_their_captures() {
    let mut rule = GrammarRule::new();
    rule.push_find_pattern(PatternType::Phrase(PhraseType::Clause));
    rule.add_deep_match(0, noun());
    rule.push_find_pattern(verb());
    let capture = rule.capture(1);
    rule.push_replace_pattern(capture);
    rule.delete_find_pattern(0);
    assert_eq!(short_labels(&rule), vec!["Verb"]);
    assert!(!rule.replace_patterns[0].is_valid(&rule));
}

#[test]
fn new_patterns_do_not_revive_deleted_captures() {
    let mut rule = GrammarRule::new();
    rule.push_find_pattern(noun());
    let capture = rule.capture(0);
    rule.push_replace_pattern(capture);
    rule.delete_find_pattern(0);
    rule.push_find_pattern(noun());
    assert!(!rule.replace_patterns[0].is_valid(&rule));
}

#[test]
fn literal_replace_pattern_text() {
    let rule = GrammarRule::new();
    let literal = ReplacePattern::Literal("word".to_string());
    assert!(literal.is_valid(&rule));
    assert_eq!(literal.as_dbg_text(&rule), "\"word\"");
}

#[test]
fn replace_patterns_insert_and_delete() {
    let mut rule = GrammarRule::new();
    rule.push_find_pattern(noun());
    assert!(!rule.is_complete());
    rule.push_replace_pattern(ReplacePattern::Literal("b".to_string()));
    rule.insert_replace_pattern(0, ReplacePattern::Literal("a".to_string()));
    assert!(rule.is_complete());
    assert_eq!(rule.replace_patterns[0].as_dbg_text(&rule), "\"a\"");
    rule.delete_replace_pattern(0);
    assert_eq!(rule.replace_patterns.len(), 1);
    assert_eq!(rule.replace_patterns[0].as_dbg_text(&rule), "\"b\"");
}

#[test]
fn find_pattern_new_and_id() {
    let p = FindPattern::new(noun());
    assert!(!p.multimatch && !p.optional);
    assert_eq!(p.depth, 0);
    let (ty, multimatch, optional) = p.id();
    assert!(ty.same_as(&noun()));
    assert!(!multimatch && !optional);
    let mut q = FindPattern::new(PatternType::Literal("x".to_string()));
    q.compute_label(1, 3);
    assert_eq!(q.short_label, "\"x\" 2");
}

#[test]
fn type_names() {
    assert_eq!(WordType::NounModifier.name(), "Noun Modifier");
    assert_eq!(WordType::NounModifier.short_name(), "NM");
    assert_eq!(WordType::Adposition.short_name(), "Adp");
    assert_eq!(WordType::iter().len(), 8);
    assert_eq!(PhraseType::Argument.name(), "Argument Phrase");
    assert_eq!(PhraseType::Relation.short_name(), "Rel");
    assert_eq!(PhraseType::iter(), vec![PhraseType::Action, PhraseType::Argument, PhraseType::Clause, PhraseType::Relation]);
}

#[test]
fn grammar_tab_rules() {
    let mut tab = GrammarTab::new();
    tab.add_rule();
    tab.add_rule();
    tab.add_rule();
    tab.grammar_rules[0].push_find_pattern(noun());
    tab.grammar_rules[2].push_find_pattern(verb());
    tab.move_rule(&Reordering { from_index: 0, to_index: 3 });
    assert_eq!(tab.grammar_rules[2].find_patterns[0].short_label, "Noun");
    assert_eq!(tab.grammar_rules[1].find_patterns[0].short_label, "Verb");
    tab.delete_rule(0);
    assert_eq!(tab.grammar_rules.len(), 2);
}
