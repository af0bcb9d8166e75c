use language_alchemist::grapheme::{Grapheme, GraphemeSet, GraphemeStorage};
use language_alchemist::synthesis::{
    empty_rule, is_config_valid, synthesize_from_picks, synthesize_morpheme, verify_weights, AndRule,
    LeafRule, OrRule, SyllableVars, SynthesisTab,
};
use language_alchemist::util::{EditMode, NonEmptyList};

fn graphemes(parts: &[&str]) -> Vec<Grapheme> {
    parts.iter().map(|p| Grapheme::new(p.to_string())).collect()
}

fn leaf_rule(leaf: LeafRule) -> OrRule {
    NonEmptyList::new(NonEmptyList::new(leaf))
}

fn sequence(parts: &[&str]) -> LeafRule {
    LeafRule::Sequence(graphemes(parts), String::new())
}

fn one_of(parts: &[&str]) -> LeafRule {
    let mut set = GraphemeSet::new();
    for p in parts {
        set.add(Grapheme::new(p.to_string()));
    }
    LeafRule::OneOf(set, String::new())
}

fn variable(name: &str) -> LeafRule {
    LeafRule::Variable(name.to_string())
}

fn reachable_names(vars: &SyllableVars) -> Vec<String> {
    let mut names = vars.reachable.clone();
    names.sort();
    names
}

fn var_names(vars: &SyllableVars) -> Vec<String> {
    vars.vars.iter().map(|(n, _)| n.clone()).collect()
}

#[test]
fn reachable_follows_variables_from_roots() {
    let mut vars = SyllableVars::new();
    vars.roots.single = leaf_rule(variable("X"));
    vars.vars.push(("X".to_string(), leaf_rule(sequence(&["a"]))));
    vars.vars.push(("Y".to_string(), leaf_rule(sequence(&["b"]))));
    vars.flag_reachable_vars();
    assert_eq!(reachable_names(&vars), vec!["X"]);
}

#[test]
fn reachable_is_transitive_and_ignores_cycles() {
    let mut vars = SyllableVars::new();
    vars.roots.initial = leaf_rule(variable("A"));
    let mut a_rule: AndRule = NonEmptyList::new(variable("B"));
    a_rule.tail.push(variable("A"));
    vars.vars.push(("A".to_string(), NonEmptyList::new(a_rule)));
    let mut b_rule: OrRule = leaf_rule(variable("C"));
    b_rule.tail.push(NonEmptyList::new(variable("A")));
    vars.vars.push(("B".to_string(), b_rule));
    vars.vars.push(("Z".to_string(), leaf_rule(variable("W"))));
    vars.flag_reachable_vars();
    assert_eq!(reachable_names(&vars), vec!["A", "B", "C"]);
}

#[test]
fn unreachable_empty_variables_are_pruned() {
    let mut vars = SyllableVars::new();
    vars.roots.single = leaf_rule(variable("X"));
    vars.vars.push(("X".to_string(), leaf_rule(sequence(&["a"]))));
    vars.vars.push(("Y".to_string(), empty_rule()));
    vars.vars.push(("Z".to_string(), empty_rule()));
    vars.roots.middle = leaf_rule(variable("Z"));
    vars.refresh_vars();
    assert_eq!(reachable_names(&vars), vec!["X", "Z"]);
    assert_eq!(var_names(&vars), vec!["X", "Z"]);
}

#[test]
fn unreachable_variables_with_content_are_kept() {
    let mut vars = SyllableVars::new();
    vars.roots.single = leaf_rule(variable("X"));
    vars.vars.push(("X".to_string(), leaf_rule(sequence(&["a"]))));
    vars.vars.push(("Y".to_string(), leaf_rule(sequence(&["b"]))));
    vars.refresh_vars();
    assert_eq!(reachable_names(&vars), vec!["X"]);
    assert_eq!(var_names(&vars), vec!["X", "Y"]);
}

#[test]
fn declare_var_adds_only_new_names() {
    let mut vars = SyllableVars::new();
    vars.declare_var("X".to_string());
    vars.declare_var("X".to_string());
    vars.declare_var("SingleSyllable".to_string());
    assert_eq!(var_names(&vars), vec!["X"]);
    assert!(!vars.vars[0].1.head.head.initialized());
    assert!(vars.get(&"X".to_string()).is_some());
    assert!(vars.get(&"InitialSyllable".to_string()).is_some());
    assert!(vars.get(&"Q".to_string()).is_none());
}

#[test]
fn weights_must_sum_to_one_hundred() {
    assert!(verify_weights(&[40, 30, 30]));
    assert!(!verify_weights(&[40, 30, 20]));
    assert!(!verify_weights(&[]));
    assert!(verify_weights(&[100]));
    assert!(!verify_weights(&[60000, 60000]));
    assert!(verify_weights(&[0, 100, 0]));
}

fn tab(function: Vec<u16>, content: Vec<u16>) -> SynthesisTab {
    SynthesisTab {
        graphemes: GraphemeSet::new(),
        syllable_vars: SyllableVars::new(),
        max_syllables: (function.len() as u8, content.len() as u8),
        syllable_wgts: (function, content),
        test_words: Vec::new(),
        new_grapheme: String::new(),
        syllable_edit_mode: EditMode::View,
    }
}

#[test]
fn config_valid_needs_both_weight_lists() {
    assert!(is_config_valid(&tab(vec![100], vec![50, 50])));
    assert!(!is_config_valid(&tab(vec![100], vec![50, 40])));
    assert!(!is_config_valid(&tab(vec![90], vec![50, 50])));
}

#[test]
fn one_syllable_word_uses_the_single_root() {
    let mut vars = SyllableVars::new();
    vars.roots.single = leaf_rule(sequence(&["k", "a", "t"]));
    for _ in 0..20 {
        assert_eq!(synthesize_morpheme(&vars, &[100]), "kat");
    }
}

#[test]
fn two_syllable_word_has_no_middle_syllable() {
    let mut vars = SyllableVars::new();
    vars.roots.initial = leaf_rule(sequence(&["p", "a"]));
    vars.roots.middle = leaf_rule(sequence(&["x"]));
    vars.roots.terminal = leaf_rule(sequence(&["t", "o"]));
    for _ in 0..20 {
        assert_eq!(synthesize_morpheme(&vars, &[0, 100]), "pato");
    }
}

#[test]
fn longer_words_repeat_the_middle_syllable() {
    let mut vars = SyllableVars::new();
    vars.roots.initial = leaf_rule(sequence(&["a"]));
    vars.roots.middle = leaf_rule(sequence(&["b"]));
    vars.roots.terminal = leaf_rule(sequence(&["c"]));
    assert_eq!(synthesize_morpheme(&vars, &[0, 0, 0, 100]), "abbc");
    let (word, short) = synthesize_from_picks(&vars, 5, &vec![]);
    assert_eq!(word, "abbbc");
    assert!(short);
}

#[test]
fn picks_choose_alternatives_and_set_members() {
    let mut vars = SyllableVars::new();
    let mut single: OrRule = leaf_rule(sequence(&["x"]));
    let mut second: AndRule = NonEmptyList::new(sequence(&["y"]));
    second.tail.push(one_of(&["b", "a", "c"]));
    single.tail.push(second);
    vars.roots.single = single;
    // set members are sorted: a, b, c
    assert_eq!(synthesize_from_picks(&vars, 1, &vec![0]), ("x".to_string(), false));
    assert_eq!(synthesize_from_picks(&vars, 1, &vec![1, 2]), ("yc".to_string(), false));
    assert_eq!(synthesize_from_picks(&vars, 1, &vec![3, 4]), ("yb".to_string(), false));
    assert_eq!(synthesize_from_picks(&vars, 1, &vec![1]), ("ya".to_string(), true));
}

#[test]
fn variables_expand_and_undefined_ones_are_empty() {
    let mut vars = SyllableVars::new();
    let mut and_rule: AndRule = NonEmptyList::new(variable("C"));
    and_rule.tail.push(LeafRule::Blank);
    and_rule.tail.push(variable("Missing"));
    and_rule.tail.push(variable("V"));
    and_rule.tail.push(LeafRule::Uninitialized);
    vars.roots.single = NonEmptyList::new(and_rule);
    vars.vars.push(("C".to_string(), leaf_rule(sequence(&["m"]))));
    vars.vars.push(("V".to_string(), leaf_rule(sequence(&["e", "e"]))));
    assert_eq!(synthesize_morpheme(&vars, &[100]), "mee");
}

#[test]
fn self_referring_variable_stops_at_the_nesting_limit() {
    let mut vars = SyllableVars::new();
    vars.roots.single = leaf_rule(variable("X"));
    let mut x_rule: AndRule = NonEmptyList::new(sequence(&["a"]));
    x_rule.tail.push(variable("X"));
    vars.vars.push(("X".to_string(), NonEmptyList::new(x_rule)));
    let (word, short) = synthesize_from_picks(&vars, 1, &vec![0; 100]);
    assert_eq!(word, "a".repeat(64));
    assert!(!short);
}

#[test]
fn empty_set_contributes_nothing() {
    let mut vars = SyllableVars::new();
    vars.roots.single = leaf_rule(one_of(&[]));
    assert_eq!(synthesize_morpheme(&vars, &[100]), "");
}

#[test]
fn set_max_syllables_resizes_weights() {
    let mut t = tab(vec![50, 50], vec![100]);
    t.set_max_syllables(1, 3);
    assert_eq!(t.syllable_wgts.0, vec![50]);
    assert_eq!(t.syllable_wgts.1, vec![100, 0, 0]);
    assert_eq!(t.max_syllables, (1, 3));
}

#[test]
fn test_words_show_blank_for_empty_words() {
    let mut t = tab(vec![100], vec![90]);
    t.generate_test_words(true, 24);
    assert_eq!(t.test_words.len(), 24);
    assert!(t.test_words.iter().all(|w| w == "(blank)"));
    t.syllable_vars.roots.single = leaf_rule(sequence(&["o"]));
    t.generate_test_words(false, 24);
    assert!(t.test_words.iter().all(|w| w == "(blank)"));
    t.generate_test_words(true, 3);
    assert_eq!(t.test_words, vec!["o", "o", "o"]);
}

#[test]
fn leaf_choices_menu() {
    let choices = LeafRule::choices();
    let names: Vec<&str> = choices.iter().map(|(n, _)| *n).collect();
    assert_eq!(names, vec!["String", "Random", "Variable", "Blank"]);
    assert!(matches!(choices[3].1, LeafRule::Blank));
    assert!(LeafRule::sequence().initialized());
    assert!(!LeafRule::default().initialized());
}
