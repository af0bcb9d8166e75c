use vstd::prelude::*;
use crate::grammar::GrammarTab;
use crate::lexicon::{Lexicon, LexiconSearchMode};
use crate::synthesis::SynthesisTab;
use crate::translate::TranslateTab;

verus! {

/// A constructed language: its name and everything the editor holds for
/// it.
pub struct Language {
    pub name: String,
    pub translate_tab: TranslateTab,
    pub allow_homonyms: bool,
    pub num_homonyms: u32,
    pub lexicon_search: String,
    pub lexicon_search_mode: LexiconSearchMode,
    pub lexicon: Lexicon,
    pub synthesis_tab: SynthesisTab,
    pub grammar_tab: GrammarTab,
}

impl Language {
    pub open spec fn wf(&self) -> bool {
        self.lexicon.wf() && self.grammar_tab.wf()
    }

    /// A blank language called "New Language".
    pub fn new() -> (r: Self)
        ensures
            r.wf(),
            r.name@ == "New Language"@,
            r.lexicon@.len() == 0,
            r.grammar_tab.grammar_rules@.len() == 0,
            r.synthesis_tab.syllable_vars.vars@.len() == 0,
    {
        Language {
            name: String::from_str("New Language"),
            translate_tab: TranslateTab { input_text: String::new(), output_text: String::new() },
            allow_homonyms: false,
            num_homonyms: 0,
            lexicon_search: String::new(),
            lexicon_search_mode: LexiconSearchMode::Native,
            lexicon: Lexicon::new(),
            synthesis_tab: SynthesisTab::new(),
            grammar_tab: GrammarTab::new(),
        }
    }
}

} // verus!
