use vstd::prelude::*;
use crate::lexicon::{Lexicon, key_index, lex_get};
use crate::synthesis::{SyllableVars, derive_word, synthesize_morpheme, weight_sum};

verus! {

/// The text to translate and the last translation.
pub struct TranslateTab {
    pub input_text: String,
    pub output_text: String,
}

/// What `str::to_lowercase` makes of a text.
pub uninterp spec fn lower_of(s: Seq<char>) -> Seq<char>;

/// Relies on `str::to_lowercase`: the lowercase form of the text, which
/// depends on its characters alone.
#[verifier::external_body]
fn lowercase(s: &str) -> (r: String)
    ensures
        r@ == lower_of(s@),
{
    s.to_lowercase()
}

/// The phrase for `key`: the lexicon's, or else a newly synthesized word
/// from the content-word weights, which the lexicon then keeps.
pub fn translate_key(key: String, lexicon: &mut Lexicon, vars: &SyllableVars, content_weights: &[u16]) -> (r: String)
    requires
        old(lexicon).wf(),
        weight_sum(content_weights@) == 100,
    ensures
        final(lexicon).wf(),
        match lex_get(old(lexicon)@, key@) {
            Some(v) => r@ == v && final(lexicon)@ == old(lexicon)@,
            None => {
                &&& final(lexicon)@ == old(lexicon)@.push((key@, r@))
                &&& exists|n: nat, picks: Seq<u64>|
                    1 <= n <= content_weights@.len() && content_weights@[n - 1] > 0 && r@
                        == #[trigger] derive_word(*vars, n, picks).0
            },
        },
{
    proof {
        crate::lexicon::lemma_key_index_facts(old(lexicon)@, key@);
    }
    match lexicon.get(key.as_str()) {
        Some(v) => v.clone(),
        None => {
            let word = synthesize_morpheme(vars, content_weights);
            lexicon.insert(key, word.clone());
            word
        },
    }
}

/// Translate one word: look up its lowercase form, minting and recording a
/// new word on a miss (see `translate_key`).
pub fn translate_word(word: &str, lexicon: &mut Lexicon, vars: &SyllableVars, weights: &(Vec<u16>, Vec<u16>)) -> (r: String)
    requires
        old(lexicon).wf(),
        weight_sum(weights.1@) == 100,
    ensures
        final(lexicon).wf(),
        match lex_get(old(lexicon)@, lower_of(word@)) {
            Some(v) => r@ == v && final(lexicon)@ == old(lexicon)@,
            None => {
                &&& final(lexicon)@ == old(lexicon)@.push((lower_of(word@), r@))
                &&& exists|n: nat, picks: Seq<u64>|
                    1 <= n <= weights.1@.len() && weights.1@[n - 1] > 0 && r@
                        == #[trigger] derive_word(*vars, n, picks).0
            },
        },
{
    let key = lowercase(word);
    translate_key(key, lexicon, vars, weights.1.as_slice())
}


/// What `char::is_alphanumeric` says of a character.
pub uninterp spec fn alnum(c: char) -> bool;

/// Relies on `char::is_alphanumeric`: whether the character is alphabetic
/// or numeric, which depends on the character alone.
#[verifier::external_body]
fn is_word_char(c: char) -> (r: bool)
    ensures
        r == alnum(c),
{
    c.is_alphanumeric()
}

/// Where the run of word characters that ends at position `i` starts.
pub open spec fn run_start(s: Seq<char>, i: int) -> int
    decreases i,
{
    if i > 0 && i <= s.len() && alnum(s[i - 1]) {
        run_start(s, i - 1)
    } else {
        i
    }
}

/// The lexicon's phrase for a word, looked up by its lowercase form.
pub open spec fn translation(lex: Seq<(Seq<char>, Seq<char>)>, word: Seq<char>) -> Seq<char> {
    match lex_get(lex, lower_of(word)) {
        Some(v) => v,
        None => seq![],
    }
}

/// The translation of the word that ends at position `i`, if one does.
pub open spec fn word_at(s: Seq<char>, i: int, lex: Seq<(Seq<char>, Seq<char>)>) -> Seq<char> {
    if run_start(s, i) < i {
        translation(lex, s.subrange(run_start(s, i), i))
    } else {
        seq![]
    }
}

/// The output for the first `i` characters, up to the last character that
/// is not a word character: each word is replaced by its translation and
/// every other character is kept.
pub open spec fn rendered(s: Seq<char>, i: int, lex: Seq<(Seq<char>, Seq<char>)>) -> Seq<char>
    decreases i,
{
    if i <= 0 || i > s.len() {
        seq![]
    } else if alnum(s[i - 1]) {
        rendered(s, i - 1, lex)
    } else {
        rendered(s, i - 1, lex) + word_at(s, i - 1, lex) + seq![s[i - 1]]
    }
}

/// The translation of a whole text.
pub open spec fn render(s: Seq<char>, lex: Seq<(Seq<char>, Seq<char>)>) -> Seq<char> {
    rendered(s, s.len() as int, lex) + word_at(s, s.len() as int, lex)
}

/// The lexicon holds the words that end before position `i`.
pub open spec fn words_present(s: Seq<char>, i: int, lex: Seq<(Seq<char>, Seq<char>)>) -> bool {
    forall|j: int|
        0 <= j < i && !alnum(s[j]) && run_start(s, j) < j ==> lex_get(
            lex,
            lower_of(#[trigger] s.subrange(run_start(s, j), j)),
        ) is Some
}

/// `key` is the lowercase form of a word of `s` that ends before position
/// `i` or at it.
pub open spec fn word_key_upto(s: Seq<char>, i: int, key: Seq<char>) -> bool {
    exists|j: int|
        0 <= j <= i && j <= s.len() && run_start(s, j) < j && (j == s.len() || !alnum(s[j])) && key
            == lower_of(#[trigger] s.subrange(run_start(s, j), j))
}

/// Every key of `b` is a key of `a` or the lowercase form of a word of
/// `s` ending at or before `i`.
pub open spec fn new_keys_from(s: Seq<char>, i: int, a: Seq<(Seq<char>, Seq<char>)>, b: Seq<(Seq<char>, Seq<char>)>) -> bool {
    forall|k: Seq<char>| #[trigger] lex_get(b, k) is Some ==> lex_get(a, k) is Some || word_key_upto(s, i, k)
}

/// `b` gives every key of `a` the phrase `a` gives it.
pub open spec fn extends(a: Seq<(Seq<char>, Seq<char>)>, b: Seq<(Seq<char>, Seq<char>)>) -> bool {
    forall|k: Seq<char>| #[trigger] lex_get(a, k) is Some ==> lex_get(b, k) == lex_get(a, k)
}

proof fn lemma_rendered_stable(s: Seq<char>, i: int, a: Seq<(Seq<char>, Seq<char>)>, b: Seq<(Seq<char>, Seq<char>)>)
    requires
        0 <= i <= s.len(),
        words_present(s, i, a),
        extends(a, b),
    ensures
        rendered(s, i, a) == rendered(s, i, b),
    decreases i,
{
    if i > 0 {
        lemma_rendered_stable(s, i - 1, a, b);
        if !alnum(s[i - 1]) && run_start(s, i - 1) < i - 1 {
            let w = s.subrange(run_start(s, i - 1), i - 1);
            assert(lex_get(a, lower_of(w)) is Some);
        }
    }
}

proof fn lemma_run_start_bounds(s: Seq<char>, i: int)
    requires
        0 <= i <= s.len(),
    ensures
        0 <= run_start(s, i) <= i,
    decreases i,
{
    if i > 0 && alnum(s[i - 1]) {
        lemma_run_start_bounds(s, i - 1);
    }
}

/// Translate a text word by word (a word is a run of alphanumeric
/// characters); every other character is kept. Words missing from the
/// lexicon get new words, which the lexicon keeps, so the result is the
/// text rendered through the final lexicon.
pub fn translate_text(input: &str, lexicon: &mut Lexicon, vars: &SyllableVars, weights: &(Vec<u16>, Vec<u16>)) -> (r: String)
    requires
        old(lexicon).wf(),
        weight_sum(weights.1@) == 100,
    ensures
        final(lexicon).wf(),
        extends(old(lexicon)@, final(lexicon)@),
        new_keys_from(input@, input@.len() as int, old(lexicon)@, final(lexicon)@),
        r@ == render(input@, final(lexicon)@),
{
    let n = input.unicode_len();
    let ghost s = input@;
    let mut out = String::new();
    let mut word_start: Option<usize> = None;
    let mut i: usize = 0;
    while i < n
        invariant
            n == s.len(),
            s == input@,
            i <= n,
            lexicon.wf(),
            weight_sum(weights.1@) == 100,
            extends(old(lexicon)@, lexicon@),
            new_keys_from(s, i as int, old(lexicon)@, lexicon@),
            words_present(s, i as int, lexicon@),
            out@ == rendered(s, i as int, lexicon@),
            word_start == (if run_start(s, i as int) < i { Some(run_start(s, i as int) as usize) } else { None::<usize> }),
        decreases n - i,
    {
        let c = input.get_char(i);
        proof {
            lemma_run_start_bounds(s, i as int);
        }
        if is_word_char(c) {
            if word_start.is_none() {
                word_start = Some(i);
            }
            proof {
                assert(run_start(s, i as int + 1) == run_start(s, i as int));
                assert forall|j: int|
                    0 <= j < i + 1 && !alnum(s[j]) && run_start(s, j) < j implies lex_get(
                    lexicon@,
                    lower_of(#[trigger] s.subrange(run_start(s, j), j)),
                ) is Some by {
                    assert(j != i);
                }
                assert forall|k: Seq<char>| #[trigger] lex_get(lexicon@, k) is Some implies lex_get(old(lexicon)@, k) is Some
                    || word_key_upto(s, i + 1, k) by {
                    if !(lex_get(old(lexicon)@, k) is Some) {
                        let j = choose|j: int|
                            0 <= j <= i && j <= s.len() && run_start(s, j) < j && (j == s.len() || !alnum(s[j])) && k
                                == lower_of(#[trigger] s.subrange(run_start(s, j), j));
                        assert(j <= i + 1);
                    }
                }
            }
        } else {
            let ghost before = lexicon@;
            let ghost out0 = out@;
            match word_start {
                Some(start) => {
                    let word = input.substring_char(start, i);
                    let t = translate_word(word, lexicon, vars, weights);
                    out.append(t.as_str());
                    proof {
                        let key = lower_of(s.subrange(start as int, i as int));
                        assert(word@ == s.subrange(start as int, i as int));
                        if lex_get(before, key) is None {
                            assert(lexicon@.drop_last() =~= before);
                            assert(lex_get(lexicon@, key) == Some(t@));
                            assert forall|k: Seq<char>| #[trigger] lex_get(before, k) is Some implies lex_get(lexicon@, k) == lex_get(before, k) by {
                                if k == key {
                                } else {
                                    assert(lexicon@.last().0 != k);
                                    assert(key_index(lexicon@, k) == key_index(before, k));
                                    crate::lexicon::lemma_key_index_facts(before, k);
                                    if let Some(m) = key_index(before, k) {
                                        assert(lexicon@[m] == before[m]);
                                    }
                                }
                            }
                        }
                        lemma_rendered_stable(s, i as int, before, lexicon@);
                        assert(word_at(s, i as int, lexicon@) == t@);
                    }
                },
                None => {
                    assert(word_at(s, i as int, lexicon@) =~= Seq::<char>::empty());
                },
            }
            out.append(input.substring_char(i, i + 1));
            word_start = None;
            proof {
                assert(input@.subrange(i as int, i + 1) =~= seq![c]);
                assert(out@ =~= rendered(s, i as int, lexicon@) + word_at(s, i as int, lexicon@) + seq![s[i as int]]);
                assert forall|k: Seq<char>| #[trigger] lex_get(old(lexicon)@, k) is Some implies lex_get(lexicon@, k) == lex_get(old(lexicon)@, k) by {
                    assert(lex_get(before, k) == lex_get(old(lexicon)@, k));
                }
                assert forall|j: int|
                    0 <= j < i + 1 && !alnum(s[j]) && run_start(s, j) < j implies lex_get(
                    lexicon@,
                    lower_of(#[trigger] s.subrange(run_start(s, j), j)),
                ) is Some by {
                    if j < i {
                        let k = lower_of(s.subrange(run_start(s, j), j));
                        assert(lex_get(before, k) is Some);
                    }
                }
                assert forall|k: Seq<char>| #[trigger] lex_get(lexicon@, k) is Some implies lex_get(old(lexicon)@, k) is Some
                    || word_key_upto(s, i + 1, k) by {
                    if !(lex_get(old(lexicon)@, k) is Some) {
                        if lex_get(before, k) is Some {
                            let j = choose|j: int|
                                0 <= j <= i && j <= s.len() && run_start(s, j) < j && (j == s.len() || !alnum(s[j])) && k
                                    == lower_of(#[trigger] s.subrange(run_start(s, j), j));
                            assert(j <= i + 1);
                        } else {
                            assert(word_key_upto(s, i + 1, k)) by {
                                let w = s.subrange(run_start(s, i as int), i as int);
                                assert(k == lower_of(w));
                            }
                        }
                    }
                }
            }
        }
        i = i + 1;
    }
    proof {
        lemma_run_start_bounds(s, n as int);
    }
    match word_start {
        Some(start) => {
            let word = input.substring_char(start, n);
            let ghost before = lexicon@;
            let t = translate_word(word, lexicon, vars, weights);
            out.append(t.as_str());
            proof {
                let key = lower_of(s.subrange(start as int, n as int));
                assert(word@ == s.subrange(start as int, n as int));
                if lex_get(before, key) is None {
                    assert(lexicon@.drop_last() =~= before);
                    assert(lex_get(lexicon@, key) == Some(t@));
                    assert forall|k: Seq<char>| #[trigger] lex_get(before, k) is Some implies lex_get(lexicon@, k) == lex_get(before, k) by {
                        if k != key {
                            assert(lexicon@.last().0 != k);
                            assert(key_index(lexicon@, k) == key_index(before, k));
                            crate::lexicon::lemma_key_index_facts(before, k);
                            if let Some(m) = key_index(before, k) {
                                assert(lexicon@[m] == before[m]);
                            }
                        }
                    }
                }
                lemma_rendered_stable(s, n as int, before, lexicon@);
                assert(word_at(s, n as int, lexicon@) == t@);
                assert forall|k: Seq<char>| #[trigger] lex_get(lexicon@, k) is Some implies lex_get(old(lexicon)@, k) is Some
                    || word_key_upto(s, n as int, k) by {
                    if !(lex_get(old(lexicon)@, k) is Some) && !(lex_get(before, k) is Some) {
                        assert(k == lower_of(s.subrange(run_start(s, n as int), n as int)));
                    }
                }
                assert forall|k: Seq<char>| #[trigger] lex_get(old(lexicon)@, k) is Some implies lex_get(lexicon@, k) == lex_get(old(lexicon)@, k) by {
                    assert(lex_get(before, k) == lex_get(old(lexicon)@, k));
                }
            }
        },
        None => {
            assert(word_at(s, n as int, lexicon@) =~= Seq::<char>::empty());
        },
    }
    out
}

} // verus!
