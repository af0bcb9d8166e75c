use vstd::prelude::*;

verus! {

/// The entries of a lexicon: native phrase to constructed-language phrase,
/// no native phrase twice, in order of addition.
pub struct Lexicon {
    pub entries: Vec<(String, String)>,
}

pub open spec fn entry_view(e: (String, String)) -> (Seq<char>, Seq<char>) {
    (e.0@, e.1@)
}

impl View for Lexicon {
    type V = Seq<(Seq<char>, Seq<char>)>;

    open spec fn view(&self) -> Seq<(Seq<char>, Seq<char>)> {
        self.entries@.map_values(|e: (String, String)| entry_view(e))
    }
}

/// The position of the entry for `key`.
pub open spec fn key_index(l: Seq<(Seq<char>, Seq<char>)>, key: Seq<char>) -> Option<int>
    decreases l.len(),
{
    if l.len() == 0 {
        None
    } else if l.last().0 == key {
        Some(l.len() - 1)
    } else {
        key_index(l.drop_last(), key)
    }
}

/// The phrase the lexicon gives for `key`.
pub open spec fn lex_get(l: Seq<(Seq<char>, Seq<char>)>, key: Seq<char>) -> Option<Seq<char>> {
    match key_index(l, key) {
        Some(k) => Some(l[k].1),
        None => None,
    }
}

/// No key twice.
pub open spec fn keys_unique(l: Seq<(Seq<char>, Seq<char>)>) -> bool {
    forall|i: int, j: int| 0 <= i < j < l.len() ==> (#[trigger] l[i]).0 != (#[trigger] l[j]).0
}

proof fn lemma_key_index(l: Seq<(Seq<char>, Seq<char>)>, key: Seq<char>)
    ensures
        key_index(l, key) matches Some(k) ==> 0 <= k < l.len() && l[k].0 == key,
        key_index(l, key) is None ==> forall|i: int| 0 <= i < l.len() ==> (#[trigger] l[i]).0 != key,
    decreases l.len(),
{
    if l.len() > 0 && l.last().0 != key {
        lemma_key_index(l.drop_last(), key);
        if key_index(l, key) is None {
            assert forall|i: int| 0 <= i < l.len() implies (#[trigger] l[i]).0 != key by {
                if i < l.len() - 1 {
                    assert(l[i] == l.drop_last()[i]);
                }
            }
        }
    }
}

proof fn lemma_key_index_unique(l: Seq<(Seq<char>, Seq<char>)>, k: int)
    requires
        keys_unique(l),
        0 <= k < l.len(),
    ensures
        key_index(l, l[k].0) == Some(k),
    decreases l.len(),
{
    if k < l.len() - 1 {
        assert(l[k].0 != l[l.len() - 1].0);
        assert(keys_unique(l.drop_last()));
        assert(l.drop_last()[k] == l[k]);
        lemma_key_index_unique(l.drop_last(), k);
    }
}

/// Where the lexicon has no entry for `key`, no entry has that key.
pub proof fn lemma_key_index_facts(l: Seq<(Seq<char>, Seq<char>)>, key: Seq<char>)
    ensures
        key_index(l, key) matches Some(k) ==> 0 <= k < l.len() && l[k].0 == key,
        key_index(l, key) is None ==> forall|i: int| 0 <= i < l.len() ==> (#[trigger] l[i]).0 != key,
{
    lemma_key_index(l, key);
}

impl Lexicon {
    pub open spec fn wf(&self) -> bool {
        keys_unique(self@)
    }

    pub fn new() -> (r: Self)
        ensures
            r.wf(),
            r@.len() == 0,
    {
        let r = Lexicon { entries: Vec::new() };
        assert(r@ =~= Seq::<(Seq<char>, Seq<char>)>::empty());
        r
    }

    /// The number of entries.
    pub fn len(&self) -> (r: usize)
        ensures
            r == self@.len(),
    {
        self.entries.len()
    }

    fn position(&self, key: &str) -> (r: Option<usize>)
        requires
            self.wf(),
        ensures
            r matches Some(k) ==> k < self@.len() && key_index(self@, key@) == Some(k as int),
            r is None ==> key_index(self@, key@) is None,
    {
        let mut k: usize = 0;
        let ghost l = self@;
        let key_text = String::from_str(key);
        while k < self.entries.len()
            invariant
                k <= l.len(),
                l == self@,
                keys_unique(l),
                key_text@ == key@,
                forall|m: int| 0 <= m < k ==> (#[trigger] l[m]).0 != key@,
            decreases l.len() - k,
        {
            if self.entries[k].0 == key_text {
                assert(l[k as int].0 == key@);
                proof {
                    lemma_key_index_unique(l, k as int);
                }
                return Some(k);
            }
            k = k + 1;
        }
        proof {
            lemma_key_index(l, key@);
            if let Some(m) = key_index(l, key@) {
                assert(l[m].0 == key@);
            }
        }
        None
    }

    /// The phrase for `key`, if the lexicon has one.
    pub fn get(&self, key: &str) -> (r: Option<&String>)
        requires
            self.wf(),
        ensures
            r matches Some(v) ==> lex_get(self@, key@) == Some(v@),
            r is None ==> lex_get(self@, key@) is None,
    {
        match self.position(key) {
            Some(k) => Some(&self.entries[k].1),
            None => None,
        }
    }

    /// Set the phrase for `key`, replacing an earlier one in its place or
    /// else adding a new entry at the end.
    pub fn insert(&mut self, key: String, value: String)
        requires
            old(self).wf(),
        ensures
            final(self).wf(),
            lex_get(final(self)@, key@) == Some(value@),
            forall|k: Seq<char>| k != key@ ==> lex_get(final(self)@, k) == lex_get(old(self)@, k),
            key_index(old(self)@, key@) is None ==> final(self)@ == old(self)@.push((key@, value@)),
            key_index(old(self)@, key@) matches Some(i) ==> final(self)@ == old(self)@.update(i, (key@, value@)),
    {
        let ghost l = self@;
        let ghost kv = (key@, value@);
        match self.position(key.as_str()) {
            Some(k) => {
                self.entries.set(k, (key, value));
                proof {
                    assert(self@ =~= l.update(k as int, kv));
                    lemma_key_index(l, kv.0);
                    assert(keys_unique(self@));
                    lemma_key_index_unique(self@, k as int);
                    assert forall|q: Seq<char>| q != kv.0 implies lex_get(self@, q) == lex_get(l, q) by {
                        lemma_key_index(l, q);
                        lemma_key_index(self@, q);
                        if let Some(m) = key_index(l, q) {
                            lemma_key_index_unique(l, m);
                            lemma_key_index_unique(self@, m);
                        } else if let Some(m) = key_index(self@, q) {
                            assert(self@[m].0 == l[m].0);
                        }
                    }
                }
            },
            None => {
                self.entries.push((key, value));
                proof {
                    assert(self@ =~= l.push(kv));
                    lemma_key_index(l, kv.0);
                    assert(keys_unique(self@));
                    assert(self@.drop_last() =~= l);
                    assert forall|q: Seq<char>| q != kv.0 implies lex_get(self@, q) == lex_get(l, q) by {
                        lemma_key_index(l, q);
                        if let Some(m) = key_index(l, q) {
                            assert(self@[m] == l[m]);
                        }
                    }
                }
            },
        }
    }

    /// Remove the entry for `key`, if there is one.
    pub fn remove(&mut self, key: &str)
        requires
            old(self).wf(),
        ensures
            final(self).wf(),
            lex_get(final(self)@, key@) is None,
            forall|k: Seq<char>| k != key@ ==> lex_get(final(self)@, k) == lex_get(old(self)@, k),
            key_index(old(self)@, key@) is None ==> final(self)@ == old(self)@,
            key_index(old(self)@, key@) matches Some(i) ==> final(self)@ == old(self)@.remove(i),
    {
        let ghost l = self@;
        match self.position(key) {
            Some(k) => {
                self.entries.remove(k);
                proof {
                    let n = self@;
                    assert(n =~= l.remove(k as int));
                    assert(keys_unique(n)) by {
                        assert forall|i: int, j: int| 0 <= i < j < n.len() implies (#[trigger] n[i]).0 != (#[trigger] n[j]).0 by {
                            let oi = if i < k { i } else { i + 1 };
                            let oj = if j < k { j } else { j + 1 };
                            assert(n[i] == l[oi] && n[j] == l[oj]);
                        }
                    }
                    lemma_key_index(l, key@);
                    lemma_key_index(n, key@);
                    if let Some(m) = key_index(n, key@) {
                        let om = if m < k { m } else { m + 1 };
                        assert(n[m] == l[om]);
                    }
                    assert forall|q: Seq<char>| q != key@ implies lex_get(n, q) == lex_get(l, q) by {
                        lemma_key_index(l, q);
                        lemma_key_index(n, q);
                        if let Some(m) = key_index(l, q) {
                            lemma_key_index_unique(l, m);
                            let nm = if m < k { m } else { m - 1 };
                            assert(n[nm] == l[m]);
                            lemma_key_index_unique(n, nm);
                        } else if let Some(m) = key_index(n, q) {
                            let om = if m < k { m } else { m + 1 };
                            assert(n[m] == l[om]);
                        }
                    }
                }
            },
            None => {},
        }
    }
}


/// `t` occurs in `s` as a run of consecutive characters.
pub open spec fn contains_text(s: Seq<char>, t: Seq<char>) -> bool {
    exists|i: int| 0 <= i && i + t.len() <= s.len() && #[trigger] s.subrange(i, i + t.len()) == t
}

/// Whether `t` occurs in `s`.
fn text_contains(s: &str, t: &str) -> (r: bool)
    ensures
        r == contains_text(s@, t@),
{
    let n = s.unicode_len();
    let m = t.unicode_len();
    if m > n {
        proof {
            assert forall|i: int| 0 <= i && i + t@.len() <= s@.len() implies #[trigger] s@.subrange(i, i + t@.len()) != t@ by {
            }
        }
        return false;
    }
    if m == 0 {
        assert(s@.subrange(0int, 0int + t@.len()) =~= t@);
        return true;
    }
    let mut i: usize = 0;
    while i <= n - m
        invariant
            n == s@.len(),
            m == t@.len(),
            1 <= m <= n,
            i <= n - m + 1,
            forall|k: int| 0 <= k < i ==> #[trigger] s@.subrange(k, k + m) != t@,
        decreases n - m + 1 - i,
    {
        let mut j: usize = 0;
        let mut same = true;
        while j < m
            invariant
                n == s@.len(),
                m == t@.len(),
                i + m <= n,
                j <= m,
                same ==> forall|q: int| 0 <= q < j ==> s@[i + q] == t@[q],
                !same ==> s@.subrange(i as int, i + m) != t@,
            decreases m - j,
        {
            if s.get_char(i + j) != t.get_char(j) {
                same = false;
                assert(s@.subrange(i as int, i + m)[j as int] != t@[j as int]);
            }
            j = j + 1;
        }
        if same {
            assert(s@.subrange(i as int, i + m) =~= t@);
            return true;
        }
        i = i + 1;
    }
    false
}

/// Which side of the lexicon a search looks in.
#[derive(PartialEq, Eq, Structural, Clone, Copy, Debug)]
pub enum LexiconSearchMode {
    Native,
    Conlang,
}

impl Default for LexiconSearchMode {
    fn default() -> (r: Self)
        ensures
            r == LexiconSearchMode::Native,
    {
        LexiconSearchMode::Native
    }
}

impl LexiconSearchMode {
    /// Whether an entry matches the search text on this mode's side.
    pub fn matches(&self, native: &str, conlang: &str, search: &str) -> (r: bool)
        ensures
            r == match self {
                LexiconSearchMode::Native => contains_text(native@, search@),
                LexiconSearchMode::Conlang => contains_text(conlang@, search@),
            },
    {
        match self {
            LexiconSearchMode::Native => text_contains(native, search),
            LexiconSearchMode::Conlang => text_contains(conlang, search),
        }
    }
}

/// The warning shown when the native phrase being edited is mapped already.
pub open spec fn overwrite_text(current: Seq<char>) -> Seq<char> {
    "Already mapped to <"@ + current + ">"@
}

/// The state of the window that edits one lexicon entry.
pub struct LexiconEditWindow {
    /// The native phrase of the entry being edited; `None` for a new entry.
    pub original_native_phrase: Option<String>,
    pub native_phrase: String,
    pub conlang_phrase: String,
    pub overwrite_warning: Option<String>,
}

impl LexiconEditWindow {
    /// A window editing the existing entry for `curr_native_phrase`.
    pub fn edit_entry(curr_native_phrase: &str, lexicon: &Lexicon) -> (r: LexiconEditWindow)
        requires
            lexicon.wf(),
            lex_get(lexicon@, curr_native_phrase@) is Some,
        ensures
            r.original_native_phrase matches Some(o) && o@ == curr_native_phrase@,
            r.native_phrase@ == curr_native_phrase@,
            Some(r.conlang_phrase@) == lex_get(lexicon@, curr_native_phrase@),
            r.overwrite_warning is None,
    {
        let conlang = match lexicon.get(curr_native_phrase) {
            Some(c) => c.clone(),
            None => String::new(),
        };
        LexiconEditWindow {
            original_native_phrase: Some(String::from_str(curr_native_phrase)),
            native_phrase: String::from_str(curr_native_phrase),
            conlang_phrase: conlang,
            overwrite_warning: None,
        }
    }

    /// A window adding a new entry.
    pub fn new_entry() -> (r: LexiconEditWindow)
        ensures
            r.original_native_phrase is None,
            r.native_phrase@.len() == 0,
            r.conlang_phrase@.len() == 0,
            r.overwrite_warning is None,
    {
        LexiconEditWindow {
            original_native_phrase: None,
            native_phrase: String::new(),
            conlang_phrase: String::new(),
            overwrite_warning: None,
        }
    }

    /// Whether the window's contents may be written to the lexicon: no
    /// overwrite is pending and the native phrase is not empty.
    pub fn can_edit_lexicon(&self) -> (r: bool)
        ensures
            r == (self.overwrite_warning is None && self.native_phrase@.len() > 0),
    {
        self.overwrite_warning.is_none() && self.native_phrase.unicode_len() > 0
    }

    /// Set the native phrase, with the warning that it is mapped already
    /// when the lexicon has it.
    pub fn set_native_phrase(&mut self, phrase: String, lexicon: &Lexicon)
        requires
            lexicon.wf(),
        ensures
            final(self).native_phrase@ == phrase@,
            final(self).conlang_phrase == old(self).conlang_phrase,
            final(self).original_native_phrase == old(self).original_native_phrase,
            match lex_get(lexicon@, phrase@) {
                Some(c) => final(self).overwrite_warning matches Some(w) && w@ == overwrite_text(c),
                None => final(self).overwrite_warning is None,
            },
    {
        let warning = match lexicon.get(phrase.as_str()) {
            Some(current) => {
                let mut w = String::from_str("Already mapped to <");
                w.append(current.as_str());
                w.append(">");
                Some(w)
            },
            None => None,
        };
        self.native_phrase = phrase;
        self.overwrite_warning = warning;
    }

    /// Write the edited entry: the native phrase maps to the constructed
    /// phrase, and an entry being renamed loses its old native phrase.
    /// Nothing happens unless `can_edit_lexicon` holds; returns whether
    /// the lexicon was written.
    pub fn apply(&self, lexicon: &mut Lexicon) -> (r: bool)
        requires
            old(lexicon).wf(),
        ensures
            final(lexicon).wf(),
            r == (self.overwrite_warning is None && self.native_phrase@.len() > 0),
            !r ==> final(lexicon)@ == old(lexicon)@,
            r ==> lex_get(final(lexicon)@, self.native_phrase@) == Some(self.conlang_phrase@),
            r ==> forall|k: Seq<char>|
                k != self.native_phrase@ ==> lex_get(final(lexicon)@, k) == match self.original_native_phrase {
                    Some(o) => if k == o@ { None } else { lex_get(old(lexicon)@, k) },
                    None => lex_get(old(lexicon)@, k),
                },
    {
        if !self.can_edit_lexicon() {
            return false;
        }
        lexicon.insert(self.native_phrase.clone(), self.conlang_phrase.clone());
        match &self.original_native_phrase {
            Some(original) => {
                if *original != self.native_phrase {
                    lexicon.remove(original.as_str());
                }
            },
            None => {},
        }
        true
    }

    /// Delete the entry being edited, if it is an existing one.
    pub fn delete(&self, lexicon: &mut Lexicon)
        requires
            old(lexicon).wf(),
        ensures
            final(lexicon).wf(),
            match self.original_native_phrase {
                Some(o) => lex_get(final(lexicon)@, o@) is None && forall|k: Seq<char>|
                    k != o@ ==> lex_get(final(lexicon)@, k) == lex_get(old(lexicon)@, k),
                None => final(lexicon)@ == old(lexicon)@,
            },
    {
        match &self.original_native_phrase {
            Some(original) => lexicon.remove(original.as_str()),
            None => {},
        }
    }
}

} // verus!
