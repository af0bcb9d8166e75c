use vstd::prelude::*;

verus! {

/// A grapheme or multigraph: one letter, glyph or letter cluster.
pub struct Grapheme(pub String);

impl View for Grapheme {
    type V = Seq<char>;

    open spec fn view(&self) -> Seq<char> {
        self.0@
    }
}

impl Grapheme {
    pub fn new(text: String) -> (r: Self)
        ensures
            r@ == text@,
    {
        Grapheme(text)
    }

    /// The grapheme as a string slice.
    pub fn as_str(&self) -> (r: &str)
        ensures
            r@ == self@,
    {
        self.0.as_str()
    }

    pub fn duplicate(&self) -> (r: Self)
        ensures
            r@ == self@,
    {
        Grapheme(self.0.clone())
    }
}

/// The characters of each grapheme, in order.
pub open spec fn texts(s: Seq<Grapheme>) -> Seq<Seq<char>> {
    s.map_values(|g: Grapheme| g@)
}

/// The elements of `s` whose flag in `keep` is set, in order.
pub open spec fn kept<T>(s: Seq<T>, keep: Seq<bool>) -> Seq<T>
    decreases s.len(),
{
    if s.len() == 0 || keep.len() != s.len() {
        seq![]
    } else {
        kept(s.drop_last(), keep.drop_last()) + if keep.last() {
            seq![s.last()]
        } else {
            seq![]
        }
    }
}

/// Character-wise lexicographic order from position `i` on; as UTF-8
/// preserves the order of code points, this is the byte order of `str`.
pub open spec fn text_lt_from(a: Seq<char>, b: Seq<char>, i: int) -> bool
    decreases a.len() - i,
{
    if i < 0 || i >= a.len() {
        0 <= i < b.len()
    } else if i >= b.len() {
        false
    } else if a[i] != b[i] {
        (a[i] as int) < (b[i] as int)
    } else {
        text_lt_from(a, b, i + 1)
    }
}

pub open spec fn text_lt(a: Seq<char>, b: Seq<char>) -> bool {
    text_lt_from(a, b, 0)
}

/// Strictly increasing, hence free of duplicates.
pub open spec fn strictly_sorted(s: Seq<Seq<char>>) -> bool {
    forall|i: int, j: int| 0 <= i < j < s.len() ==> text_lt(#[trigger] s[i], #[trigger] s[j])
}

proof fn lemma_lt_from_irreflexive(a: Seq<char>, i: int)
    requires
        0 <= i,
    ensures
        !text_lt_from(a, a, i),
    decreases a.len() - i,
{
    if i < a.len() {
        lemma_lt_from_irreflexive(a, i + 1);
    }
}

proof fn lemma_lt_from_total(a: Seq<char>, b: Seq<char>, i: int)
    requires
        0 <= i <= a.len(),
        i <= b.len(),
        forall|k: int| 0 <= k < i ==> a[k] == b[k],
        !text_lt_from(a, b, i),
        a != b,
    ensures
        text_lt_from(b, a, i),
    decreases a.len() - i,
{
    if i < a.len() && i < b.len() && a[i] == b[i] {
        lemma_lt_from_total(a, b, i + 1);
    } else if i >= a.len() && i >= b.len() {
        assert(a =~= b);
    }
}

proof fn lemma_lt_from_trans(a: Seq<char>, b: Seq<char>, c: Seq<char>, i: int)
    requires
        0 <= i,
        text_lt_from(a, b, i),
        text_lt_from(b, c, i),
    ensures
        text_lt_from(a, c, i),
    decreases a.len() - i,
{
    if i < a.len() && i < b.len() && i < c.len() && a[i] == b[i] && b[i] == c[i] {
        lemma_lt_from_trans(a, b, c, i + 1);
    }
}

/// Compare two texts in lexicographic order.
fn less_than(a: &str, b: &str) -> (r: bool)
    ensures
        r == text_lt(a@, b@),
{
    let la = a.unicode_len();
    let lb = b.unicode_len();
    let mut i: usize = 0;
    while i < la && i < lb
        invariant
            la == a@.len(),
            lb == b@.len(),
            i <= la,
            i <= lb,
            text_lt(a@, b@) == text_lt_from(a@, b@, i as int),
        decreases la - i,
    {
        let ca = a.get_char(i);
        let cb = b.get_char(i);
        if ca != cb {
            return (ca as u32) < (cb as u32);
        }
        i = i + 1;
    }
    i < lb
}

/// A container of graphemes with its own policy on order and duplicates.
pub trait GraphemeStorage: Sized {
    /// The graphemes held, in the container's order.
    spec fn contents(&self) -> Seq<Grapheme>;

    /// The container's own invariant.
    spec fn storage_ok(&self) -> bool;

    /// Whether the container keeps one copy of each grapheme, in sorted
    /// order, rather than every grapheme in the order of addition.
    spec fn deduplicates() -> bool;

    /// Add a grapheme.
    fn add(&mut self, grapheme: Grapheme)
        requires
            old(self).storage_ok(),
        ensures
            final(self).storage_ok(),
            Self::deduplicates() ==> texts(final(self).contents()).to_set() == texts(
                old(self).contents(),
            ).to_set().insert(grapheme@),
            !Self::deduplicates() ==> final(self).contents() == old(self).contents().push(grapheme),
    ;

    /// Whether the container holds the grapheme.
    fn contains(&self, grapheme: &Grapheme) -> (r: bool)
        ensures
            r == texts(self.contents()).contains(grapheme@),
    ;

    /// Whether the container holds no grapheme.
    fn is_empty(&self) -> (r: bool)
        ensures
            r == (self.contents().len() == 0),
    ;

    /// Keep the graphemes for which `f` returns true, in order, and drop
    /// the others.
    fn update<F: Fn(&Grapheme) -> bool>(&mut self, f: F)
        requires
            old(self).storage_ok(),
            forall|g: &Grapheme| f.requires((g,)),
        ensures
            final(self).storage_ok(),
            exists|keep: Seq<bool>|
                {
                    &&& keep.len() == old(self).contents().len()
                    &&& forall|i: int|
                        0 <= i < keep.len() ==> f.ensures((&old(self).contents()[i],), #[trigger] keep[i])
                    &&& texts(final(self).contents()) == texts(kept(old(self).contents(), keep))
                },
    ;
}

/// Which positions of `s` hold `g`'s text, searched from the start.
fn position_of(s: &Vec<Grapheme>, g: &Grapheme) -> (r: Option<usize>)
    ensures
        r is Some == texts(s@).contains(g@),
        r matches Some(k) ==> k < s@.len() && s@[k as int]@ == g@,
{
    let mut k: usize = 0;
    while k < s.len()
        invariant
            k <= s@.len(),
            forall|m: int| 0 <= m < k ==> (#[trigger] s@[m])@ != g@,
        decreases s@.len() - k,
    {
        if s[k].0 == g.0 {
            assert(texts(s@)[k as int] == g@);
            return Some(k);
        }
        k = k + 1;
    }
    proof {
        if texts(s@).contains(g@) {
            let m = choose|m: int| 0 <= m < texts(s@).len() && texts(s@)[m] == g@;
            assert(s@[m]@ == g@);
        }
    }
    None
}

/// The graphemes for which `f` returns true, in order, and the flags it
/// returned.
fn retain_graphemes<F: Fn(&Grapheme) -> bool>(s: &Vec<Grapheme>, f: &F) -> (r: (Vec<Grapheme>, Ghost<Seq<bool>>))
    requires
        forall|g: &Grapheme| f.requires((g,)),
    ensures
        r.1@.len() == s@.len(),
        forall|i: int| 0 <= i < s@.len() ==> f.ensures((&s@[i],), #[trigger] r.1@[i]),
        texts(r.0@) == texts(kept(s@, r.1@)),
{
    let mut out: Vec<Grapheme> = Vec::new();
    let ghost mut keep: Seq<bool> = seq![];
    let mut i: usize = 0;
    while i < s.len()
        invariant
            i <= s@.len(),
            keep.len() == i,
            forall|g: &Grapheme| f.requires((g,)),
            forall|j: int| 0 <= j < i ==> f.ensures((&s@[j],), #[trigger] keep[j]),
            texts(out@) == texts(kept(s@.take(i as int), keep)),
        decreases s@.len() - i,
    {
        let b = f(&s[i]);
        let ghost before = out@;
        if b {
            out.push(s[i].duplicate());
        }
        proof {
            let old_keep = keep;
            keep = keep.push(b);
            let t = s@.take(i as int + 1);
            assert(t.drop_last() =~= s@.take(i as int));
            assert(keep.drop_last() =~= old_keep);
            let prev = kept(s@.take(i as int), old_keep);
            let tail = if b { seq![s@[i as int]] } else { seq![] };
            assert(kept(t, keep) == prev + tail);
            assert(texts(prev + tail) =~= texts(prev) + texts(tail));
            if b {
                assert(texts(out@) =~= texts(before).push(s@[i as int]@));
                assert(texts(tail) =~= seq![s@[i as int]@]);
            } else {
                assert(texts(tail) =~= Seq::<Seq<char>>::empty());
            }
            assert(texts(out@) =~= texts(prev) + texts(tail));
        }
        i = i + 1;
    }
    assert(s@.take(s@.len() as int) =~= s@);
    (out, Ghost(keep))
}

impl GraphemeStorage for Vec<Grapheme> {
    open spec fn contents(&self) -> Seq<Grapheme> {
        self@
    }

    open spec fn storage_ok(&self) -> bool {
        true
    }

    open spec fn deduplicates() -> bool {
        false
    }

    fn add(&mut self, grapheme: Grapheme) {
        self.push(grapheme);
    }

    fn contains(&self, grapheme: &Grapheme) -> (r: bool) {
        position_of(self, grapheme).is_some()
    }

    fn is_empty(&self) -> (r: bool) {
        self.len() == 0
    }

    fn update<F: Fn(&Grapheme) -> bool>(&mut self, f: F) {
        let (out, keep) = retain_graphemes(self, &f);
        *self = out;
        assert(keep@.len() == old(self).contents().len());
        assert(texts(final(self).contents()) == texts(kept(old(self).contents(), keep@)));
    }
}

/// A set of graphemes, kept in sorted order without duplicates: the type
/// of a language's master inventory, against which other grapheme
/// containers are checked.
pub struct GraphemeSet {
    pub items: Vec<Grapheme>,
}

/// The type of the master grapheme inventory.
pub type MasterGraphemeStorage = GraphemeSet;

proof fn lemma_kept_members<T>(s: Seq<T>, keep: Seq<bool>)
    ensures
        forall|x: T| kept(s, keep).contains(x) ==> s.contains(x),
    decreases s.len(),
{
    if s.len() > 0 && keep.len() == s.len() {
        let front = kept(s.drop_last(), keep.drop_last());
        lemma_kept_members(s.drop_last(), keep.drop_last());
        assert forall|x: T| kept(s, keep).contains(x) implies s.contains(x) by {
            let k = kept(s, keep);
            let j = choose|j: int| 0 <= j < k.len() && k[j] == x;
            if j < front.len() {
                assert(k[j] == front[j]);
                assert(front.contains(x));
                assert(s.drop_last().contains(x));
                let m = choose|m: int| 0 <= m < s.drop_last().len() && s.drop_last()[m] == x;
                assert(s[m] == x);
            } else {
                assert(s[s.len() - 1] == x);
            }
        }
    }
}

proof fn lemma_kept_sorted(s: Seq<Seq<char>>, keep: Seq<bool>)
    requires
        strictly_sorted(s),
    ensures
        strictly_sorted(kept(s, keep)),
    decreases s.len(),
{
    if s.len() > 0 && keep.len() == s.len() {
        let front = kept(s.drop_last(), keep.drop_last());
        assert(strictly_sorted(s.drop_last()));
        lemma_kept_sorted(s.drop_last(), keep.drop_last());
        lemma_kept_members(s.drop_last(), keep.drop_last());
        let k = kept(s, keep);
        assert forall|i: int, j: int| 0 <= i < j < k.len() implies text_lt(#[trigger] k[i], #[trigger] k[j]) by {
            if j >= front.len() {
                assert(k[i] == front[i]);
                assert(front.contains(k[i]));
                assert(s.drop_last().contains(k[i]));
                let m = choose|m: int| 0 <= m < s.drop_last().len() && s.drop_last()[m] == k[i];
                assert(s[m] == k[i]);
                assert(k[j] == s[s.len() - 1]);
            } else {
                assert(k[i] == front[i] && k[j] == front[j]);
            }
        }
    }
}

proof fn lemma_texts_kept(s: Seq<Grapheme>, keep: Seq<bool>)
    ensures
        texts(kept(s, keep)) == kept(texts(s), keep),
    decreases s.len(),
{
    if s.len() > 0 && keep.len() == s.len() {
        lemma_texts_kept(s.drop_last(), keep.drop_last());
        assert(texts(s).drop_last() =~= texts(s.drop_last()));
        assert(texts(kept(s, keep)) =~= kept(texts(s), keep));
    } else {
        assert(texts(kept(s, keep)) =~= kept(texts(s), keep));
    }
}

impl GraphemeSet {
    /// An empty set.
    pub fn new() -> (r: Self)
        ensures
            r.storage_ok(),
            r.items@.len() == 0,
    {
        GraphemeSet { items: Vec::new() }
    }

    /// The number of graphemes held.
    pub fn len(&self) -> (r: usize)
        ensures
            r == self.items@.len(),
    {
        self.items.len()
    }
}

impl GraphemeStorage for GraphemeSet {
    open spec fn contents(&self) -> Seq<Grapheme> {
        self.items@
    }

    open spec fn storage_ok(&self) -> bool {
        strictly_sorted(texts(self.items@))
    }

    open spec fn deduplicates() -> bool {
        true
    }

    fn add(&mut self, grapheme: Grapheme) {
        let ghost t = texts(self.items@);
        let mut p: usize = 0;
        while p < self.items.len() && less_than(self.items[p].as_str(), grapheme.as_str())
            invariant
                p <= self.items@.len(),
                t == texts(self.items@),
                forall|m: int| 0 <= m < p ==> text_lt(#[trigger] t[m], grapheme@),
            decreases self.items@.len() - p,
        {
            p = p + 1;
        }
        if p < self.items.len() && self.items[p].0 == grapheme.0 {
            assert(t.to_set() =~= t.to_set().insert(grapheme@)) by {
                assert(t[p as int] == grapheme@);
            }
            return;
        }
        let ghost g = grapheme@;
        self.items.insert(p, grapheme);
        proof {
            let n = texts(self.items@);
            assert(n =~= t.insert(p as int, g));
            if p < t.len() {
                lemma_lt_from_total(t[p as int], g, 0);
            }
            assert forall|i: int, j: int| 0 <= i < j < n.len() implies text_lt(#[trigger] n[i], #[trigger] n[j]) by {
                if j < p {
                } else if i > p {
                    assert(n[i] == t[i - 1] && n[j] == t[j - 1]);
                } else if i == p {
                    if j - 1 > p {
                        lemma_lt_from_total(t[p as int], g, 0);
                        lemma_lt_from_trans(g, t[p as int], t[j - 1], 0);
                    }
                } else if j == p {
                    assert(n[i] == t[i]);
                } else {
                    assert(n[i] == t[i] && n[j] == t[j - 1]);
                }
            }
            assert(n.to_set() =~= t.to_set().insert(g)) by {
                assert forall|x: Seq<char>| n.to_set().contains(x) <==> t.to_set().insert(g).contains(x) by {
                    if n.contains(x) {
                        let m = choose|m: int| 0 <= m < n.len() && n[m] == x;
                        if m < p {
                            assert(t[m] == x);
                        } else if m > p {
                            assert(t[m - 1] == x);
                        }
                    }
                    if t.contains(x) {
                        let m = choose|m: int| 0 <= m < t.len() && t[m] == x;
                        if m < p {
                            assert(n[m] == x);
                        } else {
                            assert(n[m + 1] == x);
                        }
                    }
                    if x == g {
                        assert(n[p as int] == x);
                    }
                }
            }
        }
    }

    fn contains(&self, grapheme: &Grapheme) -> (r: bool) {
        position_of(&self.items, grapheme).is_some()
    }

    fn is_empty(&self) -> (r: bool) {
        self.items.len() == 0
    }

    fn update<F: Fn(&Grapheme) -> bool>(&mut self, f: F) {
        let (out, keep) = retain_graphemes(&self.items, &f);
        proof {
            lemma_texts_kept(self.items@, keep@);
            lemma_kept_sorted(texts(self.items@), keep@);
        }
        self.items = out;
        assert(keep@.len() == old(self).contents().len());
        assert(texts(final(self).contents()) == texts(kept(old(self).contents(), keep@)));
    }
}


/// What `char::is_whitespace` says of a character.
pub uninterp spec fn space(c: char) -> bool;

/// Relies on `char::is_whitespace`: whether the character has the Unicode
/// White_Space property, which depends on the character alone.
#[verifier::external_body]
fn is_space(c: char) -> (r: bool)
    ensures
        r == space(c),
{
    c.is_whitespace()
}

/// The first position at or after `from` that holds whitespace, or the
/// length.
pub open spec fn first_space(s: Seq<char>, from: int) -> int
    decreases s.len() - from,
{
    if from < 0 || from >= s.len() {
        s.len() as int
    } else if space(s[from]) {
        from
    } else {
        first_space(s, from + 1)
    }
}

/// The words of typed text that a whitespace character has ended, in
/// order, without empty ones.
pub open spec fn typed_graphemes(s: Seq<char>) -> Seq<Seq<char>>
    decreases s.len(),
{
    let p = first_space(s, 0);
    if p < 0 || p >= s.len() {
        seq![]
    } else {
        (if p > 0 {
            seq![s.take(p)]
        } else {
            seq![]
        }) + typed_graphemes(s.skip(p + 1))
    }
}

/// What is left of typed text after its last whitespace character.
pub open spec fn typed_rest(s: Seq<char>) -> Seq<char>
    decreases s.len(),
{
    let p = first_space(s, 0);
    if p < 0 || p >= s.len() {
        s
    } else {
        typed_rest(s.skip(p + 1))
    }
}

proof fn lemma_first_space(s: Seq<char>, from: int)
    requires
        0 <= from <= s.len(),
    ensures
        from <= first_space(s, from) <= s.len(),
        first_space(s, from) < s.len() ==> space(s[first_space(s, from)]),
        forall|i: int| from <= i < first_space(s, from) ==> !space(s[i]),
    decreases s.len() - from,
{
    if from < s.len() && !space(s[from]) {
        lemma_first_space(s, from + 1);
    }
}

/// Add to the storage each grapheme that typed text completes with a
/// whitespace character, and leave in `input` what follows the last one.
pub fn add_typed_graphemes<S: GraphemeStorage>(storage: &mut S, input: &mut String)
    requires
        old(storage).storage_ok(),
    ensures
        final(storage).storage_ok(),
        final(input)@ == typed_rest(old(input)@),
        !S::deduplicates() ==> texts(final(storage).contents()) == texts(old(storage).contents())
            + typed_graphemes(old(input)@),
        S::deduplicates() ==> texts(final(storage).contents()).to_set() == texts(
            old(storage).contents(),
        ).to_set() + typed_graphemes(old(input)@).to_set(),
{
    let ghost whole = typed_graphemes(old(input)@);
    let ghost mut done: Seq<Seq<char>> = seq![];
    loop
        invariant
            storage.storage_ok(),
            typed_rest(input@) == typed_rest(old(input)@),
            done + typed_graphemes(input@) == whole,
            !S::deduplicates() ==> texts(storage.contents()) == texts(old(storage).contents()) + done,
            S::deduplicates() ==> texts(storage.contents()).to_set() == texts(
                old(storage).contents(),
            ).to_set() + done.to_set(),
        ensures
            storage.storage_ok(),
            input@ == typed_rest(old(input)@),
            !S::deduplicates() ==> texts(storage.contents()) == texts(old(storage).contents()) + whole,
            S::deduplicates() ==> texts(storage.contents()).to_set() == texts(
                old(storage).contents(),
            ).to_set() + whole.to_set(),
        decreases input@.len(),
    {
        let n = input.unicode_len();
        let mut p: usize = 0;
        while p < n && !is_space(input.get_char(p))
            invariant
                n == input@.len(),
                p <= n,
                first_space(input@, 0) == first_space(input@, p as int),
            decreases n - p,
        {
            p = p + 1;
        }
        let ghost text = input@;
        proof {
            lemma_first_space(text, 0);
        }
        if p == n {
            assert(typed_graphemes(text) =~= Seq::<Seq<char>>::empty());
            assert(done =~= whole);
            break;
        }
        let ghost before = storage.contents();
        if p > 0 {
            let token = String::from_str(input.substring_char(0, p));
            let ghost tv = token@;
            storage.add(Grapheme(token));
            proof {
                assert(tv == text.take(p as int));
                let step = seq![tv];
                assert(typed_graphemes(text) == step + typed_graphemes(text.skip(p + 1)));
                if !S::deduplicates() {
                    assert(texts(storage.contents()) =~= texts(before).push(tv));
                    assert(texts(storage.contents()) =~= texts(old(storage).contents()) + (done + step));
                } else {
                    assert(done + step =~= done.push(tv));
                    done.lemma_push_to_set_commute(tv);
                    assert((done + step).to_set() =~= done.to_set().insert(tv));
                    assert(texts(storage.contents()).to_set() =~= texts(old(storage).contents()).to_set() + (done + step).to_set());
                }
                done = done + step;
                assert(done + typed_graphemes(text.skip(p + 1)) =~= whole);
            }
        } else {
            proof {
                assert(typed_graphemes(text) =~= typed_graphemes(text.skip(p + 1)));
            }
        }
        let rest = String::from_str(input.substring_char(p + 1, n));
        *input = rest;
        proof {
            assert(input@ =~= text.skip(p + 1));
        }
    }
}


/// Add what is left of typed text as one more grapheme, if anything is
/// left, and clear the input: what happens when the input field loses
/// focus.
pub fn commit_typed_grapheme<S: GraphemeStorage>(storage: &mut S, input: &mut String)
    requires
        old(storage).storage_ok(),
    ensures
        final(storage).storage_ok(),
        final(input)@.len() == 0,
        old(input)@.len() == 0 ==> *final(storage) == *old(storage),
        old(input)@.len() > 0 && !S::deduplicates() ==> final(storage).contents() == old(
            storage,
        ).contents().push(Grapheme(*old(input))),
        old(input)@.len() > 0 && S::deduplicates() ==> texts(final(storage).contents()).to_set()
            == texts(old(storage).contents()).to_set().insert(old(input)@),
{
    if input.unicode_len() > 0 {
        let text = input.clone();
        storage.add(Grapheme(text));
        *input = String::new();
    }
}

/// Whether a grapheme is missing from the master inventory that a
/// container is checked against, if it is checked against one.
pub fn not_in_inventory(grapheme: &Grapheme, master: Option<&MasterGraphemeStorage>) -> (r: bool)
    ensures
        r == match master {
            Some(m) => !texts(m.items@).contains(grapheme@),
            None => false,
        },
{
    match master {
        Some(m) => !m.contains(grapheme),
        None => false,
    }
}


/// A master inventory holds each grapheme at most once, so adding one it
/// holds already leaves exactly one copy.
pub proof fn law_set_holds_one_copy(set: GraphemeSet)
    requires
        set.storage_ok(),
    ensures
        texts(set.items@).no_duplicates(),
{
    let t = texts(set.items@);
    assert forall|i: int, j: int| 0 <= i < t.len() && 0 <= j < t.len() && i != j implies t[i] != t[j] by {
        let (a, b) = if i < j { (i, j) } else { (j, i) };
        assert(text_lt(t[a], t[b]));
        lemma_lt_from_irreflexive(t[a], 0);
    }
}

} // verus!
