use vstd::prelude::*;
use crate::util::{EditMode, Reordering, reordered};

verus! {

/// A word type, roughly a part of speech, simplified to suit arbitrary
/// languages.
#[derive(Clone, Copy, PartialEq, Eq, Structural, Debug, Hash)]
pub enum WordType {
    Adposition,
    Conjunction,
    Determiner,
    Noun,
    NounModifier,
    Pronoun,
    Verb,
    VerbModifier,
}

/// The full display name of a word type.
pub open spec fn word_name(t: WordType) -> Seq<char> {
    match t {
        WordType::Adposition => "Adposition"@,
        WordType::Conjunction => "Conjunction"@,
        WordType::Determiner => "Determiner"@,
        WordType::Noun => "Noun"@,
        WordType::NounModifier => "Noun Modifier"@,
        WordType::Pronoun => "Pronoun"@,
        WordType::Verb => "Verb"@,
        WordType::VerbModifier => "Verb Modifier"@,
    }
}

/// The abbreviated name of a word type, used in pattern labels.
pub open spec fn word_short(t: WordType) -> Seq<char> {
    match t {
        WordType::Adposition => "Adp"@,
        WordType::Conjunction => "Conj"@,
        WordType::Determiner => "Det"@,
        WordType::Noun => "Noun"@,
        WordType::NounModifier => "NM"@,
        WordType::Pronoun => "Pro"@,
        WordType::Verb => "Verb"@,
        WordType::VerbModifier => "VM"@,
    }
}

impl WordType {
    /// Every word type, in menu order.
    pub fn iter() -> (r: Vec<WordType>)
        ensures
            r@ == seq![
                WordType::Adposition,
                WordType::Conjunction,
                WordType::Determiner,
                WordType::Noun,
                WordType::NounModifier,
                WordType::Pronoun,
                WordType::Verb,
                WordType::VerbModifier,
            ],
    {
        let r = vec![
            WordType::Adposition,
            WordType::Conjunction,
            WordType::Determiner,
            WordType::Noun,
            WordType::NounModifier,
            WordType::Pronoun,
            WordType::Verb,
            WordType::VerbModifier,
        ];
        r
    }

    pub fn name(&self) -> (r: &'static str)
        ensures
            r@ == word_name(*self),
    {
        match self {
            WordType::Adposition => "Adposition",
            WordType::Conjunction => "Conjunction",
            WordType::Determiner => "Determiner",
            WordType::Noun => "Noun",
            WordType::NounModifier => "Noun Modifier",
            WordType::Pronoun => "Pronoun",
            WordType::Verb => "Verb",
            WordType::VerbModifier => "Verb Modifier",
        }
    }

    pub fn short_name(&self) -> (r: &'static str)
        ensures
            r@ == word_short(*self),
    {
        match self {
            WordType::Adposition => "Adp",
            WordType::Conjunction => "Conj",
            WordType::Determiner => "Det",
            WordType::Noun => "Noun",
            WordType::NounModifier => "NM",
            WordType::Pronoun => "Pro",
            WordType::Verb => "Verb",
            WordType::VerbModifier => "VM",
        }
    }
}

/// A phrase type, roughly a constituent type of linguistic syntax.
#[derive(Clone, Copy, PartialEq, Eq, Structural, Debug, Hash)]
pub enum PhraseType {
    Action,
    Argument,
    Clause,
    Relation,
}

/// The full display name of a phrase type.
pub open spec fn phrase_name(t: PhraseType) -> Seq<char> {
    match t {
        PhraseType::Action => "Action Phrase"@,
        PhraseType::Argument => "Argument Phrase"@,
        PhraseType::Clause => "Clause Phrase"@,
        PhraseType::Relation => "Relation Phrase"@,
    }
}

/// The abbreviated name of a phrase type, used in pattern labels.
pub open spec fn phrase_short(t: PhraseType) -> Seq<char> {
    match t {
        PhraseType::Action => "Action"@,
        PhraseType::Argument => "Arg"@,
        PhraseType::Clause => "Clause"@,
        PhraseType::Relation => "Rel"@,
    }
}

impl PhraseType {
    /// Every phrase type, in menu order.
    pub fn iter() -> (r: Vec<PhraseType>)
        ensures
            r@ == seq![
                PhraseType::Action,
                PhraseType::Argument,
                PhraseType::Clause,
                PhraseType::Relation,
            ],
    {
        vec![PhraseType::Action, PhraseType::Argument, PhraseType::Clause, PhraseType::Relation]
    }

    pub fn name(&self) -> (r: &'static str)
        ensures
            r@ == phrase_name(*self),
    {
        match self {
            PhraseType::Action => "Action Phrase",
            PhraseType::Argument => "Argument Phrase",
            PhraseType::Clause => "Clause Phrase",
            PhraseType::Relation => "Relation Phrase",
        }
    }

    pub fn short_name(&self) -> (r: &'static str)
        ensures
            r@ == phrase_short(*self),
    {
        match self {
            PhraseType::Action => "Action",
            PhraseType::Argument => "Arg",
            PhraseType::Clause => "Clause",
            PhraseType::Relation => "Rel",
        }
    }
}

/// The type of one element of a find pattern or a replace pattern.
pub enum PatternType {
    Phrase(PhraseType),
    Word(WordType),
    Literal(String),
}

/// What a `PatternType` denotes, with a literal as its characters.
pub enum PatternKind {
    Phrase(PhraseType),
    Word(WordType),
    Literal(Seq<char>),
}

impl View for PatternType {
    type V = PatternKind;

    open spec fn view(&self) -> PatternKind {
        match self {
            PatternType::Phrase(t) => PatternKind::Phrase(*t),
            PatternType::Word(t) => PatternKind::Word(*t),
            PatternType::Literal(w) => PatternKind::Literal(w@),
        }
    }
}

impl PatternType {
    /// A copy of this pattern type.
    pub fn duplicate(&self) -> (r: PatternType)
        ensures
            r@ == self@,
    {
        match self {
            PatternType::Phrase(t) => PatternType::Phrase(*t),
            PatternType::Word(t) => PatternType::Word(*t),
            PatternType::Literal(w) => PatternType::Literal(w.clone()),
        }
    }

    /// Whether two pattern types denote the same thing.
    pub fn same_as(&self, other: &PatternType) -> (r: bool)
        ensures
            r == (self@ == other@),
    {
        match (self, other) {
            (PatternType::Phrase(a), PatternType::Phrase(b)) => *a == *b,
            (PatternType::Word(a), PatternType::Word(b)) => *a == *b,
            (PatternType::Literal(a), PatternType::Literal(b)) => *a == *b,
            _ => false,
        }
    }
}

/// The structural identity of a find pattern: equal keys share a
/// disambiguation counter.
pub type PatternKey = (PatternKind, bool, bool);

/// One node of a rule's find-pattern forest. A rule keeps its forest as a
/// list in depth-first order, each node with its nesting depth (0 for a
/// root); a node's deep-match children are the nodes that follow it one
/// level deeper, up to the next node at its own depth or shallower.
pub struct FindPattern {
    pub pattern: PatternType,
    /// Also match all adjacent constituents of the same type.
    pub multimatch: bool,
    /// Match even where the constituent is absent.
    pub optional: bool,
    pub depth: usize,
    /// The node's identity within its rule; captures refer to it by this.
    pub node_id: u64,
    /// The node's own label, without its nested children.
    pub short_label: String,
    /// The node's label followed by its nested children's labels.
    pub label: String,
}

pub open spec fn key_of(n: FindPattern) -> PatternKey {
    (n.pattern@, n.multimatch, n.optional)
}

pub open spec fn keys_of(nodes: Seq<FindPattern>) -> Seq<PatternKey> {
    nodes.map_values(|n: FindPattern| key_of(n))
}

/// The abbreviated type name, or the literal in double quotes.
pub open spec fn type_text(p: PatternKind) -> Seq<char> {
    match p {
        PatternKind::Phrase(t) => phrase_short(t),
        PatternKind::Word(t) => word_short(t),
        PatternKind::Literal(w) => seq!['"'] + w + seq!['"'],
    }
}

/// `*` for both modifiers, `+` for multimatch alone, `?` for optional alone.
pub open spec fn modifier_text(multimatch: bool, optional: bool) -> Seq<char> {
    if multimatch && optional {
        seq!['*']
    } else if multimatch {
        seq!['+']
    } else if optional {
        seq!['?']
    } else {
        seq![]
    }
}

pub open spec fn digit_char(d: nat) -> char {
    if d == 0 { '0' } else if d == 1 { '1' } else if d == 2 { '2' } else if d == 3 { '3' }
    else if d == 4 { '4' } else if d == 5 { '5' } else if d == 6 { '6' } else if d == 7 { '7' }
    else if d == 8 { '8' } else { '9' }
}

/// The decimal digits of `n`.
pub open spec fn decimal(n: nat) -> Seq<char>
    decreases n,
{
    if n < 10 {
        seq![digit_char(n)]
    } else {
        decimal(n / 10) + seq![digit_char(n % 10)]
    }
}

/// How many of the first `upto` keys equal `key`.
pub open spec fn class_count(keys: Seq<PatternKey>, key: PatternKey, upto: int) -> nat
    decreases upto,
{
    if upto <= 0 {
        0
    } else {
        class_count(keys, key, upto - 1) + if keys[upto - 1] == key { 1nat } else { 0nat }
    }
}

/// How many nodes before node `i` share its key.
pub open spec fn class_rank(keys: Seq<PatternKey>, i: int) -> nat {
    class_count(keys, keys[i], i)
}

/// How many nodes of the whole forest share node `i`'s key.
pub open spec fn class_total(keys: Seq<PatternKey>, i: int) -> nat {
    class_count(keys, keys[i], keys.len() as int)
}

/// The short label of node `i`: type text, modifier, and, when other nodes
/// of the forest share its key, a space and its 1-based number among them
/// in depth-first order.
pub open spec fn short_text(keys: Seq<PatternKey>, i: int) -> Seq<char> {
    let k = keys[i];
    type_text(k.0) + modifier_text(k.1, k.2) + if class_total(keys, i) > 1 {
        seq![' '] + decimal(class_rank(keys, i) + 1)
    } else {
        seq![]
    }
}


fn digit_str(d: usize) -> (r: &'static str)
    requires
        d < 10,
    ensures
        r@ == seq![digit_char(d as nat)],
{
    proof {
        reveal_strlit("0");
        reveal_strlit("1");
        reveal_strlit("2");
        reveal_strlit("3");
        reveal_strlit("4");
        reveal_strlit("5");
        reveal_strlit("6");
        reveal_strlit("7");
        reveal_strlit("8");
        reveal_strlit("9");
    }
    if d == 0 { "0" } else if d == 1 { "1" } else if d == 2 { "2" } else if d == 3 { "3" }
    else if d == 4 { "4" } else if d == 5 { "5" } else if d == 6 { "6" } else if d == 7 { "7" }
    else if d == 8 { "8" } else { "9" }
}

/// Append the decimal digits of `n`.
fn push_decimal(out: &mut String, n: usize)
    ensures
        final(out)@ == old(out)@ + decimal(n as nat),
    decreases n,
{
    if n < 10 {
        out.append(digit_str(n));
    } else {
        push_decimal(out, n / 10);
        out.append(digit_str(n % 10));
        assert(final(out)@ =~= old(out)@ + decimal(n as nat));
    }
}

/// Append the type text and modifier of a pattern.
fn push_type_and_modifier(out: &mut String, node: &FindPattern)
    ensures
        final(out)@ == old(out)@ + type_text(node.pattern@) + modifier_text(node.multimatch, node.optional),
{
    proof {
        reveal_strlit("\"");
        reveal_strlit("*");
        reveal_strlit("+");
        reveal_strlit("?");
    }
    match &node.pattern {
        PatternType::Phrase(t) => out.append(t.short_name()),
        PatternType::Word(t) => out.append(t.short_name()),
        PatternType::Literal(w) => {
            out.append("\"");
            out.append(w.as_str());
            out.append("\"");
        },
    }
    let ghost mid = out@;
    if node.multimatch && node.optional {
        out.append("*");
    } else if node.multimatch {
        out.append("+");
    } else if node.optional {
        out.append("?");
    }
    assert(final(out)@ =~= old(out)@ + type_text(node.pattern@) + modifier_text(node.multimatch, node.optional));
}

impl FindPattern {
    /// A root pattern of the given type with no modifiers, no children and
    /// empty labels.
    pub fn new(pattern: PatternType) -> (r: Self)
        ensures
            r.pattern@ == pattern@,
            !r.multimatch,
            !r.optional,
            r.depth == 0,
            r.node_id == 0,
            r.short_label@ == Seq::<char>::empty(),
            r.label@ == Seq::<char>::empty(),
    {
        FindPattern {
            pattern,
            multimatch: false,
            optional: false,
            depth: 0,
            node_id: 0,
            short_label: String::new(),
            label: String::new(),
        }
    }

    /// The structural identity of this pattern.
    pub fn id(&self) -> (r: (PatternType, bool, bool))
        ensures
            r.0@ == self.pattern@,
            r.1 == self.multimatch,
            r.2 == self.optional,
    {
        (self.pattern.duplicate(), self.multimatch, self.optional)
    }

    /// Whether two patterns share a structural identity.
    pub fn same_class(&self, other: &FindPattern) -> (r: bool)
        ensures
            r == (key_of(*self) == key_of(*other)),
    {
        self.pattern.same_as(&other.pattern) && self.multimatch == other.multimatch
            && self.optional == other.optional
    }

    /// Compute and store this node's short label, given its 0-based rank
    /// among the nodes of its class in depth-first order and the size of
    /// that class.
    pub fn compute_label(&mut self, rank: usize, total: usize)
        requires
            rank < total,
        ensures
            final(self).short_label@ == type_text(old(self).pattern@) + modifier_text(
                old(self).multimatch,
                old(self).optional,
            ) + if total > 1 {
                seq![' '] + decimal(rank as nat + 1)
            } else {
                seq![]
            },
            final(self).pattern == old(self).pattern,
            final(self).multimatch == old(self).multimatch,
            final(self).optional == old(self).optional,
            final(self).depth == old(self).depth,
            final(self).node_id == old(self).node_id,
            final(self).label == old(self).label,
    {
        let mut text = String::new();
        push_type_and_modifier(&mut text, self);
        if total > 1 {
            proof {
                reveal_strlit(" ");
            }
            text.append(" ");
            push_decimal(&mut text, rank + 1);
        }
        self.short_label = text;
        assert(final(self).short_label@ =~= type_text(old(self).pattern@) + modifier_text(
            old(self).multimatch,
            old(self).optional,
        ) + if total > 1 {
            seq![' '] + decimal(rank as nat + 1)
        } else {
            seq![]
        });
    }
}

/// Count the nodes among the first `upto` that share node `i`'s key.
fn count_class(nodes: &Vec<FindPattern>, i: usize, upto: usize) -> (r: usize)
    requires
        i < nodes@.len(),
        upto <= nodes@.len(),
    ensures
        r == class_count(keys_of(nodes@), key_of(nodes@[i as int]), upto as int),
        r <= upto,
{
    let ghost keys = keys_of(nodes@);
    let mut n: usize = 0;
    let mut j: usize = 0;
    while j < upto
        invariant
            j <= upto <= nodes@.len(),
            i < nodes@.len(),
            keys == keys_of(nodes@),
            n == class_count(keys, key_of(nodes@[i as int]), j as int),
            n <= j,
        decreases upto - j,
    {
        if nodes[j].same_class(&nodes[i]) {
            n = n + 1;
        }
        j = j + 1;
    }
    n
}

/// Every node's short label is the one its position in the forest gives.
pub open spec fn short_labels_current(nodes: Seq<FindPattern>) -> bool {
    forall|i: int|
        0 <= i < nodes.len() ==> (#[trigger] nodes[i]).short_label@ == short_text(keys_of(nodes), i)
}

/// `b` is `a` with possibly other labels.
pub open spec fn same_structure(a: Seq<FindPattern>, b: Seq<FindPattern>) -> bool {
    &&& a.len() == b.len()
    &&& forall|i: int|
        0 <= i < a.len() ==> {
            &&& (#[trigger] a[i]).pattern == b[i].pattern
            &&& a[i].multimatch == b[i].multimatch
            &&& a[i].optional == b[i].optional
            &&& a[i].depth == b[i].depth
            &&& a[i].node_id == b[i].node_id
        }
}

proof fn lemma_same_structure_keys(a: Seq<FindPattern>, b: Seq<FindPattern>)
    requires
        same_structure(a, b),
    ensures
        keys_of(a) == keys_of(b),
{
    assert(keys_of(a) =~= keys_of(b)) by {
        assert forall|i: int| 0 <= i < a.len() implies keys_of(a)[i] == keys_of(b)[i] by {
            assert(a[i].pattern == b[i].pattern);
        }
    }
}

proof fn lemma_class_count_le(keys: Seq<PatternKey>, key: PatternKey, a: int, b: int)
    requires
        a <= b,
    ensures
        class_count(keys, key, a) <= class_count(keys, key, b),
    decreases b - a,
{
    if a < b {
        lemma_class_count_le(keys, key, a, b - 1);
    }
}

/// Set every node's short label from its position in the forest.
fn compute_short_labels(nodes: &mut Vec<FindPattern>)
    ensures
        same_structure(old(nodes)@, final(nodes)@),
        short_labels_current(final(nodes)@),
{
    let ghost keys = keys_of(nodes@);
    let len = nodes.len();
    let mut i: usize = 0;
    while i < len
        invariant
            len == nodes@.len(),
            i <= len,
            same_structure(old(nodes)@, nodes@),
            keys == keys_of(nodes@),
            forall|k: int| 0 <= k < i ==> (#[trigger] nodes@[k]).short_label@ == short_text(keys, k),
        decreases len - i,
    {
        let rank = count_class(nodes, i, i);
        let total = count_class(nodes, i, len);
        proof {
            lemma_class_count_le(keys, keys[i as int], i as int, i as int + 1);
            assert(keys[i as int] == key_of(nodes@[i as int]));
            lemma_class_count_le(keys, keys[i as int], i as int + 1, len as int);
        }
        let ghost before = nodes@;
        nodes[i].compute_label(rank, total);
        proof {
            lemma_same_structure_keys(before, nodes@);
        }
        i = i + 1;
    }
}


/// What the full labels are computed from: each node's depth and short label.
pub type LabelShape = Seq<(nat, Seq<char>)>;

pub open spec fn shape_of(nodes: Seq<FindPattern>) -> LabelShape {
    nodes.map_values(|n: FindPattern| (n.depth as nat, n.short_label@))
}

/// The first position at or after `j` whose depth is at most `d`, or the
/// length of the forest.
pub open spec fn scan_to_depth(sh: LabelShape, d: nat, j: int) -> int
    decreases sh.len() - j,
{
    if j >= sh.len() {
        sh.len() as int
    } else if sh[j].0 <= d {
        j
    } else {
        scan_to_depth(sh, d, j + 1)
    }
}

/// The position just past the subtree of node `i`.
pub open spec fn subtree_end(sh: LabelShape, i: int) -> int {
    scan_to_depth(sh, sh[i].0, i + 1)
}

/// The full label of node `i`: its short label, then, if it has nested
/// children, their full labels separated by spaces, between `" { "` and
/// `" }"`.
pub open spec fn full_text(sh: LabelShape, i: int) -> Seq<char>
    decreases sh.len() - i, 1int, 0int,
{
    if !(0 <= i < sh.len()) {
        seq![]
    } else if i + 1 < subtree_end(sh, i) {
        sh[i].1 + " { "@ + children_text(sh, i, i + 1) + " }"@
    } else {
        sh[i].1
    }
}

/// The full labels of node `i`'s children from the child at `j` on,
/// separated by spaces.
pub open spec fn children_text(sh: LabelShape, i: int, j: int) -> Seq<char>
    decreases sh.len() - i, 0int, sh.len() - j,
{
    if !(0 <= i < j < sh.len()) {
        seq![]
    } else {
        let e = subtree_end(sh, j);
        if j < e < subtree_end(sh, i) && e < sh.len() {
            full_text(sh, j) + " "@ + children_text(sh, i, e)
        } else {
            full_text(sh, j)
        }
    }
}

/// Every node's labels are the ones its position in the forest gives.
#[verifier::opaque]
pub open spec fn labels_current(nodes: Seq<FindPattern>) -> bool {
    &&& short_labels_current(nodes)
    &&& forall|i: int|
        0 <= i < nodes.len() ==> (#[trigger] nodes[i]).label@ == full_text(shape_of(nodes), i)
}

/// The position just past the subtree of node `i`.
fn find_subtree_end(nodes: &Vec<FindPattern>, i: usize) -> (r: usize)
    requires
        i < nodes@.len(),
    ensures
        r == subtree_end(shape_of(nodes@), i as int),
        i < r <= nodes@.len(),
{
    let ghost sh = shape_of(nodes@);
    let len = nodes.len();
    let d = nodes[i].depth;
    let mut j: usize = i + 1;
    while j < nodes.len() && nodes[j].depth > d
        invariant
            i < j <= nodes@.len(),
            sh == shape_of(nodes@),
            d == sh[i as int].0,
            scan_to_depth(sh, d as nat, j as int) == subtree_end(sh, i as int),
        decreases nodes@.len() - j,
    {
        j = j + 1;
    }
    j
}

/// `b` is `a` with possibly other full labels.
pub open spec fn same_but_full_labels(a: Seq<FindPattern>, b: Seq<FindPattern>) -> bool {
    &&& same_structure(a, b)
    &&& forall|i: int| 0 <= i < a.len() ==> (#[trigger] a[i]).short_label == b[i].short_label
}

/// The full label of node `i`, given that every node after it already
/// holds its full label.
#[verifier::rlimit(40)]
fn full_label_of(nodes: &Vec<FindPattern>, i: usize) -> (r: String)
    requires
        i < nodes@.len(),
        forall|k: int|
            i < k < nodes@.len() ==> (#[trigger] nodes@[k]).label@ == full_text(shape_of(nodes@), k),
    ensures
        r@ == full_text(shape_of(nodes@), i as int),
{
    let ghost sh = shape_of(nodes@);
    let len = nodes.len();
    let end = find_subtree_end(nodes, i);
    let mut text = nodes[i].short_label.clone();
    if i + 1 < end {
        proof {
            reveal_strlit(" { ");
            reveal_strlit(" }");
            reveal_strlit(" ");
        }
        text.append(" { ");
        let ghost prefix = text@;
        let mut j: usize = i + 1;
        loop
            invariant_except_break
                i < j < end,
                text@ + children_text(sh, i as int, j as int) == prefix + children_text(
                    sh,
                    i as int,
                    i as int + 1,
                ),
            invariant
                end <= len,
                len == nodes@.len(),
                sh == shape_of(nodes@),
                end == subtree_end(sh, i as int),
                forall|k: int| i < k < len ==> (#[trigger] nodes@[k]).label@ == full_text(sh, k),
            ensures
                text@ == prefix + children_text(sh, i as int, i as int + 1),
            decreases len - j,
        {
            let ghost before = text@;
            text.append(nodes[j].label.as_str());
            let e = find_subtree_end(nodes, j);
            proof {
                assert(nodes@[j as int].label@ == full_text(sh, j as int));
            }
            if j < e && e < end {
                text.append(" ");
                assert(text@ + children_text(sh, i as int, e as int) =~= before + children_text(
                    sh,
                    i as int,
                    j as int,
                ));
                j = e;
            } else {
                assert(text@ =~= before + children_text(sh, i as int, j as int));
                break;
            }
        }
        text.append(" }");
        assert(text@ =~= sh[i as int].1 + " { "@ + children_text(sh, i as int, i as int + 1) + " }"@);
    }
    text
}

/// Set every node's full label, children before parents.
fn compute_full_labels(nodes: &mut Vec<FindPattern>)
    ensures
        same_but_full_labels(old(nodes)@, final(nodes)@),
        shape_of(final(nodes)@) == shape_of(old(nodes)@),
        forall|i: int|
            0 <= i < final(nodes)@.len() ==> (#[trigger] final(nodes)@[i]).label@ == full_text(
                shape_of(final(nodes)@),
                i,
            ),
{
    let ghost sh = shape_of(nodes@);
    let len = nodes.len();
    let mut i: usize = len;
    while i > 0
        invariant
            len == nodes@.len(),
            i <= len,
            sh == shape_of(nodes@),
            sh == shape_of(old(nodes)@),
            same_but_full_labels(old(nodes)@, nodes@),
            forall|k: int| i <= k < len ==> (#[trigger] nodes@[k]).label@ == full_text(sh, k),
        decreases i,
    {
        i = i - 1;
        let text = full_label_of(nodes, i);
        let ghost before = nodes@;
        nodes[i].label = text;
        proof {
            assert(shape_of(nodes@) =~= shape_of(before));
        }
    }
}


/// An element of a rule's replace pattern.
pub enum ReplacePattern {
    /// Echo what a find pattern of the same rule matched. `capture` names
    /// that find pattern by its node id, and is `None` once unresolved;
    /// `serde_label` carries the target's short label across a save.
    Capture { capture: Option<u64>, serde_label: String },
    /// Insert fixed text.
    Literal(String),
}

pub enum ReplaceView {
    Capture { capture: Option<u64>, serde_label: Seq<char> },
    Literal(Seq<char>),
}

impl View for ReplacePattern {
    type V = ReplaceView;

    open spec fn view(&self) -> ReplaceView {
        match self {
            ReplacePattern::Capture { capture, serde_label } => ReplaceView::Capture {
                capture: *capture,
                serde_label: serde_label@,
            },
            ReplacePattern::Literal(w) => ReplaceView::Literal(w@),
        }
    }
}

/// A rule of a language's grammar, mapping a find pattern to a replace
/// pattern; roughly a production of a context-sensitive grammar. The find
/// patterns form a forest kept in depth-first order (see `FindPattern`).
pub struct GrammarRule {
    pub find_patterns: Vec<FindPattern>,
    pub replace_patterns: Vec<ReplacePattern>,
    /// The id the next new find pattern gets; ids are never reused.
    pub next_id: u64,
}

/// The depths describe a forest listed in depth-first order.
pub open spec fn forest_ok(nodes: Seq<FindPattern>) -> bool {
    &&& nodes.len() > 0 ==> nodes[0].depth == 0
    &&& forall|i: int| 0 < i < nodes.len() ==> #[trigger] nodes[i].depth <= nodes[i - 1].depth + 1
}

/// Node ids are distinct and below `next_id`.
pub open spec fn ids_ok(nodes: Seq<FindPattern>, next_id: u64) -> bool {
    &&& forall|i: int| 0 <= i < nodes.len() ==> #[trigger] nodes[i].node_id < next_id
    &&& forall|i: int, j: int|
        0 <= i < nodes.len() && 0 <= j < nodes.len() && i != j ==> #[trigger] nodes[i].node_id
            != #[trigger] nodes[j].node_id
}

/// Every capture names an id that was handed out already.
pub open spec fn captures_ok(patterns: Seq<ReplacePattern>, next_id: u64) -> bool {
    forall|i: int|
        0 <= i < patterns.len() ==> match #[trigger] patterns[i] {
            ReplacePattern::Capture { capture: Some(id), .. } => id < next_id,
            _ => true,
        }
}

/// Some node of the forest has this id.
pub open spec fn resolves(nodes: Seq<FindPattern>, id: u64) -> bool {
    exists|k: int| 0 <= k < nodes.len() && #[trigger] nodes[k].node_id == id
}

/// Whether a replace pattern is usable against a forest: a literal always,
/// a capture when its target is still in the forest.
pub open spec fn replace_valid(nodes: Seq<FindPattern>, p: ReplaceView) -> bool {
    match p {
        ReplaceView::Capture { capture: Some(id), .. } => resolves(nodes, id),
        ReplaceView::Capture { capture: None, .. } => false,
        ReplaceView::Literal(_) => true,
    }
}

impl GrammarRule {
    pub open spec fn wf(&self) -> bool {
        &&& forest_ok(self.find_patterns@)
        &&& ids_ok(self.find_patterns@, self.next_id)
        &&& captures_ok(self.replace_patterns@, self.next_id)
        &&& labels_current(self.find_patterns@)
    }

    /// A rule with no find and no replace patterns.
    pub fn new() -> (r: Self)
        ensures
            r.wf(),
            r.find_patterns@.len() == 0,
            r.replace_patterns@.len() == 0,
    {
        let r = GrammarRule { find_patterns: Vec::new(), replace_patterns: Vec::new(), next_id: 0 };
        proof {
            reveal(labels_current);
        }
        r
    }

    /// A rule is ready for use once both of its patterns are set.
    pub fn is_complete(&self) -> (r: bool)
        ensures
            r == (self.find_patterns@.len() > 0 && self.replace_patterns@.len() > 0),
    {
        self.find_patterns.len() > 0 && self.replace_patterns.len() > 0
    }
}

/// Recompute the labels of every find pattern of the rule. Called after
/// every change of the forest's order, shape or node types.
pub fn recompute_pattern_labels(rule: &mut GrammarRule)
    ensures
        same_structure(old(rule).find_patterns@, final(rule).find_patterns@),
        labels_current(final(rule).find_patterns@),
        final(rule).replace_patterns == old(rule).replace_patterns,
        final(rule).next_id == old(rule).next_id,
{
    let ghost first = rule.find_patterns@;
    compute_short_labels(&mut rule.find_patterns);
    let ghost second = rule.find_patterns@;
    compute_full_labels(&mut rule.find_patterns);
    proof {
        reveal(labels_current);
        let third = rule.find_patterns@;
        lemma_same_structure_keys(second, third);
        assert forall|i: int| 0 <= i < third.len() implies (#[trigger] third[i]).short_label@
            == short_text(keys_of(third), i) by {
            assert(third[i].short_label == second[i].short_label);
        }
    }
}


/// Labels depend on the forest's structure alone: two forests of the same
/// structure whose labels are both current carry the same labels, so
/// recomputing the labels of an unchanged forest changes none of them.
pub proof fn law_labels_deterministic(a: Seq<FindPattern>, b: Seq<FindPattern>)
    requires
        same_structure(a, b),
        labels_current(a),
        labels_current(b),
    ensures
        forall|i: int|
            0 <= i < a.len() ==> (#[trigger] a[i]).short_label@ == b[i].short_label@ && a[i].label@
                == b[i].label@,
{
    reveal(labels_current);
    lemma_same_structure_keys(a, b);
    assert(shape_of(a) =~= shape_of(b)) by {
        assert forall|i: int| 0 <= i < a.len() implies shape_of(a)[i] == shape_of(b)[i] by {
            assert(a[i].short_label@ == b[i].short_label@);
        }
    }
}

proof fn lemma_class_count_step(keys: Seq<PatternKey>, i: int, j: int)
    requires
        0 <= i < j <= keys.len(),
    ensures
        class_count(keys, keys[i], i) < class_count(keys, keys[i], j),
    decreases j - i,
{
    if j - 1 > i {
        lemma_class_count_step(keys, i, j - 1);
    }
    lemma_class_count_le(keys, keys[i], i, j - 1);
}

/// The numbers that tell apart nodes of one class run from 1 up to the
/// size of the class in depth-first order: each node's rank is below the
/// class size, later nodes have higher ranks, and a node carries a number
/// exactly when its class has more than one member.
pub proof fn law_disambiguation(nodes: Seq<FindPattern>, i: int, j: int)
    requires
        short_labels_current(nodes),
        0 <= i < j < nodes.len(),
        key_of(nodes[i]) == key_of(nodes[j]),
    ensures
        class_rank(keys_of(nodes), i) < class_rank(keys_of(nodes), j),
        class_rank(keys_of(nodes), j) < class_total(keys_of(nodes), j),
        class_total(keys_of(nodes), i) == class_total(keys_of(nodes), j),
        class_total(keys_of(nodes), i) > 1,
        nodes[i].short_label@ == type_text(nodes[i].pattern@) + modifier_text(
            nodes[i].multimatch,
            nodes[i].optional,
        ) + seq![' '] + decimal(class_rank(keys_of(nodes), i) + 1),
{
    let keys = keys_of(nodes);
    assert(keys[i] == keys[j]);
    lemma_class_count_step(keys, i, j);
    lemma_class_count_step(keys, j, keys.len() as int);
    lemma_class_count_le(keys, keys[i], 0, i);
    assert(nodes[i].short_label@ == short_text(keys, i));
    assert(short_text(keys, i) =~= type_text(nodes[i].pattern@) + modifier_text(
        nodes[i].multimatch,
        nodes[i].optional,
    ) + seq![' '] + decimal(class_rank(keys, i) + 1));
}

/// A node alone in its class carries no number.
pub proof fn law_single_unnumbered(nodes: Seq<FindPattern>, i: int)
    requires
        short_labels_current(nodes),
        0 <= i < nodes.len(),
        forall|k: int| 0 <= k < nodes.len() && k != i ==> key_of(#[trigger] nodes[k]) != key_of(nodes[i]),
    ensures
        class_total(keys_of(nodes), i) == 1,
        nodes[i].short_label@ == type_text(nodes[i].pattern@) + modifier_text(
            nodes[i].multimatch,
            nodes[i].optional,
        ),
{
    let keys = keys_of(nodes);
    assert forall|u: int| 0 <= u <= i implies class_count(keys, keys[i], u) == 0 by {
        lemma_count_none(keys, keys[i], u, i);
    }
    lemma_count_after(keys, i, keys.len() as int);
    assert(nodes[i].short_label@ == short_text(keys, i));
    assert(short_text(keys, i) =~= type_text(nodes[i].pattern@) + modifier_text(
        nodes[i].multimatch,
        nodes[i].optional,
    ));
}

proof fn lemma_count_none(keys: Seq<PatternKey>, key: PatternKey, u: int, i: int)
    requires
        0 <= u <= i < keys.len(),
        forall|k: int| 0 <= k < keys.len() && k != i ==> keys[k] != key,
    ensures
        class_count(keys, key, u) == 0,
    decreases u,
{
    if u > 0 {
        lemma_count_none(keys, key, u - 1, i);
    }
}

proof fn lemma_count_after(keys: Seq<PatternKey>, i: int, u: int)
    requires
        0 <= i < u <= keys.len(),
        forall|k: int| 0 <= k < keys.len() && k != i ==> keys[k] != keys[i],
    ensures
        class_count(keys, keys[i], u) == 1,
    decreases u,
{
    if u - 1 > i {
        lemma_count_after(keys, i, u - 1);
    } else {
        lemma_count_none(keys, keys[i], i, i);
    }
}


proof fn lemma_scan(sh: LabelShape, d: nat, j: int)
    requires
        0 <= j <= sh.len(),
    ensures
        j <= scan_to_depth(sh, d, j) <= sh.len(),
        forall|m: int| j <= m < scan_to_depth(sh, d, j) ==> sh[m].0 > d,
        scan_to_depth(sh, d, j) < sh.len() ==> sh[scan_to_depth(sh, d, j)].0 <= d,
    decreases sh.len() - j,
{
    if j < sh.len() && sh[j].0 > d {
        lemma_scan(sh, d, j + 1);
    }
}

/// What `subtree_end` says of a forest's nodes.
proof fn lemma_subtree(nodes: Seq<FindPattern>, i: int)
    requires
        0 <= i < nodes.len(),
    ensures
        i < subtree_end(shape_of(nodes), i) <= nodes.len(),
        forall|m: int|
            i < m < subtree_end(shape_of(nodes), i) ==> #[trigger] nodes[m].depth > nodes[i].depth,
        subtree_end(shape_of(nodes), i) < nodes.len() ==> nodes[subtree_end(
            shape_of(nodes),
            i,
        )].depth <= nodes[i].depth,
{
    let sh = shape_of(nodes);
    lemma_scan(sh, sh[i].0, i + 1);
    assert forall|m: int| i < m < subtree_end(sh, i) implies #[trigger] nodes[m].depth
        > nodes[i].depth by {
        assert(sh[m].0 == nodes[m].depth);
    }
}

proof fn lemma_depth_bound(nodes: Seq<FindPattern>)
    requires
        forest_ok(nodes),
    ensures
        forall|i: int| 0 <= i < nodes.len() ==> #[trigger] nodes[i].depth <= i,
{
    assert forall|i: int| 0 <= i < nodes.len() implies #[trigger] nodes[i].depth <= i by {
        lemma_depth_bound_at(nodes, i);
    }
}

proof fn lemma_depth_bound_at(nodes: Seq<FindPattern>, i: int)
    requires
        forest_ok(nodes),
        0 <= i < nodes.len(),
    ensures
        nodes[i].depth <= i,
    decreases i,
{
    if i > 0 {
        lemma_depth_bound_at(nodes, i - 1);
    }
}

proof fn lemma_same_structure_ok(a: Seq<FindPattern>, b: Seq<FindPattern>, next_id: u64)
    requires
        same_structure(a, b),
    ensures
        forest_ok(a) ==> forest_ok(b),
        ids_ok(a, next_id) ==> ids_ok(b, next_id),
        forall|id: u64| resolves(a, id) == resolves(b, id),
{
    assert forall|id: u64| resolves(a, id) implies resolves(b, id) by {
        let k = choose|k: int| 0 <= k < a.len() && #[trigger] a[k].node_id == id;
        assert(b[k].node_id == id);
    }
    assert forall|id: u64| resolves(b, id) implies resolves(a, id) by {
        let k = choose|k: int| 0 <= k < b.len() && #[trigger] b[k].node_id == id;
        assert(a[k].node_id == id);
    }
    if forest_ok(a) {
        assert forall|i: int| 0 < i < b.len() implies #[trigger] b[i].depth <= b[i - 1].depth + 1 by {
            assert(a[i].depth <= a[i - 1].depth + 1);
        }
    }
    if ids_ok(a, next_id) {
        assert forall|i: int, j: int|
            0 <= i < b.len() && 0 <= j < b.len() && i != j implies #[trigger] b[i].node_id
            != #[trigger] b[j].node_id by {
            assert(a[i].node_id != a[j].node_id);
        }
        assert forall|i: int| 0 <= i < b.len() implies #[trigger] b[i].node_id < next_id by {
            assert(a[i].node_id < next_id);
        }
    }
}

/// Some node of the subtree rooted at `at` has this id.
pub open spec fn in_subtree(nodes: Seq<FindPattern>, at: int, id: u64) -> bool {
    exists|k: int| at <= k < subtree_end(shape_of(nodes), at) && #[trigger] nodes[k].node_id == id
}

/// Whether a capture names a node of the subtree rooted at `at`.
pub open spec fn captures_in_subtree(nodes: Seq<FindPattern>, at: int, p: ReplaceView) -> bool {
    match p {
        ReplaceView::Capture { capture: Some(id), .. } => in_subtree(nodes, at, id),
        _ => false,
    }
}

impl GrammarRule {
    /// Insert a new node of the given depth at position `at` of the forest.
    fn insert_node(&mut self, at: usize, depth: usize, pattern: PatternType)
        requires
            old(self).wf(),
            old(self).next_id < u64::MAX,
            at <= old(self).find_patterns@.len(),
            at == 0 ==> depth == 0,
            at > 0 ==> depth <= old(self).find_patterns@[at - 1].depth + 1,
            at < old(self).find_patterns@.len() ==> old(self).find_patterns@[at as int].depth
                <= depth + 1,
        ensures
            final(self).wf(),
            final(self).next_id == old(self).next_id + 1,
            final(self).replace_patterns == old(self).replace_patterns,
            same_structure(
                old(self).find_patterns@.insert(at as int, final(self).find_patterns@[at as int]),
                final(self).find_patterns@,
            ),
            final(self).find_patterns@[at as int].pattern@ == pattern@,
            final(self).find_patterns@[at as int].depth == depth,
            final(self).find_patterns@[at as int].node_id == old(self).next_id,
            !final(self).find_patterns@[at as int].multimatch,
            !final(self).find_patterns@[at as int].optional,
    {
        let ghost pat = pattern@;
        let mut node = FindPattern::new(pattern);
        node.depth = depth;
        node.node_id = self.next_id;
        self.find_patterns.insert(at, node);
        self.next_id = self.next_id + 1;
        let ghost mid = self.find_patterns@;
        proof {
            lemma_insert_ok(old(self).find_patterns@, mid, at as int, old(self).next_id);
            lemma_captures_grow(self.replace_patterns@, old(self).next_id, self.next_id);
        }
        recompute_pattern_labels(self);
        proof {
            lemma_same_structure_ok(mid, self.find_patterns@, self.next_id);
            assert(old(self).find_patterns@.insert(at as int, self.find_patterns@[at as int])
                =~= mid.update(at as int, self.find_patterns@[at as int]));
        }
    }

    /// Append a new root find pattern.
    pub fn push_find_pattern(&mut self, pattern: PatternType)
        requires
            old(self).wf(),
            old(self).next_id < u64::MAX,
        ensures
            final(self).wf(),
            final(self).replace_patterns == old(self).replace_patterns,
            same_structure(
                old(self).find_patterns@.push(final(self).find_patterns@.last()),
                final(self).find_patterns@,
            ),
            final(self).find_patterns@.last().pattern@ == pattern@,
            final(self).find_patterns@.last().depth == 0,
            final(self).find_patterns@.last().node_id == old(self).next_id,
            !final(self).find_patterns@.last().multimatch,
            !final(self).find_patterns@.last().optional,
    {
        let at = self.find_patterns.len();
        self.insert_node(at, 0, pattern);
        assert(old(self).find_patterns@.insert(at as int, self.find_patterns@[at as int])
            =~= old(self).find_patterns@.push(self.find_patterns@.last()));
    }

    /// Insert a new find pattern in front of the node at `at`, as its
    /// sibling (a root in front of a root, a child in front of a child).
    pub fn insert_find_pattern(&mut self, at: usize, pattern: PatternType)
        requires
            old(self).wf(),
            old(self).next_id < u64::MAX,
            at < old(self).find_patterns@.len(),
        ensures
            final(self).wf(),
            final(self).replace_patterns == old(self).replace_patterns,
            same_structure(
                old(self).find_patterns@.insert(at as int, final(self).find_patterns@[at as int]),
                final(self).find_patterns@,
            ),
            final(self).find_patterns@[at as int].pattern@ == pattern@,
            final(self).find_patterns@[at as int].depth == old(self).find_patterns@[at as int].depth,
            final(self).find_patterns@[at as int].node_id == old(self).next_id,
            !final(self).find_patterns@[at as int].multimatch,
            !final(self).find_patterns@[at as int].optional,
    {
        let depth = self.find_patterns[at].depth;
        self.insert_node(at, depth, pattern);
    }

    /// Add a new deep-match child after the existing children of the node
    /// at `parent`, which must not be a literal.
    pub fn add_deep_match(&mut self, parent: usize, pattern: PatternType)
        requires
            old(self).wf(),
            old(self).next_id < u64::MAX,
            parent < old(self).find_patterns@.len(),
            !(old(self).find_patterns@[parent as int].pattern is Literal),
        ensures
            final(self).wf(),
            final(self).replace_patterns == old(self).replace_patterns,
            ({
                let at = subtree_end(shape_of(old(self).find_patterns@), parent as int);
                &&& same_structure(
                    old(self).find_patterns@.insert(at, final(self).find_patterns@[at]),
                    final(self).find_patterns@,
                )
                &&& final(self).find_patterns@[at].pattern@ == pattern@
                &&& final(self).find_patterns@[at].depth == old(self).find_patterns@[parent as int].depth + 1
                &&& final(self).find_patterns@[at].node_id == old(self).next_id
                &&& !final(self).find_patterns@[at].multimatch
                &&& !final(self).find_patterns@[at].optional
            }),
    {
        let at = find_subtree_end(&self.find_patterns, parent);
        let depth = self.find_patterns[parent].depth;
        proof {
            lemma_subtree(self.find_patterns@, parent as int);
            lemma_depth_bound(self.find_patterns@);
            if at - 1 > parent {
                assert(self.find_patterns@[at - 1].depth > depth);
            }
        }
        self.insert_node(at, depth + 1, pattern);
    }

    /// Delete the node at `at` together with its nested children. Captures
    /// of the deleted nodes become unresolved; all others keep resolving
    /// as before.
    #[verifier::rlimit(50)]
    pub fn delete_find_pattern(&mut self, at: usize)
        requires
            old(self).wf(),
            at < old(self).find_patterns@.len(),
        ensures
            final(self).wf(),
            final(self).replace_patterns == old(self).replace_patterns,
            final(self).next_id == old(self).next_id,
            ({
                let e = subtree_end(shape_of(old(self).find_patterns@), at as int);
                same_structure(
                    old(self).find_patterns@.subrange(0, at as int) + old(self).find_patterns@.subrange(
                        e,
                        old(self).find_patterns@.len() as int,
                    ),
                    final(self).find_patterns@,
                )
            }),
            forall|id: u64|
                resolves(final(self).find_patterns@, id) == (resolves(old(self).find_patterns@, id)
                    && !in_subtree(old(self).find_patterns@, at as int, id)),
            forall|i: int|
                0 <= i < old(self).replace_patterns@.len() ==> replace_valid(
                    final(self).find_patterns@,
                    (#[trigger] old(self).replace_patterns@[i])@,
                ) == (replace_valid(old(self).find_patterns@, old(self).replace_patterns@[i]@)
                    && !captures_in_subtree(
                    old(self).find_patterns@,
                    at as int,
                    old(self).replace_patterns@[i]@,
                )),
    {
        let ghost o = self.find_patterns@;
        let ghost len = o.len();
        let end = find_subtree_end(&self.find_patterns, at);
        proof {
            lemma_subtree(o, at as int);
        }
        let count = end - at;
        let mut removed: usize = 0;
        while removed < count
            invariant
                removed <= count == end - at,
                at < end <= len == o.len(),
                self.find_patterns@ == o.subrange(0, at as int) + o.subrange(
                    at + removed,
                    len as int,
                ),
                self.next_id == old(self).next_id,
                self.replace_patterns == old(self).replace_patterns,
            decreases count - removed,
        {
            let ghost before = self.find_patterns@;
            self.find_patterns.remove(at);
            assert(self.find_patterns@ =~= o.subrange(0, at as int) + o.subrange(
                at + removed + 1,
                len as int,
            ));
            removed = removed + 1;
        }
        let ghost mid = self.find_patterns@;
        proof {
            lemma_remove_ok(o, mid, at as int, end as int, self.next_id);
        }
        recompute_pattern_labels(self);
        proof {
            lemma_same_structure_ok(mid, self.find_patterns@, self.next_id);
        }
    }

    /// Set the modifiers of the node at `at`.
    pub fn set_modifiers(&mut self, at: usize, multimatch: bool, optional: bool)
        requires
            old(self).wf(),
            at < old(self).find_patterns@.len(),
        ensures
            final(self).wf(),
            final(self).replace_patterns == old(self).replace_patterns,
            final(self).next_id == old(self).next_id,
            same_structure(
                old(self).find_patterns@.update(at as int, final(self).find_patterns@[at as int]),
                final(self).find_patterns@,
            ),
            final(self).find_patterns@[at as int].pattern == old(self).find_patterns@[at as int].pattern,
            final(self).find_patterns@[at as int].depth == old(self).find_patterns@[at as int].depth,
            final(self).find_patterns@[at as int].node_id == old(self).find_patterns@[at as int].node_id,
            final(self).find_patterns@[at as int].multimatch == multimatch,
            final(self).find_patterns@[at as int].optional == optional,
    {
        self.find_patterns[at].multimatch = multimatch;
        self.find_patterns[at].optional = optional;
        let ghost mid = self.find_patterns@;
        proof {
            assert(mid =~= old(self).find_patterns@.update(at as int, mid[at as int]));
            lemma_update_ok(old(self).find_patterns@, mid, at as int, self.next_id);
        }
        recompute_pattern_labels(self);
        proof {
            lemma_same_structure_ok(mid, self.find_patterns@, self.next_id);
            let f = self.find_patterns@;
            let o = old(self).find_patterns@;
            let u = o.update(at as int, f[at as int]);
            assert forall|i: int| 0 <= i < u.len() implies {
                &&& (#[trigger] u[i]).pattern == f[i].pattern
                &&& u[i].multimatch == f[i].multimatch
                &&& u[i].optional == f[i].optional
                &&& u[i].depth == f[i].depth
                &&& u[i].node_id == f[i].node_id
            } by {
                assert(mid[i].pattern == f[i].pattern);
            }
        }
    }
}


proof fn lemma_captures_grow(p: Seq<ReplacePattern>, a: u64, b: u64)
    requires
        captures_ok(p, a),
        a <= b,
    ensures
        captures_ok(p, b),
{
    assert forall|i: int| 0 <= i < p.len() implies match #[trigger] p[i] {
        ReplacePattern::Capture { capture: Some(id), .. } => id < b,
        _ => true,
    } by {
        assert(match p[i] {
            ReplacePattern::Capture { capture: Some(id), .. } => id < a,
            _ => true,
        });
    }
}

proof fn lemma_insert_ok(o: Seq<FindPattern>, mid: Seq<FindPattern>, at: int, next_id: u64)
    requires
        0 <= at <= o.len(),
        mid == o.insert(at, mid[at]),
        forest_ok(o),
        ids_ok(o, next_id),
        next_id < u64::MAX,
        mid[at].node_id == next_id,
        at == 0 ==> mid[at].depth == 0,
        at > 0 ==> mid[at].depth <= o[at - 1].depth + 1,
        at < o.len() ==> o[at].depth <= mid[at].depth + 1,
    ensures
        forest_ok(mid),
        ids_ok(mid, (next_id + 1) as u64),
{
    assert forall|i: int| 0 < i < mid.len() implies #[trigger] mid[i].depth <= mid[i - 1].depth
        + 1 by {
        if i > at + 1 {
            assert(mid[i] == o[i - 1] && mid[i - 1] == o[i - 2]);
            assert(o[i - 1].depth <= o[i - 2].depth + 1);
        } else if i == at + 1 {
            assert(mid[i] == o[i - 1]);
        } else if i < at {
            assert(o[i].depth <= o[i - 1].depth + 1);
        }
    }
    assert forall|i: int, j: int|
        0 <= i < mid.len() && 0 <= j < mid.len() && i != j implies #[trigger] mid[i].node_id
        != #[trigger] mid[j].node_id by {
        let oi = if i < at { i } else { i - 1 };
        let oj = if j < at { j } else { j - 1 };
        if i != at && j != at {
            assert(o[oi].node_id != o[oj].node_id);
        } else if i != at {
            assert(o[oi].node_id < next_id);
        } else if j != at {
            assert(o[oj].node_id < next_id);
        }
    }
    assert forall|i: int| 0 <= i < mid.len() implies #[trigger] mid[i].node_id < next_id + 1 by {
        if i < at {
            assert(o[i].node_id < next_id);
        } else if i > at {
            assert(o[i - 1].node_id < next_id);
        }
    }
}

proof fn lemma_cut(o: Seq<FindPattern>, mid: Seq<FindPattern>, at: int, end: int)
    requires
        0 <= at < end <= o.len(),
        mid == o.subrange(0, at) + o.subrange(end, o.len() as int),
    ensures
        mid.len() == o.len() - (end - at),
        forall|i: int| 0 <= i < at ==> #[trigger] mid[i] == o[i],
        forall|i: int| at <= i < mid.len() ==> #[trigger] mid[i] == o[i + (end - at)],
{
}

proof fn lemma_remove_ok(o: Seq<FindPattern>, mid: Seq<FindPattern>, at: int, end: int, next_id: u64)
    requires
        0 <= at < end <= o.len(),
        end == subtree_end(shape_of(o), at),
        mid == o.subrange(0, at) + o.subrange(end, o.len() as int),
        forest_ok(o),
        ids_ok(o, next_id),
    ensures
        forest_ok(mid),
        ids_ok(mid, next_id),
        forall|id: u64| resolves(mid, id) == (resolves(o, id) && !in_subtree(o, at, id)),
{
    lemma_subtree(o, at);
    lemma_cut(o, mid, at, end);
    let d = end - at;
    assert forall|i: int| 0 < i < mid.len() implies #[trigger] mid[i].depth <= mid[i - 1].depth
        + 1 by {
        if i > at {
            assert(mid[i] == o[i + d] && mid[i - 1] == o[i - 1 + d]);
            assert(o[i + d].depth <= o[i + d - 1].depth + 1);
        } else if i == at {
            assert(mid[i] == o[end]);
            assert(o[at].depth <= o[at - 1].depth + 1);
        } else {
            assert(mid[i] == o[i] && mid[i - 1] == o[i - 1]);
            assert(o[i].depth <= o[i - 1].depth + 1);
        }
    }
    if mid.len() > 0 && at == 0 {
        assert(mid[0] == o[end]);
    }
    lemma_remove_ids(o, mid, at, end, next_id);
    lemma_remove_resolves(o, mid, at, end, next_id);
}

proof fn lemma_remove_ids(o: Seq<FindPattern>, mid: Seq<FindPattern>, at: int, end: int, next_id: u64)
    requires
        0 <= at < end <= o.len(),
        mid == o.subrange(0, at) + o.subrange(end, o.len() as int),
        ids_ok(o, next_id),
    ensures
        ids_ok(mid, next_id),
{
    lemma_cut(o, mid, at, end);
    let d = end - at;
    assert forall|i: int, j: int|
        0 <= i < mid.len() && 0 <= j < mid.len() && i != j implies #[trigger] mid[i].node_id
        != #[trigger] mid[j].node_id by {
        let oi = if i < at { i } else { i + d };
        let oj = if j < at { j } else { j + d };
        assert(mid[i] == o[oi] && mid[j] == o[oj]);
    }
    assert forall|i: int| 0 <= i < mid.len() implies #[trigger] mid[i].node_id < next_id by {
        let oi = if i < at { i } else { i + d };
        assert(mid[i] == o[oi]);
    }
}

proof fn lemma_remove_resolves(o: Seq<FindPattern>, mid: Seq<FindPattern>, at: int, end: int, next_id: u64)
    requires
        0 <= at < end <= o.len(),
        end == subtree_end(shape_of(o), at),
        mid == o.subrange(0, at) + o.subrange(end, o.len() as int),
        ids_ok(o, next_id),
    ensures
        forall|id: u64| resolves(mid, id) == (resolves(o, id) && !in_subtree(o, at, id)),
{
    lemma_cut(o, mid, at, end);
    let d = end - at;
    assert forall|id: u64| resolves(mid, id) == (resolves(o, id) && !in_subtree(o, at, id)) by {
        if resolves(mid, id) {
            let k = choose|k: int| 0 <= k < mid.len() && #[trigger] mid[k].node_id == id;
            let ok = if k < at { k } else { k + d };
            assert(mid[k] == o[ok]);
            if in_subtree(o, at, id) {
                let m = choose|m: int| at <= m < end && #[trigger] o[m].node_id == id;
                assert(o[m].node_id != o[ok].node_id);
            }
        }
        if resolves(o, id) && !in_subtree(o, at, id) {
            let k = choose|k: int| 0 <= k < o.len() && #[trigger] o[k].node_id == id;
            if k < at {
                assert(mid[k] == o[k]);
            } else {
                assert(!(at <= k < end));
                assert(mid[k - d] == o[k]);
            }
        }
    }
}

proof fn lemma_update_ok(o: Seq<FindPattern>, mid: Seq<FindPattern>, at: int, next_id: u64)
    requires
        0 <= at < o.len(),
        mid == o.update(at, mid[at]),
        mid[at].depth == o[at].depth,
        mid[at].node_id == o[at].node_id,
        forest_ok(o),
        ids_ok(o, next_id),
    ensures
        forest_ok(mid),
        ids_ok(mid, next_id),
{
    assert forall|i: int| 0 < i < mid.len() implies #[trigger] mid[i].depth <= mid[i - 1].depth
        + 1 by {
        assert(o[i].depth <= o[i - 1].depth + 1);
    }
    assert forall|i: int, j: int|
        0 <= i < mid.len() && 0 <= j < mid.len() && i != j implies #[trigger] mid[i].node_id
        != #[trigger] mid[j].node_id by {
        assert(o[i].node_id != o[j].node_id);
    }
    assert forall|i: int| 0 <= i < mid.len() implies #[trigger] mid[i].node_id < next_id by {
        assert(o[i].node_id < next_id);
    }
}


/// The position of the node with this id, if any.
fn find_node(nodes: &Vec<FindPattern>, id: u64) -> (r: Option<usize>)
    ensures
        r is None ==> !resolves(nodes@, id),
        r matches Some(k) ==> k < nodes@.len() && nodes@[k as int].node_id == id,
{
    let mut k: usize = 0;
    while k < nodes.len()
        invariant
            k <= nodes@.len(),
            forall|m: int| 0 <= m < k ==> (#[trigger] nodes@[m]).node_id != id,
        decreases nodes@.len() - k,
    {
        if nodes[k].node_id == id {
            return Some(k);
        }
        k = k + 1;
    }
    None
}

/// The position of the node with this id, where there is one.
pub open spec fn node_with_id(nodes: Seq<FindPattern>, id: u64) -> int {
    choose|k: int| 0 <= k < nodes.len() && #[trigger] nodes[k].node_id == id
}

proof fn lemma_node_with_id(nodes: Seq<FindPattern>, id: u64, k: int, next_id: u64)
    requires
        ids_ok(nodes, next_id),
        0 <= k < nodes.len(),
        nodes[k].node_id == id,
    ensures
        node_with_id(nodes, id) == k,
{
    let c = node_with_id(nodes, id);
    assert(0 <= c < nodes.len() && nodes[c].node_id == id);
    if c != k {
        assert(nodes[c].node_id != nodes[k].node_id);
    }
}

/// The label a capture is saved under: its target's short label, or
/// nothing when it is unresolved.
pub open spec fn saved_label(nodes: Seq<FindPattern>, capture: Option<u64>) -> Seq<char> {
    match capture {
        Some(id) => if resolves(nodes, id) {
            nodes[node_with_id(nodes, id)].short_label@
        } else {
            seq![]
        },
        None => seq![],
    }
}

/// A replace pattern as saved: a capture carries its target's label.
pub open spec fn saved(nodes: Seq<FindPattern>, p: ReplaceView) -> ReplaceView {
    match p {
        ReplaceView::Capture { capture, .. } => ReplaceView::Capture {
            capture,
            serde_label: saved_label(nodes, capture),
        },
        ReplaceView::Literal(w) => ReplaceView::Literal(w),
    }
}

/// The first position at or after `from` whose short label is `l`.
pub open spec fn first_labelled(nodes: Seq<FindPattern>, l: Seq<char>, from: int) -> Option<int>
    decreases nodes.len() - from,
{
    if from < 0 || from >= nodes.len() {
        None
    } else if nodes[from].short_label@ == l {
        Some(from)
    } else {
        first_labelled(nodes, l, from + 1)
    }
}

/// A replace pattern as loaded: a capture names the first node in
/// depth-first order whose short label is the saved one, or is unresolved
/// when there is none.
pub open spec fn loaded(nodes: Seq<FindPattern>, p: ReplaceView) -> ReplaceView {
    match p {
        ReplaceView::Capture { serde_label, .. } => ReplaceView::Capture {
            capture: match first_labelled(nodes, serde_label, 0) {
                Some(k) => Some(nodes[k].node_id),
                None => None,
            },
            serde_label,
        },
        ReplaceView::Literal(w) => ReplaceView::Literal(w),
    }
}

impl ReplacePattern {
    /// A literal is always valid; a capture while its target is in the
    /// rule's forest.
    pub fn is_valid(&self, rule: &GrammarRule) -> (r: bool)
        ensures
            r == replace_valid(rule.find_patterns@, self@),
    {
        match self {
            ReplacePattern::Capture { capture, .. } => match capture {
                Some(id) => find_node(&rule.find_patterns, *id).is_some(),
                None => false,
            },
            ReplacePattern::Literal(_) => true,
        }
    }

    /// Display text: a capture's target's full label (empty when
    /// unresolved), or the literal in double quotes.
    pub fn as_dbg_text(&self, rule: &GrammarRule) -> (r: String)
        requires
            ids_ok(rule.find_patterns@, rule.next_id),
        ensures
            r@ == match self@ {
                ReplaceView::Capture { capture: Some(id), .. } => if resolves(
                    rule.find_patterns@,
                    id,
                ) {
                    rule.find_patterns@[node_with_id(rule.find_patterns@, id)].label@
                } else {
                    seq![]
                },
                ReplaceView::Capture { capture: None, .. } => seq![],
                ReplaceView::Literal(w) => seq!['"'] + w + seq!['"'],
            },
    {
        match self {
            ReplacePattern::Capture { capture, .. } => match capture {
                Some(id) => match find_node(&rule.find_patterns, *id) {
                    Some(k) => {
                        proof {
                            lemma_node_with_id(rule.find_patterns@, *id, k as int, rule.next_id);
                        }
                        rule.find_patterns[k].label.clone()
                    },
                    None => String::new(),
                },
                None => String::new(),
            },
            ReplacePattern::Literal(w) => {
                proof {
                    reveal_strlit("\"");
                }
                let mut r = String::new();
                r.append("\"");
                r.append(w.as_str());
                r.append("\"");
                assert(r@ =~= seq!['"'] + w@ + seq!['"']);
                r
            },
        }
    }
}

impl GrammarRule {
    /// A capture of the node at `at`.
    pub fn capture(&self, at: usize) -> (r: ReplacePattern)
        requires
            at < self.find_patterns@.len(),
        ensures
            r@ == (ReplaceView::Capture {
                capture: Some(self.find_patterns@[at as int].node_id),
                serde_label: seq![],
            }),
    {
        ReplacePattern::Capture { capture: Some(self.find_patterns[at].node_id), serde_label: String::new() }
    }

    /// Insert a replace pattern at position `at` of the replace list.
    pub fn insert_replace_pattern(&mut self, at: usize, pattern: ReplacePattern)
        requires
            old(self).wf(),
            at <= old(self).replace_patterns@.len(),
            pattern matches ReplacePattern::Capture { capture: Some(id), .. } ==> id < old(self).next_id,
        ensures
            final(self).wf(),
            final(self).find_patterns == old(self).find_patterns,
            final(self).next_id == old(self).next_id,
            final(self).replace_patterns@ == old(self).replace_patterns@.insert(at as int, pattern),
    {
        self.replace_patterns.insert(at, pattern);
        proof {
            let o = old(self).replace_patterns@;
            let n = self.replace_patterns@;
            assert forall|i: int| 0 <= i < n.len() implies match #[trigger] n[i] {
                ReplacePattern::Capture { capture: Some(id), .. } => id < self.next_id,
                _ => true,
            } by {
                if i < at {
                    assert(n[i] == o[i]);
                } else if i > at {
                    assert(n[i] == o[i - 1]);
                }
            }
        }
    }

    /// Append a replace pattern.
    pub fn push_replace_pattern(&mut self, pattern: ReplacePattern)
        requires
            old(self).wf(),
            pattern matches ReplacePattern::Capture { capture: Some(id), .. } ==> id < old(self).next_id,
        ensures
            final(self).wf(),
            final(self).find_patterns == old(self).find_patterns,
            final(self).next_id == old(self).next_id,
            final(self).replace_patterns@ == old(self).replace_patterns@.push(pattern),
    {
        let at = self.replace_patterns.len();
        self.insert_replace_pattern(at, pattern);
        assert(old(self).replace_patterns@.insert(at as int, pattern) =~= old(self).replace_patterns@.push(pattern));
    }

    /// Delete the replace pattern at position `at`.
    pub fn delete_replace_pattern(&mut self, at: usize)
        requires
            old(self).wf(),
            at < old(self).replace_patterns@.len(),
        ensures
            final(self).wf(),
            final(self).find_patterns == old(self).find_patterns,
            final(self).next_id == old(self).next_id,
            final(self).replace_patterns@ == old(self).replace_patterns@.remove(at as int),
    {
        self.replace_patterns.remove(at);
        proof {
            let o = old(self).replace_patterns@;
            let n = self.replace_patterns@;
            assert forall|i: int| 0 <= i < n.len() implies match #[trigger] n[i] {
                ReplacePattern::Capture { capture: Some(id), .. } => id < self.next_id,
                _ => true,
            } by {
                if i < at {
                    assert(n[i] == o[i]);
                } else {
                    assert(n[i] == o[i + 1]);
                }
            }
        }
    }
}


/// Store in each capture of the rule its target's current short label.
fn save_rule(rule: &mut GrammarRule)
    requires
        old(rule).wf(),
    ensures
        final(rule).wf(),
        final(rule).find_patterns == old(rule).find_patterns,
        final(rule).next_id == old(rule).next_id,
        final(rule).replace_patterns@.len() == old(rule).replace_patterns@.len(),
        forall|i: int|
            0 <= i < old(rule).replace_patterns@.len() ==> (#[trigger] final(rule).replace_patterns@[i])@
                == saved(old(rule).find_patterns@, old(rule).replace_patterns@[i]@),
        forall|i: int|
            0 <= i < old(rule).replace_patterns@.len() ==> (match #[trigger] old(rule).replace_patterns@[i] {
                ReplacePattern::Capture { capture, .. } => final(rule).replace_patterns@[i] matches ReplacePattern::Capture { capture: c, .. } && c == capture,
                _ => true,
            }),
{
    let len = rule.replace_patterns.len();
    let mut i: usize = 0;
    while i < len
        invariant
            len == rule.replace_patterns@.len() == old(rule).replace_patterns@.len(),
            i <= len,
            rule.find_patterns == old(rule).find_patterns,
            rule.next_id == old(rule).next_id,
            rule.wf(),
            forall|k: int| i <= k < len ==> #[trigger] rule.replace_patterns@[k] == old(rule).replace_patterns@[k],
            forall|k: int|
                0 <= k < i ==> (#[trigger] rule.replace_patterns@[k])@ == saved(
                    old(rule).find_patterns@,
                    old(rule).replace_patterns@[k]@,
                ),
            forall|k: int|
                0 <= k < i ==> (match #[trigger] old(rule).replace_patterns@[k] {
                    ReplacePattern::Capture { capture, .. } => rule.replace_patterns@[k] matches ReplacePattern::Capture { capture: c, .. } && c == capture,
                    _ => true,
                }),
        decreases len - i,
    {
        let replacement = match &rule.replace_patterns[i] {
            ReplacePattern::Capture { capture, .. } => {
                let label = match capture {
                    Some(id) => match find_node(&rule.find_patterns, *id) {
                        Some(k) => {
                            proof {
                                lemma_node_with_id(rule.find_patterns@, *id, k as int, rule.next_id);
                            }
                            rule.find_patterns[k].short_label.clone()
                        },
                        None => String::new(),
                    },
                    None => String::new(),
                };
                Some(ReplacePattern::Capture { capture: *capture, serde_label: label })
            },
            ReplacePattern::Literal(_) => None,
        };
        match replacement {
            Some(p) => {
                let ghost before = rule.replace_patterns@;
                rule.replace_patterns.set(i, p);
                proof {
                    assert forall|k: int| 0 <= k < len implies match #[trigger] rule.replace_patterns@[k] {
                        ReplacePattern::Capture { capture: Some(id), .. } => id < rule.next_id,
                        _ => true,
                    } by {
                        if k != i {
                            assert(rule.replace_patterns@[k] == before[k]);
                        } else {
                            assert(match old(rule).replace_patterns@[k] {
                                ReplacePattern::Capture { capture: Some(id), .. } => id < rule.next_id,
                                _ => true,
                            });
                        }
                    }
                }
            },
            None => {},
        }
        i = i + 1;
    }
}

/// Point each capture of the rule at the first node, in depth-first order,
/// whose short label is the capture's saved label; a capture whose label
/// no node carries becomes unresolved.
fn load_rule(rule: &mut GrammarRule)
    requires
        old(rule).wf(),
    ensures
        final(rule).wf(),
        final(rule).find_patterns == old(rule).find_patterns,
        final(rule).next_id == old(rule).next_id,
        final(rule).replace_patterns@.len() == old(rule).replace_patterns@.len(),
        forall|i: int|
            0 <= i < old(rule).replace_patterns@.len() ==> (#[trigger] final(rule).replace_patterns@[i])@
                == loaded(old(rule).find_patterns@, old(rule).replace_patterns@[i]@),
{
    let len = rule.replace_patterns.len();
    let mut i: usize = 0;
    while i < len
        invariant
            len == rule.replace_patterns@.len() == old(rule).replace_patterns@.len(),
            i <= len,
            rule.find_patterns == old(rule).find_patterns,
            rule.next_id == old(rule).next_id,
            rule.wf(),
            forall|k: int| i <= k < len ==> #[trigger] rule.replace_patterns@[k] == old(rule).replace_patterns@[k],
            forall|k: int|
                0 <= k < i ==> (#[trigger] rule.replace_patterns@[k])@ == loaded(
                    old(rule).find_patterns@,
                    old(rule).replace_patterns@[k]@,
                ),
        decreases len - i,
    {
        let replacement = match &rule.replace_patterns[i] {
            ReplacePattern::Capture { serde_label, .. } => {
                let target = find_labelled(&rule.find_patterns, serde_label);
                let capture = match target {
                    Some(k) => Some(rule.find_patterns[k].node_id),
                    None => None,
                };
                Some(ReplacePattern::Capture { capture, serde_label: serde_label.clone() })
            },
            ReplacePattern::Literal(_) => None,
        };
        match replacement {
            Some(p) => {
                let ghost before = rule.replace_patterns@;
                rule.replace_patterns.set(i, p);
                proof {
                    assert forall|k: int| 0 <= k < len implies match #[trigger] rule.replace_patterns@[k] {
                        ReplacePattern::Capture { capture: Some(id), .. } => id < rule.next_id,
                        _ => true,
                    } by {
                        if k != i {
                            assert(rule.replace_patterns@[k] == before[k]);
                        }
                    }
                }
            },
            None => {},
        }
        i = i + 1;
    }
}

/// The first position whose short label is `label`.
fn find_labelled(nodes: &Vec<FindPattern>, label: &String) -> (r: Option<usize>)
    ensures
        r matches Some(k) ==> k < nodes@.len() && first_labelled(nodes@, label@, 0) == Some(k as int),
        r is None ==> first_labelled(nodes@, label@, 0) is None,
{
    let mut k: usize = 0;
    while k < nodes.len()
        invariant
            k <= nodes@.len(),
            first_labelled(nodes@, label@, 0) == first_labelled(nodes@, label@, k as int),
        decreases nodes@.len() - k,
    {
        if nodes[k].short_label == *label {
            return Some(k);
        }
        k = k + 1;
    }
    None
}

/// Before the rules are saved: store in every capture its target's current
/// short label, the one identity of a node that survives a save.
pub fn save_grammar_serde_metadata(rules: &mut Vec<GrammarRule>)
    requires
        forall|k: int| 0 <= k < old(rules)@.len() ==> (#[trigger] old(rules)@[k]).wf(),
    ensures
        final(rules)@.len() == old(rules)@.len(),
        forall|k: int|
            0 <= k < final(rules)@.len() ==> {
                let (o, f) = (old(rules)@[k], #[trigger] final(rules)@[k]);
                &&& f.wf()
                &&& f.find_patterns == o.find_patterns
                &&& f.next_id == o.next_id
                &&& f.replace_patterns@.len() == o.replace_patterns@.len()
                &&& forall|i: int|
                    0 <= i < o.replace_patterns@.len() ==> (#[trigger] f.replace_patterns@[i])@
                        == saved(o.find_patterns@, o.replace_patterns@[i]@)
            },
{
    let n = rules.len();
    let mut k: usize = 0;
    while k < n
        invariant
            n == rules@.len() == old(rules)@.len(),
            k <= n,
            forall|j: int| 0 <= j < n ==> (#[trigger] old(rules)@[j]).wf(),
            forall|j: int| k <= j < n ==> #[trigger] rules@[j] == old(rules)@[j],
            forall|j: int|
                0 <= j < k ==> {
                    let (o, f) = (old(rules)@[j], #[trigger] rules@[j]);
                    &&& f.wf()
                    &&& f.find_patterns == o.find_patterns
                    &&& f.next_id == o.next_id
                    &&& f.replace_patterns@.len() == o.replace_patterns@.len()
                    &&& forall|i: int|
                        0 <= i < o.replace_patterns@.len() ==> (#[trigger] f.replace_patterns@[i])@
                            == saved(o.find_patterns@, o.replace_patterns@[i]@)
                },
        decreases n - k,
    {
        proof {
            assert(rules@[k as int] == old(rules)@[k as int]);
            assert(old(rules)@[k as int].wf());
        }
        save_rule(&mut rules[k]);
        k = k + 1;
    }
}

/// After the rules are loaded: point every capture back at the node that
/// carries its saved label (see `loaded`).
pub fn load_grammar_serde_metadata(rules: &mut Vec<GrammarRule>)
    requires
        forall|k: int| 0 <= k < old(rules)@.len() ==> (#[trigger] old(rules)@[k]).wf(),
    ensures
        final(rules)@.len() == old(rules)@.len(),
        forall|k: int|
            0 <= k < final(rules)@.len() ==> {
                let (o, f) = (old(rules)@[k], #[trigger] final(rules)@[k]);
                &&& f.wf()
                &&& f.find_patterns == o.find_patterns
                &&& f.next_id == o.next_id
                &&& f.replace_patterns@.len() == o.replace_patterns@.len()
                &&& forall|i: int|
                    0 <= i < o.replace_patterns@.len() ==> (#[trigger] f.replace_patterns@[i])@
                        == loaded(o.find_patterns@, o.replace_patterns@[i]@)
            },
{
    let n = rules.len();
    let mut k: usize = 0;
    while k < n
        invariant
            n == rules@.len() == old(rules)@.len(),
            k <= n,
            forall|j: int| 0 <= j < n ==> (#[trigger] old(rules)@[j]).wf(),
            forall|j: int| k <= j < n ==> #[trigger] rules@[j] == old(rules)@[j],
            forall|j: int|
                0 <= j < k ==> {
                    let (o, f) = (old(rules)@[j], #[trigger] rules@[j]);
                    &&& f.wf()
                    &&& f.find_patterns == o.find_patterns
                    &&& f.next_id == o.next_id
                    &&& f.replace_patterns@.len() == o.replace_patterns@.len()
                    &&& forall|i: int|
                        0 <= i < o.replace_patterns@.len() ==> (#[trigger] f.replace_patterns@[i])@
                            == loaded(o.find_patterns@, o.replace_patterns@[i]@)
                },
        decreases n - k,
    {
        proof {
            assert(rules@[k as int] == old(rules)@[k as int]);
            assert(old(rules)@[k as int].wf());
        }
        load_rule(&mut rules[k]);
        k = k + 1;
    }
}

proof fn lemma_first_labelled(nodes: Seq<FindPattern>, t: int, from: int)
    requires
        0 <= from <= t < nodes.len(),
        forall|k: int| 0 <= k < nodes.len() && k != t ==> (#[trigger] nodes[k]).short_label@ != nodes[t].short_label@,
    ensures
        first_labelled(nodes, nodes[t].short_label@, from) == Some(t),
    decreases t - from,
{
    if from < t {
        lemma_first_labelled(nodes, t, from + 1);
    }
}

/// A capture whose target's short label is unique in its rule survives a
/// save and a load: it names the same node afterwards, whose short label
/// is the one saved.
pub proof fn law_capture_round_trip(nodes: Seq<FindPattern>, next_id: u64, id: u64, label: Seq<char>)
    requires
        ids_ok(nodes, next_id),
        resolves(nodes, id),
        forall|k: int|
            0 <= k < nodes.len() && k != node_with_id(nodes, id) ==> (#[trigger] nodes[k]).short_label@
                != nodes[node_with_id(nodes, id)].short_label@,
    ensures
        loaded(nodes, saved(nodes, ReplaceView::Capture { capture: Some(id), serde_label: label }))
            == (ReplaceView::Capture {
            capture: Some(id),
            serde_label: nodes[node_with_id(nodes, id)].short_label@,
        }),
{
    let t = node_with_id(nodes, id);
    lemma_first_labelled(nodes, t, 0);
}

/// A capture whose target is gone does not come back on a save and a load
/// unless some node carries an empty short label.
pub proof fn law_unresolved_stays_unresolved(nodes: Seq<FindPattern>, capture: Option<u64>, label: Seq<char>)
    requires
        !replace_valid(nodes, ReplaceView::Capture { capture, serde_label: label }),
        forall|k: int| 0 <= k < nodes.len() ==> (#[trigger] nodes[k]).short_label@.len() > 0,
    ensures
        loaded(nodes, saved(nodes, ReplaceView::Capture { capture, serde_label: label }))
            matches ReplaceView::Capture { capture: None, .. },
{
    lemma_no_empty_label(nodes, 0);
}

proof fn lemma_no_empty_label(nodes: Seq<FindPattern>, from: int)
    requires
        0 <= from,
        forall|k: int| 0 <= k < nodes.len() ==> (#[trigger] nodes[k]).short_label@.len() > 0,
    ensures
        first_labelled(nodes, seq![], from) is None,
    decreases nodes.len() - from,
{
    if from < nodes.len() {
        assert(nodes[from].short_label@.len() > 0);
        lemma_no_empty_label(nodes, from + 1);
    }
}


/// A word of the input text, with its type.
pub struct Word(pub String, pub WordType);

/// The grammar rules of a language, in order, and the editor's mode.
pub struct GrammarTab {
    pub grammar_rules: Vec<GrammarRule>,
    pub grammar_edit_mode: EditMode,
}

impl GrammarTab {
    pub open spec fn wf(&self) -> bool {
        forall|k: int| 0 <= k < self.grammar_rules@.len() ==> (#[trigger] self.grammar_rules@[k]).wf()
    }

    /// No rules, in view mode.
    pub fn new() -> (r: Self)
        ensures
            r.wf(),
            r.grammar_rules@.len() == 0,
            r.grammar_edit_mode == EditMode::View,
    {
        GrammarTab { grammar_rules: Vec::new(), grammar_edit_mode: EditMode::View }
    }

    /// Append an empty rule.
    pub fn add_rule(&mut self)
        requires
            old(self).wf(),
        ensures
            final(self).wf(),
            final(self).grammar_rules@.len() == old(self).grammar_rules@.len() + 1,
            final(self).grammar_rules@.drop_last() == old(self).grammar_rules@,
            final(self).grammar_rules@.last().find_patterns@.len() == 0,
            final(self).grammar_rules@.last().replace_patterns@.len() == 0,
            final(self).grammar_edit_mode == old(self).grammar_edit_mode,
    {
        self.grammar_rules.push(GrammarRule::new());
        assert(self.grammar_rules@.drop_last() =~= old(self).grammar_rules@);
    }

    /// Remove the rule at `index`.
    pub fn delete_rule(&mut self, index: usize)
        requires
            old(self).wf(),
            index < old(self).grammar_rules@.len(),
        ensures
            final(self).wf(),
            final(self).grammar_rules@ == old(self).grammar_rules@.remove(index as int),
            final(self).grammar_edit_mode == old(self).grammar_edit_mode,
    {
        self.grammar_rules.remove(index);
    }

    /// Move a rule as a drag and drop asked.
    pub fn move_rule(&mut self, reordering: &Reordering)
        requires
            old(self).wf(),
            reordering.from_index < old(self).grammar_rules@.len(),
            reordering.to_index <= old(self).grammar_rules@.len(),
        ensures
            final(self).wf(),
            final(self).grammar_rules@ == reordered(
                old(self).grammar_rules@,
                reordering.from_index as int,
                reordering.to_index as int,
            ),
            final(self).grammar_edit_mode == old(self).grammar_edit_mode,
    {
        reordering.apply(&mut self.grammar_rules);
        proof {
            let o = old(self).grammar_rules@;
            let f = self.grammar_rules@;
            let from = reordering.from_index as int;
            let to = reordering.to_index as int;
            let target = if to <= from { to } else { to - 1 };
            assert forall|k: int| 0 <= k < f.len() implies (#[trigger] f[k]).wf() by {
                let r = o.remove(from);
                if k < target {
                    assert(f[k] == r[k]);
                } else if k > target {
                    assert(f[k] == r[k - 1]);
                } else {
                    assert(f[k] == o[from]);
                }
                if k != target {
                    let rk = if k < target { k } else { k - 1 };
                    assert(r[rk] == o[if rk < from { rk } else { rk + 1 }]);
                }
            }
        }
    }
}

} // verus!
