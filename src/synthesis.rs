use vstd::prelude::*;
use crate::grapheme::{Grapheme, GraphemeSet, texts};
use crate::util::{EditMode, NonEmptyList};

verus! {

/// A leaf of the syllable grammar. The `String` beside a grapheme list is
/// the text typed so far for its next grapheme.
pub enum LeafRule {
    /// A placeholder not yet given content.
    Uninitialized,
    /// These graphemes, in order.
    Sequence(Vec<Grapheme>, String),
    /// One of these graphemes, chosen at random.
    OneOf(GraphemeSet, String),
    /// Whatever the named rule produces.
    Variable(String),
    /// Nothing.
    Blank,
}

/// A conjunction: its leaves' productions, concatenated in order.
pub type AndRule = NonEmptyList<LeafRule>;

/// A disjunction: one of its alternatives, chosen at random.
pub type OrRule = NonEmptyList<AndRule>;

impl LeafRule {
    /// Whether the leaf has been given content.
    pub fn initialized(&self) -> (r: bool)
        ensures
            r == !(*self is Uninitialized),
    {
        !matches!(self, LeafRule::Uninitialized)
    }

    /// An empty grapheme sequence.
    pub fn sequence() -> (r: Self)
        ensures
            r matches LeafRule::Sequence(g, i) && g@.len() == 0 && i@.len() == 0,
    {
        LeafRule::Sequence(Vec::new(), String::new())
    }

    /// An empty grapheme set.
    pub fn set() -> (r: Self)
        ensures
            r matches LeafRule::OneOf(g, i) && g.items@.len() == 0 && i@.len() == 0,
    {
        LeafRule::OneOf(GraphemeSet::new(), String::new())
    }

    /// A reference to a variable not named yet.
    pub fn variable() -> (r: Self)
        ensures
            r matches LeafRule::Variable(v) && v@.len() == 0,
    {
        LeafRule::Variable(String::new())
    }

    pub fn blank() -> (r: Self)
        ensures
            r is Blank,
    {
        LeafRule::Blank
    }

    /// The kinds of leaf a user may pick, with their menu names.
    pub fn choices() -> (r: Vec<(&'static str, LeafRule)>)
        ensures
            r@.len() == 4,
            r@[0].0@ == "String"@ && (r@[0].1 matches LeafRule::Sequence(g, _) && g@.len() == 0),
            r@[1].0@ == "Random"@ && (r@[1].1 matches LeafRule::OneOf(g, _) && g.items@.len() == 0),
            r@[2].0@ == "Variable"@ && (r@[2].1 matches LeafRule::Variable(v) && v@.len() == 0),
            r@[3].0@ == "Blank"@ && r@[3].1 is Blank,
    {
        let mut r: Vec<(&'static str, LeafRule)> = Vec::new();
        r.push(("String", LeafRule::sequence()));
        r.push(("Random", LeafRule::set()));
        r.push(("Variable", LeafRule::variable()));
        r.push(("Blank", LeafRule::blank()));
        r
    }
}

impl Default for LeafRule {
    fn default() -> (r: Self)
        ensures
            r is Uninitialized,
    {
        LeafRule::Uninitialized
    }
}

/// A rule with one alternative of one uninitialized leaf: what a new
/// variable starts as.
pub fn empty_rule() -> (r: OrRule)
    ensures
        r@.len() == 1,
        r@[0]@.len() == 1,
        r@[0]@[0] is Uninitialized,
{
    let r = NonEmptyList::new(NonEmptyList::new(LeafRule::Uninitialized));
    assert(r@[0] == r.head);
    r
}

/// The four root rules of the syllable grammar.
pub struct SyllableRoots {
    pub initial: OrRule,
    pub middle: OrRule,
    pub terminal: OrRule,
    pub single: OrRule,
}

impl SyllableRoots {
    /// The names of the root rules, in the order of `iter`.
    pub fn names() -> (r: Vec<&'static str>)
        ensures
            r@.len() == 4,
            r@[0]@ == "InitialSyllable"@,
            r@[1]@ == "MiddleSyllable"@,
            r@[2]@ == "TerminalSyllable"@,
            r@[3]@ == "SingleSyllable"@,
    {
        vec!["InitialSyllable", "MiddleSyllable", "TerminalSyllable", "SingleSyllable"]
    }

    /// The root rules.
    pub fn iter(&self) -> (r: Vec<&OrRule>)
        ensures
            r@.len() == 4,
            *r@[0] == self.initial,
            *r@[1] == self.middle,
            *r@[2] == self.terminal,
            *r@[3] == self.single,
    {
        vec![&self.initial, &self.middle, &self.terminal, &self.single]
    }
}

/// The syllable grammar: the root rules, the named variables in the order
/// they were declared, and the names found reachable from the roots.
pub struct SyllableVars {
    pub roots: SyllableRoots,
    pub vars: Vec<(String, OrRule)>,
    pub reachable: Vec<String>,
}

/// The position of the first variable with this name.
pub open spec fn var_index(vars: Seq<(String, OrRule)>, name: Seq<char>, from: int) -> Option<int>
    decreases vars.len() - from,
{
    if from < 0 || from >= vars.len() {
        None
    } else if vars[from].0@ == name {
        Some(from)
    } else {
        var_index(vars, name, from + 1)
    }
}

/// The rule of a variable of the map, if it is declared.
pub open spec fn var_rule(sv: SyllableVars, name: Seq<char>) -> Option<OrRule> {
    match var_index(sv.vars@, name, 0) {
        Some(k) => Some(sv.vars@[k].1),
        None => None,
    }
}

/// The rule a name stands for: a root rule by its root name, else the
/// variable of that name.
pub open spec fn lookup(sv: SyllableVars, name: Seq<char>) -> Option<OrRule> {
    if name == "InitialSyllable"@ {
        Some(sv.roots.initial)
    } else if name == "MiddleSyllable"@ {
        Some(sv.roots.middle)
    } else if name == "TerminalSyllable"@ {
        Some(sv.roots.terminal)
    } else if name == "SingleSyllable"@ {
        Some(sv.roots.single)
    } else {
        var_rule(sv, name)
    }
}

/// The position of a variable of this name.
fn find_var(vars: &Vec<(String, OrRule)>, name: &String) -> (r: Option<usize>)
    ensures
        r matches Some(k) ==> var_index(vars@, name@, 0) == Some(k as int) && k < vars@.len(),
        r is None ==> var_index(vars@, name@, 0) is None,
{
    let mut k: usize = 0;
    while k < vars.len()
        invariant
            k <= vars@.len(),
            var_index(vars@, name@, 0) == var_index(vars@, name@, k as int),
        decreases vars@.len() - k,
    {
        if vars[k].0 == *name {
            return Some(k);
        }
        k = k + 1;
    }
    None
}

/// Which root a name denotes: 0 to 3 in the order of `SyllableRoots::names`.
fn root_position(name: &String) -> (r: Option<usize>)
    ensures
        r == (if name@ == "InitialSyllable"@ {
            Some(0usize)
        } else if name@ == "MiddleSyllable"@ {
            Some(1usize)
        } else if name@ == "TerminalSyllable"@ {
            Some(2usize)
        } else if name@ == "SingleSyllable"@ {
            Some(3usize)
        } else {
            None
        }),
{
    if *name == String::from_str("InitialSyllable") {
        Some(0)
    } else if *name == String::from_str("MiddleSyllable") {
        Some(1)
    } else if *name == String::from_str("TerminalSyllable") {
        Some(2)
    } else if *name == String::from_str("SingleSyllable") {
        Some(3)
    } else {
        None
    }
}

impl SyllableVars {
    /// A grammar whose roots and variables hold nothing yet.
    pub fn new() -> (r: Self)
        ensures
            r.vars@.len() == 0,
            r.reachable@.len() == 0,
    {
        SyllableVars {
            roots: SyllableRoots {
                initial: empty_rule(),
                middle: empty_rule(),
                terminal: empty_rule(),
                single: empty_rule(),
            },
            vars: Vec::new(),
            reachable: Vec::new(),
        }
    }

    /// The rule a name stands for, if any.
    pub fn get(&self, var: &String) -> (r: Option<&OrRule>)
        ensures
            r matches Some(x) ==> lookup(*self, var@) == Some(*x),
            r is None ==> lookup(*self, var@) is None,
    {
        match root_position(var) {
            Some(0) => Some(&self.roots.initial),
            Some(1) => Some(&self.roots.middle),
            Some(2) => Some(&self.roots.terminal),
            Some(_) => Some(&self.roots.single),
            None => match find_var(&self.vars, var) {
                Some(k) => Some(&self.vars[k].1),
                None => None,
            },
        }
    }
}


/// A leaf refers to the variable `name`.
pub open spec fn leaf_refers(leaf: LeafRule, name: Seq<char>) -> bool {
    leaf matches LeafRule::Variable(v) && v@ == name
}

/// Some leaf of the rule refers to `name`.
pub open spec fn refers_to(r: OrRule, name: Seq<char>) -> bool {
    exists|a: int, l: int|
        0 <= a < r@.len() && 0 <= l < r@[a]@.len() && #[trigger] leaf_refers(r@[a]@[l], name)
}

pub open spec fn is_root(sv: SyllableVars, r: OrRule) -> bool {
    r == sv.roots.initial || r == sv.roots.middle || r == sv.roots.terminal || r == sv.roots.single
}

pub open spec fn root_refers(sv: SyllableVars, name: Seq<char>) -> bool {
    refers_to(sv.roots.initial, name) || refers_to(sv.roots.middle, name) || refers_to(
        sv.roots.terminal,
        name,
    ) || refers_to(sv.roots.single, name)
}

/// A chain of references from a root rule: a root refers to the first
/// name, and the rule of each name but the last is declared and refers to
/// the next.
pub open spec fn is_path(sv: SyllableVars, path: Seq<Seq<char>>) -> bool {
    &&& path.len() > 0
    &&& root_refers(sv, path[0])
    &&& forall|i: int|
        0 <= i < path.len() - 1 ==> var_rule(sv, #[trigger] path[i]) is Some && refers_to(
            var_rule(sv, path[i])->0,
            path[i + 1],
        )
}

/// Some chain of references leads from a root rule to `name`.
pub open spec fn is_reachable(sv: SyllableVars, name: Seq<char>) -> bool {
    exists|path: Seq<Seq<char>>| is_path(sv, path) && path.last() == name
}

pub open spec fn names_of(found: Seq<String>) -> Seq<Seq<char>> {
    found.map_values(|s: String| s@)
}

pub open spec fn count_false(s: Seq<bool>) -> nat
    decreases s.len(),
{
    if s.len() == 0 {
        0
    } else {
        count_false(s.drop_last()) + if s.last() { 0nat } else { 1nat }
    }
}

proof fn lemma_count_false_set(s: Seq<bool>, k: int)
    requires
        0 <= k < s.len(),
        !s[k],
    ensures
        count_false(s.update(k, true)) < count_false(s),
    decreases s.len(),
{
    let t = s.update(k, true);
    if k < s.len() - 1 {
        assert(t.drop_last() =~= s.drop_last().update(k, true));
        lemma_count_false_set(s.drop_last(), k);
    } else {
        assert(t.drop_last() =~= s.drop_last());
    }
}

pub open spec fn covered(found: Seq<String>, r: OrRule) -> bool {
    forall|n: Seq<char>| refers_to(r, n) ==> names_of(found).contains(n)
}

pub open spec fn on_stack(stack: Seq<&OrRule>, r: OrRule) -> bool {
    exists|j: int| 0 <= j < stack.len() && *stack[j] == r
}

/// Every rule met so far has been searched, sits on the stack, or is the
/// one being searched.
pub open spec fn complete_except(sv: SyllableVars, found: Seq<String>, stack: Seq<&OrRule>, cur: Option<OrRule>) -> bool {
    &&& forall|r: OrRule| is_root(sv, r) ==> covered(found, r) || on_stack(stack, r) || cur == Some(r)
    &&& forall|i: int|
        0 <= i < found.len() ==> match var_rule(sv, (#[trigger] found[i])@) {
            Some(r) => covered(found, r) || on_stack(stack, r) || cur == Some(r),
            None => true,
        }
}

/// A rule is a root or the rule of a variable found reachable.
pub open spec fn rule_found(sv: SyllableVars, found: Seq<String>, r: OrRule) -> bool {
    is_root(sv, r) || exists|i: int| 0 <= i < found.len() && var_rule(sv, (#[trigger] found[i])@) == Some(r)
}

pub open spec fn search_ok(sv: SyllableVars, found: Seq<String>, pushed: Seq<bool>, stack: Seq<&OrRule>) -> bool {
    &&& forall|i: int| 0 <= i < found.len() ==> is_reachable(sv, (#[trigger] found[i])@)
    &&& names_of(found).no_duplicates()
    &&& pushed.len() == sv.vars@.len()
    &&& forall|k: int| 0 <= k < pushed.len() && #[trigger] pushed[k] ==> names_of(found).contains(sv.vars@[k].0@)
    &&& forall|j: int| 0 <= j < stack.len() ==> rule_found(sv, found, *#[trigger] stack[j])
}

proof fn lemma_var_index(vars: Seq<(String, OrRule)>, name: Seq<char>, from: int)
    requires
        0 <= from,
    ensures
        var_index(vars, name, from) matches Some(k) ==> from <= k < vars.len() && vars[k].0@ == name,
    decreases vars.len() - from,
{
    if from < vars.len() && vars[from].0@ != name {
        lemma_var_index(vars, name, from + 1);
    }
}

proof fn lemma_found_grows(sv: SyllableVars, found: Seq<String>, v: String, r: OrRule)
    requires
        rule_found(sv, found, r),
    ensures
        rule_found(sv, found.push(v), r),
{
    if !is_root(sv, r) {
        let i = choose|i: int| 0 <= i < found.len() && var_rule(sv, (#[trigger] found[i])@) == Some(r);
        assert(found.push(v)[i] == found[i]);
    }
}

proof fn lemma_referred_reachable(sv: SyllableVars, found: Seq<String>, cur: OrRule, name: Seq<char>)
    requires
        rule_found(sv, found, cur),
        forall|i: int| 0 <= i < found.len() ==> is_reachable(sv, (#[trigger] found[i])@),
        refers_to(cur, name),
    ensures
        is_reachable(sv, name),
{
    if is_root(sv, cur) {
        assert(is_path(sv, seq![name]) && seq![name].last() == name);
    } else {
        let i = choose|i: int| 0 <= i < found.len() && var_rule(sv, (#[trigger] found[i])@) == Some(cur);
        assert(is_reachable(sv, found[i]@));
        lemma_reachable_step(sv, found[i]@, name);
    }
}

proof fn lemma_reachable_step(sv: SyllableVars, v: Seq<char>, name: Seq<char>)
    requires
        is_reachable(sv, v),
        var_rule(sv, v) is Some,
        refers_to(var_rule(sv, v)->0, name),
    ensures
        is_reachable(sv, name),
{
    let path = choose|path: Seq<Seq<char>>| is_path(sv, path) && path.last() == v;
    let longer = path.push(name);
    assert forall|i: int| 0 <= i < longer.len() - 1 implies var_rule(sv, #[trigger] longer[i]) is Some
        && refers_to(var_rule(sv, longer[i])->0, longer[i + 1]) by {
        if i < path.len() - 1 {
            assert(longer[i] == path[i] && longer[i + 1] == path[i + 1]);
        } else {
            assert(longer[i] == v);
        }
    }
    assert(is_path(sv, longer) && longer.last() == name);
}

/// Search one leaf of the rule `cur`: a variable not met before joins
/// `found`, and its rule, if declared, goes on the stack.
fn visit_leaf<'a>(
    sv: &'a SyllableVars,
    cur: &'a OrRule,
    leaf: &LeafRule,
    found: &mut Vec<String>,
    pushed: &mut Vec<bool>,
    stack: &mut Vec<&'a OrRule>,
)
    requires
        search_ok(*sv, old(found)@, old(pushed)@, old(stack)@),
        complete_except(*sv, old(found)@, old(stack)@, Some(*cur)),
        rule_found(*sv, old(found)@, *cur),
        exists|a: int, l: int| 0 <= a < cur@.len() && 0 <= l < cur@[a]@.len() && #[trigger] cur@[a]@[l] == *leaf,
    ensures
        search_ok(*sv, final(found)@, final(pushed)@, final(stack)@),
        complete_except(*sv, final(found)@, final(stack)@, Some(*cur)),
        rule_found(*sv, final(found)@, *cur),
        names_of(old(found)@).to_set().subset_of(names_of(final(found)@).to_set()),
        forall|n: Seq<char>| leaf_refers(*leaf, n) ==> names_of(final(found)@).contains(n),
        count_false(final(pushed)@) < count_false(old(pushed)@) || (final(pushed)@ == old(pushed)@
            && final(stack)@ == old(stack)@),
{
    let ghost f0 = found@;
    match leaf {
        LeafRule::Variable(v) => {
            let known = contains_name(found, v);
            if known {
                assert(names_of(f0).to_set() =~= names_of(found@).to_set());
                return;
            }
            proof {
                let (a, l) = choose|a: int, l: int| 0 <= a < cur@.len() && 0 <= l < cur@[a]@.len() && #[trigger] cur@[a]@[l] == *leaf;
                assert(leaf_refers(cur@[a]@[l], v@));
                lemma_referred_reachable(*sv, f0, *cur, v@);
            }
            found.push(v.clone());
            let ghost f1 = found@;
            proof {
                assert(names_of(f1) =~= names_of(f0).push(v@));
                assert(names_of(f1)[f0.len() as int] == v@);
                let added = f1[f0.len() as int];
                assert(f1 =~= f0.push(added));
                assert forall|j: int| 0 <= j < stack@.len() implies rule_found(*sv, f1, *#[trigger] stack@[j]) by {
                    lemma_found_grows(*sv, f0, added, *stack@[j]);
                }
                lemma_found_grows(*sv, f0, added, *cur);
                assert forall|k: int| 0 <= k < pushed@.len() && #[trigger] pushed@[k] implies names_of(f1).contains(sv.vars@[k].0@) by {
                    let m = choose|m: int| 0 <= m < names_of(f0).len() && names_of(f0)[m] == sv.vars@[k].0@;
                    assert(names_of(f1)[m] == sv.vars@[k].0@);
                }
                assert forall|x: Seq<char>| names_of(f0).to_set().contains(x) implies names_of(f1).to_set().contains(x) by {
                    let m = choose|m: int| 0 <= m < names_of(f0).len() && names_of(f0)[m] == x;
                    assert(names_of(f1)[m] == x);
                }
                assert forall|r: OrRule| #[trigger] covered(f0, r) implies covered(f1, r) by {
                    assert forall|n: Seq<char>| refers_to(r, n) implies names_of(f1).contains(n) by {
                        let m = choose|m: int| 0 <= m < names_of(f0).len() && names_of(f0)[m] == n;
                        assert(names_of(f1)[m] == n);
                    }
                }
            }
            match find_var(&sv.vars, v) {
                Some(k) => {
                    proof {
                        lemma_var_index(sv.vars@, v@, 0);
                        if pushed@[k as int] {
                            let m = choose|m: int| 0 <= m < names_of(f0).len() && names_of(f0)[m] == sv.vars@[k as int].0@;
                            assert(f0[m]@ == v@);
                        }
                        lemma_count_false_set(pushed@, k as int);
                    }
                    pushed.set(k, true);
                    let ghost s0 = stack@;
                    stack.push(&sv.vars[k].1);
                    proof {
                        assert(var_rule(*sv, f1[f0.len() as int]@) == Some(sv.vars@[k as int].1));
                        assert(on_stack(stack@, sv.vars@[k as int].1)) by {
                            assert(*stack@[s0.len() as int] == sv.vars@[k as int].1);
                        }
                        assert forall|r: OrRule| #[trigger] on_stack(s0, r) implies on_stack(stack@, r) by {
                            let j = choose|j: int| 0 <= j < s0.len() && *s0[j] == r;
                            assert(stack@[j] == s0[j]);
                        }
                        assert forall|j: int| 0 <= j < stack@.len() implies rule_found(*sv, f1, *#[trigger] stack@[j]) by {
                            if j < s0.len() {
                                assert(stack@[j] == s0[j]);
                            } else {
                                assert(f1[f0.len() as int]@ == v@);
                            }
                        }
                        assert forall|kk: int| 0 <= kk < pushed@.len() && #[trigger] pushed@[kk] implies names_of(f1).contains(sv.vars@[kk].0@) by {
                            if kk != k {
                                assert(old(pushed)@[kk]);
                            }
                        }
                        assert forall|ii: int| 0 <= ii < f1.len() implies match var_rule(*sv, (#[trigger] f1[ii])@) {
                            Some(r) => covered(f1, r) || on_stack(stack@, r) || Some(*cur) == Some(r),
                            None => true,
                        } by {
                            if ii < f0.len() {
                                assert(f1[ii] == f0[ii]);
                                match var_rule(*sv, f0[ii]@) {
                                    Some(r) => {
                                        if covered(f0, r) {
                                        } else if on_stack(s0, r) {
                                        }
                                    },
                                    None => {},
                                }
                            }
                        }
                        assert forall|r: OrRule| is_root(*sv, r) implies covered(f1, r) || on_stack(stack@, r) || Some(*cur) == Some(r) by {
                            if covered(f0, r) {
                            } else if on_stack(s0, r) {
                            }
                        }
                    }
                },
                None => {
                    proof {
                        assert forall|ii: int| 0 <= ii < f1.len() implies match var_rule(*sv, (#[trigger] f1[ii])@) {
                            Some(r) => covered(f1, r) || on_stack(stack@, r) || Some(*cur) == Some(r),
                            None => true,
                        } by {
                            if ii < f0.len() {
                                assert(f1[ii] == f0[ii]);
                                match var_rule(*sv, f0[ii]@) {
                                    Some(r) => {
                                        if covered(f0, r) {
                                        }
                                    },
                                    None => {},
                                }
                            } else {
                                assert(f1[ii]@ == v@);
                            }
                        }
                        assert forall|r: OrRule| is_root(*sv, r) implies covered(f1, r) || on_stack(stack@, r) || Some(*cur) == Some(r) by {
                            if covered(f0, r) {
                            }
                        }
                    }
                },
            }
        },
        _ => {
            assert(names_of(f0).to_set() =~= names_of(found@).to_set());
        },
    }
}


/// Search every leaf of `cur`.
fn visit_rule<'a>(
    sv: &'a SyllableVars,
    cur: &'a OrRule,
    found: &mut Vec<String>,
    pushed: &mut Vec<bool>,
    stack: &mut Vec<&'a OrRule>,
)
    requires
        search_ok(*sv, old(found)@, old(pushed)@, old(stack)@),
        complete_except(*sv, old(found)@, old(stack)@, Some(*cur)),
        rule_found(*sv, old(found)@, *cur),
    ensures
        search_ok(*sv, final(found)@, final(pushed)@, final(stack)@),
        complete_except(*sv, final(found)@, final(stack)@, Some(*cur)),
        covered(final(found)@, *cur),
        count_false(final(pushed)@) < count_false(old(pushed)@) || (final(pushed)@ == old(pushed)@
            && final(stack)@ == old(stack)@),
{
    let alt_refs = cur.iter();
    let alts = alt_refs.len();
    let mut a: usize = 0;
    while a < alts
        invariant
            alts == cur@.len() == alt_refs@.len(),
            forall|i: int| 0 <= i < alts ==> *alt_refs@[i] == cur@[i],
            a <= alts,
            search_ok(*sv, found@, pushed@, stack@),
            complete_except(*sv, found@, stack@, Some(*cur)),
            rule_found(*sv, found@, *cur),
            forall|aa: int, l: int, n: Seq<char>|
                0 <= aa < a && 0 <= l < cur@[aa]@.len() && #[trigger] leaf_refers(cur@[aa]@[l], n)
                    ==> names_of(found@).contains(n),
            count_false(pushed@) < count_false(old(pushed)@) || (pushed@ == old(pushed)@ && stack@
                == old(stack)@),
        decreases alts - a,
    {
        let and_rule = alt_refs[a];
        let leaf_refs = and_rule.iter();
        let leaves = leaf_refs.len();
        let mut l: usize = 0;
        while l < leaves
            invariant
                alts == cur@.len(),
                a < alts,
                *and_rule == cur@[a as int],
                leaves == and_rule@.len() == leaf_refs@.len(),
                forall|i: int| 0 <= i < leaves ==> *leaf_refs@[i] == and_rule@[i],
                l <= leaves,
                search_ok(*sv, found@, pushed@, stack@),
                complete_except(*sv, found@, stack@, Some(*cur)),
                rule_found(*sv, found@, *cur),
                forall|aa: int, ll: int, n: Seq<char>|
                    ((0 <= aa < a && 0 <= ll < cur@[aa]@.len()) || (aa == a && 0 <= ll < l))
                        && #[trigger] leaf_refers(cur@[aa]@[ll], n) ==> names_of(found@).contains(n),
                count_false(pushed@) < count_false(old(pushed)@) || (pushed@ == old(pushed)@ && stack@
                    == old(stack)@),
            decreases leaves - l,
        {
            let ghost f0 = found@;
            let leaf = leaf_refs[l];
            visit_leaf(sv, cur, leaf, found, pushed, stack);
            proof {
                assert forall|aa: int, ll: int, n: Seq<char>|
                    ((0 <= aa < a && 0 <= ll < cur@[aa]@.len()) || (aa == a && 0 <= ll < l + 1))
                        && #[trigger] leaf_refers(cur@[aa]@[ll], n) implies names_of(found@).contains(n) by {
                    if !(aa == a && ll == l) {
                        assert(names_of(f0).contains(n));
                        assert(names_of(f0).to_set().contains(n));
                    }
                }
            }
            l = l + 1;
        }
        a = a + 1;
    }
    assert forall|n: Seq<char>| refers_to(*cur, n) implies names_of(found@).contains(n) by {
        let (aa, ll) = choose|aa: int, ll: int|
            0 <= aa < cur@.len() && 0 <= ll < cur@[aa]@.len() && #[trigger] leaf_refers(cur@[aa]@[ll], n);
        assert(leaf_refers(cur@[aa]@[ll], n));
    }
}


proof fn lemma_pop(sv: SyllableVars, found: Seq<String>, stack: Seq<&OrRule>)
    requires
        complete_except(sv, found, stack, None),
        stack.len() > 0,
    ensures
        complete_except(sv, found, stack.drop_last(), Some(*stack.last())),
{
    let rest = stack.drop_last();
    assert forall|r: OrRule| #[trigger] on_stack(stack, r) implies on_stack(rest, r) || Some(*stack.last()) == Some(r) by {
        let j = choose|j: int| 0 <= j < stack.len() && *stack[j] == r;
        if j < rest.len() {
            assert(rest[j] == stack[j]);
        }
    }
    assert forall|i: int| 0 <= i < found.len() implies match var_rule(sv, (#[trigger] found[i])@) {
        Some(r) => covered(found, r) || on_stack(rest, r) || Some(*stack.last()) == Some(r),
        None => true,
    } by {
        match var_rule(sv, found[i]@) {
            Some(r) => {
                if !covered(found, r) {
                    assert(on_stack(stack, r));
                }
            },
            None => {},
        }
    }
    assert forall|r: OrRule| is_root(sv, r) implies covered(found, r) || on_stack(rest, r) || Some(*stack.last()) == Some(r) by {
        if !covered(found, r) {
            assert(on_stack(stack, r));
        }
    }
}

proof fn lemma_release(sv: SyllableVars, found: Seq<String>, stack: Seq<&OrRule>, cur: OrRule)
    requires
        complete_except(sv, found, stack, Some(cur)),
        covered(found, cur),
    ensures
        complete_except(sv, found, stack, None),
{
    assert forall|i: int| 0 <= i < found.len() implies match var_rule(sv, (#[trigger] found[i])@) {
        Some(r) => covered(found, r) || on_stack(stack, r) || None::<OrRule> == Some(r),
        None => true,
    } by {
        match var_rule(sv, found[i]@) {
            Some(r) => {},
            None => {},
        }
    }
}

proof fn lemma_complete(sv: SyllableVars, found: Seq<String>, path: Seq<Seq<char>>)
    requires
        complete_except(sv, found, seq![], None),
        is_path(sv, path),
    ensures
        names_of(found).contains(path.last()),
    decreases path.len(),
{
    let empty: Seq<&OrRule> = seq![];
    if path.len() == 1 {
        let name = path[0];
        if refers_to(sv.roots.initial, name) {
            assert(is_root(sv, sv.roots.initial));
            assert(!on_stack(empty, sv.roots.initial));
        } else if refers_to(sv.roots.middle, name) {
            assert(is_root(sv, sv.roots.middle));
            assert(!on_stack(empty, sv.roots.middle));
        } else if refers_to(sv.roots.terminal, name) {
            assert(is_root(sv, sv.roots.terminal));
            assert(!on_stack(empty, sv.roots.terminal));
        } else {
            assert(is_root(sv, sv.roots.single));
            assert(!on_stack(empty, sv.roots.single));
        }
    } else {
        let front = path.drop_last();
        assert forall|i: int| 0 <= i < front.len() - 1 implies var_rule(sv, #[trigger] front[i]) is Some
            && refers_to(var_rule(sv, front[i])->0, front[i + 1]) by {
            assert(front[i] == path[i] && front[i + 1] == path[i + 1]);
        }
        lemma_complete(sv, found, front);
        let v = front.last();
        assert(v == path[path.len() - 2]);
        assert(var_rule(sv, path[path.len() - 2]) is Some);
        let i = choose|i: int| 0 <= i < names_of(found).len() && names_of(found)[i] == v;
        assert(found[i]@ == v);
        let r = var_rule(sv, v)->0;
        assert(!on_stack(empty, r));
    }
}

impl SyllableVars {
    /// Recompute `reachable`: the names referred to by the root rules and,
    /// transitively, by the rules of the declared variables they refer to.
    pub fn flag_reachable_vars(&mut self)
        ensures
            final(self).roots == old(self).roots,
            final(self).vars == old(self).vars,
            names_of(final(self).reachable@).no_duplicates(),
            forall|n: Seq<char>|
                names_of(final(self).reachable@).contains(n) <==> is_reachable(*old(self), n),
    {
        let mut found: Vec<String> = Vec::new();
        let mut pushed: Vec<bool> = Vec::new();
        let nvars = self.vars.len();
        while pushed.len() < nvars
            invariant
                pushed@.len() <= nvars == self.vars@.len(),
                forall|k: int| 0 <= k < pushed@.len() ==> !#[trigger] pushed@[k],
            decreases nvars - pushed@.len(),
        {
            pushed.push(false);
        }
        let sv: &SyllableVars = self;
        let mut stack: Vec<&OrRule> = sv.roots.iter();
        proof {
            assert(names_of(found@) =~= Seq::<Seq<char>>::empty());
            assert forall|r: OrRule| is_root(*sv, r) implies covered(found@, r) || on_stack(stack@, r) || None::<OrRule> == Some(r) by {
                if r == sv.roots.initial {
                    assert(*stack@[0] == r);
                } else if r == sv.roots.middle {
                    assert(*stack@[1] == r);
                } else if r == sv.roots.terminal {
                    assert(*stack@[2] == r);
                } else {
                    assert(*stack@[3] == r);
                }
            }
        }
        loop
            invariant
                search_ok(*sv, found@, pushed@, stack@),
                complete_except(*sv, found@, stack@, None),
            ensures
                search_ok(*sv, found@, pushed@, stack@),
                complete_except(*sv, found@, seq![], None),
            decreases count_false(pushed@), stack@.len(),
        {
            let ghost s0 = stack@;
            match stack.pop() {
                None => {
                    assert(stack@ =~= Seq::<&OrRule>::empty());
                    break;
                },
                Some(cur) => {
                    proof {
                        lemma_pop(*sv, found@, s0);
                        assert(stack@ == s0.drop_last());
                        assert(rule_found(*sv, found@, *s0[s0.len() - 1]));
                    }
                    visit_rule(sv, cur, &mut found, &mut pushed, &mut stack);
                    proof {
                        lemma_release(*sv, found@, stack@, *cur);
                    }
                },
            }
        }
        proof {
            assert forall|n: Seq<char>| is_reachable(*sv, n) implies names_of(found@).contains(n) by {
                let path = choose|path: Seq<Seq<char>>| is_path(*sv, path) && path.last() == n;
                lemma_complete(*sv, found@, path);
            }
            assert forall|n: Seq<char>| names_of(found@).contains(n) implies is_reachable(*sv, n) by {
                let i = choose|i: int| 0 <= i < names_of(found@).len() && names_of(found@)[i] == n;
                assert(is_reachable(*sv, found@[i]@));
            }
        }
        self.reachable = found;
    }
}


/// A variable stays when it is reachable or has been given content.
pub open spec fn keeps_var(reachable: Seq<Seq<char>>, e: (String, OrRule)) -> bool {
    reachable.contains(e.0@) || !(e.1.head.head is Uninitialized)
}

/// The variables that stay, in order.
pub open spec fn pruned(vars: Seq<(String, OrRule)>, reachable: Seq<Seq<char>>) -> Seq<(String, OrRule)>
    decreases vars.len(),
{
    if vars.len() == 0 {
        seq![]
    } else {
        (if keeps_var(reachable, vars[0]) {
            seq![vars[0]]
        } else {
            seq![]
        }) + pruned(vars.drop_first(), reachable)
    }
}

fn contains_name(names: &Vec<String>, name: &String) -> (r: bool)
    ensures
        r == names_of(names@).contains(name@),
{
    let mut i: usize = 0;
    while i < names.len()
        invariant
            i <= names@.len(),
            forall|m: int| 0 <= m < i ==> (#[trigger] names@[m])@ != name@,
        decreases names@.len() - i,
    {
        if names[i] == *name {
            assert(names_of(names@)[i as int] == name@);
            return true;
        }
        i = i + 1;
    }
    proof {
        if names_of(names@).contains(name@) {
            let m = choose|m: int| 0 <= m < names_of(names@).len() && names_of(names@)[m] == name@;
            assert(names@[m]@ == name@);
        }
    }
    false
}

impl SyllableVars {
    /// Remove the variables that are neither in `reachable` nor given
    /// content: their first leaf is still uninitialized.
    pub fn prune_vars(&mut self)
        ensures
            final(self).roots == old(self).roots,
            final(self).reachable == old(self).reachable,
            final(self).vars@ == pruned(old(self).vars@, names_of(old(self).reachable@)),
    {
        let ghost o = self.vars@;
        let ghost reach = names_of(self.reachable@);
        let mut i: usize = self.vars.len();
        assert(o.skip(i as int) =~= Seq::<(String, OrRule)>::empty());
        assert(o.take(i as int) =~= o);
        while i > 0
            invariant
                i <= o.len(),
                reach == names_of(self.reachable@),
                self.reachable == old(self).reachable,
                self.roots == old(self).roots,
                self.vars@ == o.take(i as int) + pruned(o.skip(i as int), reach),
            decreases i,
        {
            i = i - 1;
            let ghost before = self.vars@;
            assert(o.skip(i as int).drop_first() =~= o.skip(i as int + 1));
            assert(o.skip(i as int)[0] == o[i as int]);
            assert(before[i as int] == o[i as int]);
            let keep = contains_name(&self.reachable, &self.vars[i].0) || self.vars[i].1.head.head.initialized();
            if !keep {
                self.vars.remove(i);
                assert(self.vars@ =~= o.take(i as int) + pruned(o.skip(i as int), reach));
            } else {
                assert(self.vars@ =~= o.take(i as int) + pruned(o.skip(i as int), reach));
            }
        }
        assert(o.skip(0) =~= o);
        assert(self.vars@ =~= pruned(o, reach));
    }

    /// Recompute `reachable`, then prune (see `prune_vars`).
    pub fn refresh_vars(&mut self)
        ensures
            final(self).roots == old(self).roots,
            forall|n: Seq<char>|
                names_of(final(self).reachable@).contains(n) <==> is_reachable(*old(self), n),
            final(self).vars@ == pruned(old(self).vars@, names_of(final(self).reachable@)),
    {
        self.flag_reachable_vars();
        self.prune_vars();
    }

    /// Declare a variable named `name` with an empty rule, unless the name
    /// is a root's or a declared variable's.
    pub fn declare_var(&mut self, name: String)
        ensures
            final(self).roots == old(self).roots,
            final(self).reachable == old(self).reachable,
            lookup(*old(self), name@) is Some ==> final(self).vars == old(self).vars,
            lookup(*old(self), name@) is None ==> {
                &&& final(self).vars@.drop_last() == old(self).vars@
                &&& final(self).vars@.last().0@ == name@
                &&& final(self).vars@.last().1@.len() == 1
                &&& final(self).vars@.last().1@[0]@.len() == 1
                &&& final(self).vars@.last().1@[0]@[0] is Uninitialized
            },
    {
        if root_position(&name).is_some() {
            return;
        }
        if find_var(&self.vars, &name).is_some() {
            return;
        }
        self.vars.push((name, empty_rule()));
        assert(self.vars@.drop_last() =~= old(self).vars@);
    }
}


/// How deeply variables may nest within one syllable; a variable met
/// deeper than this contributes nothing, which bounds the expansion of
/// grammars whose variables refer to themselves.
pub const MAX_NESTING: usize = 64;

/// The choice among `n` options that the pick at position `k` makes; a
/// position past the end of the picks chooses the first option.
pub open spec fn pick(picks: Seq<u64>, k: int, n: nat) -> int {
    if 0 <= k < picks.len() && n > 0 {
        (picks[k] as nat % n) as int
    } else {
        0
    }
}

/// The position after consuming the pick at `k`.
pub open spec fn advance(picks: Seq<u64>, k: int) -> int {
    if k < picks.len() {
        k + 1
    } else {
        k
    }
}

/// A derivation's output, the position of the next unused pick, and
/// whether a choice found no pick left.
pub type Derivation = (Seq<char>, int, bool);

/// The texts one after another.
pub open spec fn joined(s: Seq<Seq<char>>) -> Seq<char>
    decreases s.len(),
{
    if s.len() == 0 {
        seq![]
    } else {
        joined(s.drop_last()) + s.last()
    }
}

/// Expand a rule: the pick at `k` chooses an alternative, whose leaves are
/// expanded in order.
pub open spec fn derive_or(sv: SyllableVars, r: OrRule, depth: nat, picks: Seq<u64>, k: int) -> Derivation
    decreases depth, 2int, 0int,
{
    let a = pick(picks, k, r@.len());
    let d = derive_and(sv, r@[a]@, 0, depth, picks, advance(picks, k));
    (d.0, d.1, d.2 || k >= picks.len())
}

/// Expand the leaves from the `i`-th on, one after another.
pub open spec fn derive_and(sv: SyllableVars, leaves: Seq<LeafRule>, i: int, depth: nat, picks: Seq<u64>, k: int) -> Derivation
    decreases depth, 1int, leaves.len() - i,
{
    if i < 0 || i >= leaves.len() {
        (seq![], k, false)
    } else {
        let d1 = derive_leaf(sv, leaves[i], depth, picks, k);
        let d2 = derive_and(sv, leaves, i + 1, depth, picks, d1.1);
        (d1.0 + d2.0, d2.1, d1.2 || d2.2)
    }
}

/// Expand one leaf: a sequence gives its graphemes; a non-empty set the
/// grapheme that the pick at `k` chooses; a variable what its rule gives,
/// one level deeper, or nothing when undeclared or too deep; the others
/// nothing.
pub open spec fn derive_leaf(sv: SyllableVars, leaf: LeafRule, depth: nat, picks: Seq<u64>, k: int) -> Derivation
    decreases depth, 0int, 0int,
{
    match leaf {
        LeafRule::Sequence(gs, _) => (joined(texts(gs@)), k, false),
        LeafRule::OneOf(set, _) => if set.items@.len() == 0 {
            (seq![], k, false)
        } else {
            (set.items@[pick(picks, k, set.items@.len())]@, advance(picks, k), k >= picks.len())
        },
        LeafRule::Variable(name) => if depth == 0 {
            (seq![], k, false)
        } else {
            match lookup(sv, name@) {
                Some(r) => derive_or(sv, r, (depth - 1) as nat, picks, k),
                None => (seq![], k, false),
            }
        },
        _ => (seq![], k, false),
    }
}

/// Expand `m` middle syllables one after another.
pub open spec fn derive_middles(sv: SyllableVars, m: nat, picks: Seq<u64>, k: int) -> Derivation
    decreases m,
{
    if m == 0 {
        (seq![], k, false)
    } else {
        let d1 = derive_or(sv, sv.roots.middle, MAX_NESTING as nat, picks, k);
        let d2 = derive_middles(sv, (m - 1) as nat, picks, d1.1);
        (d1.0 + d2.0, d2.1, d1.2 || d2.2)
    }
}

/// A word of `n` syllables: one single syllable when `n` is 1; otherwise
/// an initial syllable, `n - 2` middle ones and a terminal one.
pub open spec fn derive_word(sv: SyllableVars, n: nat, picks: Seq<u64>) -> Derivation {
    if n <= 1 {
        derive_or(sv, sv.roots.single, MAX_NESTING as nat, picks, 0)
    } else {
        let a = derive_or(sv, sv.roots.initial, MAX_NESTING as nat, picks, 0);
        let b = derive_middles(sv, (n - 2) as nat, picks, a.1);
        let c = derive_or(sv, sv.roots.terminal, MAX_NESTING as nat, picks, b.1);
        (a.0 + b.0 + c.0, c.1, a.2 || b.2 || c.2)
    }
}

/// The choice the pick at `k` makes among `n` options, and the next
/// position.
fn take_pick(picks: &Vec<u64>, k: usize, n: usize) -> (r: (usize, usize))
    requires
        k <= picks@.len(),
        n > 0,
    ensures
        r.0 == pick(picks@, k as int, n as nat),
        r.0 < n,
        r.1 == advance(picks@, k as int),
        r.1 <= picks@.len(),
{
    if k < picks.len() {
        ((picks[k] % (n as u64)) as usize, k + 1)
    } else {
        (0, k)
    }
}

/// Append the graphemes of a sequence.
fn push_graphemes(gs: &Vec<Grapheme>, out: &mut String)
    ensures
        final(out)@ == old(out)@ + joined(texts(gs@)),
{
    let mut i: usize = 0;
    while i < gs.len()
        invariant
            i <= gs@.len(),
            out@ == old(out)@ + joined(texts(gs@).take(i as int)),
        decreases gs@.len() - i,
    {
        out.append(gs[i].as_str());
        proof {
            let t = texts(gs@).take(i as int + 1);
            assert(t.drop_last() =~= texts(gs@).take(i as int));
            assert(t.last() == gs@[i as int]@);
        }
        i = i + 1;
    }
    assert(texts(gs@).take(gs@.len() as int) =~= texts(gs@));
}

/// Expand one leaf (see `derive_leaf`) onto `output`.
fn expand_leaf(
    sv: &SyllableVars,
    leaf: &LeafRule,
    depth: usize,
    picks: &Vec<u64>,
    k: usize,
    output: &mut String,
) -> (r: (usize, bool))
    requires
        k <= picks@.len(),
    ensures
        r.0 <= picks@.len(),
        r.0 == derive_leaf(*sv, *leaf, depth as nat, picks@, k as int).1,
        r.1 == derive_leaf(*sv, *leaf, depth as nat, picks@, k as int).2,
        final(output)@ == old(output)@ + derive_leaf(*sv, *leaf, depth as nat, picks@, k as int).0,
    decreases depth, 0int,
{
    match leaf {
        LeafRule::Sequence(gs, _) => {
            push_graphemes(gs, output);
            (k, false)
        },
        LeafRule::OneOf(set, _) => {
            let n = set.len();
            if n == 0 {
                assert(output@ =~= old(output)@ + Seq::<char>::empty());
                (k, false)
            } else {
                let (j, next) = take_pick(picks, k, n);
                output.append(set.items[j].as_str());
                (next, k >= picks.len())
            }
        },
        LeafRule::Variable(name) => {
            if depth == 0 {
                assert(output@ =~= old(output)@ + Seq::<char>::empty());
                (k, false)
            } else {
                match sv.get(name) {
                    Some(r) => synthesize_syllable(r, sv, output, depth - 1, picks, k),
                    None => {
                        assert(output@ =~= old(output)@ + Seq::<char>::empty());
                        (k, false)
                    },
                }
            }
        },
        _ => {
            assert(output@ =~= old(output)@ + Seq::<char>::empty());
            (k, false)
        },
    }
}

/// Expand a rule (see `derive_or`) onto `output`, taking the random
/// choices from `picks` from position `k` on; return the position after
/// the last pick used and whether a choice found no pick left.
pub fn synthesize_syllable(
    rule: &OrRule,
    vars: &SyllableVars,
    output: &mut String,
    depth: usize,
    picks: &Vec<u64>,
    k: usize,
) -> (r: (usize, bool))
    requires
        k <= picks@.len(),
    ensures
        r.0 <= picks@.len(),
        r.0 == derive_or(*vars, *rule, depth as nat, picks@, k as int).1,
        r.1 == derive_or(*vars, *rule, depth as nat, picks@, k as int).2,
        final(output)@ == old(output)@ + derive_or(*vars, *rule, depth as nat, picks@, k as int).0,
    decreases depth, 1int,
{
    let alts = rule.iter();
    let (a, k1) = take_pick(picks, k, alts.len());
    let and_rule = alts[a];
    let leaves = and_rule.iter();
    let ghost ls = and_rule@;
    let ghost start = output@;
    let ghost whole = derive_and(*vars, ls, 0, depth as nat, picks@, k1 as int);
    let mut pos = k1;
    let mut short = false;
    let mut i: usize = 0;
    while i < leaves.len()
        invariant
            leaves@.len() == ls.len(),
            forall|j: int| 0 <= j < ls.len() ==> *leaves@[j] == ls[j],
            i <= ls.len(),
            pos <= picks@.len(),
            output@ + derive_and(*vars, ls, i as int, depth as nat, picks@, pos as int).0 == start + whole.0,
            derive_and(*vars, ls, i as int, depth as nat, picks@, pos as int).1 == whole.1,
            (short || derive_and(*vars, ls, i as int, depth as nat, picks@, pos as int).2) == whole.2,
        decreases ls.len() - i,
    {
        let ghost before = output@;
        let (next, ran_out) = expand_leaf(vars, leaves[i], depth, picks, pos, output);
        proof {
            let d1 = derive_leaf(*vars, ls[i as int], depth as nat, picks@, pos as int);
            let d2 = derive_and(*vars, ls, i as int + 1, depth as nat, picks@, next as int);
            assert(derive_and(*vars, ls, i as int, depth as nat, picks@, pos as int) == (d1.0 + d2.0, d2.1, d1.2 || d2.2));
            assert(output@ + d2.0 =~= before + (d1.0 + d2.0));
        }
        pos = next;
        short = short || ran_out;
        i = i + 1;
    }
    assert(output@ =~= start + whole.0);
    (pos, short || k >= picks.len())
}


/// Build a word of `syllables` syllables (see `derive_word`), taking the
/// random choices from `picks`; also return whether a choice found no
/// pick left, in which case it chose the first option.
pub fn synthesize_from_picks(vars: &SyllableVars, syllables: usize, picks: &Vec<u64>) -> (r: (String, bool))
    requires
        syllables >= 1,
    ensures
        r.0@ == derive_word(*vars, syllables as nat, picks@).0,
        r.1 == derive_word(*vars, syllables as nat, picks@).2,
{
    let mut out = String::new();
    if syllables == 1 {
        let (_, short) = synthesize_syllable(&vars.roots.single, vars, &mut out, MAX_NESTING, picks, 0);
        assert(out@ =~= derive_word(*vars, 1, picks@).0);
        return (out, short);
    }
    let (k1, short1) = synthesize_syllable(&vars.roots.initial, vars, &mut out, MAX_NESTING, picks, 0);
    let ghost start = out@;
    let ghost whole = derive_middles(*vars, (syllables - 2) as nat, picks@, k1 as int);
    let mut pos = k1;
    let mut short = false;
    let mut left: usize = syllables - 2;
    while left > 0
        invariant
            pos <= picks@.len(),
            out@ + derive_middles(*vars, left as nat, picks@, pos as int).0 == start + whole.0,
            derive_middles(*vars, left as nat, picks@, pos as int).1 == whole.1,
            (short || derive_middles(*vars, left as nat, picks@, pos as int).2) == whole.2,
        decreases left,
    {
        let ghost before = out@;
        let (next, ran_out) = synthesize_syllable(&vars.roots.middle, vars, &mut out, MAX_NESTING, picks, pos);
        proof {
            let d2 = derive_middles(*vars, (left - 1) as nat, picks@, next as int);
            assert(out@ + d2.0 =~= before + derive_middles(*vars, left as nat, picks@, pos as int).0);
        }
        pos = next;
        short = short || ran_out;
        left = left - 1;
    }
    let ghost mid = out@;
    let (_, short3) = synthesize_syllable(&vars.roots.terminal, vars, &mut out, MAX_NESTING, picks, pos);
    assert(mid =~= start + whole.0);
    assert(out@ =~= derive_word(*vars, syllables as nat, picks@).0);
    (out, short1 || short || short3)
}

/// The sum of the weights.
pub open spec fn weight_sum(w: Seq<u16>) -> int
    decreases w.len(),
{
    if w.len() == 0 {
        0
    } else {
        weight_sum(w.drop_last()) + w.last()
    }
}

proof fn lemma_weight_sum_grows(w: Seq<u16>, i: int)
    requires
        0 <= i <= w.len(),
    ensures
        weight_sum(w.take(i)) <= weight_sum(w),
    decreases w.len() - i,
{
    if i < w.len() {
        lemma_weight_sum_grows(w, i + 1);
        assert(w.take(i + 1).drop_last() =~= w.take(i));
    } else {
        assert(w.take(i) =~= w);
    }
}

/// Whether the weights add up to exactly 100.
pub fn verify_weights(weights: &[u16]) -> (r: bool)
    ensures
        r == (weight_sum(weights@) == 100),
{
    let mut total: u64 = 0;
    let mut i: usize = 0;
    while i < weights.len()
        invariant
            i <= weights@.len(),
            total == weight_sum(weights@.take(i as int)),
            total <= 100,
        decreases weights@.len() - i,
    {
        total = total + weights[i] as u64;
        assert(weights@.take(i as int + 1).drop_last() =~= weights@.take(i as int));
        i = i + 1;
        if total > 100 {
            proof {
                lemma_weight_sum_grows(weights@, i as int);
            }
            return false;
        }
    }
    assert(weights@.take(i as int) =~= weights@);
    total == 100
}

/// Relies on rand's `WeightedIndex` (built with `WeightedIndex::new`,
/// sampled with `Distribution::sample` on `thread_rng`): from weights that
/// are not all zero and whose running sum fits in `u16`, it returns the
/// index of a positive weight, drawn with probability proportional to it.
#[verifier::external_body]
fn weighted_index(weights: &[u16]) -> (r: usize)
    requires
        weights@.len() > 0,
        0 < weight_sum(weights@) <= u16::MAX,
    ensures
        r < weights@.len(),
        weights@[r as int] > 0,
{
    let distribution = rand::distributions::WeightedIndex::new(weights).unwrap();
    rand::distributions::Distribution::sample(&distribution, &mut rand::thread_rng())
}

/// Relies on `rand::random`: a value drawn from the thread-local generator;
/// nothing is known of it.
pub assume_specification<T>[ rand::random::<T> ]() -> T
    where
        rand::distributions::Standard: rand::distributions::Distribution<T>,
;

/// Append `n` random picks.
fn draw_picks(picks: &mut Vec<u64>, n: usize)
    ensures
        final(picks)@.len() == old(picks)@.len() + n,
        final(picks)@.take(old(picks)@.len() as int) == old(picks)@,
{
    let mut i: usize = 0;
    while i < n
        invariant
            i <= n,
            picks@.len() == old(picks)@.len() + i,
            picks@.take(old(picks)@.len() as int) == old(picks)@,
        decreases n - i,
    {
        let x: u64 = rand::random::<u64>();
        let ghost before = picks@;
        picks.push(x);
        assert(picks@.take(old(picks)@.len() as int) =~= before.take(old(picks)@.len() as int));
        i = i + 1;
    }
}

/// The most picks drawn for one word.
pub const MAX_PICKS: usize = 1048576;

/// Generate a new morpheme: draw the number of syllables from the weights
/// (the weight at index `i` is that of `i + 1` syllables), then build the
/// word with random choices throughout.
pub fn synthesize_morpheme(vars: &SyllableVars, weights: &[u16]) -> (r: String)
    requires
        weight_sum(weights@) == 100,
    ensures
        exists|n: nat, picks: Seq<u64>|
            1 <= n <= weights@.len() && weights@[n - 1] > 0 && r@ == #[trigger] derive_word(
                *vars,
                n,
                picks,
            ).0,
{
    if weights.len() == 0 {
        assert(weight_sum(weights@) == 0);
    }
    let n = weighted_index(weights) + 1;
    let mut picks: Vec<u64> = Vec::new();
    draw_picks(&mut picks, 16);
    loop
        invariant
            1 <= n <= weights@.len(),
            weights@[n - 1] > 0,
            16 <= picks@.len() <= MAX_PICKS,
        decreases MAX_PICKS - picks@.len(),
    {
        let (word, short) = synthesize_from_picks(vars, n, &picks);
        if !short || picks.len() * 2 > MAX_PICKS {
            return word;
        }
        let more = picks.len();
        draw_picks(&mut picks, more);
    }
}


/// A rule of one alternative made of one grapheme sequence `gs`.
pub open spec fn plain_sequence(r: OrRule, gs: Seq<Grapheme>) -> bool {
    r@.len() == 1 && r@[0]@.len() == 1 && (r@[0]@[0] matches LeafRule::Sequence(v, _) && v@ == gs)
}

proof fn lemma_plain_sequence(sv: SyllableVars, r: OrRule, gs: Seq<Grapheme>, picks: Seq<u64>, k: int)
    requires
        plain_sequence(r, gs),
    ensures
        derive_or(sv, r, MAX_NESTING as nat, picks, k).0 == joined(texts(gs)),
{
    let leaves = r@[0]@;
    let k1 = advance(picks, k);
    assert(pick(picks, k, 1) == 0) by {
        if 0 <= k < picks.len() {
            assert(picks[k] as nat % 1 == 0) by (nonlinear_arith);
        }
    }
    let d1 = derive_leaf(sv, leaves[0], MAX_NESTING as nat, picks, k1);
    assert(derive_and(sv, leaves, 1, MAX_NESTING as nat, picks, d1.1).0 == Seq::<char>::empty());
    assert(derive_and(sv, leaves, 0, MAX_NESTING as nat, picks, k1).0 =~= joined(texts(gs)));
}

/// Words from roots that are plain grapheme sequences come out the same
/// whatever the random choices: one syllable gives the single root's
/// graphemes, and two syllables the initial root's then the terminal
/// root's, with no middle syllable between them.
pub proof fn law_plain_word_shape(sv: SyllableVars, single: Seq<Grapheme>, initial: Seq<Grapheme>, terminal: Seq<Grapheme>, picks: Seq<u64>)
    ensures
        plain_sequence(sv.roots.single, single) ==> derive_word(sv, 1, picks).0 == joined(texts(single)),
        plain_sequence(sv.roots.initial, initial) && plain_sequence(sv.roots.terminal, terminal)
            ==> derive_word(sv, 2, picks).0 == joined(texts(initial)) + joined(texts(terminal)),
{
    if plain_sequence(sv.roots.single, single) {
        lemma_plain_sequence(sv, sv.roots.single, single, picks, 0);
    }
    if plain_sequence(sv.roots.initial, initial) && plain_sequence(sv.roots.terminal, terminal) {
        let a = derive_or(sv, sv.roots.initial, MAX_NESTING as nat, picks, 0);
        lemma_plain_sequence(sv, sv.roots.initial, initial, picks, 0);
        let b = derive_middles(sv, 0, picks, a.1);
        lemma_plain_sequence(sv, sv.roots.terminal, terminal, picks, b.1);
        assert(b.0 == Seq::<char>::empty());
        assert(derive_word(sv, 2, picks).0 =~= joined(texts(initial)) + joined(texts(terminal)));
    }
}

/// What the synthesis editor holds for a language.
pub struct SynthesisTab {
    pub graphemes: GraphemeSet,
    pub syllable_vars: SyllableVars,
    /// The most syllables of a function word and of a content word.
    pub max_syllables: (u8, u8),
    /// The weights of each word length, for function and content words.
    pub syllable_wgts: (Vec<u16>, Vec<u16>),
    pub test_words: Vec<String>,
    pub new_grapheme: String,
    pub syllable_edit_mode: EditMode,
}

/// Whether both weight lists add up to 100, so that words can be made.
pub fn is_config_valid(data: &SynthesisTab) -> (r: bool)
    ensures
        r == (weight_sum(data.syllable_wgts.0@) == 100 && weight_sum(data.syllable_wgts.1@) == 100),
{
    verify_weights(data.syllable_wgts.0.as_slice()) && verify_weights(data.syllable_wgts.1.as_slice())
}

/// `w` resized to `n`: cut, or padded with zeros.
pub open spec fn resized(w: Seq<u16>, n: nat) -> Seq<u16> {
    if n <= w.len() {
        w.take(n as int)
    } else {
        w + Seq::new((n - w.len()) as nat, |i: int| 0u16)
    }
}

fn resize_weights(w: &mut Vec<u16>, n: usize)
    ensures
        final(w)@ == resized(old(w)@, n as nat),
{
    let ghost o = w@;
    while w.len() > n
        invariant
            n < w@.len() ==> n < o.len(),
            w@.len() <= o.len(),
            w@ == o.take(w@.len() as int),
            w@.len() >= n || w@ == o,
        decreases w@.len(),
    {
        w.pop();
        assert(w@ =~= o.take(w@.len() as int));
    }
    let ghost mid = w@;
    while w.len() < n
        invariant
            mid.len() <= w@.len() <= n || (w@ == mid && n <= mid.len()),
            w@.take(mid.len() as int) == mid,
            forall|i: int| mid.len() <= i < w@.len() ==> w@[i] == 0,
        decreases n - w@.len(),
    {
        let ghost before = w@;
        w.push(0);
        assert(w@.take(mid.len() as int) =~= before.take(mid.len() as int));
    }
    proof {
        if n as nat <= o.len() {
            assert(w@ =~= o.take(n as int));
        } else {
            assert(mid =~= o);
            assert(w@ =~= o + Seq::new((n - o.len()) as nat, |i: int| 0u16));
        }
    }
}

/// Label given to a generated word that came out empty.
pub fn blank_word() -> (r: String)
    ensures
        r@ == "(blank)"@,
{
    String::from_str("(blank)")
}

impl SynthesisTab {
    /// An empty configuration: no graphemes, empty rules, no word lengths.
    pub fn new() -> (r: Self)
        ensures
            r.syllable_vars.vars@.len() == 0,
            r.graphemes.items@.len() == 0,
            r.syllable_wgts.0@.len() == 0,
            r.syllable_wgts.1@.len() == 0,
            r.max_syllables == (0u8, 0u8),
            r.test_words@.len() == 0,
    {
        SynthesisTab {
            graphemes: GraphemeSet::new(),
            syllable_vars: SyllableVars::new(),
            max_syllables: (0, 0),
            syllable_wgts: (Vec::new(), Vec::new()),
            test_words: Vec::new(),
            new_grapheme: String::new(),
            syllable_edit_mode: EditMode::View,
        }
    }

    /// Set the most syllables of function and content words; each weight
    /// list is cut or padded with zeros to that length.
    pub fn set_max_syllables(&mut self, function: u8, content: u8)
        ensures
            final(self).max_syllables == (function, content),
            final(self).syllable_wgts.0@ == resized(old(self).syllable_wgts.0@, function as nat),
            final(self).syllable_wgts.1@ == resized(old(self).syllable_wgts.1@, content as nat),
    {
        self.max_syllables = (function, content);
        resize_weights(&mut self.syllable_wgts.0, function as usize);
        resize_weights(&mut self.syllable_wgts.1, content as usize);
    }

    /// Replace the sample words with `count` new words of the chosen
    /// class, an empty one shown as `(blank)`; nothing happens when that
    /// class's weights do not add up to 100.
    pub fn generate_test_words(&mut self, function_words: bool, count: usize)
        ensures
            ({
                let w = if function_words { old(self).syllable_wgts.0@ } else { old(self).syllable_wgts.1@ };
                if weight_sum(w) == 100 {
                    &&& final(self).test_words@.len() == count
                    &&& forall|i: int|
                        0 <= i < count ==> {
                            let t = (#[trigger] final(self).test_words@[i])@;
                            t == "(blank)"@ || (t.len() > 0 && exists|n: nat, picks: Seq<u64>|
                                1 <= n <= w.len() && w[n - 1] > 0 && t == #[trigger] derive_word(
                                    old(self).syllable_vars,
                                    n,
                                    picks,
                                ).0)
                        }
                } else {
                    final(self).test_words == old(self).test_words
                }
            }),
            final(self).syllable_vars == old(self).syllable_vars,
            final(self).syllable_wgts == old(self).syllable_wgts,
    {
        let ok = if function_words {
            verify_weights(self.syllable_wgts.0.as_slice())
        } else {
            verify_weights(self.syllable_wgts.1.as_slice())
        };
        if !ok {
            return;
        }
        let mut words: Vec<String> = Vec::new();
        let mut i: usize = 0;
        while i < count
            invariant
                i <= count,
                words@.len() == i,
                self.syllable_vars == old(self).syllable_vars,
                self.syllable_wgts == old(self).syllable_wgts,
                self.test_words == old(self).test_words,
                ({
                    let w = if function_words { self.syllable_wgts.0@ } else { self.syllable_wgts.1@ };
                    &&& weight_sum(w) == 100
                    &&& forall|j: int|
                        0 <= j < i ==> {
                            let t = (#[trigger] words@[j])@;
                            t == "(blank)"@ || (t.len() > 0 && exists|n: nat, picks: Seq<u64>|
                                1 <= n <= w.len() && w[n - 1] > 0 && t == #[trigger] derive_word(
                                    self.syllable_vars,
                                    n,
                                    picks,
                                ).0)
                        }
                }),
            decreases count - i,
        {
            let weights = if function_words {
                self.syllable_wgts.0.as_slice()
            } else {
                self.syllable_wgts.1.as_slice()
            };
            let word = synthesize_morpheme(&self.syllable_vars, weights);
            let shown = if word.unicode_len() == 0 {
                blank_word()
            } else {
                word
            };
            words.push(shown);
            i = i + 1;
        }
        self.test_words = words;
    }
}

} // verus!
