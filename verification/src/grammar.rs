//! Grammars: typed productions, validation, and classification into the
//! Chomsky hierarchy {Type-0, context-dependent, context-free, regular-left,
//! regular-right}.
use vstd::prelude::*;

use crate::symbols::{check_operator, is_operator, EMPTY_SEQUENCE};

verus! {

/// The alignment of a regular grammar's rules.
#[derive(Debug, PartialEq, Eq, Structural, Clone, Copy)]
pub enum RegularType {
    /// Left-aligned: variants of the shape `N a*` (begin with a non-terminal).
    Left,
    /// Right-aligned: variants of the shape `a* N` (end with a non-terminal).
    Right,
}

/// The class of a grammar in the containment hierarchy.
#[derive(Debug, PartialEq, Eq, Structural, Clone, Copy)]
pub enum GrammarType {
    /// No constraint on the production rules.
    Type0,
    /// Context-dependent: every rule `input -> variant` has
    /// `|input| <= |variant|`.
    ContextDependent,
    /// Context-free: additionally every input is a single non-terminal.
    ContextFree,
    /// Regular: additionally every variant is aligned, a single terminal,
    /// or the empty sequence.
    Regular(RegularType),
}

impl GrammarType {
    /// The display text of the classification.
    pub open spec fn spec_display_text(self) -> Seq<char> {
        match self {
            GrammarType::Type0 => "Тип 0"@,
            GrammarType::ContextDependent => "Тип 1 (КЗ-грамматика)"@,
            GrammarType::ContextFree => "Тип 2 (КС-грамматика)"@,
            GrammarType::Regular(RegularType::Left) => "Тип 3 (Р-грамматика, выровненная влево)"@,
            GrammarType::Regular(RegularType::Right) => "Тип 3 (Р-грамматика, выровненная вправо)"@,
        }
    }

    /// Renders the classification for display.
    pub fn display_text(&self) -> (r: String)
        ensures
            r@ == self.spec_display_text(),
    {
        broadcast use vstd::string::to_string_from_display_ensures_for_str;

        match self {
            GrammarType::Type0 => "Тип 0".to_string(),
            GrammarType::ContextDependent => "Тип 1 (КЗ-грамматика)".to_string(),
            GrammarType::ContextFree => "Тип 2 (КС-грамматика)".to_string(),
            GrammarType::Regular(RegularType::Left) => "Тип 3 (Р-грамматика, выровненная влево)"
                .to_string(),
            GrammarType::Regular(RegularType::Right) => "Тип 3 (Р-грамматика, выровненная вправо)"
                .to_string(),
        }
    }
}

/// An error reported by the grammar validator.
#[derive(Debug, PartialEq, Eq, Structural, Clone, Copy)]
pub enum GrammarError {
    /// A symbol occurs both as a terminal and as a non-terminal.
    OverlappingSymbols,
    /// The starting symbol is not among the non-terminals.
    MissingStartingNonTerminalSymbol,
    /// A rule is empty or mentions a symbol outside the declared alphabet.
    InvalidRule,
}

/// A production `input -> { variant, ... }`.
#[derive(Debug)]
pub struct Rule {
    pub input: Vec<char>,
    pub variants: Vec<Vec<char>>,
}

/// A grammar `(terminals, non-terminals, rules, start symbol)` together with
/// its derived classification.
#[derive(Debug)]
pub struct Grammar {
    pub terminals: Vec<char>,
    pub non_terminals: Vec<char>,
    pub rules: Vec<Rule>,
    pub starting_non_terminal: char,
    pub grammar_type: GrammarType,
}

/// A symbol allowed inside a rule variant: a declared symbol, the empty
/// sequence, or a reserved operator.
pub open spec fn variant_symbol_ok(c: char, ts: Seq<char>, ns: Seq<char>) -> bool {
    ts.contains(c) || ns.contains(c) || c == EMPTY_SEQUENCE || is_operator(c)
}

/// A well-formed rule over the declared alphabet: non-empty input drawn from
/// the alphabet, non-empty variants drawn from the alphabet, the empty
/// sequence, or operators.
pub open spec fn rule_wf(r: Rule, ts: Seq<char>, ns: Seq<char>) -> bool {
    &&& r.input@.len() >= 1
    &&& forall|i: int|
        0 <= i < r.input@.len() ==> ts.contains(r.input@[i]) || ns.contains(r.input@[i])
    &&& forall|j: int| 0 <= j < r.variants@.len() ==> r.variants@[j]@.len() >= 1
    &&& forall|j: int, k: int|
        0 <= j < r.variants@.len() && 0 <= k < r.variants@[j]@.len() ==> variant_symbol_ok(
            r.variants@[j]@[k],
            ts,
            ns,
        )
}

/// Every rule's input is no longer than each of its variants.
pub open spec fn rules_length_ok(rules: Seq<Rule>) -> bool {
    forall|i: int, j: int|
        0 <= i < rules.len() && 0 <= j < rules[i].variants@.len() ==> rules[i].input@.len()
            <= rules[i].variants@[j]@.len()
}

/// Every rule's input is a single non-terminal.
pub open spec fn rules_single_non_terminal(rules: Seq<Rule>, ns: Seq<char>) -> bool {
    forall|i: int|
        0 <= i < rules.len() ==> rules[i].input@.len() == 1 && ns.contains(rules[i].input@[0])
}

/// The variant begins with a non-terminal.
pub open spec fn left_aligned(v: Seq<char>, ns: Seq<char>) -> bool {
    v.len() >= 1 && ns.contains(v[0])
}

/// The variant ends with a non-terminal.
pub open spec fn right_aligned(v: Seq<char>, ns: Seq<char>) -> bool {
    v.len() >= 1 && ns.contains(v[v.len() - 1])
}

/// The variant has one of the shapes a regular grammar allows.
pub open spec fn variant_regular(v: Seq<char>, ts: Seq<char>, ns: Seq<char>) -> bool {
    ||| (left_aligned(v, ns) && !right_aligned(v, ns))
    ||| (right_aligned(v, ns) && !left_aligned(v, ns))
    ||| (v.len() == 1 && ts.contains(v[0]))
    ||| (v.len() == 1 && v[0] == EMPTY_SEQUENCE)
}

pub open spec fn rules_regular(rules: Seq<Rule>, ts: Seq<char>, ns: Seq<char>) -> bool {
    forall|i: int, j: int|
        0 <= i < rules.len() && 0 <= j < rules[i].variants@.len() ==> variant_regular(
            rules[i].variants@[j]@,
            ts,
            ns,
        )
}

/// Some variant begins, and does not end, with a non-terminal.
pub open spec fn has_left_variant(rules: Seq<Rule>, ns: Seq<char>) -> bool {
    exists|i: int, j: int|
        0 <= i < rules.len() && 0 <= j < rules[i].variants@.len() && left_aligned(
            rules[i].variants@[j]@,
            ns,
        ) && !right_aligned(rules[i].variants@[j]@, ns)
}

/// Some variant ends, and does not begin, with a non-terminal.
pub open spec fn has_right_variant(rules: Seq<Rule>, ns: Seq<char>) -> bool {
    exists|i: int, j: int|
        0 <= i < rules.len() && 0 <= j < rules[i].variants@.len() && right_aligned(
            rules[i].variants@[j]@,
            ns,
        ) && !left_aligned(rules[i].variants@[j]@, ns)
}

/// The classification of a rule set: the strictest class in the hierarchy
/// whose conditions all rules meet. A regular rule set whose aligned variants
/// are mixed, or which has no aligned variant at all, is classified
/// context-free, since no single alignment is observed.
pub open spec fn spec_classify(ts: Seq<char>, ns: Seq<char>, rules: Seq<Rule>) -> GrammarType {
    if !rules_length_ok(rules) {
        GrammarType::Type0
    } else if !rules_single_non_terminal(rules, ns) {
        GrammarType::ContextDependent
    } else if rules_regular(rules, ts, ns) {
        if has_left_variant(rules, ns) && !has_right_variant(rules, ns) {
            GrammarType::Regular(RegularType::Left)
        } else if has_right_variant(rules, ns) && !has_left_variant(rules, ns) {
            GrammarType::Regular(RegularType::Right)
        } else {
            GrammarType::ContextFree
        }
    } else {
        GrammarType::ContextFree
    }
}

/// Variants strictly before position `(i, j)` in rule order include a
/// left-only-aligned one.
pub open spec fn has_left_in_prefix(rules: Seq<Rule>, ns: Seq<char>, i: int, j: int) -> bool {
    exists|a: int, b: int|
        0 <= a < rules.len() && 0 <= b < rules[a].variants@.len() && (a < i || (a == i && b < j))
            && left_aligned(rules[a].variants@[b]@, ns) && !right_aligned(rules[a].variants@[b]@, ns)
}

/// Variants strictly before position `(i, j)` include a right-only one.
pub open spec fn has_right_in_prefix(rules: Seq<Rule>, ns: Seq<char>, i: int, j: int) -> bool {
    exists|a: int, b: int|
        0 <= a < rules.len() && 0 <= b < rules[a].variants@.len() && (a < i || (a == i && b < j))
            && right_aligned(rules[a].variants@[b]@, ns) && !left_aligned(rules[a].variants@[b]@, ns)
}

/// Every rule of `r1` occurs in `r2`: the classification conditions carry
/// over from `r2` to `r1`, and observed alignments carry from `r1` to `r2`.
proof fn lemma_classify_components_one_way(
    ts: Seq<char>,
    ns: Seq<char>,
    r1: Seq<Rule>,
    r2: Seq<Rule>,
)
    requires
        forall|r: Rule| r1.contains(r) ==> r2.contains(r),
    ensures
        rules_length_ok(r2) ==> rules_length_ok(r1),
        rules_single_non_terminal(r2, ns) ==> rules_single_non_terminal(r1, ns),
        rules_regular(r2, ts, ns) ==> rules_regular(r1, ts, ns),
        has_left_variant(r1, ns) ==> has_left_variant(r2, ns),
        has_right_variant(r1, ns) ==> has_right_variant(r2, ns),
{
    if rules_length_ok(r2) {
        assert forall|i: int, j: int|
            0 <= i < r1.len() && 0 <= j < r1[i].variants@.len() implies r1[i].input@.len()
            <= r1[i].variants@[j]@.len() by {
            assert(r1.contains(r1[i]));
            let k = choose|k: int| 0 <= k < r2.len() && r2[k] == r1[i];
            assert(r2[k].input@.len() <= r2[k].variants@[j]@.len());
        }
    }
    if rules_single_non_terminal(r2, ns) {
        assert forall|i: int| 0 <= i < r1.len() implies r1[i].input@.len() == 1 && ns.contains(
            r1[i].input@[0],
        ) by {
            assert(r1.contains(r1[i]));
            let k = choose|k: int| 0 <= k < r2.len() && r2[k] == r1[i];
            assert(r2[k].input@.len() == 1 && ns.contains(r2[k].input@[0]));
        }
    }
    if rules_regular(r2, ts, ns) {
        assert forall|i: int, j: int|
            0 <= i < r1.len() && 0 <= j < r1[i].variants@.len() implies variant_regular(
            r1[i].variants@[j]@,
            ts,
            ns,
        ) by {
            assert(r1.contains(r1[i]));
            let k = choose|k: int| 0 <= k < r2.len() && r2[k] == r1[i];
            assert(variant_regular(r2[k].variants@[j]@, ts, ns));
        }
    }
    if has_left_variant(r1, ns) {
        let (i, j) = choose|i: int, j: int|
            0 <= i < r1.len() && 0 <= j < r1[i].variants@.len() && left_aligned(
                r1[i].variants@[j]@,
                ns,
            ) && !right_aligned(r1[i].variants@[j]@, ns);
        assert(r1.contains(r1[i]));
        let k = choose|k: int| 0 <= k < r2.len() && r2[k] == r1[i];
        assert(left_aligned(r2[k].variants@[j]@, ns) && !right_aligned(r2[k].variants@[j]@, ns));
    }
    if has_right_variant(r1, ns) {
        let (i, j) = choose|i: int, j: int|
            0 <= i < r1.len() && 0 <= j < r1[i].variants@.len() && right_aligned(
                r1[i].variants@[j]@,
                ns,
            ) && !left_aligned(r1[i].variants@[j]@, ns);
        assert(r1.contains(r1[i]));
        let k = choose|k: int| 0 <= k < r2.len() && r2[k] == r1[i];
        assert(right_aligned(r2[k].variants@[j]@, ns) && !left_aligned(r2[k].variants@[j]@, ns));
    }
}

/// Classification is deterministic over the rule set: two rule lists that
/// hold the same rules, in any order, classify identically.
pub proof fn lemma_classify_permutation_invariant(
    ts: Seq<char>,
    ns: Seq<char>,
    rules1: Seq<Rule>,
    rules2: Seq<Rule>,
)
    requires
        rules1.to_multiset() == rules2.to_multiset(),
    ensures
        spec_classify(ts, ns, rules1) == spec_classify(ts, ns, rules2),
{
    rules1.to_multiset_ensures();
    rules2.to_multiset_ensures();
    assert forall|r: Rule| rules1.contains(r) implies rules2.contains(r) by {
        assert(rules1.to_multiset().count(r) > 0);
    }
    assert forall|r: Rule| rules2.contains(r) implies rules1.contains(r) by {
        assert(rules2.to_multiset().count(r) > 0);
    }
    lemma_classify_components_one_way(ts, ns, rules1, rules2);
    lemma_classify_components_one_way(ts, ns, rules2, rules1);
}

/// Classification is stable: a validly constructed grammar re-classifies to
/// the very type it carries.
pub proof fn lemma_classify_idempotent(g: Grammar)
    requires
        g.wf(),
    ensures
        spec_classify(g.terminals@, g.non_terminals@, g.rules@) == g.grammar_type,
{
}

/// In every well-formed grammar the terminal and non-terminal alphabets are
/// disjoint, and every symbol of every rule is a declared symbol, the empty
/// sequence, or a reserved operator.
pub proof fn lemma_grammar_symbol_invariant(g: Grammar)
    requires
        g.wf(),
    ensures
        forall|c: char| !(g.terminals@.contains(c) && g.non_terminals@.contains(c)),
        forall|i: int, k: int|
            0 <= i < g.rules@.len() && 0 <= k < g.rules@[i].input@.len() ==> g.terminals@.contains(
                g.rules@[i].input@[k],
            ) || g.non_terminals@.contains(g.rules@[i].input@[k]),
        forall|i: int, j: int, k: int|
            0 <= i < g.rules@.len() && 0 <= j < g.rules@[i].variants@.len() && 0 <= k
                < g.rules@[i].variants@[j]@.len() ==> variant_symbol_ok(
                g.rules@[i].variants@[j]@[k],
                g.terminals@,
                g.non_terminals@,
            ),
{
    assert forall|i: int, k: int|
        0 <= i < g.rules@.len() && 0 <= k < g.rules@[i].input@.len() implies g.terminals@.contains(
        g.rules@[i].input@[k],
    ) || g.non_terminals@.contains(g.rules@[i].input@[k]) by {
        assert(rule_wf(g.rules@[i], g.terminals@, g.non_terminals@));
    }
    assert forall|i: int, j: int, k: int|
        0 <= i < g.rules@.len() && 0 <= j < g.rules@[i].variants@.len() && 0 <= k
            < g.rules@[i].variants@[j]@.len() implies variant_symbol_ok(
        g.rules@[i].variants@[j]@[k],
        g.terminals@,
        g.non_terminals@,
    ) by {
        assert(rule_wf(g.rules@[i], g.terminals@, g.non_terminals@));
    }
}

impl Grammar {
    /// The grammar invariant: disjoint alphabets, a declared start symbol,
    /// well-formed rules, and a classification that matches the rules.
    pub open spec fn wf(self) -> bool {
        &&& forall|c: char| !(self.terminals@.contains(c) && self.non_terminals@.contains(c))
        &&& self.non_terminals@.contains(self.starting_non_terminal)
        &&& forall|i: int|
            0 <= i < self.rules@.len() ==> rule_wf(self.rules@[i], self.terminals@, self.non_terminals@)
        &&& self.grammar_type == spec_classify(self.terminals@, self.non_terminals@, self.rules@)
    }

    /// Classifies a rule set over the given alphabets.
    pub fn get_type(terminals: &Vec<char>, non_terminals: &Vec<char>, rules: &Vec<Rule>) -> (r:
        GrammarType)
        ensures
            r == spec_classify(terminals@, non_terminals@, rules@),
    {
        // Context-dependent: no rule may shrink.
        let mut i: usize = 0;
        while i < rules.len()
            invariant
                0 <= i <= rules@.len(),
                forall|a: int, b: int|
                    0 <= a < i && 0 <= b < rules@[a].variants@.len() ==> rules@[a].input@.len()
                        <= rules@[a].variants@[b]@.len(),
            decreases rules@.len() - i,
        {
            let r = &rules[i];
            let mut j: usize = 0;
            while j < r.variants.len()
                invariant
                    0 <= j <= r.variants@.len(),
                    forall|b: int|
                        0 <= b < j ==> r.input@.len() <= r.variants@[b]@.len(),
                decreases r.variants@.len() - j,
            {
                if r.input.len() > r.variants[j].len() {
                    proof {
                        assert(rules@[i as int].input@.len()
                            > rules@[i as int].variants@[j as int]@.len());
                        assert(!rules_length_ok(rules@));
                    }
                    return GrammarType::Type0;
                }
                j = j + 1;
            }
            i = i + 1;
        }
        assert(rules_length_ok(rules@));

        // Context-free: every input is a single non-terminal.
        let mut i: usize = 0;
        while i < rules.len()
            invariant
                0 <= i <= rules@.len(),
                forall|a: int|
                    0 <= a < i ==> rules@[a].input@.len() == 1 && non_terminals@.contains(
                        rules@[a].input@[0],
                    ),
            decreases rules@.len() - i,
        {
            let r = &rules[i];
            if r.input.len() != 1 {
                proof {
                    assert(!rules_single_non_terminal(rules@, non_terminals@));
                }
                return GrammarType::ContextDependent;
            }
            if !crate::symbols::contains_char(non_terminals, r.input[0]) {
                proof {
                    assert(!rules_single_non_terminal(rules@, non_terminals@));
                }
                return GrammarType::ContextDependent;
            }
            i = i + 1;
        }
        assert(rules_single_non_terminal(rules@, non_terminals@));

        // Regular: every variant aligned one way, a single terminal, or the
        // empty sequence; a single alignment must be observed overall.
        let mut any_left: bool = false;
        let mut any_right: bool = false;
        let mut i: usize = 0;
        while i < rules.len()
            invariant
                0 <= i <= rules@.len(),
                rules_single_non_terminal(rules@, non_terminals@),
                rules_length_ok(rules@),
                forall|a: int, b: int|
                    0 <= a < i && 0 <= b < rules@[a].variants@.len() ==> variant_regular(
                        rules@[a].variants@[b]@,
                        terminals@,
                        non_terminals@,
                    ),
                any_left == has_left_in_prefix(rules@, non_terminals@, i as int, 0),
                any_right == has_right_in_prefix(rules@, non_terminals@, i as int, 0),
            decreases rules@.len() - i,
        {
            let r = &rules[i];
            let mut j: usize = 0;
            while j < r.variants.len()
                invariant
                    0 <= j <= r.variants@.len(),
                    r == &rules@[i as int],
                    0 <= i < rules@.len(),
                    forall|b: int|
                        0 <= b < j ==> variant_regular(
                            r.variants@[b]@,
                            terminals@,
                            non_terminals@,
                        ),
                    any_left == has_left_in_prefix(rules@, non_terminals@, i as int, j as int),
                    any_right == has_right_in_prefix(rules@, non_terminals@, i as int, j as int),
                decreases r.variants@.len() - j,
            {
                let v = &r.variants[j];
                if v.len() == 0 {
                    proof {
                        assert(!variant_regular(r.variants@[j as int]@, terminals@, non_terminals@));
                        assert(!rules_regular(rules@, terminals@, non_terminals@));
                    }
                    return GrammarType::ContextFree;
                }
                let l = crate::symbols::contains_char(non_terminals, v[0]);
                let rr = crate::symbols::contains_char(non_terminals, v[v.len() - 1]);
                let single_t = v.len() == 1 && crate::symbols::contains_char(terminals, v[0]);
                let single_e = v.len() == 1 && v[0] == EMPTY_SEQUENCE;
                if l && !rr {
                    any_left = true;
                } else if rr && !l {
                    any_right = true;
                } else if !single_t && !single_e {
                    proof {
                        assert(!variant_regular(r.variants@[j as int]@, terminals@, non_terminals@));
                        assert(!rules_regular(rules@, terminals@, non_terminals@));
                    }
                    return GrammarType::ContextFree;
                }
                proof {
                    assert(variant_regular(r.variants@[j as int]@, terminals@, non_terminals@));
                    assert(any_left == has_left_in_prefix(
                        rules@,
                        non_terminals@,
                        i as int,
                        j + 1 as int,
                    )) by {
                        if any_left && !has_left_in_prefix(rules@, non_terminals@, i as int, j as int) {
                            assert(left_aligned(rules@[i as int].variants@[j as int]@, non_terminals@)
                                && !right_aligned(rules@[i as int].variants@[j as int]@, non_terminals@));
                        }
                        if has_left_in_prefix(rules@, non_terminals@, i as int, j + 1 as int) {
                            let (a, b) = choose|a: int, b: int|
                                0 <= a < rules@.len() && 0 <= b < rules@[a].variants@.len() && (a
                                    < i as int || (a == i as int && b < j + 1)) && left_aligned(
                                    rules@[a].variants@[b]@,
                                    non_terminals@,
                                ) && !right_aligned(rules@[a].variants@[b]@, non_terminals@);
                            if a < i as int || (a == i as int && b < j as int) {
                                assert(has_left_in_prefix(rules@, non_terminals@, i as int, j as int));
                            } else {
                                assert(a == i as int && b == j as int);
                            }
                        }
                    }
                    assert(any_right == has_right_in_prefix(
                        rules@,
                        non_terminals@,
                        i as int,
                        j + 1 as int,
                    )) by {
                        if any_right && !has_right_in_prefix(rules@, non_terminals@, i as int, j as int) {
                            assert(right_aligned(rules@[i as int].variants@[j as int]@, non_terminals@)
                                && !left_aligned(rules@[i as int].variants@[j as int]@, non_terminals@));
                        }
                        if has_right_in_prefix(rules@, non_terminals@, i as int, j + 1 as int) {
                            let (a, b) = choose|a: int, b: int|
                                0 <= a < rules@.len() && 0 <= b < rules@[a].variants@.len() && (a
                                    < i as int || (a == i as int && b < j + 1)) && right_aligned(
                                    rules@[a].variants@[b]@,
                                    non_terminals@,
                                ) && !left_aligned(rules@[a].variants@[b]@, non_terminals@);
                            if a < i as int || (a == i as int && b < j as int) {
                                assert(has_right_in_prefix(rules@, non_terminals@, i as int, j as int));
                            } else {
                                assert(a == i as int && b == j as int);
                            }
                        }
                    }
                }
                j = j + 1;
            }
            proof {
                assert(has_left_in_prefix(rules@, non_terminals@, i as int, r.variants@.len() as int)
                    == has_left_in_prefix(rules@, non_terminals@, i + 1 as int, 0)) by {
                    if has_left_in_prefix(rules@, non_terminals@, i as int, r.variants@.len() as int) {
                        assert(has_left_in_prefix(rules@, non_terminals@, i + 1 as int, 0));
                    }
                    if has_left_in_prefix(rules@, non_terminals@, i + 1 as int, 0) {
                        let (a, b) = choose|a: int, b: int|
                            0 <= a < rules@.len() && 0 <= b < rules@[a].variants@.len() && (a < i + 1
                                || (a == i + 1 && b < 0)) && left_aligned(
                                rules@[a].variants@[b]@,
                                non_terminals@,
                            ) && !right_aligned(rules@[a].variants@[b]@, non_terminals@);
                        assert(a < i + 1);
                        if a == i as int {
                            assert(b < rules@[a].variants@.len());
                        }
                        assert(has_left_in_prefix(rules@, non_terminals@, i as int, r.variants@.len() as int));
                    }
                }
                assert(has_right_in_prefix(rules@, non_terminals@, i as int, r.variants@.len() as int)
                    == has_right_in_prefix(rules@, non_terminals@, i + 1 as int, 0)) by {
                    if has_right_in_prefix(rules@, non_terminals@, i as int, r.variants@.len() as int) {
                        assert(has_right_in_prefix(rules@, non_terminals@, i + 1 as int, 0));
                    }
                    if has_right_in_prefix(rules@, non_terminals@, i + 1 as int, 0) {
                        let (a, b) = choose|a: int, b: int|
                            0 <= a < rules@.len() && 0 <= b < rules@[a].variants@.len() && (a < i + 1
                                || (a == i + 1 && b < 0)) && right_aligned(
                                rules@[a].variants@[b]@,
                                non_terminals@,
                            ) && !left_aligned(rules@[a].variants@[b]@, non_terminals@);
                        assert(a < i + 1);
                        if a == i as int {
                            assert(b < rules@[a].variants@.len());
                        }
                        assert(has_right_in_prefix(rules@, non_terminals@, i as int, r.variants@.len() as int));
                    }
                }
            }
            i = i + 1;
        }
        proof {
            assert(rules_regular(rules@, terminals@, non_terminals@));
            assert(any_left == has_left_variant(rules@, non_terminals@)) by {
                if has_left_variant(rules@, non_terminals@) {
                    assert(has_left_in_prefix(rules@, non_terminals@, rules@.len() as int, 0));
                }
                if has_left_in_prefix(rules@, non_terminals@, rules@.len() as int, 0) {
                    assert(has_left_variant(rules@, non_terminals@));
                }
            }
            assert(any_right == has_right_variant(rules@, non_terminals@)) by {
                if has_right_variant(rules@, non_terminals@) {
                    assert(has_right_in_prefix(rules@, non_terminals@, rules@.len() as int, 0));
                }
                if has_right_in_prefix(rules@, non_terminals@, rules@.len() as int, 0) {
                    assert(has_right_variant(rules@, non_terminals@));
                }
            }
        }
        if any_left && !any_right {
            GrammarType::Regular(RegularType::Left)
        } else if any_right && !any_left {
            GrammarType::Regular(RegularType::Right)
        } else {
            GrammarType::ContextFree
        }
    }

    /// Validates and builds a grammar. Succeeds exactly when the alphabets
    /// are disjoint, the start symbol is a declared non-terminal, and every
    /// rule is well formed; the classification is derived from the rules.
    pub fn new(
        terminals: Vec<char>,
        non_terminals: Vec<char>,
        starting_non_terminal: char,
        rules: Vec<Rule>,
    ) -> (r: Result<Self, GrammarError>)
        ensures
            match r {
                Ok(g) => {
                    &&& g.terminals@ == terminals@
                    &&& g.non_terminals@ == non_terminals@
                    &&& g.rules@ == rules@
                    &&& g.starting_non_terminal == starting_non_terminal
                    &&& g.grammar_type == spec_classify(terminals@, non_terminals@, rules@)
                    &&& g.wf()
                },
                Err(e) => match e {
                    GrammarError::OverlappingSymbols => exists|c: char|
                        terminals@.contains(c) && non_terminals@.contains(c),
                    GrammarError::MissingStartingNonTerminalSymbol => (forall|c: char|
                        !(terminals@.contains(c) && non_terminals@.contains(c)))
                        && !non_terminals@.contains(starting_non_terminal),
                    GrammarError::InvalidRule => (forall|c: char|
                        !(terminals@.contains(c) && non_terminals@.contains(c)))
                        && non_terminals@.contains(starting_non_terminal) && exists|i: int|
                        0 <= i < rules@.len() && !rule_wf(rules@[i], terminals@, non_terminals@),
                },
            },
    {
        // Disjointness of the two alphabets.
        let mut i: usize = 0;
        while i < terminals.len()
            invariant
                0 <= i <= terminals@.len(),
                forall|k: int| 0 <= k < i ==> !non_terminals@.contains(terminals@[k]),
            decreases terminals@.len() - i,
        {
            if crate::symbols::contains_char(&non_terminals, terminals[i]) {
                proof {
                    assert(terminals@.contains(terminals@[i as int]));
                }
                return Err(GrammarError::OverlappingSymbols);
            }
            i = i + 1;
        }
        proof {
            assert forall|c: char| !(terminals@.contains(c) && non_terminals@.contains(c)) by {
                if terminals@.contains(c) {
                    let k = choose|k: int| 0 <= k < terminals@.len() && terminals@[k] == c;
                    assert(!non_terminals@.contains(terminals@[k]));
                }
            }
        }

        // The start symbol must be declared.
        if !crate::symbols::contains_char(&non_terminals, starting_non_terminal) {
            return Err(GrammarError::MissingStartingNonTerminalSymbol);
        }

        // Every rule must be well formed over the declared alphabets.
        let mut i: usize = 0;
        while i < rules.len()
            invariant
                0 <= i <= rules@.len(),
                forall|a: int| 0 <= a < i ==> rule_wf(rules@[a], terminals@, non_terminals@),
                forall|c: char| !(terminals@.contains(c) && non_terminals@.contains(c)),
                non_terminals@.contains(starting_non_terminal),
            decreases rules@.len() - i,
        {
            if !Self::check_rule(&rules[i], &terminals, &non_terminals) {
                return Err(GrammarError::InvalidRule);
            }
            i = i + 1;
        }

        let grammar_type = Self::get_type(&terminals, &non_terminals, &rules);
        Ok(Self { terminals, non_terminals, rules, starting_non_terminal, grammar_type })
    }

    /// Whether one rule meets the well-formedness conditions.
    fn check_rule(r: &Rule, terminals: &Vec<char>, non_terminals: &Vec<char>) -> (ok: bool)
        ensures
            ok == rule_wf(*r, terminals@, non_terminals@),
    {
        if r.input.len() == 0 {
            return false;
        }
        let mut i: usize = 0;
        while i < r.input.len()
            invariant
                0 <= i <= r.input@.len(),
                forall|k: int|
                    0 <= k < i ==> terminals@.contains(r.input@[k]) || non_terminals@.contains(
                        r.input@[k],
                    ),
            decreases r.input@.len() - i,
        {
            let c = r.input[i];
            if !crate::symbols::contains_char(terminals, c) && !crate::symbols::contains_char(
                non_terminals,
                c,
            ) {
                return false;
            }
            i = i + 1;
        }
        let mut j: usize = 0;
        while j < r.variants.len()
            invariant
                0 <= j <= r.variants@.len(),
                forall|b: int| 0 <= b < j ==> r.variants@[b]@.len() >= 1,
                forall|b: int, k: int|
                    0 <= b < j && 0 <= k < r.variants@[b]@.len() ==> variant_symbol_ok(
                        r.variants@[b]@[k],
                        terminals@,
                        non_terminals@,
                    ),
                forall|k: int|
                    0 <= k < r.input@.len() ==> terminals@.contains(r.input@[k])
                        || non_terminals@.contains(r.input@[k]),
                r.input@.len() >= 1,
            decreases r.variants@.len() - j,
        {
            let v = &r.variants[j];
            if v.len() == 0 {
                return false;
            }
            let mut k: usize = 0;
            while k < v.len()
                invariant
                    0 <= k <= v@.len(),
                    v == &r.variants@[j as int],
                    0 <= j < r.variants@.len(),
                    forall|p: int|
                        0 <= p < k ==> variant_symbol_ok(v@[p], terminals@, non_terminals@),
                decreases v@.len() - k,
            {
                let c = v[k];
                let ok = crate::symbols::contains_char(terminals, c)
                    || crate::symbols::contains_char(non_terminals, c) || c == EMPTY_SEQUENCE
                    || check_operator(c);
                if !ok {
                    return false;
                }
                k = k + 1;
            }
            j = j + 1;
        }
        true
    }
}

} // verus!
