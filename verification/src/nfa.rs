//! Nondeterministic finite automata `M = (Q, T, F, H, Z)`: states, input
//! symbols, a transition table, initial states and final states; built
//! directly or from a right-aligned regular grammar.
use vstd::prelude::*;

use crate::fsa::FiniteAutomataError;
use crate::dfa::{find_combo, find_name, maps_insert_pair, sm_has, Dfa};
use crate::grammar::{Grammar, GrammarType, RegularType};
use crate::state_transition_table::StateTransitionTable;
use crate::symbols::{
    clone_chars, contains_char, distinct, find_fresh_letter, insert_sorted, sorted_distinct,
    EMPTY_SEQUENCE,
};

verus! {

#[derive(Debug, Clone, PartialEq, Eq)]
pub struct Nfa {
    pub states: Vec<char>,
    pub inputs: Vec<char>,
    pub transitions: StateTransitionTable,
    pub starting_states: Vec<char>,
    pub closing_states: Vec<char>,
}

impl Nfa {
    /// The automaton invariant: duplicate-free state and input lists, initial
    /// and final states drawn from the states, and a transition table keyed
    /// by declared states and symbols whose destination lists are non-empty,
    /// strictly sorted, and drawn from the states.
    pub open spec fn wf(self) -> bool {
        &&& distinct(self.states@)
        &&& distinct(self.inputs@)
        &&& distinct(self.starting_states@)
        &&& distinct(self.closing_states@)
        &&& forall|p: int|
            0 <= p < self.starting_states@.len() ==> self.states@.contains(
                #[trigger] self.starting_states@[p],
            )
        &&& forall|p: int|
            0 <= p < self.closing_states@.len() ==> self.states@.contains(
                #[trigger] self.closing_states@[p],
            )
        &&& self.transitions.wf()
        &&& forall|e: int|
            #![trigger self.transitions.key_at(e)]
            0 <= e < self.transitions.spec_len() ==> self.states@.contains(
                self.transitions.key_at(e).0,
            ) && self.inputs@.contains(self.transitions.key_at(e).1) && sorted_distinct(
                self.transitions.val_at(e),
            ) && self.transitions.val_at(e).len() >= 1 && (forall|d: int|
                0 <= d < self.transitions.val_at(e).len() ==> self.states@.contains(
                    #[trigger] self.transitions.val_at(e)[d],
                ))
    }

    /// Builds an automaton from its parts, as given.
    pub fn new(
        states: Vec<char>,
        inputs: Vec<char>,
        transitions: StateTransitionTable,
        starting_states: Vec<char>,
        closing_states: Vec<char>,
    ) -> (r: Result<Self, FiniteAutomataError>)
        ensures
            match r {
                Ok(n) => n == (Nfa {
                    states,
                    inputs,
                    transitions,
                    starting_states,
                    closing_states,
                }),
                Err(_) => false,
            },
    {
        Ok(Self { states, inputs, transitions, starting_states, closing_states })
    }
}

/// Appends `dest` to the destination list of `(st, sym)`, creating the entry
/// if needed and keeping the list strictly sorted.
fn table_add(table: &mut StateTransitionTable, st: char, sym: char, dest: char)
    requires
        old(table).wf(),
        old(table).spec_contains_key((st, sym)) ==> sorted_distinct(
            old(table).spec_get_val((st, sym)),
        ),
    ensures
        final(table).wf(),
        final(table).spec_contains_key((st, sym)),
        sorted_distinct(final(table).spec_get_val((st, sym))),
        final(table).spec_get_val((st, sym)).len() >= 1,
        forall|b: char|
            final(table).spec_get_val((st, sym)).contains(b) <==> ((old(
                table,
            ).spec_contains_key((st, sym)) && old(table).spec_get_val((st, sym)).contains(b)) || b
                == dest),
        forall|k2: (char, char)|
            k2 != (st, sym) ==> final(table).spec_get(k2) == old(table).spec_get(k2),
        forall|k2: (char, char)|
            final(table).spec_contains_key(k2) <==> (old(table).spec_contains_key(k2) || k2 == (
            st,
            sym,
            )),
{
    let key = (st, sym);
    let updated: Vec<char> = match table.get(&key) {
        Some(list) => {
            let mut l = clone_chars(list);
            insert_sorted(&mut l, dest);
            l
        },
        None => {
            let mut l: Vec<char> = Vec::new();
            l.push(dest);
            proof {
                assert(l@ =~= seq![dest]);
                assert(l@[0] == dest);
            }
            l
        },
    };
    proof {
        assert(updated@.contains(dest));
    }
    table.insert(key, updated);
    proof {
        assert(table.spec_get_val(key).contains(dest));
        let q = choose|q: int|
            0 <= q < table.spec_get_val(key).len() && table.spec_get_val(key)[q] == dest;
        assert(table.spec_get_val(key).len() >= 1);
        assert forall|k2: (char, char)|
            final(table).spec_contains_key(k2) <==> (old(table).spec_contains_key(k2) || k2 == (
            st,
            sym,
        )) by {
            if k2 != key {
                assert(table.spec_get(k2) == old(table).spec_get(k2));
            }
        }
    }
}

/// Some variant of the rule that is longer than one symbol begins with `t`.
pub open spec fn rule_has_longer_prefix(r: crate::grammar::Rule, t: char) -> bool {
    exists|j: int|
        0 <= j < r.variants@.len() && (#[trigger] r.variants@[j]@).len() > 1 && r.variants@[j]@[0]
            == t
}

/// Variant `j` of rule `r` yields the transition `(head, sym) -> dest`:
/// either a two-symbol variant `[sym, dest]` with a terminal first symbol, or
/// a lone terminal `[sym]` completed with the synthesized final state `nf`
/// when no longer variant of the same rule already begins with `sym`.
pub open spec fn variant_emits(
    r: crate::grammar::Rule,
    j: int,
    ts: Seq<char>,
    nf: char,
    sym: char,
    dest: char,
) -> bool {
    let v = r.variants@[j]@;
    ||| (v.len() == 2 && v[0] != EMPTY_SEQUENCE && ts.contains(v[0]) && v[0] == sym && v[1]
        == dest)
    ||| (v.len() == 1 && v[0] != EMPTY_SEQUENCE && ts.contains(v[0]) && v[0] == sym && dest == nf
        && !rule_has_longer_prefix(r, v[0]))
}

/// The first `j_hi` variants of `r` yield `(st, sym) -> dest`.
pub open spec fn rule_emits(
    r: crate::grammar::Rule,
    ts: Seq<char>,
    nf: char,
    st: char,
    sym: char,
    dest: char,
    j_hi: int,
) -> bool {
    r.input@[0] == st && exists|j: int|
        0 <= j < j_hi && #[trigger] variant_emits(r, j, ts, nf, sym, dest)
}

/// The grammar yields the transition `(st, sym) -> dest`.
pub open spec fn emits(g: Grammar, nf: char, st: char, sym: char, dest: char) -> bool {
    exists|i: int|
        0 <= i < g.rules@.len() && rule_emits(
            #[trigger] g.rules@[i],
            g.terminals@,
            nf,
            st,
            sym,
            dest,
            g.rules@[i].variants@.len() as int,
        )
}

/// The rules processed before `i`, and the variants of rule `i` before `j`,
/// yield `(st, sym) -> dest`.
pub open spec fn emits_before(
    g: Grammar,
    nf: char,
    st: char,
    sym: char,
    dest: char,
    i: int,
    j: int,
) -> bool {
    (exists|a: int|
        0 <= a < i && rule_emits(
            #[trigger] g.rules@[a],
            g.terminals@,
            nf,
            st,
            sym,
            dest,
            g.rules@[a].variants@.len() as int,
        )) || (0 <= i < g.rules@.len() && rule_emits(
        g.rules@[i],
        g.terminals@,
        nf,
        st,
        sym,
        dest,
        j,
    ))
}

/// Some rule of the start symbol carries the lone empty-sequence variant.
pub open spec fn eps_on_start(g: Grammar) -> bool {
    exists|i: int, j: int|
        #![trigger g.rules@[i].variants@[j]]
        0 <= i < g.rules@.len() && 0 <= j < g.rules@[i].variants@.len() && g.rules@[i].input@[0]
            == g.starting_non_terminal && g.rules@[i].variants@[j]@ =~= seq![EMPTY_SEQUENCE]
}

/// Whether some variant of `r` longer than one symbol begins with `t`.
fn check_longer_prefix(r: &crate::grammar::Rule, t: char) -> (res: bool)
    ensures
        res == rule_has_longer_prefix(*r, t),
{
    let mut j: usize = 0;
    while j < r.variants.len()
        invariant
            0 <= j <= r.variants@.len(),
            forall|b: int|
                0 <= b < j ==> !((#[trigger] r.variants@[b]@).len() > 1 && r.variants@[b]@[0]
                    == t),
        decreases r.variants@.len() - j,
    {
        let v = &r.variants[j];
        if v.len() > 1 && v[0] == t {
            proof {
                assert(r.variants@[j as int]@.len() > 1 && r.variants@[j as int]@[0] == t);
            }
            return true;
        }
        j = j + 1;
    }
    false
}

/// Whether some rule of the start symbol carries the lone empty-sequence
/// variant.
fn check_eps_on_start(g: &Grammar) -> (res: bool)
    requires
        forall|i: int| 0 <= i < g.rules@.len() ==> (#[trigger] g.rules@[i].input@).len() >= 1,
    ensures
        res == eps_on_start(*g),
{
    let mut i: usize = 0;
    while i < g.rules.len()
        invariant
            0 <= i <= g.rules@.len(),
            forall|a: int, b: int|
                #![trigger g.rules@[a].variants@[b]]
                0 <= a < i && 0 <= b < g.rules@[a].variants@.len() ==> !(g.rules@[a].input@[0]
                    == g.starting_non_terminal && g.rules@[a].variants@[b]@ =~= seq![
                    EMPTY_SEQUENCE,
                ]),
        decreases g.rules@.len() - i,
    {
        let r = &g.rules[i];
        if r.input[0] == g.starting_non_terminal {
            let mut j: usize = 0;
            while j < r.variants.len()
                invariant
                    0 <= j <= r.variants@.len(),
                    r == &g.rules@[i as int],
                    0 <= i < g.rules@.len(),
                    forall|b: int|
                        #![trigger r.variants@[b]]
                        0 <= b < j ==> !(r.variants@[b]@ =~= seq![EMPTY_SEQUENCE]),
                decreases r.variants@.len() - j,
            {
                let v = &r.variants[j];
                if v.len() == 1 && v[0] == EMPTY_SEQUENCE {
                    proof {
                        assert(r.variants@[j as int]@ =~= seq![EMPTY_SEQUENCE]);
                        assert(g.rules@[i as int].input@[0] == g.starting_non_terminal);
                    }
                    return true;
                }
                proof {
                    if r.variants@[j as int]@ =~= seq![EMPTY_SEQUENCE] {
                        assert(r.variants@[j as int]@.len() == 1);
                        assert(r.variants@[j as int]@[0] == EMPTY_SEQUENCE);
                        assert(false);
                    }
                }
                j = j + 1;
            }
        } else {
            proof {
                assert forall|b: int|
                    0 <= b < g.rules@[i as int].variants@.len() implies !(g.rules@[i as int].input@[0]
                    == g.starting_non_terminal && g.rules@[i as int].variants@[b]@ =~= seq![
                    EMPTY_SEQUENCE,
                ]) by {}
            }
        }
        i = i + 1;
    }
    false
}

impl Nfa {
    /// Converts a right-aligned regular grammar into an equivalent automaton.
    /// A fresh closing non-terminal `nf` is synthesized (the letter `N` when
    /// unused, else the first unused capital letter) and appended to the
    /// states; the initial-state set is the start symbol alone; the closing
    /// states are `nf`, joined by the start symbol exactly when some start
    /// rule carries the lone empty-sequence variant. The transition table
    /// holds `(st, sym) -> dest` exactly for the pairs the grammar's variants
    /// yield, with every destination list strictly sorted.
    pub fn from_grammar(grammar: Grammar) -> (r: Result<Self, FiniteAutomataError>)
        requires
            grammar.wf(),
            distinct(grammar.non_terminals@),
            distinct(grammar.terminals@),
        ensures
            match r {
                Ok(nfa) => {
                    let nf = nfa.states@.last();
                    &&& grammar.grammar_type == GrammarType::Regular(RegularType::Right)
                    &&& nfa.wf()
                    &&& nfa.states@.len() == grammar.non_terminals@.len() + 1
                    &&& nfa.states@ == grammar.non_terminals@.push(nf)
                    &&& !grammar.non_terminals@.contains(nf)
                    &&& 'A' <= nf && nf <= 'Z'
                    &&& (!grammar.non_terminals@.contains('N') ==> nf == 'N')
                    &&& (grammar.non_terminals@.contains('N') ==> forall|d: char|
                        'A' <= d && d < nf ==> grammar.non_terminals@.contains(d))
                    &&& nfa.inputs@ == grammar.terminals@
                    &&& nfa.starting_states@ == seq![grammar.starting_non_terminal]
                    &&& nfa.closing_states@ == (if eps_on_start(grammar) {
                        seq![nf, grammar.starting_non_terminal]
                    } else {
                        seq![nf]
                    })
                    &&& forall|st: char, sym: char|
                        match #[trigger] nfa.transitions.spec_get((st, sym)) {
                            Some(d) => d.len() >= 1 && sorted_distinct(d) && (forall|b: char|
                                d.contains(b) <==> emits(grammar, nf, st, sym, b)),
                            None => forall|b: char| !#[trigger] emits(grammar, nf, st, sym, b),
                        }
                },
                Err(e) => match e {
                    FiniteAutomataError::InvalidGrammarType => grammar.grammar_type
                        != GrammarType::Regular(RegularType::Right),
                    FiniteAutomataError::NamingCapacityExceeded => grammar.grammar_type
                        == GrammarType::Regular(RegularType::Right)
                        && grammar.non_terminals@.contains('N') && (forall|d: char|
                        'A' <= d && d <= 'Z' ==> grammar.non_terminals@.contains(d)),
                },
            },
    {
        if !(grammar.grammar_type == GrammarType::Regular(RegularType::Right)) {
            return Err(FiniteAutomataError::InvalidGrammarType);
        }
        let closing_nt: char = if contains_char(&grammar.non_terminals, 'N') {
            match find_fresh_letter(&grammar.non_terminals) {
                Some(c) => c,
                None => {
                    return Err(FiniteAutomataError::NamingCapacityExceeded);
                },
            }
        } else {
            'N'
        };
        let ghost nf = closing_nt;
        let mut states = clone_chars(&grammar.non_terminals);
        states.push(closing_nt);
        let inputs = clone_chars(&grammar.terminals);
        let mut starting_states: Vec<char> = Vec::new();
        starting_states.push(grammar.starting_non_terminal);
        let mut closing_states: Vec<char> = Vec::new();
        closing_states.push(closing_nt);
        proof {
            assert forall|i: int|
                0 <= i < grammar.rules@.len() implies (#[trigger] grammar.rules@[i].input@).len()
                >= 1 by {
                assert(crate::grammar::rule_wf(
                    grammar.rules@[i],
                    grammar.terminals@,
                    grammar.non_terminals@,
                ));
            }
        }
        if check_eps_on_start(&grammar) {
            closing_states.push(grammar.starting_non_terminal);
        }
        let mut transitions = StateTransitionTable::new();
        let mut i: usize = 0;
        while i < grammar.rules.len()
            invariant
                0 <= i <= grammar.rules@.len(),
                transitions.wf(),
                forall|st: char, sym: char|
                    match #[trigger] transitions.spec_get((st, sym)) {
                        Some(d) => d.len() >= 1 && sorted_distinct(d) && (forall|b: char|
                            d.contains(b) <==> emits_before(grammar, nf, st, sym, b, i as int, 0)),
                        None => forall|b: char|
                            !#[trigger] emits_before(grammar, nf, st, sym, b, i as int, 0),
                    },
            decreases grammar.rules@.len() - i,
        {
            let r = &grammar.rules[i];
            let mut j: usize = 0;
            while j < r.variants.len()
                invariant
                    0 <= j <= r.variants@.len(),
                    r == &grammar.rules@[i as int],
                    0 <= i < grammar.rules@.len(),
                    transitions.wf(),
                    forall|st: char, sym: char|
                        match #[trigger] transitions.spec_get((st, sym)) {
                            Some(d) => d.len() >= 1 && sorted_distinct(d) && (forall|b: char|
                                d.contains(b) <==> emits_before(
                                    grammar,
                                    nf,
                                    st,
                                    sym,
                                    b,
                                    i as int,
                                    j as int,
                                )),
                            None => forall|b: char|
                                !#[trigger] emits_before(grammar, nf, st, sym, b, i as int, j as int),
                        },
                decreases r.variants@.len() - j,
            {
                let v = &r.variants[j];
                let head = r.input[0];
                proof {
                    assert(grammar.rules@[i as int].input@[0] == head);
                }
                let mut emitted: bool = false;
                let mut e_sym: char = EMPTY_SEQUENCE;
                let mut e_dest: char = EMPTY_SEQUENCE;
                if v.len() == 2 && v[0] != EMPTY_SEQUENCE && contains_char(&grammar.terminals, v[0])
                {
                    emitted = true;
                    e_sym = v[0];
                    e_dest = v[1];
                } else if v.len() == 1 && v[0] != EMPTY_SEQUENCE && contains_char(
                    &grammar.terminals,
                    v[0],
                ) {
                    if !check_longer_prefix(r, v[0]) {
                        emitted = true;
                        e_sym = v[0];
                        e_dest = closing_nt;
                    }
                }
                if emitted {
                    proof {
                        assert(variant_emits(
                            grammar.rules@[i as int],
                            j as int,
                            grammar.terminals@,
                            nf,
                            e_sym,
                            e_dest,
                        ));
                        assert forall|sym: char, b: char|
                            variant_emits(
                                grammar.rules@[i as int],
                                j as int,
                                grammar.terminals@,
                                nf,
                                sym,
                                b,
                            ) implies sym == e_sym && b == e_dest by {}
                    }
                    let ghost pre_table = transitions;
                    proof {
                        assert(match transitions.spec_get((head, e_sym)) {
                            Some(d) => sorted_distinct(d),
                            None => true,
                        });
                        if transitions.spec_contains_key((head, e_sym)) {
                            assert(transitions.spec_get((head, e_sym)) == Some(
                                transitions.spec_get_val((head, e_sym)),
                            ));
                        }
                    }
                    table_add(&mut transitions, head, e_sym, e_dest);
                    proof {
                        lemma_emit_step(
                            grammar,
                            nf,
                            pre_table,
                            transitions,
                            i as int,
                            j as int,
                            head,
                            e_sym,
                            e_dest,
                        );
                    }
                } else {
                    proof {
                        assert forall|sym: char, b: char|
                            !variant_emits(
                                grammar.rules@[i as int],
                                j as int,
                                grammar.terminals@,
                                nf,
                                sym,
                                b,
                            ) by {
                            let vv = grammar.rules@[i as int].variants@[j as int]@;
                            assert(vv == v@);
                        }
                        assert forall|st: char, sym: char|
                            match #[trigger] transitions.spec_get((st, sym)) {
                                Some(d) => d.len() >= 1 && sorted_distinct(d) && (forall|b: char|
                                    d.contains(b) <==> emits_before(
                                        grammar,
                                        nf,
                                        st,
                                        sym,
                                        b,
                                        i as int,
                                        j + 1 as int,
                                    )),
                                None => forall|b: char|
                                    !#[trigger] emits_before(
                                        grammar,
                                        nf,
                                        st,
                                        sym,
                                        b,
                                        i as int,
                                        j + 1 as int,
                                    ),
                            } by {
                            match transitions.spec_get((st, sym)) {
                                Some(d) => {
                                    assert forall|b: char|
                                        d.contains(b) <==> emits_before(
                                            grammar,
                                            nf,
                                            st,
                                            sym,
                                            b,
                                            i as int,
                                            j + 1 as int,
                                        ) by {
                                        lemma_emits_before_step(
                                            grammar,
                                            nf,
                                            st,
                                            sym,
                                            b,
                                            i as int,
                                            j as int,
                                        );
                                        assert(d.contains(b) <==> emits_before(
                                            grammar,
                                            nf,
                                            st,
                                            sym,
                                            b,
                                            i as int,
                                            j as int,
                                        ));
                                    }
                                },
                                None => {
                                    assert forall|b: char|
                                        !#[trigger] emits_before(
                                            grammar,
                                            nf,
                                            st,
                                            sym,
                                            b,
                                            i as int,
                                            j + 1 as int,
                                        ) by {
                                        lemma_emits_before_step(
                                            grammar,
                                            nf,
                                            st,
                                            sym,
                                            b,
                                            i as int,
                                            j as int,
                                        );
                                        assert(!emits_before(
                                            grammar,
                                            nf,
                                            st,
                                            sym,
                                            b,
                                            i as int,
                                            j as int,
                                        ));
                                    }
                                },
                            }
                        }
                    }
                }
                j = j + 1;
            }
            proof {
                assert forall|st: char, sym: char|
                    match #[trigger] transitions.spec_get((st, sym)) {
                        Some(d) => d.len() >= 1 && sorted_distinct(d) && (forall|b: char|
                            d.contains(b) <==> emits_before(
                                grammar,
                                nf,
                                st,
                                sym,
                                b,
                                i + 1 as int,
                                0,
                            )),
                        None => forall|b: char|
                            !#[trigger] emits_before(grammar, nf, st, sym, b, i + 1 as int, 0),
                    } by {
                    match transitions.spec_get((st, sym)) {
                        Some(d) => {
                            assert forall|b: char|
                                d.contains(b) <==> emits_before(
                                    grammar,
                                    nf,
                                    st,
                                    sym,
                                    b,
                                    i + 1 as int,
                                    0,
                                ) by {
                                lemma_emits_before_rule_boundary(
                                    grammar,
                                    nf,
                                    st,
                                    sym,
                                    b,
                                    i as int,
                                );
                                assert(d.contains(b) <==> emits_before(
                                    grammar,
                                    nf,
                                    st,
                                    sym,
                                    b,
                                    i as int,
                                    grammar.rules@[i as int].variants@.len() as int,
                                ));
                            }
                        },
                        None => {
                            assert forall|b: char|
                                !#[trigger] emits_before(
                                    grammar,
                                    nf,
                                    st,
                                    sym,
                                    b,
                                    i + 1 as int,
                                    0,
                                ) by {
                                lemma_emits_before_rule_boundary(
                                    grammar,
                                    nf,
                                    st,
                                    sym,
                                    b,
                                    i as int,
                                );
                                assert(!emits_before(
                                    grammar,
                                    nf,
                                    st,
                                    sym,
                                    b,
                                    i as int,
                                    grammar.rules@[i as int].variants@.len() as int,
                                ));
                            }
                        },
                    }
                }
            }
            i = i + 1;
        }
        proof {
            assert(states@ == grammar.non_terminals@.push(nf));
            assert(states@.last() == nf);
            assert(starting_states@ =~= seq![grammar.starting_non_terminal]);
            if eps_on_start(grammar) {
                assert(closing_states@ =~= seq![nf, grammar.starting_non_terminal]);
            } else {
                assert(closing_states@ =~= seq![nf]);
            }
            assert forall|st: char, sym: char, b: char|
                emits_before(grammar, nf, st, sym, b, grammar.rules@.len() as int, 0) == emits(
                    grammar,
                    nf,
                    st,
                    sym,
                    b,
                ) by {
                if emits_before(grammar, nf, st, sym, b, grammar.rules@.len() as int, 0) {
                    let a = choose|a: int|
                        0 <= a < grammar.rules@.len() && rule_emits(
                            #[trigger] grammar.rules@[a],
                            grammar.terminals@,
                            nf,
                            st,
                            sym,
                            b,
                            grammar.rules@[a].variants@.len() as int,
                        );
                    assert(emits(grammar, nf, st, sym, b));
                }
                if emits(grammar, nf, st, sym, b) {
                    let a = choose|a: int|
                        0 <= a < grammar.rules@.len() && rule_emits(
                            #[trigger] grammar.rules@[a],
                            grammar.terminals@,
                            nf,
                            st,
                            sym,
                            b,
                            grammar.rules@[a].variants@.len() as int,
                        );
                    assert(emits_before(grammar, nf, st, sym, b, grammar.rules@.len() as int, 0));
                }
            }
            assert forall|st: char, sym: char|
                match #[trigger] transitions.spec_get((st, sym)) {
                    Some(d) => d.len() >= 1 && sorted_distinct(d) && (forall|b: char|
                        d.contains(b) <==> emits(grammar, nf, st, sym, b)),
                    None => forall|b: char| !#[trigger] emits(grammar, nf, st, sym, b),
                } by {
                match transitions.spec_get((st, sym)) {
                    Some(d) => {
                        assert forall|b: char|
                            d.contains(b) <==> emits(grammar, nf, st, sym, b) by {
                            assert(d.contains(b) <==> emits_before(
                                grammar,
                                nf,
                                st,
                                sym,
                                b,
                                grammar.rules@.len() as int,
                                0,
                            ));
                        }
                    },
                    None => {
                        assert forall|b: char| !#[trigger] emits(grammar, nf, st, sym, b) by {
                            assert(!emits_before(
                                grammar,
                                nf,
                                st,
                                sym,
                                b,
                                grammar.rules@.len() as int,
                                0,
                            ));
                        }
                    },
                }
            }
        }
        let nfa = Nfa { states, inputs, transitions, starting_states, closing_states };
        proof {
            lemma_from_grammar_wf(grammar, nf, nfa);
        }
        Ok(nfa)
    }

}

/// Passing over a variant that yields nothing does not change what has been
/// emitted so far.
proof fn lemma_emits_before_step(
    g: Grammar,
    nf: char,
    st: char,
    sym: char,
    b: char,
    i: int,
    j: int,
)
    requires
        0 <= i < g.rules@.len(),
        0 <= j < g.rules@[i].variants@.len(),
        !variant_emits(g.rules@[i], j, g.terminals@, nf, sym, b),
    ensures
        emits_before(g, nf, st, sym, b, i, j + 1) == emits_before(g, nf, st, sym, b, i, j),
{
    if emits_before(g, nf, st, sym, b, i, j + 1) {
        if exists|a: int|
            0 <= a < i && rule_emits(
                #[trigger] g.rules@[a],
                g.terminals@,
                nf,
                st,
                sym,
                b,
                g.rules@[a].variants@.len() as int,
            ) {
            assert(emits_before(g, nf, st, sym, b, i, j));
        } else {
            assert(rule_emits(g.rules@[i], g.terminals@, nf, st, sym, b, j + 1));
            let j2 = choose|j2: int|
                0 <= j2 < j + 1 && #[trigger] variant_emits(
                    g.rules@[i],
                    j2,
                    g.terminals@,
                    nf,
                    sym,
                    b,
                );
            assert(j2 < j);
            assert(rule_emits(g.rules@[i], g.terminals@, nf, st, sym, b, j));
        }
    }
    if emits_before(g, nf, st, sym, b, i, j) {
        if !(exists|a: int|
            0 <= a < i && rule_emits(
                #[trigger] g.rules@[a],
                g.terminals@,
                nf,
                st,
                sym,
                b,
                g.rules@[a].variants@.len() as int,
            )) {
            let j2 = choose|j2: int|
                0 <= j2 < j && #[trigger] variant_emits(g.rules@[i], j2, g.terminals@, nf, sym, b);
            assert(rule_emits(g.rules@[i], g.terminals@, nf, st, sym, b, j + 1));
        }
    }
}

/// Finishing one rule and moving to the head of the next preserves what has
/// been emitted so far.
proof fn lemma_emits_before_rule_boundary(
    g: Grammar,
    nf: char,
    st: char,
    sym: char,
    b: char,
    i: int,
)
    requires
        0 <= i < g.rules@.len(),
    ensures
        emits_before(g, nf, st, sym, b, i, g.rules@[i].variants@.len() as int) == emits_before(
            g,
            nf,
            st,
            sym,
            b,
            i + 1,
            0,
        ),
{
    if emits_before(g, nf, st, sym, b, i, g.rules@[i].variants@.len() as int) {
        if exists|a: int|
            0 <= a < i && rule_emits(
                #[trigger] g.rules@[a],
                g.terminals@,
                nf,
                st,
                sym,
                b,
                g.rules@[a].variants@.len() as int,
            ) {
            let a = choose|a: int|
                0 <= a < i && rule_emits(
                    #[trigger] g.rules@[a],
                    g.terminals@,
                    nf,
                    st,
                    sym,
                    b,
                    g.rules@[a].variants@.len() as int,
                );
            assert(0 <= a < i + 1 && rule_emits(
                g.rules@[a],
                g.terminals@,
                nf,
                st,
                sym,
                b,
                g.rules@[a].variants@.len() as int,
            ));
        } else {
            assert(rule_emits(
                g.rules@[i],
                g.terminals@,
                nf,
                st,
                sym,
                b,
                g.rules@[i].variants@.len() as int,
            ));
            assert(0 <= i < i + 1);
        }
        assert(emits_before(g, nf, st, sym, b, i + 1, 0));
    }
    if emits_before(g, nf, st, sym, b, i + 1, 0) {
        if exists|a: int|
            0 <= a < i + 1 && rule_emits(
                #[trigger] g.rules@[a],
                g.terminals@,
                nf,
                st,
                sym,
                b,
                g.rules@[a].variants@.len() as int,
            ) {
            let a = choose|a: int|
                0 <= a < i + 1 && rule_emits(
                    #[trigger] g.rules@[a],
                    g.terminals@,
                    nf,
                    st,
                    sym,
                    b,
                    g.rules@[a].variants@.len() as int,
                );
            if a < i {
                assert(emits_before(g, nf, st, sym, b, i, g.rules@[i].variants@.len() as int));
            } else {
                assert(a == i);
                assert(emits_before(g, nf, st, sym, b, i, g.rules@[i].variants@.len() as int));
            }
        } else {
            assert(0 <= i + 1 < g.rules@.len() && rule_emits(
                g.rules@[i + 1],
                g.terminals@,
                nf,
                st,
                sym,
                b,
                0,
            ));
            assert(false);
        }
    }
}

/// One emission updates the emitted-so-far characterization of the table at
/// exactly one key.
proof fn lemma_emit_step(
    g: Grammar,
    nf: char,
    t0: StateTransitionTable,
    t1: StateTransitionTable,
    i: int,
    j: int,
    head: char,
    e_sym: char,
    e_dest: char,
)
    requires
        0 <= i < g.rules@.len(),
        0 <= j < g.rules@[i].variants@.len(),
        g.rules@[i].input@[0] == head,
        variant_emits(g.rules@[i], j, g.terminals@, nf, e_sym, e_dest),
        forall|sym: char, b: char|
            variant_emits(g.rules@[i], j, g.terminals@, nf, sym, b) ==> sym == e_sym && b
                == e_dest,
        forall|st: char, sym: char|
            match #[trigger] t0.spec_get((st, sym)) {
                Some(d) => d.len() >= 1 && sorted_distinct(d) && (forall|b: char|
                    d.contains(b) <==> emits_before(g, nf, st, sym, b, i, j)),
                None => forall|b: char| !#[trigger] emits_before(g, nf, st, sym, b, i, j),
            },
        t1.wf(),
        t1.spec_contains_key((head, e_sym)),
        sorted_distinct(t1.spec_get_val((head, e_sym))),
        t1.spec_get_val((head, e_sym)).len() >= 1,
        forall|b: char|
            t1.spec_get_val((head, e_sym)).contains(b) <==> ((t0.spec_contains_key((head, e_sym))
                && t0.spec_get_val((head, e_sym)).contains(b)) || b == e_dest),
        forall|k2: (char, char)| k2 != (head, e_sym) ==> t1.spec_get(k2) == t0.spec_get(k2),
    ensures
        forall|st: char, sym: char|
            match #[trigger] t1.spec_get((st, sym)) {
                Some(d) => d.len() >= 1 && sorted_distinct(d) && (forall|b: char|
                    d.contains(b) <==> emits_before(g, nf, st, sym, b, i, j + 1)),
                None => forall|b: char| !#[trigger] emits_before(g, nf, st, sym, b, i, j + 1),
            },
{
    assert forall|st: char, sym: char, b: char|
        emits_before(g, nf, st, sym, b, i, j + 1) == (emits_before(g, nf, st, sym, b, i, j) || (st
            == head && sym == e_sym && b == e_dest)) by {
        if emits_before(g, nf, st, sym, b, i, j + 1) {
            if !emits_before(g, nf, st, sym, b, i, j) {
                assert(rule_emits(g.rules@[i], g.terminals@, nf, st, sym, b, j + 1));
                let j2 = choose|j2: int|
                    0 <= j2 < j + 1 && #[trigger] variant_emits(
                        g.rules@[i],
                        j2,
                        g.terminals@,
                        nf,
                        sym,
                        b,
                    );
                if j2 < j {
                    assert(rule_emits(g.rules@[i], g.terminals@, nf, st, sym, b, j));
                    assert(false);
                }
                assert(j2 == j);
                assert(sym == e_sym && b == e_dest);
                assert(st == g.rules@[i].input@[0]);
            }
        }
        if emits_before(g, nf, st, sym, b, i, j) {
            if !(exists|a: int|
                0 <= a < i && rule_emits(
                    #[trigger] g.rules@[a],
                    g.terminals@,
                    nf,
                    st,
                    sym,
                    b,
                    g.rules@[a].variants@.len() as int,
                )) {
                let j2 = choose|j2: int|
                    0 <= j2 < j && #[trigger] variant_emits(
                        g.rules@[i],
                        j2,
                        g.terminals@,
                        nf,
                        sym,
                        b,
                    );
                assert(rule_emits(g.rules@[i], g.terminals@, nf, st, sym, b, j + 1));
            }
            assert(emits_before(g, nf, st, sym, b, i, j + 1));
        }
        if st == head && sym == e_sym && b == e_dest {
            assert(rule_emits(g.rules@[i], g.terminals@, nf, st, sym, b, j + 1));
            assert(emits_before(g, nf, st, sym, b, i, j + 1));
        }
    }
    assert forall|st: char, sym: char|
        match #[trigger] t1.spec_get((st, sym)) {
            Some(d) => d.len() >= 1 && sorted_distinct(d) && (forall|b: char|
                d.contains(b) <==> emits_before(g, nf, st, sym, b, i, j + 1)),
            None => forall|b: char| !#[trigger] emits_before(g, nf, st, sym, b, i, j + 1),
        } by {
        if st == head && sym == e_sym {
            assert(t1.spec_get((st, sym)) == Some(t1.spec_get_val((head, e_sym))));
            let d = t1.spec_get_val((head, e_sym));
            assert forall|b: char|
                d.contains(b) <==> emits_before(g, nf, st, sym, b, i, j + 1) by {
                match t0.spec_get((head, e_sym)) {
                    Some(d0) => {
                        assert(t0.spec_contains_key((head, e_sym)));
                        assert(d0 == t0.spec_get_val((head, e_sym)));
                    },
                    None => {
                        assert(!t0.spec_contains_key((head, e_sym)));
                        assert(!emits_before(g, nf, st, sym, b, i, j));
                    },
                }
            }
        } else {
            assert(t1.spec_get((st, sym)) == t0.spec_get((st, sym)));
            match t0.spec_get((st, sym)) {
                Some(d) => {
                    assert forall|b: char|
                        d.contains(b) <==> emits_before(g, nf, st, sym, b, i, j + 1) by {
                        assert(emits_before(g, nf, st, sym, b, i, j + 1) == (emits_before(
                            g,
                            nf,
                            st,
                            sym,
                            b,
                            i,
                            j,
                        ) || (st == head && sym == e_sym && b == e_dest)));
                        assert(d.contains(b) <==> emits_before(g, nf, st, sym, b, i, j));
                    }
                },
                None => {
                    assert forall|b: char|
                        !#[trigger] emits_before(g, nf, st, sym, b, i, j + 1) by {
                        assert(!emits_before(g, nf, st, sym, b, i, j));
                        assert(emits_before(g, nf, st, sym, b, i, j + 1) == (emits_before(
                            g,
                            nf,
                            st,
                            sym,
                            b,
                            i,
                            j,
                        ) || (st == head && sym == e_sym && b == e_dest)));
                    }
                },
            }
        }
    }
}

/// The assembled automaton satisfies the automaton invariant.
proof fn lemma_from_grammar_wf(g: Grammar, nf: char, nfa: Nfa)
    requires
        g.wf(),
        distinct(g.non_terminals@),
        distinct(g.terminals@),
        g.grammar_type == GrammarType::Regular(RegularType::Right),
        !g.non_terminals@.contains(nf),
        nfa.states@ == g.non_terminals@.push(nf),
        nfa.inputs@ == g.terminals@,
        nfa.starting_states@ == seq![g.starting_non_terminal],
        nfa.closing_states@ == (if eps_on_start(g) {
            seq![nf, g.starting_non_terminal]
        } else {
            seq![nf]
        }),
        nfa.transitions.wf(),
        forall|st: char, sym: char|
            match #[trigger] nfa.transitions.spec_get((st, sym)) {
                Some(d) => d.len() >= 1 && sorted_distinct(d) && (forall|b: char|
                    d.contains(b) <==> emits(g, nf, st, sym, b)),
                None => forall|b: char| !#[trigger] emits(g, nf, st, sym, b),
            },
    ensures
        nfa.wf(),
{
    crate::symbols::lemma_push_contains(g.non_terminals@, nf);
    assert(distinct(nfa.states@)) by {
        assert forall|p: int, q: int|
            0 <= p < q < nfa.states@.len() implies nfa.states@[p] != nfa.states@[q] by {
            if q < g.non_terminals@.len() {
                assert(nfa.states@[p] == g.non_terminals@[p]);
                assert(nfa.states@[q] == g.non_terminals@[q]);
            } else {
                assert(nfa.states@[q] == nf);
                assert(nfa.states@[p] == g.non_terminals@[p]);
                assert(g.non_terminals@.contains(g.non_terminals@[p]));
            }
        }
    }
    assert(nfa.states@.contains(nf));
    assert(nfa.states@.contains(g.starting_non_terminal)) by {
        assert(g.non_terminals@.contains(g.starting_non_terminal));
    }
    assert(distinct(nfa.starting_states@));
    assert(distinct(nfa.closing_states@)) by {
        if eps_on_start(g) {
            assert(nfa.closing_states@[0] == nf);
            assert(nfa.closing_states@[1] == g.starting_non_terminal);
            assert(g.non_terminals@.contains(g.starting_non_terminal));
        }
    }
    assert forall|p: int|
        0 <= p < nfa.starting_states@.len() implies nfa.states@.contains(
        #[trigger] nfa.starting_states@[p],
    ) by {
        assert(nfa.starting_states@[p] == g.starting_non_terminal);
    }
    assert forall|p: int|
        0 <= p < nfa.closing_states@.len() implies nfa.states@.contains(
        #[trigger] nfa.closing_states@[p],
    ) by {
        if p == 0 {
            assert(nfa.closing_states@[p] == nf);
        } else {
            assert(nfa.closing_states@[p] == g.starting_non_terminal);
        }
    }
    assert forall|e: int|
        #![trigger nfa.transitions.key_at(e)]
        0 <= e < nfa.transitions.spec_len() implies nfa.states@.contains(
        nfa.transitions.key_at(e).0,
    ) && nfa.inputs@.contains(nfa.transitions.key_at(e).1) && sorted_distinct(
        nfa.transitions.val_at(e),
    ) && nfa.transitions.val_at(e).len() >= 1 && (forall|d: int|
        0 <= d < nfa.transitions.val_at(e).len() ==> nfa.states@.contains(
            #[trigger] nfa.transitions.val_at(e)[d],
        )) by {
        nfa.transitions.lemma_get_at(e);
        let key = nfa.transitions.key_at(e);
        let val = nfa.transitions.val_at(e);
        assert(key == (key.0, key.1));
        assert(nfa.transitions.spec_get((key.0, key.1)) == Some(val));
        assert(val.len() >= 1 && sorted_distinct(val));
        assert(val.contains(val[0]));
        assert(emits(g, nf, key.0, key.1, val[0]));
        lemma_emits_shape(g, nf, key.0, key.1, val[0]);
        assert(nfa.states@.contains(key.0)) by {
            assert(g.non_terminals@.contains(key.0));
        }
        assert(nfa.inputs@.contains(key.1));
        assert forall|d: int|
            0 <= d < val.len() implies nfa.states@.contains(#[trigger] val[d]) by {
            assert(val.contains(val[d]));
            assert(emits(g, nf, key.0, key.1, val[d]));
            lemma_emits_shape(g, nf, key.0, key.1, val[d]);
        }
    }
    assert(nfa.wf());
}

/// True pool exhaustion: every capital letter is an original state or the
/// fresh name of one of a family of pairwise-distinct sorted subsets of the
/// original states.
pub open spec fn pool_exhausted_by(states: Seq<char>, smw: Seq<(char, Vec<char>)>) -> bool {
    &&& forall|dch: char|
        'A' <= dch && dch <= 'Z' ==> states.contains(dch) || crate::dfa::sm_has(smw, dch)
    &&& forall|q: int|
        #![trigger smw[q]]
        0 <= q < smw.len() ==> !states.contains(smw[q].0) && sorted_distinct(smw[q].1@)
            && smw[q].1@.len() >= 1 && (forall|i: int|
            0 <= i < smw[q].1@.len() ==> states.contains(#[trigger] smw[q].1@[i]))
    &&& forall|q1: int, q2: int|
        0 <= q1 < q2 < smw.len() ==> (#[trigger] smw[q1]).0 != (#[trigger] smw[q2]).0
            && smw[q1].1@ != smw[q2].1@
}

/// The composite named `n` over combo `c` has a transition on exactly the
/// input symbols on which some member of its combo has one.
pub open spec fn composite_domain_ok(
    t: StateTransitionTable,
    n: char,
    c: Seq<char>,
    inputs: Seq<char>,
) -> bool {
    forall|p: int|
        0 <= p < inputs.len() ==> (#[trigger] t.spec_contains_key((n, inputs[p])) <==> (exists|
            i: int,
        |
            #![trigger t.spec_contains_key((c[i], inputs[p]))]
            0 <= i < c.len() && t.spec_contains_key((c[i], inputs[p]))))
}

/// A table update on the key `(name, a)`, with `name` outside the original
/// states, preserves the domain condition of every other composite.
proof fn lemma_update_preserves_other_domains(
    orig: Nfa,
    t0: StateTransitionTable,
    t1: StateTransitionTable,
    sm: Seq<(char, Vec<char>)>,
    name: char,
    a: char,
)
    requires
        !orig.states@.contains(name),
        forall|q2: int|
            #![trigger sm[q2]]
            0 <= q2 < sm.len() ==> (forall|d: int|
                0 <= d < sm[q2].1@.len() ==> orig.states@.contains(#[trigger] sm[q2].1@[d])),
        forall|k2: (char, char)|
            k2 != (name, a) ==> #[trigger] t1.spec_get(k2) == t0.spec_get(k2),
    ensures
        forall|q2: int|
            #![trigger sm[q2]]
            0 <= q2 < sm.len() && sm[q2].0 != name && composite_domain_ok(
                t0,
                sm[q2].0,
                sm[q2].1@,
                orig.inputs@,
            ) ==> composite_domain_ok(t1, sm[q2].0, sm[q2].1@, orig.inputs@),
{
    assert forall|q2: int|
        #![trigger sm[q2]]
        0 <= q2 < sm.len() && sm[q2].0 != name && composite_domain_ok(
            t0,
            sm[q2].0,
            sm[q2].1@,
            orig.inputs@,
        ) implies composite_domain_ok(t1, sm[q2].0, sm[q2].1@, orig.inputs@) by {
        let n2 = sm[q2].0;
        let c2 = sm[q2].1@;
        assert forall|p: int|
            0 <= p < orig.inputs@.len() implies (#[trigger] t1.spec_contains_key(
            (n2, orig.inputs@[p]),
        ) <==> (exists|i: int|
            #![trigger t1.spec_contains_key((c2[i], orig.inputs@[p]))]
            0 <= i < c2.len() && t1.spec_contains_key((c2[i], orig.inputs@[p])))) by {
            assert((n2, orig.inputs@[p]) != (name, a));
            assert(t1.spec_get((n2, orig.inputs@[p])) == t0.spec_get((n2, orig.inputs@[p])));
            assert(t1.spec_contains_key((n2, orig.inputs@[p])) == t0.spec_contains_key(
                (n2, orig.inputs@[p]),
            ));
            assert forall|i: int|
                0 <= i < c2.len() implies (#[trigger] t1.spec_contains_key(
                (c2[i], orig.inputs@[p]),
            ) == t0.spec_contains_key((c2[i], orig.inputs@[p]))) by {
                assert(orig.states@.contains(c2[i]));
                assert((c2[i], orig.inputs@[p]) != (name, a));
                assert(t1.spec_get((c2[i], orig.inputs@[p])) == t0.spec_get(
                    (c2[i], orig.inputs@[p]),
                ));
            }
            if t1.spec_contains_key((n2, orig.inputs@[p])) {
                let i = choose|i: int|
                    #![trigger t0.spec_contains_key((c2[i], orig.inputs@[p]))]
                    0 <= i < c2.len() && t0.spec_contains_key((c2[i], orig.inputs@[p]));
                assert(t1.spec_contains_key((c2[i], orig.inputs@[p])));
            }
            if exists|i: int|
                #![trigger t1.spec_contains_key((c2[i], orig.inputs@[p]))]
                0 <= i < c2.len() && t1.spec_contains_key((c2[i], orig.inputs@[p])) {
                let i = choose|i: int|
                    #![trigger t1.spec_contains_key((c2[i], orig.inputs@[p]))]
                    0 <= i < c2.len() && t1.spec_contains_key((c2[i], orig.inputs@[p]));
                assert(t0.spec_contains_key((c2[i], orig.inputs@[p])));
            }
        }
    }
}

/// The same update preserves the composite's own already-settled inputs.
proof fn lemma_update_preserves_settled_inputs(
    orig: Nfa,
    t0: StateTransitionTable,
    t1: StateTransitionTable,
    name: char,
    a: char,
    combo: Seq<char>,
    idx: int,
)
    requires
        !orig.states@.contains(name),
        distinct(orig.inputs@),
        0 <= idx < orig.inputs@.len(),
        a == orig.inputs@[idx],
        forall|d: int| 0 <= d < combo.len() ==> orig.states@.contains(#[trigger] combo[d]),
        forall|k2: (char, char)|
            k2 != (name, a) ==> #[trigger] t1.spec_get(k2) == t0.spec_get(k2),
        forall|p: int|
            0 <= p < idx ==> (#[trigger] t0.spec_contains_key((name, orig.inputs@[p])) <==> (
            exists|i: int|
                #![trigger t0.spec_contains_key((combo[i], orig.inputs@[p]))]
                0 <= i < combo.len() && t0.spec_contains_key((combo[i], orig.inputs@[p])))),
    ensures
        forall|p: int|
            0 <= p < idx ==> (#[trigger] t1.spec_contains_key((name, orig.inputs@[p])) <==> (
            exists|i: int|
                #![trigger t1.spec_contains_key((combo[i], orig.inputs@[p]))]
                0 <= i < combo.len() && t1.spec_contains_key((combo[i], orig.inputs@[p])))),
{
    assert forall|p: int|
        0 <= p < idx implies (#[trigger] t1.spec_contains_key((name, orig.inputs@[p])) <==> (
        exists|i: int|
            #![trigger t1.spec_contains_key((combo[i], orig.inputs@[p]))]
            0 <= i < combo.len() && t1.spec_contains_key((combo[i], orig.inputs@[p])))) by {
        assert(orig.inputs@[p] != a);
        assert((name, orig.inputs@[p]) != (name, a));
        assert(t1.spec_get((name, orig.inputs@[p])) == t0.spec_get((name, orig.inputs@[p])));
        assert forall|i: int|
            0 <= i < combo.len() implies (#[trigger] t1.spec_contains_key(
            (combo[i], orig.inputs@[p]),
        ) == t0.spec_contains_key((combo[i], orig.inputs@[p]))) by {
            assert(orig.states@.contains(combo[i]));
            assert((combo[i], orig.inputs@[p]) != (name, a));
            assert(t1.spec_get((combo[i], orig.inputs@[p])) == t0.spec_get(
                (combo[i], orig.inputs@[p]),
            ));
        }
        if t1.spec_contains_key((name, orig.inputs@[p])) {
            let i = choose|i: int|
                #![trigger t0.spec_contains_key((combo[i], orig.inputs@[p]))]
                0 <= i < combo.len() && t0.spec_contains_key((combo[i], orig.inputs@[p]));
            assert(t1.spec_contains_key((combo[i], orig.inputs@[p])));
        }
        if exists|i: int|
            #![trigger t1.spec_contains_key((combo[i], orig.inputs@[p]))]
            0 <= i < combo.len() && t1.spec_contains_key((combo[i], orig.inputs@[p])) {
            let i = choose|i: int|
                #![trigger t1.spec_contains_key((combo[i], orig.inputs@[p]))]
                0 <= i < combo.len() && t1.spec_contains_key((combo[i], orig.inputs@[p]));
            assert(t0.spec_contains_key((combo[i], orig.inputs@[p])));
        }
    }
}

/// Unbinding a key whose source is no original state keeps the table
/// conditions.
proof fn lemma_remove_key(
    orig: Nfa,
    t0: StateTransitionTable,
    t1: StateTransitionTable,
    states: Seq<char>,
    src: char,
    a: char,
)
    requires
        orig.wf(),
        build_table_inv(orig, states, t0),
        table_dfa_shape(t0),
        !orig.states@.contains(src),
        t1.wf(),
        !t1.spec_contains_key((src, a)),
        forall|k2: (char, char)|
            k2 != (src, a) ==> #[trigger] t1.spec_get(k2) == t0.spec_get(k2),
    ensures
        build_table_inv(orig, states, t1),
        table_dfa_shape(t1),
{
    assert forall|e: int|
        #![trigger t1.key_at(e)]
        #![trigger t1.val_at(e)]
        0 <= e < t1.spec_len() implies states.contains(t1.key_at(e).0) && orig.inputs@.contains(
        t1.key_at(e).1,
    ) && t1.val_at(e).len() == 1 && sorted_distinct(t1.val_at(e)) && (forall|d: int|
        0 <= d < t1.val_at(e).len() ==> states.contains(#[trigger] t1.val_at(e)[d])) by {
        t1.lemma_get_at(e);
        let k = t1.key_at(e);
        assert(t1.spec_contains_key(k));
        assert(k != (src, a));
        assert(k == (k.0, k.1));
        assert(t1.spec_get((k.0, k.1)) == t0.spec_get((k.0, k.1)));
        assert(t0.spec_contains_key(k));
        let e3 = choose|e3: int| 0 <= e3 < t0.spec_len() && t0.entries@[e3].0 == k;
        t0.lemma_get_at(e3);
        assert(t0.key_at(e3) == k);
        assert(t1.val_at(e) == t0.val_at(e3));
    }
    assert forall|k: (char, char)|
        #[trigger] orig.transitions.spec_contains_key(k) implies t1.spec_contains_key(k) by {
        let e2 = choose|e2: int|
            0 <= e2 < orig.transitions.spec_len() && orig.transitions.entries@[e2].0 == k;
        orig.transitions.lemma_get_at(e2);
        assert(orig.states@.contains(orig.transitions.key_at(e2).0));
        assert(k != (src, a));
        assert(t1.spec_get(k) == t0.spec_get(k));
        assert(t0.spec_contains_key(k));
    }
    assert forall|k: (char, char)|
        #[trigger] t1.spec_contains_key(k) && !orig.transitions.spec_contains_key(
            k,
        ) implies !orig.states@.contains(k.0) by {
        assert(k != (src, a));
        assert(t1.spec_get(k) == t0.spec_get(k));
        assert(t0.spec_contains_key(k));
    }
    assert forall|k: (char, char)|
        #[trigger] orig.transitions.spec_contains_key(k) && orig.transitions.spec_get_val(
            k,
        ).len() == 1 implies t1.spec_get(k) == orig.transitions.spec_get(k) by {
        let e2 = choose|e2: int|
            0 <= e2 < orig.transitions.spec_len() && orig.transitions.entries@[e2].0 == k;
        orig.transitions.lemma_get_at(e2);
        assert(orig.states@.contains(orig.transitions.key_at(e2).0));
        assert(k != (src, a));
        assert(t1.spec_get(k) == t0.spec_get(k));
    }
}

/// The evolving state of subset construction: the grown state list keeps the
/// original states as a prefix, the closing list keeps the original closing
/// states, and the composite maps form a bijection whose names are fresh
/// synthesized states and whose combos are sorted lists of original states.
pub open spec fn build_inv(
    orig: Nfa,
    states: Seq<char>,
    closing: Seq<char>,
    cm: Seq<(Vec<char>, char)>,
    sm: Seq<(char, Vec<char>)>,
) -> bool {
    &&& distinct(states)
    &&& states.len() >= orig.states@.len()
    &&& states.subrange(0, orig.states@.len() as int) == orig.states@
    &&& distinct(closing)
    &&& forall|p: int| 0 <= p < closing.len() ==> states.contains(#[trigger] closing[p])
    &&& forall|p: int|
        0 <= p < orig.closing_states@.len() ==> closing.contains(
            #[trigger] orig.closing_states@[p],
        )
    &&& closing.len() >= orig.closing_states@.len()
    &&& closing.subrange(0, orig.closing_states@.len() as int) == orig.closing_states@
    &&& crate::dfa::maps_bijective(cm, sm)
    &&& forall|q: int|
        #![trigger sm[q]]
        0 <= q < sm.len() ==> states.contains(sm[q].0) && !orig.states@.contains(sm[q].0)
            && sorted_distinct(sm[q].1@) && sm[q].1@.len() >= 1 && (forall|d: int|
            0 <= d < sm[q].1@.len() ==> orig.states@.contains(#[trigger] sm[q].1@[d]))
    &&& forall|p: int|
        orig.states@.len() <= p < states.len() ==> crate::dfa::sm_has(sm, #[trigger] states[p])
    &&& forall|p: int|
        orig.states@.len() <= p < states.len() ==> 'A' <= #[trigger] states[p] && states[p] <= 'Z'
            && (forall|c2: char| 'A' <= c2 && c2 < states[p] ==> states.subrange(0, p).contains(c2))
    &&& forall|p: int|
        0 <= p < closing.len() ==> orig.closing_states@.contains(#[trigger] closing[p])
            || crate::dfa::sm_has(sm, closing[p])
    &&& forall|q: int|
        #![trigger sm[q].0]
        0 <= q < sm.len() ==> (closing.contains(sm[q].0) <==> (exists|i: int|
            0 <= i < sm[q].1@.len() && orig.closing_states@.contains(#[trigger] sm[q].1@[i])))
}

/// The evolving transition table of subset construction: well formed, keyed
/// by grown states and original input symbols, with sorted non-empty
/// destination lists of grown states; the original keys survive, new keys
/// bear synthesized sources, and original one-destination entries are kept
/// word for word.
pub open spec fn build_table_inv(orig: Nfa, states: Seq<char>, t: StateTransitionTable) -> bool {
    &&& t.wf()
    &&& forall|e: int|
        #![trigger t.key_at(e)]
        0 <= e < t.spec_len() ==> states.contains(t.key_at(e).0) && orig.inputs@.contains(
            t.key_at(e).1,
        ) && t.val_at(e).len() >= 1 && sorted_distinct(t.val_at(e)) && (forall|d: int|
            0 <= d < t.val_at(e).len() ==> states.contains(#[trigger] t.val_at(e)[d]))
    &&& forall|k: (char, char)|
        #[trigger] orig.transitions.spec_contains_key(k) ==> t.spec_contains_key(k)
    &&& forall|k: (char, char)|
        #[trigger] t.spec_contains_key(k) && !orig.transitions.spec_contains_key(k)
            ==> !orig.states@.contains(k.0)
    &&& forall|k: (char, char)|
        #[trigger] orig.transitions.spec_contains_key(k) && orig.transitions.spec_get_val(
            k,
        ).len() == 1 ==> t.spec_get(k) == orig.transitions.spec_get(k)
}

/// Every destination list of the table is a single state.
pub open spec fn table_dfa_shape(t: StateTransitionTable) -> bool {
    forall|e: int|
        #![trigger t.val_at(e)]
        0 <= e < t.spec_len() ==> t.val_at(e).len() == 1
}

/// Every original multi-destination list has been collapsed: its sorted
/// destination list is mapped to a name and the entry now holds that name
/// alone.
pub open spec fn collapsed_ok(orig: Nfa, t: StateTransitionTable, cm: Seq<(Vec<char>, char)>) -> bool {
    forall|k: (char, char)|
        #[trigger] orig.transitions.spec_contains_key(k) && orig.transitions.spec_get_val(
            k,
        ).len() > 1 ==> crate::dfa::cm_has(cm, orig.transitions.spec_get_val(k))
            && t.spec_get(k) == Some(
            seq![crate::dfa::cm_val(cm, orig.transitions.spec_get_val(k))],
        )
}

/// Growing the combo map by new entries keeps every existing binding.
proof fn lemma_cm_extend(cm_old: Seq<(Vec<char>, char)>, cm_new: Seq<(Vec<char>, char)>)
    requires
        cm_new.len() >= cm_old.len(),
        forall|p: int| 0 <= p < cm_old.len() ==> cm_new[p] == cm_old[p],
        forall|p: int, q: int|
            0 <= p < q < cm_new.len() ==> (#[trigger] cm_new[p]).0@ != (#[trigger] cm_new[q]).0@,
    ensures
        forall|c: Seq<char>|
            #[trigger] crate::dfa::cm_has(cm_old, c) ==> crate::dfa::cm_has(cm_new, c)
                && crate::dfa::cm_val(cm_new, c) == crate::dfa::cm_val(cm_old, c),
{
    assert forall|c: Seq<char>|
        #[trigger] crate::dfa::cm_has(cm_old, c) implies crate::dfa::cm_has(cm_new, c)
        && crate::dfa::cm_val(cm_new, c) == crate::dfa::cm_val(cm_old, c) by {
        let p = choose|p: int| 0 <= p < cm_old.len() && (#[trigger] cm_old[p]).0@ == c;
        assert(cm_new[p].0@ == c);
        assert(crate::dfa::cm_has(cm_new, c));
        let p1 = choose|p1: int| 0 <= p1 < cm_old.len() && (#[trigger] cm_old[p1]).0@ == c;
        let p2 = choose|p2: int| 0 <= p2 < cm_new.len() && (#[trigger] cm_new[p2]).0@ == c;
        assert(cm_new[p1].0@ == c);
        if p1 != p2 {
            if p1 < p2 {
                assert(cm_new[p1].0@ != cm_new[p2].0@);
            } else {
                assert(cm_new[p2].0@ != cm_new[p1].0@);
            }
        }
        assert(crate::dfa::cm_val(cm_new, c) == cm_new[p2].1);
        assert(crate::dfa::cm_val(cm_old, c) == cm_old[p1].1);
    }
}

/// Whether some member of `a` occurs in `b`.
fn intersects(a: &Vec<char>, b: &Vec<char>) -> (r: bool)
    ensures
        r == exists|i: int| 0 <= i < a@.len() && b@.contains(#[trigger] a@[i]),
{
    let mut i: usize = 0;
    while i < a.len()
        invariant
            0 <= i <= a@.len(),
            forall|p: int| 0 <= p < i ==> !b@.contains(#[trigger] a@[p]),
        decreases a@.len() - i,
    {
        if contains_char(b, a[i]) {
            return true;
        }
        i = i + 1;
    }
    false
}

/// Synthesizes a fresh single-symbol name for a new combo: the first unused
/// capital letter joins the states, becomes a closing state exactly when the
/// combo holds a closing state, is bound to the combo in both maps, and the
/// combo is queued for processing.
fn synthesize_name(
    Ghost(orig): Ghost<Nfa>,
    states: &mut Vec<char>,
    closing: &mut Vec<char>,
    cm: &mut Vec<(Vec<char>, char)>,
    sm: &mut Vec<(char, Vec<char>)>,
    queue: &mut Vec<Vec<char>>,
    combo: Vec<char>,
) -> (r: Result<char, FiniteAutomataError>)
    requires
        build_inv(orig, old(states)@, old(closing)@, old(cm)@, old(sm)@),
        !crate::dfa::cm_has(old(cm)@, combo@),
        sorted_distinct(combo@),
        combo@.len() >= 1,
        forall|d: int| 0 <= d < combo@.len() ==> orig.states@.contains(#[trigger] combo@[d]),
    ensures
        match r {
            Ok(name) => {
                &&& 'A' <= name && name <= 'Z'
                &&& !old(states)@.contains(name)
                &&& final(states)@ == old(states)@.push(name)
                &&& build_inv(orig, final(states)@, final(closing)@, final(cm)@, final(sm)@)
                &&& crate::dfa::cm_has(final(cm)@, combo@)
                &&& crate::dfa::cm_val(final(cm)@, combo@) == name
                &&& final(cm)@.len() == old(cm)@.len() + 1
                &&& (forall|p: int| 0 <= p < old(cm)@.len() ==> final(cm)@[p] == old(cm)@[p])
                &&& final(sm)@.len() == old(sm)@.len() + 1
                &&& (forall|q: int| 0 <= q < old(sm)@.len() ==> final(sm)@[q] == old(sm)@[q])
                &&& final(sm)@.last().0 == name && final(sm)@.last().1@ == combo@
                &&& final(queue)@.len() == old(queue)@.len() + 1
                &&& (forall|p: int|
                    0 <= p < old(queue)@.len() ==> final(queue)@[p] == old(queue)@[p])
                &&& final(queue)@.last()@ == combo@
                &&& (forall|x: char|
                    final(closing)@.contains(x) <==> (old(closing)@.contains(x) || (x == name
                        && (exists|i: int|
                        0 <= i < combo@.len() && old(closing)@.contains(#[trigger] combo@[i])))))
            },
            Err(e) => e == FiniteAutomataError::NamingCapacityExceeded && final(states)@ == old(
                states,
            )@ && final(closing)@ == old(closing)@ && final(cm)@ == old(cm)@ && final(sm)@ == old(
                sm,
            )@ && final(queue)@ == old(queue)@ && (forall|d: char|
                'A' <= d && d <= 'Z' ==> old(states)@.contains(d)),
        },
{
    let name = match find_fresh_letter(states) {
        Some(c) => c,
        None => {
            return Err(FiniteAutomataError::NamingCapacityExceeded);
        },
    };
    let is_closing = intersects(&combo, closing);
    let ghost pre_closing = closing@;
    if is_closing {
        closing.push(name);
    }
    proof {
        crate::symbols::lemma_push_contains(pre_closing, name);
        assert(closing@.subrange(0, orig.closing_states@.len() as int) =~= pre_closing.subrange(
            0,
            orig.closing_states@.len() as int,
        ));
        if is_closing {
            assert(distinct(closing@)) by {
                assert forall|p: int, q: int|
                    0 <= p < q < closing@.len() implies closing@[p] != closing@[q] by {
                    if q < pre_closing.len() {
                        assert(closing@[p] == pre_closing[p] && closing@[q] == pre_closing[q]);
                    } else {
                        assert(closing@[q] == name && closing@[p] == pre_closing[p]);
                        assert(pre_closing.contains(pre_closing[p]));
                        assert(old(states)@.contains(pre_closing[p]));
                    }
                }
            }
        }
        // the closing-membership of the fresh name, and the intersection
        // test, line up because old closing states sit among the old states
        assert forall|i: int|
            0 <= i < combo@.len() && pre_closing.contains(#[trigger] combo@[i]) implies (
        exists|i2: int| 0 <= i2 < combo@.len() && pre_closing.contains(#[trigger] combo@[i2])) by {}
    }
    let ghost pre_states = states@;
    states.push(name);
    proof {
        crate::symbols::lemma_push_contains(pre_states, name);
        assert(distinct(states@)) by {
            assert forall|p: int, q: int|
                0 <= p < q < states@.len() implies states@[p] != states@[q] by {
                if q < pre_states.len() {
                    assert(states@[p] == pre_states[p] && states@[q] == pre_states[q]);
                } else {
                    assert(states@[q] == name && states@[p] == pre_states[p]);
                    assert(pre_states.contains(pre_states[p]));
                }
            }
        }
        assert(states@.subrange(0, orig.states@.len() as int) =~= pre_states.subrange(
            0,
            orig.states@.len() as int,
        ));
        assert(!sm_has(old(sm)@, name)) by {
            if sm_has(old(sm)@, name) {
                let q = choose|q: int|
                    0 <= q < old(sm)@.len() && (#[trigger] old(sm)@[q]).0 == name;
                assert(pre_states.contains(old(sm)@[q].0));
            }
        }
    }
    let ghost pre_cm = cm@;
    let ghost pre_sm = sm@;
    let combo_copy = clone_chars(&combo);
    crate::dfa::maps_insert_pair(cm, sm, combo_copy, name);
    queue.push(combo);
    proof {
        assert(crate::dfa::cm_has(cm@, combo@)) by {
            assert(cm@.last().0@ == combo@);
            assert(cm@[cm@.len() - 1].0@ == combo@);
        }
        lemma_cm_extend(pre_cm, cm@);
        assert(crate::dfa::cm_val(cm@, combo@) == name) by {
            let p = choose|p: int| 0 <= p < cm@.len() && (#[trigger] cm@[p]).0@ == combo@;
            if p < pre_cm.len() {
                assert(cm@[p] == pre_cm[p]);
                assert(crate::dfa::cm_has(pre_cm, combo@));
            }
            assert(p == cm@.len() - 1);
        }
        assert forall|q: int|
            #![trigger sm@[q]]
            0 <= q < sm@.len() implies states@.contains(sm@[q].0) && !orig.states@.contains(
            sm@[q].0,
        ) && sorted_distinct(sm@[q].1@) && sm@[q].1@.len() >= 1 && (forall|d: int|
            0 <= d < sm@[q].1@.len() ==> orig.states@.contains(#[trigger] sm@[q].1@[d])) by {
            if q < pre_sm.len() {
                assert(sm@[q] == pre_sm[q]);
                assert(pre_states.contains(pre_sm[q].0));
            } else {
                assert(sm@[q].0 == name && sm@[q].1@ == combo@);
                assert(states@.contains(name)) by {
                    assert(states@[states@.len() - 1] == name);
                }
                assert(!orig.states@.contains(name)) by {
                    if orig.states@.contains(name) {
                        let d = choose|d: int|
                            0 <= d < orig.states@.len() && orig.states@[d] == name;
                        assert(pre_states.subrange(0, orig.states@.len() as int)[d] == name);
                        assert(pre_states[d] == name);
                        assert(pre_states.contains(name));
                    }
                }
            }
        }
        assert forall|p: int|
            0 <= p < closing@.len() implies states@.contains(#[trigger] closing@[p]) by {
            if is_closing && p == closing@.len() - 1 {
                assert(closing@[p] == name);
                assert(states@[states@.len() - 1] == name);
            } else {
                assert(pre_closing.contains(closing@[p]));
                assert(pre_states.contains(closing@[p]));
            }
        }
        assert forall|p: int|
            0 <= p < orig.closing_states@.len() implies closing@.contains(
            #[trigger] orig.closing_states@[p],
        ) by {
            assert(pre_closing.contains(orig.closing_states@[p]));
        }
        assert forall|p: int|
            orig.states@.len() <= p < states@.len() implies sm_has(sm@, #[trigger] states@[p]) by {
            if p < pre_states.len() {
                assert(states@[p] == pre_states[p]);
                assert(sm_has(pre_sm, pre_states[p]));
                let q = choose|q: int|
                    0 <= q < pre_sm.len() && (#[trigger] pre_sm[q]).0 == pre_states[p];
                assert(sm@[q].0 == pre_states[p]);
            } else {
                assert(states@[p] == name);
                assert(sm@[sm@.len() - 1].0 == name);
            }
        }
        assert forall|x: char|
            closing@.contains(x) <==> (pre_closing.contains(x) || (x == name && (exists|i: int|
                0 <= i < combo@.len() && pre_closing.contains(#[trigger] combo@[i])))) by {
            if is_closing {
                let i = choose|i: int|
                    0 <= i < combo@.len() && pre_closing.contains(#[trigger] combo@[i]);
            } else {
                if x == name && pre_closing.contains(x) {
                    assert(old(states)@.contains(x));
                }
            }
        }
        // the synthesized names are chosen first-unused among the capitals
        assert forall|p: int|
            orig.states@.len() <= p < states@.len() implies 'A' <= #[trigger] states@[p]
            && states@[p] <= 'Z' && (forall|c2: char|
            'A' <= c2 && c2 < states@[p] ==> states@.subrange(0, p).contains(c2)) by {
            if p < pre_states.len() {
                assert(states@[p] == pre_states[p]);
                assert(states@.subrange(0, p) =~= pre_states.subrange(0, p));
            } else {
                assert(states@[p] == name);
                assert(states@.subrange(0, p) =~= pre_states);
            }
        }
        // an original closing state stays closing; a fresh closing state is
        // a mapped name
        assert forall|p: int|
            0 <= p < closing@.len() implies orig.closing_states@.contains(#[trigger] closing@[p])
            || sm_has(sm@, closing@[p]) by {
            if is_closing && p == closing@.len() - 1 {
                assert(closing@[p] == name);
                assert(sm@[sm@.len() - 1].0 == name);
            } else {
                assert(closing@[p] == pre_closing[p]);
                assert(pre_closing.contains(pre_closing[p]));
                if !orig.closing_states@.contains(closing@[p]) {
                    assert(sm_has(pre_sm, closing@[p]));
                    let q = choose|q: int|
                        0 <= q < pre_sm.len() && (#[trigger] pre_sm[q]).0 == closing@[p];
                    assert(sm@[q].0 == closing@[p]);
                }
            }
        }
        // a mapped name is closing exactly when its combo met the original
        // closing set
        assert forall|q: int|
            #![trigger sm@[q].0]
            0 <= q < sm@.len() implies (closing@.contains(sm@[q].0) <==> (exists|i: int|
            0 <= i < sm@[q].1@.len() && orig.closing_states@.contains(
                #[trigger] sm@[q].1@[i],
            ))) by {
            if q < pre_sm.len() {
                assert(sm@[q] == pre_sm[q]);
                let n2 = pre_sm[q].0;
                assert(pre_states.contains(n2));
                assert(closing@.contains(n2) <==> pre_closing.contains(n2)) by {
                    if closing@.contains(n2) && !pre_closing.contains(n2) {
                        assert(n2 == name);
                    }
                }
            } else {
                assert(sm@[q].0 == name && sm@[q].1@ == combo@);
                assert(!pre_closing.contains(name)) by {
                    if pre_closing.contains(name) {
                        assert(old(states)@.contains(name));
                    }
                }
                assert(closing@.contains(name) <==> (exists|i: int|
                    0 <= i < combo@.len() && pre_closing.contains(#[trigger] combo@[i])));
                assert forall|i: int|
                    0 <= i < combo@.len() implies (pre_closing.contains(#[trigger] combo@[i])
                    <==> orig.closing_states@.contains(combo@[i])) by {
                    if pre_closing.contains(combo@[i]) && !orig.closing_states@.contains(
                        combo@[i],
                    ) {
                        assert(sm_has(pre_sm, combo@[i]));
                        let q2 = choose|q2: int|
                            0 <= q2 < pre_sm.len() && (#[trigger] pre_sm[q2]).0 == combo@[i];
                        assert(!orig.states@.contains(pre_sm[q2].0));
                        assert(orig.states@.contains(combo@[i]));
                    }
                    if orig.closing_states@.contains(combo@[i]) {
                        assert(orig.wf() ==> true);
                        let oc = choose|oc: int|
                            0 <= oc < orig.closing_states@.len() && orig.closing_states@[oc]
                                == combo@[i];
                        assert(pre_closing.contains(orig.closing_states@[oc]));
                    }
                }
                if closing@.contains(name) {
                    let i = choose|i: int|
                        0 <= i < combo@.len() && pre_closing.contains(#[trigger] combo@[i]);
                    assert(orig.closing_states@.contains(combo@[i]));
                }
                if exists|i: int|
                    0 <= i < sm@[q].1@.len() && orig.closing_states@.contains(
                        #[trigger] sm@[q].1@[i],
                    ) {
                    let i = choose|i: int|
                        0 <= i < sm@[q].1@.len() && orig.closing_states@.contains(
                            #[trigger] sm@[q].1@[i],
                        );
                    assert(pre_closing.contains(combo@[i]));
                    assert(closing@.contains(name));
                }
            }
        }
        assert(build_inv(orig, states@, closing@, cm@, sm@));
        assert(queue@.last()@ == combo@);
    }
    Ok(name)
}

/// Every member of a prefix-preserved list is still a member of the longer
/// list.
proof fn lemma_prefix_contains(a: Seq<char>, b: Seq<char>)
    requires
        b.len() >= a.len(),
        b.subrange(0, a.len() as int) == a,
    ensures
        forall|x: char| a.contains(x) ==> b.contains(x),
{
    assert forall|x: char| a.contains(x) implies b.contains(x) by {
        let i = choose|i: int| 0 <= i < a.len() && a[i] == x;
        assert(b.subrange(0, a.len() as int)[i] == a[i]);
        assert(b[i] == x);
    }
}

/// The table conditions survive growing the state list.
proof fn lemma_table_inv_states_grow(
    orig: Nfa,
    t: StateTransitionTable,
    s_old: Seq<char>,
    s_new: Seq<char>,
)
    requires
        build_table_inv(orig, s_old, t),
        forall|x: char| s_old.contains(x) ==> s_new.contains(x),
    ensures
        build_table_inv(orig, s_new, t),
{
    assert forall|e: int|
        #![trigger t.key_at(e)]
        0 <= e < t.spec_len() implies s_new.contains(t.key_at(e).0) && orig.inputs@.contains(
        t.key_at(e).1,
    ) && t.val_at(e).len() >= 1 && sorted_distinct(t.val_at(e)) && (forall|d: int|
        0 <= d < t.val_at(e).len() ==> s_new.contains(#[trigger] t.val_at(e)[d])) by {
        assert(s_old.contains(t.key_at(e).0));
        assert forall|d: int|
            0 <= d < t.val_at(e).len() implies s_new.contains(#[trigger] t.val_at(e)[d]) by {
            assert(s_old.contains(t.val_at(e)[d]));
        }
    }
}

/// Binding one key to a one-state list keeps the table conditions, provided
/// the key's source is a declared grown state and, when the key is new, no
/// original state.
proof fn lemma_insert_singleton(
    orig: Nfa,
    t0: StateTransitionTable,
    t1: StateTransitionTable,
    states: Seq<char>,
    src: char,
    a: char,
    x: char,
)
    requires
        orig.wf(),
        build_table_inv(orig, states, t0),
        states.contains(src),
        orig.inputs@.contains(a),
        states.contains(x),
        !t0.spec_contains_key((src, a)) ==> !orig.states@.contains(src),
        orig.transitions.spec_contains_key((src, a)) ==> orig.transitions.spec_get_val(
            (src, a),
        ).len() != 1,
        t1.wf(),
        t1.spec_contains_key((src, a)),
        t1.spec_get((src, a)) == Some(seq![x]),
        forall|k: (char, char)| k != (src, a) ==> #[trigger] t1.spec_get(k) == t0.spec_get(k),
        t0.spec_contains_key((src, a)) ==> t1.spec_len() == t0.spec_len(),
        !t0.spec_contains_key((src, a)) ==> t1.spec_len() == t0.spec_len() + 1 && t1.key_at(
            t0.spec_len() as int,
        ) == (src, a),
        forall|i: int| 0 <= i < t0.spec_len() ==> #[trigger] t1.key_at(i) == t0.key_at(i),
        forall|i: int|
            0 <= i < t0.spec_len() && t0.key_at(i) != (src, a) ==> #[trigger] t1.val_at(i)
                == t0.val_at(i),
    ensures
        build_table_inv(orig, states, t1),
        table_dfa_shape(t0) ==> table_dfa_shape(t1),
{
    assert forall|e: int|
        #![trigger t1.key_at(e)]
        #![trigger t1.val_at(e)]
        0 <= e < t1.spec_len() implies states.contains(t1.key_at(e).0) && orig.inputs@.contains(
        t1.key_at(e).1,
    ) && t1.val_at(e).len() >= 1 && sorted_distinct(t1.val_at(e)) && (forall|d: int|
        0 <= d < t1.val_at(e).len() ==> states.contains(#[trigger] t1.val_at(e)[d])) && (
    table_dfa_shape(t0) ==> t1.val_at(e).len() == 1) by {
        if e < t0.spec_len() {
            if t0.key_at(e) == (src, a) {
                t1.lemma_get_at(e);
                assert(t1.key_at(e) == (src, a));
                assert(t1.spec_get((src, a)) == Some(t1.val_at(e)));
                assert(t1.val_at(e) == seq![x]);
                assert(t1.val_at(e)[0] == x);
            } else {
                assert(t1.val_at(e) == t0.val_at(e));
                assert(t0.key_at(e) == t0.key_at(e));
                assert(t0.val_at(e).len() >= 1);
                if table_dfa_shape(t0) {
                    assert(t0.val_at(e).len() == 1);
                }
                assert(states.contains(t0.key_at(e).0));
            }
        } else {
            assert(!t0.spec_contains_key((src, a))) by {
                if t0.spec_contains_key((src, a)) {
                    assert(t1.spec_len() == t0.spec_len());
                }
            }
            assert(e == t0.spec_len() as int);
            assert(t1.key_at(e) == (src, a));
            t1.lemma_get_at(e);
            assert(t1.val_at(e) == seq![x]);
            assert(t1.val_at(e)[0] == x);
        }
    }
    assert forall|k: (char, char)|
        #[trigger] orig.transitions.spec_contains_key(k) implies t1.spec_contains_key(k) by {
        if k != (src, a) {
            assert(t1.spec_get(k) == t0.spec_get(k));
            assert(t0.spec_contains_key(k));
        }
    }
    assert forall|k: (char, char)|
        #[trigger] t1.spec_contains_key(k) && !orig.transitions.spec_contains_key(
            k,
        ) implies !orig.states@.contains(k.0) by {
        if k != (src, a) {
            assert(t1.spec_get(k) == t0.spec_get(k));
            assert(t0.spec_contains_key(k));
        } else {
            if t0.spec_contains_key(k) {
            }
        }
    }
    assert forall|k: (char, char)|
        #[trigger] orig.transitions.spec_contains_key(k) && orig.transitions.spec_get_val(
            k,
        ).len() == 1 implies t1.spec_get(k) == orig.transitions.spec_get(k) by {
        let e = choose|e: int|
            0 <= e < orig.transitions.spec_len() && orig.transitions.entries@[e].0 == k;
        orig.transitions.lemma_get_at(e);
        assert(orig.states@.contains(orig.transitions.key_at(e).0));
        assert(k != (src, a)) by {
            if k == (src, a) {
                assert(orig.transitions.spec_get_val((src, a)).len() != 1);
            }
        }
        assert(t1.spec_get(k) == t0.spec_get(k));
    }
}

/// In a right-aligned regular grammar, an emitted transition reads a
/// terminal and moves from a non-terminal to a non-terminal or `nf`.
proof fn lemma_emits_shape(g: Grammar, nf: char, st: char, sym: char, dest: char)
    requires
        g.wf(),
        g.grammar_type == GrammarType::Regular(RegularType::Right),
        emits(g, nf, st, sym, dest),
    ensures
        g.non_terminals@.contains(st),
        g.terminals@.contains(sym),
        g.non_terminals@.contains(dest) || dest == nf,
{
    let i = choose|i: int|
        0 <= i < g.rules@.len() && rule_emits(
            #[trigger] g.rules@[i],
            g.terminals@,
            nf,
            st,
            sym,
            dest,
            g.rules@[i].variants@.len() as int,
        );
    let r = g.rules@[i];
    assert(crate::grammar::rules_single_non_terminal(g.rules@, g.non_terminals@));
    assert(r.input@.len() == 1 && g.non_terminals@.contains(r.input@[0]));
    let j = choose|j: int|
        0 <= j < r.variants@.len() && #[trigger] variant_emits(r, j, g.terminals@, nf, sym, dest);
    let v = r.variants@[j]@;
    assert(crate::grammar::rules_regular(g.rules@, g.terminals@, g.non_terminals@));
    assert(crate::grammar::variant_regular(v, g.terminals@, g.non_terminals@));
    if v.len() == 2 && v[0] != EMPTY_SEQUENCE && g.terminals@.contains(v[0]) && v[0] == sym && v[1]
        == dest {
        assert(!crate::grammar::has_left_variant(g.rules@, g.non_terminals@));
        if crate::grammar::left_aligned(v, g.non_terminals@) && !crate::grammar::right_aligned(
            v,
            g.non_terminals@,
        ) {
            assert(false);
        }
        assert(crate::grammar::right_aligned(v, g.non_terminals@));
        assert(g.non_terminals@.contains(v[1]));
    }
}

impl Nfa {
    /// Converts the automaton to a deterministic one by subset construction.
    /// Existing multi-destination lists are collapsed into fresh composite
    /// states, and new composites discovered while closing the transition
    /// function are named, recorded in the two composite maps, and given
    /// their own transitions. A composite is a closing state exactly when
    /// its combo held a closing state at the moment it was synthesized. The
    /// original states, input symbols, initial state, closing states and
    /// one-destination transitions all survive unchanged; the construction
    /// fails only when the pool of fresh capital-letter names runs dry.
    #[verifier::rlimit(100)]
    pub fn to_deterministic(self) -> (r: Result<Dfa, FiniteAutomataError>)
        requires
            self.wf(),
            self.starting_states@.len() == 1,
        ensures
            match r {
                Ok(d) => {
                    &&& d.wf()
                    &&& d.inputs@ == self.inputs@
                    &&& d.starting_states@ == self.starting_states@
                    &&& d.states@.len() >= self.states@.len()
                    &&& d.states@.subrange(0, self.states@.len() as int) == self.states@
                    &&& (forall|p: int|
                        0 <= p < self.closing_states@.len() ==> d.closing_states@.contains(
                            #[trigger] self.closing_states@[p],
                        ))
                    &&& d.closing_states@.len() >= self.closing_states@.len()
                    &&& d.closing_states@.subrange(0, self.closing_states@.len() as int)
                        == self.closing_states@
                    &&& (forall|k: (char, char)|
                        #[trigger] self.transitions.spec_contains_key(k)
                            ==> d.transitions.spec_contains_key(k))
                    &&& (forall|k: (char, char)|
                        #[trigger] d.transitions.spec_contains_key(k)
                            && !self.transitions.spec_contains_key(k)
                            ==> !self.states@.contains(k.0))
                    &&& (forall|k: (char, char)|
                        #[trigger] self.transitions.spec_contains_key(k)
                            && self.transitions.spec_get_val(k).len() == 1
                            ==> d.transitions.spec_get(k) == self.transitions.spec_get(k))
                    &&& collapsed_ok(self, d.transitions, d.state_combo_to_state_map@)
                    &&& (forall|q: int|
                        #![trigger d.state_to_state_combo_map@[q]]
                        0 <= q < d.state_to_state_combo_map@.len() ==> sorted_distinct(
                            d.state_to_state_combo_map@[q].1@,
                        ) && d.state_to_state_combo_map@[q].1@.len() >= 1
                            && !self.states@.contains(d.state_to_state_combo_map@[q].0) && (
                        forall|i: int|
                            0 <= i < d.state_to_state_combo_map@[q].1@.len()
                                ==> self.states@.contains(
                                #[trigger] d.state_to_state_combo_map@[q].1@[i],
                            )))
                    &&& (forall|p: int|
                        self.states@.len() <= p < d.states@.len() ==> 'A'
                            <= #[trigger] d.states@[p] && d.states@[p] <= 'Z' && (forall|c2: char|
                            'A' <= c2 && c2 < d.states@[p] ==> d.states@.subrange(
                                0,
                                p,
                            ).contains(c2)))
                    &&& (forall|x: char|
                        self.states@.contains(x) ==> (d.closing_states@.contains(x)
                            <==> self.closing_states@.contains(x)))
                    &&& (forall|x: char|
                        d.closing_states@.contains(x) ==> self.closing_states@.contains(x)
                            || crate::dfa::sm_has(d.state_to_state_combo_map@, x))
                    &&& (forall|q: int|
                        #![trigger d.state_to_state_combo_map@[q].0]
                        0 <= q < d.state_to_state_combo_map@.len() ==> (d.closing_states@.contains(
                            d.state_to_state_combo_map@[q].0,
                        ) <==> (exists|i: int|
                            0 <= i < d.state_to_state_combo_map@[q].1@.len()
                                && self.closing_states@.contains(
                                #[trigger] d.state_to_state_combo_map@[q].1@[i],
                            ))))
                    &&& (forall|q: int|
                        #![trigger d.state_to_state_combo_map@[q]]
                        0 <= q < d.state_to_state_combo_map@.len() ==> composite_domain_ok(
                            d.transitions,
                            d.state_to_state_combo_map@[q].0,
                            d.state_to_state_combo_map@[q].1@,
                            self.inputs@,
                        ))
                },
                Err(e) => e == FiniteAutomataError::NamingCapacityExceeded && (exists|e2: int|
                    0 <= e2 < self.transitions.spec_len() && (
                    #[trigger] self.transitions.val_at(e2)).len() > 1) && (exists|
                    smw: Seq<(char, Vec<char>)>,
                | pool_exhausted_by(self.states@, smw)),
            },
    {
        let ghost orig = self;
        let mut states = self.states;
        let inputs = self.inputs;
        let mut table = self.transitions;
        let starting_states = self.starting_states;
        let mut closing = self.closing_states;
        let mut cm: Vec<(Vec<char>, char)> = Vec::new();
        let mut sm: Vec<(char, Vec<char>)> = Vec::new();
        let mut queue: Vec<Vec<char>> = Vec::new();
        proof {
            assert(states@.subrange(0, orig.states@.len() as int) =~= orig.states@);
            assert(closing@.subrange(0, orig.closing_states@.len() as int) =~= orig
                .closing_states@);
            assert(build_inv(orig, states@, closing@, cm@, sm@));
            assert(build_table_inv(orig, states@, table)) by {
                assert forall|k: (char, char)|
                    #[trigger] orig.transitions.spec_contains_key(k) && orig
                        .transitions.spec_get_val(k).len() == 1 implies table.spec_get(k)
                    == orig.transitions.spec_get(k) by {}
            }
        }
        // collapse the existing multi-destination lists
        let mut e: usize = 0;
        while e < table.len()
            invariant
                build_inv(orig, states@, closing@, cm@, sm@),
                build_table_inv(orig, states@, table),
                orig.wf(),
                table.spec_len() == orig.transitions.spec_len(),
                0 <= e <= table.spec_len(),
                forall|e2: int|
                    0 <= e2 < table.spec_len() ==> #[trigger] table.key_at(e2)
                        == orig.transitions.key_at(e2),
                forall|e2: int|
                    e <= e2 < table.spec_len() ==> #[trigger] table.val_at(e2)
                        == orig.transitions.val_at(e2),
                forall|e2: int| 0 <= e2 < e ==> (#[trigger] table.val_at(e2)).len() == 1,
                forall|e2: int|
                    0 <= e2 < e && (#[trigger] orig.transitions.val_at(e2)).len() > 1
                        ==> crate::dfa::cm_has(cm@, orig.transitions.val_at(e2)) && table.val_at(
                        e2,
                    ) == seq![crate::dfa::cm_val(cm@, orig.transitions.val_at(e2))],
                forall|j: int|
                    0 <= j < queue@.len() ==> crate::dfa::cm_has(cm@, (#[trigger] queue@[j])@)
                        && sorted_distinct(queue@[j]@) && queue@[j]@.len() >= 1 && (forall|d: int|
                        0 <= d < queue@[j]@.len() ==> orig.states@.contains(
                            #[trigger] queue@[j]@[d],
                        )),
                forall|q2: int|
                    #![trigger sm@[q2]]
                    0 <= q2 < sm@.len() ==> (exists|j: int|
                        0 <= j < queue@.len() && (#[trigger] queue@[j])@ == sm@[q2].1@),
                queue@.len() > 0 ==> (exists|e2: int|
                    0 <= e2 < orig.transitions.spec_len() && (
                    #[trigger] orig.transitions.val_at(e2)).len() > 1),
            decreases table.spec_len() - e,
        {
            let vlen = table.entries[e].1.len();
            proof {
                assert(table.val_at(e as int) == orig.transitions.val_at(e as int));
                assert(orig.transitions.val_at(e as int).len() >= 1) by {
                    assert(orig.wf());
                    assert(orig.transitions.key_at(e as int) == orig.transitions.key_at(e as int));
                }
            }
            if vlen != 1 {
                proof {
                    assert(orig.transitions.val_at(e as int).len() > 1);
                }
                let key = table.entries[e].0;
                let combo = clone_chars(&table.entries[e].1);
                proof {
                    assert(combo@ == orig.transitions.val_at(e as int));
                    assert(sorted_distinct(combo@) && combo@.len() >= 1) by {
                        assert(orig.transitions.key_at(e as int) == orig.transitions.key_at(
                            e as int,
                        ));
                    }
                    assert forall|d: int|
                        0 <= d < combo@.len() implies orig.states@.contains(
                        #[trigger] combo@[d],
                    ) by {
                        assert(orig.transitions.key_at(e as int) == orig.transitions.key_at(
                            e as int,
                        ));
                        assert(orig.transitions.val_at(e as int)[d] == combo@[d]);
                    }
                }
                let ghost pre_cm = cm@;
                let ghost pre_sts = states@;
                let ghost pre_q1 = queue@;
                let ghost pre_sm1 = sm@;
                let name = match find_combo(&cm, &combo) {
                    Some(ci) => {
                        let n = cm[ci].1;
                        proof {
                            assert(crate::dfa::cm_has(cm@, combo@));
                            assert(crate::dfa::cm_val(cm@, combo@) == n) by {
                                let p2 = choose|p2: int|
                                    0 <= p2 < cm@.len() && (#[trigger] cm@[p2]).0@ == combo@;
                                if p2 != ci as int {
                                    if p2 < ci as int {
                                        assert(cm@[p2].0@ != cm@[ci as int].0@);
                                    } else {
                                        assert(cm@[ci as int].0@ != cm@[p2].0@);
                                    }
                                }
                            }
                        }
                        n
                    },
                    None => {
                        match synthesize_name(
                            Ghost(orig),
                            &mut states,
                            &mut closing,
                            &mut cm,
                            &mut sm,
                            &mut queue,
                            combo,
                        ) {
                            Ok(n) => n,
                            Err(er) => {
                                proof {
                                    assert forall|dch: char|
                                        'A' <= dch && dch <= 'Z' implies orig.states@.contains(
                                        dch,
                                    ) || sm_has(sm@, dch) by {
                                        assert(states@.contains(dch));
                                        let p = choose|p: int|
                                            0 <= p < states@.len() && states@[p] == dch;
                                        if p < orig.states@.len() {
                                            assert(states@.subrange(
                                                0,
                                                orig.states@.len() as int,
                                            )[p] == dch);
                                            assert(orig.states@[p] == dch);
                                            assert(orig.states@.contains(dch));
                                        } else {
                                            assert(sm_has(sm@, states@[p]));
                                        }
                                    }
                                    assert(pool_exhausted_by(orig.states@, sm@));
                                }
                                return Err(FiniteAutomataError::NamingCapacityExceeded);
                            },
                        }
                    },
                };
                proof {
                    lemma_cm_extend(pre_cm, cm@);
                    lemma_prefix_contains(orig.states@, states@);
                    assert forall|x: char| pre_sts.contains(x) implies states@.contains(x) by {
                        let p = choose|p: int| 0 <= p < pre_sts.len() && pre_sts[p] == x;
                        assert(states@[p] == x);
                    }
                    lemma_table_inv_states_grow(orig, table, pre_sts, states@);
                    assert forall|q2: int|
                        #![trigger sm@[q2]]
                        0 <= q2 < sm@.len() implies (exists|j: int|
                        0 <= j < queue@.len() && (#[trigger] queue@[j])@ == sm@[q2].1@) by {
                        if q2 < pre_sm1.len() {
                            assert(sm@[q2] == pre_sm1[q2]);
                            let j = choose|j: int|
                                0 <= j < pre_q1.len() && (#[trigger] pre_q1[j])@
                                    == pre_sm1[q2].1@;
                            assert(queue@[j]@ == pre_q1[j]@);
                        } else {
                            assert(queue@.last()@ == sm@[q2].1@);
                            assert(queue@[queue@.len() - 1]@ == sm@[q2].1@);
                        }
                    }
                    assert(states@.contains(name)) by {
                        assert(crate::dfa::cm_has(cm@, combo@));
                        let p = choose|p: int|
                            0 <= p < cm@.len() && (#[trigger] cm@[p]).0@ == combo@;
                        assert(crate::dfa::cm_binds(cm@, cm@[p].0@, cm@[p].1));
                        assert(crate::dfa::sm_binds(sm@, cm@[p].1, cm@[p].0@));
                        let q = choose|q: int|
                            0 <= q < sm@.len() && (#[trigger] sm@[q]).0 == cm@[p].1 && sm@[q].1@
                                == cm@[p].0@;
                        assert(states@.contains(sm@[q].0));
                        assert(crate::dfa::cm_val(cm@, combo@) == name);
                        assert(cm@[p].1 == name) by {
                            let p2 = choose|p2: int|
                                0 <= p2 < cm@.len() && (#[trigger] cm@[p2]).0@ == combo@;
                            if p2 != p {
                                if p2 < p {
                                    assert(cm@[p2].0@ != cm@[p].0@);
                                } else {
                                    assert(cm@[p].0@ != cm@[p2].0@);
                                }
                            }
                        }
                    }
                    assert(!orig.states@.contains(name)) by {
                        let p = choose|p: int|
                            0 <= p < cm@.len() && (#[trigger] cm@[p]).0@ == combo@;
                        assert(crate::dfa::sm_binds(sm@, cm@[p].1, cm@[p].0@));
                        let q = choose|q: int|
                            0 <= q < sm@.len() && (#[trigger] sm@[q]).0 == cm@[p].1 && sm@[q].1@
                                == cm@[p].0@;
                        assert(!orig.states@.contains(sm@[q].0));
                        assert(cm@[p].1 == name) by {
                            let p2 = choose|p2: int|
                                0 <= p2 < cm@.len() && (#[trigger] cm@[p2]).0@ == combo@;
                            if p2 != p {
                                if p2 < p {
                                    assert(cm@[p2].0@ != cm@[p].0@);
                                } else {
                                    assert(cm@[p].0@ != cm@[p2].0@);
                                }
                            }
                        }
                    }
                }
                let mut single: Vec<char> = Vec::new();
                single.push(name);
                proof {
                    assert(single@ =~= seq![name]);
                }
                let ghost pre_table = table;
                table.insert(key, single);
                proof {
                    assert(key == pre_table.key_at(e as int));
                    pre_table.lemma_get_at(e as int);
                    assert(pre_table.spec_contains_key(key));
                    assert(orig.transitions.spec_contains_key((key.0, key.1))
                        ==> orig.transitions.spec_get_val((key.0, key.1)).len() != 1) by {
                        orig.transitions.lemma_get_at(e as int);
                        assert(orig.transitions.key_at(e as int) == key);
                        assert(orig.transitions.spec_get((key.0, key.1)) == Some(
                            orig.transitions.val_at(e as int),
                        ));
                    }
                    assert(table.spec_get((key.0, key.1)) == Some(seq![name])) by {
                        assert(key == (key.0, key.1));
                    }
                    lemma_insert_singleton(
                        orig,
                        pre_table,
                        table,
                        states@,
                        key.0,
                        key.1,
                        name,
                    );
                    assert(table.spec_len() == pre_table.spec_len());
                    assert(table.index_of(key) == pre_table.index_of(key));
                    assert(pre_table.index_of(key) == e as int) by {
                        pre_table.lemma_get_at(e as int);
                    }
                    assert forall|e2: int|
                        0 <= e2 < table.spec_len() implies #[trigger] table.key_at(e2)
                        == orig.transitions.key_at(e2) by {}
                    assert forall|e2: int|
                        e + 1 <= e2 < table.spec_len() implies #[trigger] table.val_at(e2)
                        == orig.transitions.val_at(e2) by {
                        assert(pre_table.key_at(e2) != key) by {
                            if pre_table.key_at(e2) == key {
                                pre_table.lemma_get_at(e2);
                                pre_table.lemma_get_at(e as int);
                            }
                        }
                    }
                    assert forall|e2: int|
                        0 <= e2 < e + 1 implies (#[trigger] table.val_at(e2)).len() == 1 by {
                        if e2 < e {
                            assert(pre_table.key_at(e2) != key) by {
                                if pre_table.key_at(e2) == key {
                                    pre_table.lemma_get_at(e2);
                                    pre_table.lemma_get_at(e as int);
                                }
                            }
                            assert(table.val_at(e2) == pre_table.val_at(e2));
                        } else {
                            table.lemma_get_at(e as int);
                        }
                    }
                    assert forall|e2: int|
                        0 <= e2 < e + 1 && (#[trigger] orig.transitions.val_at(e2)).len()
                            > 1 implies crate::dfa::cm_has(cm@, orig.transitions.val_at(e2))
                        && table.val_at(e2) == seq![
                        crate::dfa::cm_val(cm@, orig.transitions.val_at(e2)),
                    ] by {
                        if e2 < e {
                            assert(crate::dfa::cm_has(pre_cm, orig.transitions.val_at(e2)));
                            assert(pre_table.key_at(e2) != key) by {
                                if pre_table.key_at(e2) == key {
                                    pre_table.lemma_get_at(e2);
                                    pre_table.lemma_get_at(e as int);
                                }
                            }
                            assert(table.val_at(e2) == pre_table.val_at(e2));
                        } else {
                            table.lemma_get_at(e as int);
                            assert(orig.transitions.val_at(e2) == combo@);
                            assert(table.val_at(e2) == seq![name]);
                        }
                    }
                    assert forall|q2: int|
                        #![trigger sm@[q2]]
                        0 <= q2 < sm@.len() implies (exists|j: int|
                        0 <= j < queue@.len() && (#[trigger] queue@[j])@ == sm@[q2].1@) by {
                        if q2 < pre_sm1.len() {
                            assert(sm@[q2] == pre_sm1[q2]);
                            let j = choose|j: int|
                                0 <= j < pre_q1.len() && (#[trigger] pre_q1[j])@
                                    == pre_sm1[q2].1@;
                            assert(queue@[j]@ == pre_q1[j]@);
                        } else {
                            assert(queue@.last()@ == sm@[q2].1@);
                            assert(queue@[queue@.len() - 1]@ == sm@[q2].1@);
                        }
                    }
                }
            } else {
                proof {
                    assert forall|e2: int|
                        0 <= e2 < e + 1 implies (#[trigger] table.val_at(e2)).len() == 1 by {
                        if e2 == e {
                            assert(table.val_at(e2) == orig.transitions.val_at(e2));
                        }
                    }
                    assert forall|e2: int|
                        0 <= e2 < e + 1 && (#[trigger] orig.transitions.val_at(e2)).len()
                            > 1 implies crate::dfa::cm_has(cm@, orig.transitions.val_at(e2))
                        && table.val_at(e2) == seq![
                        crate::dfa::cm_val(cm@, orig.transitions.val_at(e2)),
                    ] by {
                        if e2 == e {
                            assert(orig.transitions.val_at(e2).len() == 1);
                        }
                    }
                }
            }
            e = e + 1;
        }
        proof {
            assert(table_dfa_shape(table));
            assert(collapsed_ok(orig, table, cm@)) by {
                assert forall|k: (char, char)|
                    #[trigger] orig.transitions.spec_contains_key(k) && orig
                        .transitions.spec_get_val(k).len() > 1 implies crate::dfa::cm_has(
                    cm@,
                    orig.transitions.spec_get_val(k),
                ) && table.spec_get(k) == Some(
                    seq![crate::dfa::cm_val(cm@, orig.transitions.spec_get_val(k))],
                ) by {
                    let e2 = choose|e2: int|
                        0 <= e2 < orig.transitions.spec_len() && orig.transitions.entries@[e2].0
                            == k;
                    orig.transitions.lemma_get_at(e2);
                    assert(orig.transitions.spec_get_val(k) == orig.transitions.val_at(e2));
                    table.lemma_get_at(e2);
                    assert(table.key_at(e2) == k);
                    assert(table.spec_get(k) == Some(table.val_at(e2)));
                }
            }
        }
        // close the transition function over the queued combos
        while queue.len() > 0
            invariant
                build_inv(orig, states@, closing@, cm@, sm@),
                build_table_inv(orig, states@, table),
                table_dfa_shape(table),
                collapsed_ok(orig, table, cm@),
                orig.wf(),
                forall|j: int|
                    0 <= j < queue@.len() ==> crate::dfa::cm_has(cm@, (#[trigger] queue@[j])@)
                        && sorted_distinct(queue@[j]@) && queue@[j]@.len() >= 1 && (forall|d: int|
                        0 <= d < queue@[j]@.len() ==> orig.states@.contains(
                            #[trigger] queue@[j]@[d],
                        )),
                forall|q2: int|
                    #![trigger sm@[q2]]
                    0 <= q2 < sm@.len() ==> ((exists|j: int|
                        0 <= j < queue@.len() && (#[trigger] queue@[j])@ == sm@[q2].1@)
                        || composite_domain_ok(table, sm@[q2].0, sm@[q2].1@, orig.inputs@)),
                queue@.len() > 0 ==> (exists|e2: int|
                    0 <= e2 < orig.transitions.spec_len() && (
                    #[trigger] orig.transitions.val_at(e2)).len() > 1),
            decreases crate::symbols::free_count(states@, 65), queue@.len(),
        {
            proof {
                crate::symbols::lemma_free_count_nonneg(states@, 65);
            }
            let ghost h_states = states@;
            let ghost h_qlen = queue@.len();
            let ghost pre_pop_q = queue@;
            let ghost pre_pop_sm = sm@;
            let combo = match queue.pop() {
                Some(c) => c,
                None => {
                    proof {
                        assert(false);
                    }
                    return Err(FiniteAutomataError::NamingCapacityExceeded);
                },
            };
            let name = match find_combo(&cm, &combo) {
                Some(ci) => {
                    let n = cm[ci].1;
                    proof {
                        assert(crate::dfa::cm_binds(cm@, cm@[ci as int].0@, cm@[ci as int].1));
                        assert(crate::dfa::sm_binds(sm@, cm@[ci as int].1, cm@[ci as int].0@));
                        let q = choose|q: int|
                            0 <= q < sm@.len() && (#[trigger] sm@[q]).0 == cm@[ci as int].1
                                && sm@[q].1@ == cm@[ci as int].0@;
                        assert(states@.contains(n) && !orig.states@.contains(n));
                    }
                    n
                },
                None => {
                    proof {
                        assert(crate::dfa::cm_has(cm@, combo@)) by {
                            assert(queue@.len() == h_qlen - 1);
                        }
                        assert(false);
                    }
                    return Err(FiniteAutomataError::NamingCapacityExceeded);
                },
            };
            proof {
                assert(crate::dfa::sm_binds(sm@, name, combo@));
                assert forall|q2: int|
                    #![trigger sm@[q2]]
                    0 <= q2 < sm@.len() && sm@[q2].0 != name implies ((exists|j: int|
                    0 <= j < queue@.len() && (#[trigger] queue@[j])@ == sm@[q2].1@)
                    || composite_domain_ok(table, sm@[q2].0, sm@[q2].1@, orig.inputs@)) by {
                    assert(sm@[q2] == pre_pop_sm[q2]);
                    if !composite_domain_ok(table, sm@[q2].0, sm@[q2].1@, orig.inputs@) {
                        let j = choose|j: int|
                            0 <= j < pre_pop_q.len() && (#[trigger] pre_pop_q[j])@
                                == pre_pop_sm[q2].1@;
                        if j < pre_pop_q.len() - 1 {
                            assert(queue@[j]@ == sm@[q2].1@);
                        } else {
                            // the last queue entry is the popped combo, which
                            // belongs to `name` alone
                            assert(pre_pop_q[j]@ == combo@);
                            assert(sm@[q2].1@ == combo@);
                            let qn = choose|qn: int|
                                0 <= qn < sm@.len() && (#[trigger] sm@[qn]).0 == name
                                    && sm@[qn].1@ == combo@;
                            if qn != q2 {
                                if qn < q2 {
                                    assert(sm@[qn].1@ != sm@[q2].1@);
                                } else {
                                    assert(sm@[q2].1@ != sm@[qn].1@);
                                }
                            }
                            assert(false);
                        }
                    }
                }
            }
            let mut idx: usize = 0;
            while idx < inputs.len()
                invariant
                    build_inv(orig, states@, closing@, cm@, sm@),
                    build_table_inv(orig, states@, table),
                    table_dfa_shape(table),
                    collapsed_ok(orig, table, cm@),
                    orig.wf(),
                    0 <= idx <= inputs@.len(),
                    inputs@ == orig.inputs@,
                    states@.contains(name),
                    !orig.states@.contains(name),
                    crate::dfa::sm_binds(sm@, name, combo@),
                    forall|p: int|
                        0 <= p < idx ==> (#[trigger] table.spec_contains_key(
                            (name, orig.inputs@[p]),
                        ) <==> (exists|i: int|
                            #![trigger table.spec_contains_key((combo@[i], orig.inputs@[p]))]
                            0 <= i < combo@.len() && table.spec_contains_key(
                                (combo@[i], orig.inputs@[p]),
                            ))),
                    forall|q2: int|
                        #![trigger sm@[q2]]
                        0 <= q2 < sm@.len() && sm@[q2].0 != name ==> ((exists|j: int|
                            0 <= j < queue@.len() && (#[trigger] queue@[j])@ == sm@[q2].1@)
                            || composite_domain_ok(table, sm@[q2].0, sm@[q2].1@, orig.inputs@)),
                    forall|d: int|
                        0 <= d < combo@.len() ==> orig.states@.contains(#[trigger] combo@[d]),
                    forall|j: int|
                        0 <= j < queue@.len() ==> crate::dfa::cm_has(cm@, (#[trigger] queue@[j])@)
                            && sorted_distinct(queue@[j]@) && queue@[j]@.len() >= 1 && (forall|
                            d: int,
                        |
                            0 <= d < queue@[j]@.len() ==> orig.states@.contains(
                                #[trigger] queue@[j]@[d],
                            )),
                    (states@ == h_states && queue@.len() <= h_qlen - 1)
                        || crate::symbols::free_count(states@, 65) < crate::symbols::free_count(
                        h_states,
                        65,
                    ),
                    exists|e2: int|
                        0 <= e2 < orig.transitions.spec_len() && (
                        #[trigger] orig.transitions.val_at(e2)).len() > 1,
                decreases inputs@.len() - idx,
            {
                let a = inputs[idx];
                let ghost it_states = states@;
                proof {
                    assert(a == orig.inputs@[idx as int]);
                    assert(orig.inputs@.contains(a));
                }
                let mut dvec: Vec<char> = Vec::new();
                let mut m: usize = 0;
                while m < combo.len()
                    invariant
                        0 <= m <= combo@.len(),
                        sorted_distinct(dvec@),
                        forall|d: int|
                            0 <= d < dvec@.len() ==> states@.contains(#[trigger] dvec@[d]) && (
                            orig.states@.contains(dvec@[d]) || !sm_has(sm@, dvec@[d])),
                        (dvec@.len() > 0) <==> (exists|i: int|
                            #![trigger combo@[i]]
                            0 <= i < m && table.spec_contains_key((combo@[i], a))),
                    decreases combo@.len() - m,
                {
                    let qstate = combo[m];
                    match table.get(&(qstate, a)) {
                        Some(list) => {
                            let lc = clone_chars(list);
                            proof {
                                assert(table.spec_contains_key((qstate, a)));
                                let e2 = choose|e2: int|
                                    0 <= e2 < table.spec_len() && table.entries@[e2].0 == (
                                    qstate,
                                    a,
                                    );
                                table.lemma_get_at(e2);
                                assert(lc@ == table.val_at(e2));
                                assert forall|d: int|
                                    0 <= d < lc@.len() implies states@.contains(
                                    #[trigger] lc@[d],
                                ) by {
                                    assert(table.key_at(e2) == table.key_at(e2));
                                }
                            }
                            let mut x_i: usize = 0;
                            while x_i < lc.len()
                                invariant
                                    0 <= x_i <= lc@.len(),
                                    x_i > 0 ==> dvec@.len() >= 1,
                                    sorted_distinct(dvec@),
                                    forall|d: int|
                                        0 <= d < lc@.len() ==> states@.contains(
                                            #[trigger] lc@[d],
                                        ),
                                    forall|d: int|
                                        0 <= d < dvec@.len() ==> states@.contains(
                                            #[trigger] dvec@[d],
                                        ) && (orig.states@.contains(dvec@[d]) || !sm_has(
                                            sm@,
                                            dvec@[d],
                                        )),
                                decreases lc@.len() - x_i,
                            {
                                let x = lc[x_i];
                                proof {
                                    assert(states@.contains(x)) by {
                                        assert(lc@[x_i as int] == x);
                                    }
                                }
                                match find_name(&sm, x) {
                                    Some(si) => {
                                        let cb = clone_chars(&sm[si].1);
                                        proof {
                                            assert(cb@ == sm@[si as int].1@);
                                            assert(cb@.len() >= 1);
                                            assert forall|d: int|
                                                0 <= d < cb@.len() implies states@.contains(
                                                #[trigger] cb@[d],
                                            ) by {
                                                assert(orig.states@.contains(
                                                    sm@[si as int].1@[d],
                                                ));
                                                lemma_prefix_contains(orig.states@, states@);
                                            }
                                        }
                                        let mut y_i: usize = 0;
                                        while y_i < cb.len()
                                            invariant
                                                0 <= y_i <= cb@.len(),
                                                y_i > 0 ==> dvec@.len() >= 1,
                                                sorted_distinct(dvec@),
                                                forall|d: int|
                                                    0 <= d < cb@.len() ==> states@.contains(
                                                        #[trigger] cb@[d],
                                                    ) && orig.states@.contains(cb@[d]),
                                                forall|d: int|
                                                    0 <= d < dvec@.len() ==> states@.contains(
                                                        #[trigger] dvec@[d],
                                                    ) && (orig.states@.contains(dvec@[d])
                                                        || !sm_has(sm@, dvec@[d])),
                                            decreases cb@.len() - y_i,
                                        {
                                            let y = cb[y_i];
                                            let ghost pre_d = dvec@;
                                            insert_sorted(&mut dvec, y);
                                            proof {
                                                assert forall|d: int|
                                                    0 <= d < dvec@.len() implies states@.contains(
                                                    #[trigger] dvec@[d],
                                                ) && (orig.states@.contains(dvec@[d]) || !sm_has(
                                                    sm@,
                                                    dvec@[d],
                                                )) by {
                                                    assert(dvec@.contains(dvec@[d]));
                                                    if dvec@[d] == y {
                                                        assert(cb@[y_i as int] == y);
                                                    } else {
                                                        assert(pre_d.contains(dvec@[d]));
                                                        let p = choose|p: int|
                                                            0 <= p < pre_d.len() && pre_d[p]
                                                                == dvec@[d];
                                                    }
                                                }
                                                assert(dvec@.contains(y));
                                                let yy = choose|yy: int|
                                                    0 <= yy < dvec@.len() && dvec@[yy] == y;
                                                assert(dvec@.len() >= 1);
                                            }
                                            y_i = y_i + 1;
                                        }
                                    },
                                    None => {
                                        let ghost pre_d = dvec@;
                                        insert_sorted(&mut dvec, x);
                                        proof {
                                            assert forall|d: int|
                                                0 <= d < dvec@.len() implies states@.contains(
                                                #[trigger] dvec@[d],
                                            ) && (orig.states@.contains(dvec@[d]) || !sm_has(
                                                sm@,
                                                dvec@[d],
                                            )) by {
                                                assert(dvec@.contains(dvec@[d]));
                                                if dvec@[d] != x {
                                                    assert(pre_d.contains(dvec@[d]));
                                                    let p = choose|p: int|
                                                        0 <= p < pre_d.len() && pre_d[p]
                                                            == dvec@[d];
                                                }
                                            }
                                            assert(dvec@.contains(x));
                                            let xx = choose|xx: int|
                                                0 <= xx < dvec@.len() && dvec@[xx] == x;
                                            assert(dvec@.len() >= 1);
                                        }
                                    },
                                }
                                x_i = x_i + 1;
                            }
                            proof {
                                assert(lc@.len() >= 1);
                                assert(dvec@.len() >= 1);
                                assert(table.spec_contains_key((combo@[m as int], a)));
                                assert((dvec@.len() > 0) <==> (exists|i: int|
                                    #![trigger combo@[i]]
                                    0 <= i < m + 1 && table.spec_contains_key(
                                        (combo@[i], a),
                                    ))) by {
                                    assert(combo@[m as int] == combo@[m as int]);
                                }
                            }
                        },
                        None => {
                            proof {
                                assert(!table.spec_contains_key((combo@[m as int], a)));
                                assert((dvec@.len() > 0) <==> (exists|i: int|
                                    #![trigger combo@[i]]
                                    0 <= i < m + 1 && table.spec_contains_key(
                                        (combo@[i], a),
                                    ))) by {
                                    if exists|i: int|
                                        #![trigger combo@[i]]
                                        0 <= i < m + 1 && table.spec_contains_key(
                                            (combo@[i], a),
                                        ) {
                                        let i = choose|i: int|
                                            #![trigger combo@[i]]
                                            0 <= i < m + 1 && table.spec_contains_key(
                                                (combo@[i], a),
                                            );
                                        assert(i < m);
                                    }
                                }
                            }
                        },
                    }
                    m = m + 1;
                }
                let ghost dlen = dvec@.len();
                if dvec.len() > 0 {
                    if dvec.len() == 1 {
                        let ghost pre_table = table;
                        let ghost dv = dvec@;
                        proof {
                            assert(dv =~= seq![dv[0]]);
                            assert(states@.contains(dv[0]));
                        }
                        table.insert((name, a), dvec);
                        proof {
                            lemma_update_preserves_other_domains(
                                orig,
                                pre_table,
                                table,
                                sm@,
                                name,
                                a,
                            );
                            assert(distinct(orig.inputs@));
                            lemma_update_preserves_settled_inputs(
                                orig,
                                pre_table,
                                table,
                                name,
                                a,
                                combo@,
                                idx as int,
                            );
                            assert forall|p: int|
                                0 <= p < idx + 1 implies (#[trigger] table.spec_contains_key(
                                (name, orig.inputs@[p]),
                            ) <==> (exists|i: int|
                                #![trigger table.spec_contains_key((combo@[i], orig.inputs@[p]))]
                                0 <= i < combo@.len() && table.spec_contains_key(
                                    (combo@[i], orig.inputs@[p]),
                                ))) by {
                                if p == idx {
                                    assert(table.spec_contains_key((name, a)));
                                    let i = choose|i: int|
                                        #![trigger combo@[i]]
                                        0 <= i < combo@.len() && pre_table.spec_contains_key(
                                            (combo@[i], a),
                                        );
                                    assert(orig.states@.contains(combo@[i]));
                                    assert((combo@[i], a) != (name, a));
                                    assert(table.spec_get((combo@[i], a))
                                        == pre_table.spec_get((combo@[i], a)));
                                    assert(table.spec_contains_key((combo@[i], a)));
                                }
                            }
                        }
                        proof {
                            assert(!orig.transitions.spec_contains_key((name, a))) by {
                                if orig.transitions.spec_contains_key((name, a)) {
                                    let e2 = choose|e2: int|
                                        0 <= e2 < orig.transitions.spec_len() && orig
                                            .transitions.entries@[e2].0 == (name, a);
                                    orig.transitions.lemma_get_at(e2);
                                    assert(orig.states@.contains(
                                        orig.transitions.key_at(e2).0,
                                    ));
                                }
                            }
                            lemma_insert_singleton(
                                orig,
                                pre_table,
                                table,
                                states@,
                                name,
                                a,
                                dv[0],
                            );
                            assert(collapsed_ok(orig, table, cm@)) by {
                                assert forall|k: (char, char)|
                                    #[trigger] orig.transitions.spec_contains_key(k) && orig
                                        .transitions.spec_get_val(k).len()
                                        > 1 implies crate::dfa::cm_has(
                                    cm@,
                                    orig.transitions.spec_get_val(k),
                                ) && table.spec_get(k) == Some(
                                    seq![
                                        crate::dfa::cm_val(
                                            cm@,
                                            orig.transitions.spec_get_val(k),
                                        ),
                                    ],
                                ) by {
                                    let e2 = choose|e2: int|
                                        0 <= e2 < orig.transitions.spec_len() && orig
                                            .transitions.entries@[e2].0 == k;
                                    orig.transitions.lemma_get_at(e2);
                                    assert(orig.states@.contains(
                                        orig.transitions.key_at(e2).0,
                                    ));
                                    assert(k != (name, a));
                                    assert(table.spec_get(k) == pre_table.spec_get(k));
                                }
                            }
                        }
                    } else {
                        let ghost pre_cm2 = cm@;
                        let ghost pre_sm3 = sm@;
                        let ghost pre_q3 = queue@;
                        let n2 = match find_combo(&cm, &dvec) {
                            Some(ci) => {
                                let n = cm[ci].1;
                                proof {
                                    assert(crate::dfa::cm_binds(
                                        cm@,
                                        cm@[ci as int].0@,
                                        cm@[ci as int].1,
                                    ));
                                    assert(crate::dfa::sm_binds(
                                        sm@,
                                        cm@[ci as int].1,
                                        cm@[ci as int].0@,
                                    ));
                                    let q = choose|q: int|
                                        0 <= q < sm@.len() && (#[trigger] sm@[q]).0
                                            == cm@[ci as int].1 && sm@[q].1@
                                            == cm@[ci as int].0@;
                                    assert(states@.contains(n) && !orig.states@.contains(n));
                                }
                                n
                            },
                            None => {
                                let dcopy = clone_chars(&dvec);
                                let ghost pre_sts2 = states@;
                                proof {
                                    // the members of the new combo are original
                                    // states: a grown state would be a mapped
                                    // name, and mapped names were expanded away
                                    assert forall|d: int|
                                        0 <= d < dcopy@.len() implies orig.states@.contains(
                                        #[trigger] dcopy@[d],
                                    ) by {
                                        let x = dcopy@[d];
                                        assert(states@.contains(x) && (orig.states@.contains(x)
                                            || !sm_has(sm@, x)));
                                        if !orig.states@.contains(x) {
                                            let p = choose|p: int|
                                                0 <= p < states@.len() && states@[p] == x;
                                            if p >= orig.states@.len() {
                                                assert(sm_has(sm@, states@[p]));
                                                assert(false);
                                            } else {
                                                assert(states@.subrange(
                                                    0,
                                                    orig.states@.len() as int,
                                                )[p] == x);
                                                assert(orig.states@[p] == x);
                                                assert(orig.states@.contains(x));
                                                assert(false);
                                            }
                                        }
                                    }
                                }
                                match synthesize_name(
                                    Ghost(orig),
                                    &mut states,
                                    &mut closing,
                                    &mut cm,
                                    &mut sm,
                                    &mut queue,
                                    dcopy,
                                ) {
                                    Ok(n) => {
                                        proof {
                                            crate::symbols::lemma_free_letters_shrink(
                                                pre_sts2,
                                                n,
                                            );
                                            if pre_sts2 == h_states {
                                            } else {
                                                crate::symbols::lemma_free_count_le(
                                                    pre_sts2,
                                                    n,
                                                    65,
                                                );
                                            }
                                        }
                                        n
                                    },
                                    Err(er) => {
                                proof {
                                    assert forall|dch: char|
                                        'A' <= dch && dch <= 'Z' implies orig.states@.contains(
                                        dch,
                                    ) || sm_has(sm@, dch) by {
                                        assert(states@.contains(dch));
                                        let p = choose|p: int|
                                            0 <= p < states@.len() && states@[p] == dch;
                                        if p < orig.states@.len() {
                                            assert(states@.subrange(
                                                0,
                                                orig.states@.len() as int,
                                            )[p] == dch);
                                            assert(orig.states@[p] == dch);
                                            assert(orig.states@.contains(dch));
                                        } else {
                                            assert(sm_has(sm@, states@[p]));
                                        }
                                    }
                                    assert(pool_exhausted_by(orig.states@, sm@));
                                }
                                        return Err(
                                            FiniteAutomataError::NamingCapacityExceeded,
                                        );
                                    },
                                }
                            },
                        };
                        proof {
                            lemma_cm_extend(pre_cm2, cm@);
                            lemma_prefix_contains(orig.states@, states@);
                            assert forall|x: char| it_states.contains(x) implies states@.contains(
                                x,
                            ) by {
                                let p = choose|p: int|
                                    0 <= p < it_states.len() && it_states[p] == x;
                                assert(states@[p] == x);
                            }
                            lemma_table_inv_states_grow(orig, table, it_states, states@);
                            // the bookkeeping survives a possible synthesis:
                            // the new composite is queued, the rest kept
                            assert(crate::dfa::sm_binds(sm@, name, combo@)) by {
                                let q = choose|q: int|
                                    0 <= q < pre_sm3.len() && (#[trigger] pre_sm3[q]).0 == name
                                        && pre_sm3[q].1@ == combo@;
                                assert(sm@[q] == pre_sm3[q]);
                            }
                            assert forall|q2: int|
                                #![trigger sm@[q2]]
                                0 <= q2 < sm@.len() && sm@[q2].0 != name implies ((exists|j: int|
                                0 <= j < queue@.len() && (#[trigger] queue@[j])@ == sm@[q2].1@)
                                || composite_domain_ok(
                                    table,
                                    sm@[q2].0,
                                    sm@[q2].1@,
                                    orig.inputs@,
                                )) by {
                                if q2 < pre_sm3.len() {
                                    assert(sm@[q2] == pre_sm3[q2]);
                                    if !composite_domain_ok(
                                        table,
                                        sm@[q2].0,
                                        sm@[q2].1@,
                                        orig.inputs@,
                                    ) {
                                        let j = choose|j: int|
                                            0 <= j < pre_q3.len() && (#[trigger] pre_q3[j])@
                                                == pre_sm3[q2].1@;
                                        assert(queue@[j]@ == pre_q3[j]@);
                                    }
                                } else {
                                    assert(sm@[q2].0 == sm@.last().0 && sm@[q2].1@
                                        == sm@.last().1@);
                                    assert(queue@.last()@ == sm@[q2].1@);
                                    assert(queue@[queue@.len() - 1]@ == sm@[q2].1@);
                                }
                            }
                        }
                        let mut single: Vec<char> = Vec::new();
                        single.push(n2);
                        proof {
                            assert(single@ =~= seq![n2]);
                        }
                        let ghost pre_table = table;
                        table.insert((name, a), single);
                        proof {
                            lemma_update_preserves_other_domains(
                                orig,
                                pre_table,
                                table,
                                sm@,
                                name,
                                a,
                            );
                            assert(distinct(orig.inputs@));
                            lemma_update_preserves_settled_inputs(
                                orig,
                                pre_table,
                                table,
                                name,
                                a,
                                combo@,
                                idx as int,
                            );
                            assert forall|p: int|
                                0 <= p < idx + 1 implies (#[trigger] table.spec_contains_key(
                                (name, orig.inputs@[p]),
                            ) <==> (exists|i: int|
                                #![trigger table.spec_contains_key((combo@[i], orig.inputs@[p]))]
                                0 <= i < combo@.len() && table.spec_contains_key(
                                    (combo@[i], orig.inputs@[p]),
                                ))) by {
                                if p == idx {
                                    assert(table.spec_contains_key((name, a)));
                                    let i = choose|i: int|
                                        #![trigger combo@[i]]
                                        0 <= i < combo@.len() && pre_table.spec_contains_key(
                                            (combo@[i], a),
                                        );
                                    assert(orig.states@.contains(combo@[i]));
                                    assert((combo@[i], a) != (name, a));
                                    assert(table.spec_get((combo@[i], a))
                                        == pre_table.spec_get((combo@[i], a)));
                                    assert(table.spec_contains_key((combo@[i], a)));
                                }
                            }
                            assert(!orig.transitions.spec_contains_key((name, a))) by {
                                if orig.transitions.spec_contains_key((name, a)) {
                                    let e2 = choose|e2: int|
                                        0 <= e2 < orig.transitions.spec_len() && orig
                                            .transitions.entries@[e2].0 == (name, a);
                                    orig.transitions.lemma_get_at(e2);
                                    assert(orig.states@.contains(
                                        orig.transitions.key_at(e2).0,
                                    ));
                                }
                            }
                            lemma_insert_singleton(
                                orig,
                                pre_table,
                                table,
                                states@,
                                name,
                                a,
                                n2,
                            );
                            assert(collapsed_ok(orig, table, cm@)) by {
                                assert forall|k: (char, char)|
                                    #[trigger] orig.transitions.spec_contains_key(k) && orig
                                        .transitions.spec_get_val(k).len()
                                        > 1 implies crate::dfa::cm_has(
                                    cm@,
                                    orig.transitions.spec_get_val(k),
                                ) && table.spec_get(k) == Some(
                                    seq![
                                        crate::dfa::cm_val(
                                            cm@,
                                            orig.transitions.spec_get_val(k),
                                        ),
                                    ],
                                ) by {
                                    let e2 = choose|e2: int|
                                        0 <= e2 < orig.transitions.spec_len() && orig
                                            .transitions.entries@[e2].0 == k;
                                    orig.transitions.lemma_get_at(e2);
                                    assert(orig.states@.contains(
                                        orig.transitions.key_at(e2).0,
                                    ));
                                    assert(k != (name, a));
                                    assert(table.spec_get(k) == pre_table.spec_get(k));
                                    assert(crate::dfa::cm_has(
                                        pre_cm2,
                                        orig.transitions.spec_get_val(k),
                                    ));
                                }
                            }
                        }
                    }
                } else {
                    // no member of the combo moves on this symbol: the
                    // composite gets no transition either
                    let ghost pre_table = table;
                    table.remove(&(name, a));
                    proof {
                        lemma_remove_key(orig, pre_table, table, states@, name, a);
                        assert(collapsed_ok(orig, table, cm@)) by {
                            assert forall|k: (char, char)|
                                #[trigger] orig.transitions.spec_contains_key(k) && orig
                                    .transitions.spec_get_val(k).len()
                                    > 1 implies crate::dfa::cm_has(
                                cm@,
                                orig.transitions.spec_get_val(k),
                            ) && table.spec_get(k) == Some(
                                seq![
                                    crate::dfa::cm_val(cm@, orig.transitions.spec_get_val(k)),
                                ],
                            ) by {
                                let e2 = choose|e2: int|
                                    0 <= e2 < orig.transitions.spec_len() && orig
                                        .transitions.entries@[e2].0 == k;
                                orig.transitions.lemma_get_at(e2);
                                assert(orig.states@.contains(orig.transitions.key_at(e2).0));
                                assert(k != (name, a));
                                assert(table.spec_get(k) == pre_table.spec_get(k));
                            }
                        }
                        lemma_update_preserves_other_domains(
                            orig,
                            pre_table,
                            table,
                            sm@,
                            name,
                            a,
                        );
                        assert(distinct(orig.inputs@));
                        lemma_update_preserves_settled_inputs(
                            orig,
                            pre_table,
                            table,
                            name,
                            a,
                            combo@,
                            idx as int,
                        );
                        assert forall|p: int|
                            0 <= p < idx + 1 implies (#[trigger] table.spec_contains_key(
                            (name, orig.inputs@[p]),
                        ) <==> (exists|i: int|
                            #![trigger table.spec_contains_key((combo@[i], orig.inputs@[p]))]
                            0 <= i < combo@.len() && table.spec_contains_key(
                                (combo@[i], orig.inputs@[p]),
                            ))) by {
                            if p == idx {
                                assert(!table.spec_contains_key((name, a)));
                                if exists|i: int|
                                    #![trigger table.spec_contains_key((combo@[i], orig.inputs@[p]))]
                                    0 <= i < combo@.len() && table.spec_contains_key(
                                        (combo@[i], orig.inputs@[p]),
                                    ) {
                                    let i = choose|i: int|
                                        #![trigger table.spec_contains_key(
                                            (combo@[i], orig.inputs@[p]),
                                        )]
                                        0 <= i < combo@.len() && table.spec_contains_key(
                                            (combo@[i], orig.inputs@[p]),
                                        );
                                    assert(orig.states@.contains(combo@[i]));
                                    assert((combo@[i], a) != (name, a));
                                    assert(pre_table.spec_get((combo@[i], a)) == table.spec_get(
                                        (combo@[i], a),
                                    ));
                                    assert(pre_table.spec_contains_key((combo@[i], a)));
                                    assert(false);
                                }
                            }
                        }
                    }
                }
                idx = idx + 1;
            }
            proof {
                crate::symbols::lemma_free_count_nonneg(states@, 65);
                crate::symbols::lemma_free_count_nonneg(h_states, 65);
                assert forall|q2: int|
                    #![trigger sm@[q2]]
                    0 <= q2 < sm@.len() implies ((exists|j: int|
                    0 <= j < queue@.len() && (#[trigger] queue@[j])@ == sm@[q2].1@)
                    || composite_domain_ok(table, sm@[q2].0, sm@[q2].1@, orig.inputs@)) by {
                    if sm@[q2].0 == name {
                        let qn = choose|qn: int|
                            0 <= qn < sm@.len() && (#[trigger] sm@[qn]).0 == name && sm@[qn].1@
                                == combo@;
                        if qn != q2 {
                            if qn < q2 {
                                assert(sm@[qn].0 != sm@[q2].0);
                            } else {
                                assert(sm@[q2].0 != sm@[qn].0);
                            }
                        }
                        assert(sm@[q2].1@ == combo@);
                        assert(composite_domain_ok(table, name, combo@, orig.inputs@));
                    }
                }
            }
        }
        let d = Dfa {
            states,
            inputs,
            transitions: table,
            starting_states,
            closing_states: closing,
            state_combo_to_state_map: cm,
            state_to_state_combo_map: sm,
        };
        proof {
            lemma_prefix_contains(orig.states@, d.states@);
            assert(d.states@.contains(d.starting_states@[0])) by {
                assert(orig.states@.contains(orig.starting_states@[0]));
            }
            assert forall|x: char|
                orig.states@.contains(x) implies (d.closing_states@.contains(x)
                <==> orig.closing_states@.contains(x)) by {
                if d.closing_states@.contains(x) && !orig.closing_states@.contains(x) {
                    assert(sm_has(d.state_to_state_combo_map@, x));
                    let q = choose|q: int|
                        0 <= q < d.state_to_state_combo_map@.len() && (
                        #[trigger] d.state_to_state_combo_map@[q]).0 == x;
                    assert(!orig.states@.contains(d.state_to_state_combo_map@[q].0));
                }
                if orig.closing_states@.contains(x) {
                    let oc = choose|oc: int|
                        0 <= oc < orig.closing_states@.len() && orig.closing_states@[oc] == x;
                    assert(d.closing_states@.contains(orig.closing_states@[oc]));
                }
            }
            assert(d.wf());
            assert forall|k: (char, char)|
                #[trigger] orig.transitions.spec_contains_key(k) && orig
                    .transitions.spec_get_val(k).len() == 1 implies d.transitions.spec_get(k)
                == orig.transitions.spec_get(k) by {}
            assert forall|q: int|
                #![trigger d.state_to_state_combo_map@[q]]
                0 <= q < d.state_to_state_combo_map@.len() implies composite_domain_ok(
                d.transitions,
                d.state_to_state_combo_map@[q].0,
                d.state_to_state_combo_map@[q].1@,
                orig.inputs@,
            ) by {
                assert(sm@[q] == d.state_to_state_combo_map@[q]);
                assert(queue@.len() == 0);
            }
        }
        Ok(d)
    }
}

impl Dfa {
    /// Converts a right-aligned regular grammar straight to a deterministic
    /// automaton: the grammar-to-automaton conversion followed by subset
    /// construction.
    pub fn from_grammar(grammar: Grammar) -> (r: Result<Dfa, FiniteAutomataError>)
        requires
            grammar.wf(),
            distinct(grammar.non_terminals@),
            distinct(grammar.terminals@),
        ensures
            (r matches Err(FiniteAutomataError::InvalidGrammarType)) <==> grammar.grammar_type
                != GrammarType::Regular(RegularType::Right),
            match r {
                Ok(d) => {
                    &&& d.wf()
                    &&& d.inputs@ == grammar.terminals@
                    &&& d.starting_states@ == seq![grammar.starting_non_terminal]
                    &&& grammar.grammar_type == GrammarType::Regular(RegularType::Right)
                },
                Err(_) => true,
            },
    {
        match Nfa::from_grammar(grammar) {
            Ok(nfa) => nfa.to_deterministic(),
            Err(e) => Err(e),
        }
    }
}

} // verus!
