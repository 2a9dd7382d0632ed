//! Deterministic finite automata: the shape of an NFA plus two mutually
//! inverse mappings between composite states (sorted lists of original
//! states) and their synthesized single-symbol names; with reachability
//! pruning and equivalence-partition minimization.
use vstd::prelude::*;

use crate::fsa::FiniteAutomataError;
use crate::nfa::Nfa;
use crate::state_transition_table::StateTransitionTable;
use crate::symbols::{chars_eq, clone_chars, contains_char, distinct, find_fresh_letter};

verus! {

/// The combo map has an entry for `c`.
pub open spec fn cm_has(cm: Seq<(Vec<char>, char)>, c: Seq<char>) -> bool {
    exists|p: int| 0 <= p < cm.len() && (#[trigger] cm[p]).0@ == c
}

/// The name bound to combo `c`; meaningful only when present.
pub open spec fn cm_val(cm: Seq<(Vec<char>, char)>, c: Seq<char>) -> char {
    cm[choose|p: int| 0 <= p < cm.len() && (#[trigger] cm[p]).0@ == c].1
}

/// The name map has an entry for `n`.
pub open spec fn sm_has(sm: Seq<(char, Vec<char>)>, n: char) -> bool {
    exists|q: int| 0 <= q < sm.len() && (#[trigger] sm[q]).0 == n
}

/// The combo bound to name `n`; meaningful only when present.
pub open spec fn sm_val(sm: Seq<(char, Vec<char>)>, n: char) -> Seq<char> {
    sm[choose|q: int| 0 <= q < sm.len() && (#[trigger] sm[q]).0 == n].1@
}

/// Name `name` is bound to `combo` in the name map.
pub open spec fn sm_binds(sm: Seq<(char, Vec<char>)>, name: char, combo: Seq<char>) -> bool {
    exists|q: int| 0 <= q < sm.len() && (#[trigger] sm[q]).0 == name && sm[q].1@ == combo
}

/// Combo `combo` is bound to `name` in the combo map.
pub open spec fn cm_binds(cm: Seq<(Vec<char>, char)>, combo: Seq<char>, name: char) -> bool {
    exists|p: int| 0 <= p < cm.len() && (#[trigger] cm[p]).0@ == combo && cm[p].1 == name
}

/// The two maps are mutually inverse: keys are unique on both sides and each
/// binding appears, transposed, in the other map.
pub open spec fn maps_bijective(cm: Seq<(Vec<char>, char)>, sm: Seq<(char, Vec<char>)>) -> bool {
    &&& forall|p: int, q: int|
        0 <= p < q < cm.len() ==> (#[trigger] cm[p]).0@ != (#[trigger] cm[q]).0@ && cm[p].1
            != cm[q].1
    &&& forall|p: int, q: int|
        0 <= p < q < sm.len() ==> (#[trigger] sm[p]).0 != (#[trigger] sm[q]).0 && sm[p].1@
            != sm[q].1@
    &&& forall|p: int| 0 <= p < cm.len() ==> sm_binds(sm, (#[trigger] cm[p]).1, cm[p].0@)
    &&& forall|q: int| 0 <= q < sm.len() ==> cm_binds(cm, (#[trigger] sm[q]).1@, sm[q].0)
}

/// Finds the position of combo `c` in the combo map.
pub(crate) fn find_combo(m: &Vec<(Vec<char>, char)>, c: &Vec<char>) -> (r: Option<usize>)
    ensures
        match r {
            Some(i) => 0 <= i < m@.len() && m@[i as int].0@ == c@,
            None => !cm_has(m@, c@),
        },
{
    let mut i: usize = 0;
    while i < m.len()
        invariant
            0 <= i <= m@.len(),
            forall|p: int| 0 <= p < i ==> (#[trigger] m@[p]).0@ != c@,
        decreases m@.len() - i,
    {
        if chars_eq(&m[i].0, c) {
            return Some(i);
        }
        i = i + 1;
    }
    None
}

/// Finds the position of name `n` in the name map.
pub(crate) fn find_name(m: &Vec<(char, Vec<char>)>, n: char) -> (r: Option<usize>)
    ensures
        match r {
            Some(i) => 0 <= i < m@.len() && m@[i as int].0 == n,
            None => !sm_has(m@, n),
        },
{
    let mut i: usize = 0;
    while i < m.len()
        invariant
            0 <= i <= m@.len(),
            forall|p: int| 0 <= p < i ==> (#[trigger] m@[p]).0 != n,
        decreases m@.len() - i,
    {
        if m[i].0 == n {
            return Some(i);
        }
        i = i + 1;
    }
    None
}

/// Binds a new combo to a new name in both maps. Both keys must be absent.
pub(crate) fn maps_insert_pair(
    cm: &mut Vec<(Vec<char>, char)>,
    sm: &mut Vec<(char, Vec<char>)>,
    combo: Vec<char>,
    name: char,
)
    requires
        maps_bijective(old(cm)@, old(sm)@),
        !cm_has(old(cm)@, combo@),
        !sm_has(old(sm)@, name),
    ensures
        maps_bijective(final(cm)@, final(sm)@),
        final(cm)@.len() == old(cm)@.len() + 1,
        final(sm)@.len() == old(sm)@.len() + 1,
        forall|p: int| 0 <= p < old(cm)@.len() ==> final(cm)@[p] == old(cm)@[p],
        forall|q: int| 0 <= q < old(sm)@.len() ==> final(sm)@[q] == old(sm)@[q],
        final(cm)@.last().0@ == combo@ && final(cm)@.last().1 == name,
        final(sm)@.last().0 == name && final(sm)@.last().1@ == combo@,
{
    let c2 = clone_chars(&combo);
    cm.push((c2, name));
    sm.push((name, combo));
    proof {
        let cmn = cm@;
        let smn = sm@;
        let cmo = old(cm)@;
        let smo = old(sm)@;
        let n = cmo.len() as int;
        let m = smo.len() as int;
        assert forall|p: int| 0 <= p < n implies cmn[p] == cmo[p] by {}
        assert forall|q: int| 0 <= q < m implies smn[q] == smo[q] by {}
        // no old combo value carries the new name, and no old name value the
        // new combo
        assert forall|p: int| 0 <= p < n implies (#[trigger] cmo[p]).1 != name by {
            assert(sm_binds(smo, cmo[p].1, cmo[p].0@));
            let q = choose|q: int|
                0 <= q < smo.len() && (#[trigger] smo[q]).0 == cmo[p].1 && smo[q].1@
                    == cmo[p].0@;
            if cmo[p].1 == name {
                assert(sm_has(smo, name));
            }
        }
        assert forall|q: int| 0 <= q < m implies (#[trigger] smo[q]).1@ != combo@ by {
            assert(cm_binds(cmo, smo[q].1@, smo[q].0));
            let p = choose|p: int|
                0 <= p < cmo.len() && (#[trigger] cmo[p]).0@ == smo[q].1@ && cmo[p].1
                    == smo[q].0;
            if smo[q].1@ == combo@ {
                assert(cm_has(cmo, combo@));
            }
        }
        assert forall|p: int, q: int|
            0 <= p < q < cmn.len() implies (#[trigger] cmn[p]).0@ != (#[trigger] cmn[q]).0@
            && cmn[p].1 != cmn[q].1 by {
            if q == n {
                assert(cmn[q].0@ == combo@ && cmn[q].1 == name);
                assert(cmn[p] == cmo[p]);
                if cmo[p].0@ == combo@ {
                    assert(cm_has(cmo, combo@));
                }
            }
        }
        assert forall|p: int, q: int|
            0 <= p < q < smn.len() implies (#[trigger] smn[p]).0 != (#[trigger] smn[q]).0
            && smn[p].1@ != smn[q].1@ by {
            if q == m {
                assert(smn[q].0 == name && smn[q].1@ == combo@);
                assert(smn[p] == smo[p]);
                if smo[p].0 == name {
                    assert(sm_has(smo, name));
                }
            }
        }
        assert forall|p: int|
            0 <= p < cmn.len() implies sm_binds(smn, (#[trigger] cmn[p]).1, cmn[p].0@) by {
            if p < n {
                assert(sm_binds(smo, cmo[p].1, cmo[p].0@));
                let q = choose|q: int|
                    0 <= q < smo.len() && (#[trigger] smo[q]).0 == cmo[p].1 && smo[q].1@
                        == cmo[p].0@;
                assert(smn[q].0 == cmn[p].1 && smn[q].1@ == cmn[p].0@);
            } else {
                assert(smn[m].0 == cmn[p].1 && smn[m].1@ == cmn[p].0@);
            }
        }
        assert forall|q: int|
            0 <= q < smn.len() implies cm_binds(cmn, (#[trigger] smn[q]).1@, smn[q].0) by {
            if q < m {
                assert(cm_binds(cmo, smo[q].1@, smo[q].0));
                let p = choose|p: int|
                    0 <= p < cmo.len() && (#[trigger] cmo[p]).0@ == smo[q].1@ && cmo[p].1
                        == smo[q].0;
                assert(cmn[p].0@ == smn[q].1@ && cmn[p].1 == smn[q].0);
            } else {
                assert(cmn[n].0@ == smn[q].1@ && cmn[n].1 == smn[q].0);
            }
        }
        assert(maps_bijective(cm@, sm@));
    }
}

/// `c` is reachable from an initial state within `n` transition steps.
pub open spec fn dfa_reachable_within(
    t: StateTransitionTable,
    starting: Seq<char>,
    c: char,
    n: nat,
) -> bool
    decreases n,
{
    if n == 0 {
        starting.contains(c)
    } else {
        dfa_reachable_within(t, starting, c, (n - 1) as nat) || exists|e: int|
            #![trigger t.key_at(e)]
            0 <= e < t.spec_len() && dfa_reachable_within(t, starting, t.key_at(e).0, (n - 1) as nat)
                && t.val_at(e).contains(c)
    }
}

/// A reachable state: one some chain of transitions from an initial state
/// leads to.
pub open spec fn spec_dfa_reachable(t: StateTransitionTable, starting: Seq<char>, c: char) -> bool {
    exists|n: nat| dfa_reachable_within(t, starting, c, n)
}

/// A destination of a reachable source is reachable.
proof fn lemma_dfa_reachable_step(t: StateTransitionTable, starting: Seq<char>, e: int, c: char)
    requires
        0 <= e < t.spec_len(),
        spec_dfa_reachable(t, starting, t.key_at(e).0),
        t.val_at(e).contains(c),
    ensures
        spec_dfa_reachable(t, starting, c),
{
    let n = choose|n: nat| dfa_reachable_within(t, starting, t.key_at(e).0, n);
    assert(dfa_reachable_within(t, starting, c, n + 1));
}

/// Every reachable state is a declared state.
proof fn lemma_dfa_reachable_in_states(
    t: StateTransitionTable,
    starting: Seq<char>,
    states: Seq<char>,
    c: char,
    n: nat,
)
    requires
        forall|p: int| 0 <= p < starting.len() ==> states.contains(#[trigger] starting[p]),
        forall|e: int|
            #![trigger t.key_at(e)]
            #![trigger t.val_at(e)]
            0 <= e < t.spec_len() ==> forall|d: int|
                0 <= d < t.val_at(e).len() ==> states.contains(#[trigger] t.val_at(e)[d]),
        dfa_reachable_within(t, starting, c, n),
    ensures
        states.contains(c),
    decreases n,
{
    if n == 0 {
        let p = choose|p: int| 0 <= p < starting.len() && starting[p] == c;
        assert(states.contains(starting[p]));
    } else {
        if dfa_reachable_within(t, starting, c, (n - 1) as nat) {
            lemma_dfa_reachable_in_states(t, starting, states, c, (n - 1) as nat);
        } else {
            let e = choose|e: int|
                #![trigger t.key_at(e)]
                0 <= e < t.spec_len() && dfa_reachable_within(
                    t,
                    starting,
                    t.key_at(e).0,
                    (n - 1) as nat,
                ) && t.val_at(e).contains(c);
            let d = choose|d: int| 0 <= d < t.val_at(e).len() && t.val_at(e)[d] == c;
            assert(states.contains(t.val_at(e)[d]));
        }
    }
}

/// Once a round adds nothing, the collected list holds every reachable
/// state.
proof fn lemma_dfa_reachable_complete(
    t: StateTransitionTable,
    starting: Seq<char>,
    reach: Seq<char>,
    c: char,
    n: nat,
)
    requires
        forall|p: int| 0 <= p < starting.len() ==> reach.contains(#[trigger] starting[p]),
        forall|e: int|
            #![trigger t.key_at(e)]
            #![trigger t.val_at(e)]
            0 <= e < t.spec_len() && reach.contains(t.key_at(e).0) ==> forall|d: int|
                0 <= d < t.val_at(e).len() ==> reach.contains(#[trigger] t.val_at(e)[d]),
        dfa_reachable_within(t, starting, c, n),
    ensures
        reach.contains(c),
    decreases n,
{
    if n == 0 {
        let p = choose|p: int| 0 <= p < starting.len() && starting[p] == c;
        assert(reach.contains(starting[p]));
    } else {
        if dfa_reachable_within(t, starting, c, (n - 1) as nat) {
            lemma_dfa_reachable_complete(t, starting, reach, c, (n - 1) as nat);
        } else {
            let e = choose|e: int|
                #![trigger t.key_at(e)]
                0 <= e < t.spec_len() && dfa_reachable_within(
                    t,
                    starting,
                    t.key_at(e).0,
                    (n - 1) as nat,
                ) && t.val_at(e).contains(c);
            lemma_dfa_reachable_complete(t, starting, reach, t.key_at(e).0, (n - 1) as nat);
            let d = choose|d: int| 0 <= d < t.val_at(e).len() && t.val_at(e)[d] == c;
            assert(reach.contains(t.val_at(e)[d]));
        }
    }
}

/// Reachability survives the removal of entries with unreachable sources.
proof fn lemma_dfa_reach_preserved(
    t_old: StateTransitionTable,
    t_new: StateTransitionTable,
    starting: Seq<char>,
    c: char,
    n: nat,
)
    requires
        t_old.wf(),
        t_new.wf(),
        forall|k: (char, char)|
            spec_dfa_reachable(t_old, starting, k.0) ==> #[trigger] t_new.spec_get(k)
                == t_old.spec_get(k),
        dfa_reachable_within(t_old, starting, c, n),
    ensures
        dfa_reachable_within(t_new, starting, c, n),
    decreases n,
{
    if n > 0 {
        if dfa_reachable_within(t_old, starting, c, (n - 1) as nat) {
            lemma_dfa_reach_preserved(t_old, t_new, starting, c, (n - 1) as nat);
        } else {
            let e = choose|e: int|
                #![trigger t_old.key_at(e)]
                0 <= e < t_old.spec_len() && dfa_reachable_within(
                    t_old,
                    starting,
                    t_old.key_at(e).0,
                    (n - 1) as nat,
                ) && t_old.val_at(e).contains(c);
            let key = t_old.key_at(e);
            lemma_dfa_reach_preserved(t_old, t_new, starting, key.0, (n - 1) as nat);
            assert(spec_dfa_reachable(t_old, starting, key.0));
            t_old.lemma_get_at(e);
            assert(key == (key.0, key.1));
            assert(t_new.spec_get((key.0, key.1)) == t_old.spec_get((key.0, key.1)));
            assert(t_new.spec_contains_key(key));
            let e2 = choose|e2: int|
                0 <= e2 < t_new.spec_len() && t_new.entries@[e2].0 == key;
            t_new.lemma_get_at(e2);
            assert(t_new.key_at(e2) == key);
            assert(t_new.val_at(e2) == t_old.val_at(e));
            assert(dfa_reachable_within(t_new, starting, c, n));
        }
    }
}

#[derive(Debug, Clone, PartialEq, Eq)]
pub struct Dfa {
    pub states: Vec<char>,
    pub inputs: Vec<char>,
    pub transitions: StateTransitionTable,
    pub starting_states: Vec<char>,
    pub closing_states: Vec<char>,
    pub state_combo_to_state_map: Vec<(Vec<char>, char)>,
    pub state_to_state_combo_map: Vec<(char, Vec<char>)>,
}

impl Dfa {
    /// The automaton invariant: duplicate-free states and inputs, a single
    /// initial state, final states drawn from the states, a transition table
    /// whose destination lists hold exactly one declared state, and mutually
    /// inverse composite-state maps.
    pub open spec fn wf(self) -> bool {
        &&& distinct(self.states@)
        &&& distinct(self.inputs@)
        &&& self.starting_states@.len() == 1
        &&& self.states@.contains(self.starting_states@[0])
        &&& distinct(self.closing_states@)
        &&& forall|p: int|
            0 <= p < self.closing_states@.len() ==> self.states@.contains(
                #[trigger] self.closing_states@[p],
            )
        &&& self.transitions.wf()
        &&& forall|e: int|
            #![trigger self.transitions.key_at(e)]
            0 <= e < self.transitions.spec_len() ==> self.states@.contains(
                self.transitions.key_at(e).0,
            ) && self.inputs@.contains(self.transitions.key_at(e).1)
                && self.transitions.val_at(e).len() == 1 && self.states@.contains(
                self.transitions.val_at(e)[0],
            )
        &&& maps_bijective(self.state_combo_to_state_map@, self.state_to_state_combo_map@)
    }

    /// Builds an automaton from its parts, as given.
    pub fn new(
        states: Vec<char>,
        inputs: Vec<char>,
        transitions: StateTransitionTable,
        starting_states: Vec<char>,
        closing_states: Vec<char>,
        state_combo_to_state_map: Vec<(Vec<char>, char)>,
        state_to_state_combo_map: Vec<(char, Vec<char>)>,
    ) -> (r: Result<Self, FiniteAutomataError>)
        ensures
            match r {
                Ok(d) => d == (Dfa {
                    states,
                    inputs,
                    transitions,
                    starting_states,
                    closing_states,
                    state_combo_to_state_map,
                    state_to_state_combo_map,
                }),
                Err(_) => false,
            },
    {
        Ok(
            Self {
                states,
                inputs,
                transitions,
                starting_states,
                closing_states,
                state_combo_to_state_map,
                state_to_state_combo_map,
            },
        )
    }

    /// In a well-formed deterministic automaton every transition's
    /// destination list holds exactly one state.
    pub proof fn lemma_deterministic_transitions(self)
        requires
            self.wf(),
        ensures
            forall|e: int|
                0 <= e < self.transitions.spec_len() ==> (#[trigger] self.transitions.val_at(
                    e,
                )).len() == 1,
    {
        assert forall|e: int|
            0 <= e < self.transitions.spec_len() implies (#[trigger] self.transitions.val_at(
            e,
        )).len() == 1 by {
            assert(self.transitions.key_at(e) == self.transitions.key_at(e));
        }
    }

    /// Every composite name resolves through the two maps back to itself.
    pub proof fn lemma_combo_name_round_trip(self, name: char)
        requires
            self.wf(),
            sm_has(self.state_to_state_combo_map@, name),
        ensures
            cm_has(self.state_combo_to_state_map@, sm_val(self.state_to_state_combo_map@, name)),
            cm_val(self.state_combo_to_state_map@, sm_val(self.state_to_state_combo_map@, name))
                == name,
    {
        let sm = self.state_to_state_combo_map@;
        let cm = self.state_combo_to_state_map@;
        let q = choose|q: int| 0 <= q < sm.len() && (#[trigger] sm[q]).0 == name;
        let combo = sm[q].1@;
        assert(sm_val(sm, name) == combo) by {
            let q2 = choose|q2: int| 0 <= q2 < sm.len() && (#[trigger] sm[q2]).0 == name;
            if q2 != q {
                if q < q2 {
                    assert(sm[q].0 != sm[q2].0);
                } else {
                    assert(sm[q2].0 != sm[q].0);
                }
            }
        }
        assert(cm_binds(cm, sm[q].1@, sm[q].0));
        let p = choose|p: int|
            0 <= p < cm.len() && (#[trigger] cm[p]).0@ == combo && cm[p].1 == name;
        assert(cm_has(cm, combo));
        let p2 = choose|p2: int| 0 <= p2 < cm.len() && (#[trigger] cm[p2]).0@ == combo;
        if p2 != p {
            if p < p2 {
                assert(cm[p].0@ != cm[p2].0@);
            } else {
                assert(cm[p2].0@ != cm[p].0@);
            }
        }
        assert(cm_val(cm, combo) == cm[p2].1);
    }
}

impl Dfa {
    /// The duplicate-free list of the states reachable from the initial
    /// states, computed as a fixed point.
    pub fn reachable_states(&self) -> (r: Vec<char>)
        requires
            self.wf(),
        ensures
            distinct(r@),
            forall|c: char|
                r@.contains(c) <==> spec_dfa_reachable(
                    self.transitions,
                    self.starting_states@,
                    c,
                ),
    {
        let mut reach = clone_chars(&self.starting_states);
        proof {
            assert forall|p: int|
                0 <= p < reach@.len() implies self.states@.contains(#[trigger] reach@[p]) by {
                assert(reach@[p] == self.starting_states@[p]);
            }
            assert forall|x: char| reach@.contains(x) implies spec_dfa_reachable(
                self.transitions,
                self.starting_states@,
                x,
            ) by {
                assert(dfa_reachable_within(self.transitions, self.starting_states@, x, 0));
            }
            assert(distinct(reach@)) by {
                assert(reach@.len() == 1);
            }
        }
        let mut changed = true;
        while changed
            invariant
                distinct(reach@),
                reach@.len() <= self.states@.len(),
                forall|p: int|
                    0 <= p < reach@.len() ==> self.states@.contains(#[trigger] reach@[p]),
                forall|p: int|
                    0 <= p < self.starting_states@.len() ==> reach@.contains(
                        #[trigger] self.starting_states@[p],
                    ),
                forall|x: char|
                    reach@.contains(x) ==> spec_dfa_reachable(
                        self.transitions,
                        self.starting_states@,
                        x,
                    ),
                !changed ==> forall|e: int|
                    #![trigger self.transitions.key_at(e)]
                    0 <= e < self.transitions.spec_len() && reach@.contains(
                        self.transitions.key_at(e).0,
                    ) ==> forall|d: int|
                        0 <= d < self.transitions.val_at(e).len() ==> reach@.contains(
                            #[trigger] self.transitions.val_at(e)[d],
                        ),
            decreases
                    self.states@.len() - reach@.len(),
                    (if changed {
                        1int
                    } else {
                        0int
                    }),
        {
            changed = false;
            let ghost round_start = reach@;
            let mut e: usize = 0;
            while e < self.transitions.len()
                invariant
                    distinct(reach@),
                    reach@.len() <= self.states@.len(),
                    0 <= e <= self.transitions.spec_len(),
                    forall|p: int|
                        0 <= p < reach@.len() ==> self.states@.contains(#[trigger] reach@[p]),
                    forall|p: int|
                        0 <= p < self.starting_states@.len() ==> reach@.contains(
                            #[trigger] self.starting_states@[p],
                        ),
                    forall|x: char|
                        reach@.contains(x) ==> spec_dfa_reachable(
                            self.transitions,
                            self.starting_states@,
                            x,
                        ),
                    !changed ==> reach@ == round_start,
                    changed ==> round_start.len() < reach@.len(),
                    !changed ==> forall|e2: int|
                        #![trigger self.transitions.key_at(e2)]
                        0 <= e2 < e && reach@.contains(self.transitions.key_at(e2).0) ==> forall|
                            d: int,
                        |
                            0 <= d < self.transitions.val_at(e2).len() ==> reach@.contains(
                                #[trigger] self.transitions.val_at(e2)[d],
                            ),
                decreases self.transitions.spec_len() - e,
            {
                let key = self.transitions.entries[e].0;
                proof {
                    assert(key == self.transitions.key_at(e as int));
                }
                let has_src = contains_char(&reach, key.0);
                if has_src {
                    let ghost pre = reach@;
                    let ghost ch0 = changed;
                    let mut d: usize = 0;
                    while d < self.transitions.entries[e].1.len()
                        invariant
                            ch0 ==> changed,
                            distinct(reach@),
                            reach@.len() <= self.states@.len(),
                            0 <= e < self.transitions.spec_len(),
                            key == self.transitions.key_at(e as int),
                            0 <= d <= self.transitions.val_at(e as int).len(),
                            forall|p: int|
                                0 <= p < reach@.len() ==> self.states@.contains(
                                    #[trigger] reach@[p],
                                ),
                            forall|p: int|
                                0 <= p < self.starting_states@.len() ==> reach@.contains(
                                    #[trigger] self.starting_states@[p],
                                ),
                            forall|x: char|
                                reach@.contains(x) ==> spec_dfa_reachable(
                                    self.transitions,
                                    self.starting_states@,
                                    x,
                                ),
                            forall|x: char| pre.contains(x) ==> reach@.contains(x),
                            reach@.contains(key.0),
                            !changed ==> reach@ == round_start,
                            changed ==> round_start.len() < reach@.len(),
                            forall|d2: int|
                                0 <= d2 < d ==> reach@.contains(
                                    #[trigger] self.transitions.val_at(e as int)[d2],
                                ),
                        decreases self.transitions.val_at(e as int).len() - d,
                    {
                        let x = self.transitions.entries[e].1[d];
                        proof {
                            assert(x == self.transitions.val_at(e as int)[d as int]);
                        }
                        if !contains_char(&reach, x) {
                            proof {
                                lemma_dfa_reachable_step(
                                    self.transitions,
                                    self.starting_states@,
                                    e as int,
                                    x,
                                );
                            }
                            let ghost before = reach@;
                            reach.push(x);
                            changed = true;
                            proof {
                                crate::symbols::lemma_push_contains(before, x);
                                assert(distinct(reach@)) by {
                                    assert forall|p: int, q: int|
                                        0 <= p < q < reach@.len() implies reach@[p]
                                        != reach@[q] by {
                                        if q < before.len() {
                                            assert(reach@[p] == before[p] && reach@[q]
                                                == before[q]);
                                        } else {
                                            assert(reach@[q] == x && reach@[p] == before[p]);
                                            assert(before.contains(before[p]));
                                        }
                                    }
                                }
                                assert forall|p: int|
                                    0 <= p < reach@.len() implies self.states@.contains(
                                    #[trigger] reach@[p],
                                ) by {
                                    if p < before.len() {
                                        assert(reach@[p] == before[p]);
                                    } else {
                                        assert(reach@[p] == x);
                                        assert(self.transitions.val_at(e as int).contains(x));
                                        self.transitions.lemma_get_at(e as int);
                                    }
                                }
                                assert forall|y: char| reach@.contains(y) implies
                                    spec_dfa_reachable(
                                    self.transitions,
                                    self.starting_states@,
                                    y,
                                ) by {
                                    let p = choose|p: int|
                                        0 <= p < reach@.len() && reach@[p] == y;
                                    if p < before.len() {
                                        assert(before[p] == y);
                                        assert(before.contains(y));
                                    } else {
                                        assert(y == x);
                                    }
                                }
                                crate::symbols::lemma_distinct_subset_len(reach@, self.states@);
                            }
                        }
                        d = d + 1;
                    }
                    proof {
                        assert(forall|d2: int|
                            0 <= d2 < self.transitions.val_at(e as int).len() ==> reach@.contains(
                                #[trigger] self.transitions.val_at(e as int)[d2],
                            ));
                    }
                }
                proof {
                    if !changed {
                        assert forall|e2: int|
                            #![trigger self.transitions.key_at(e2)]
                            0 <= e2 < e + 1 && reach@.contains(
                                self.transitions.key_at(e2).0,
                            ) implies forall|d: int|
                            0 <= d < self.transitions.val_at(e2).len() ==> reach@.contains(
                                #[trigger] self.transitions.val_at(e2)[d],
                            ) by {
                            if e2 == e {
                                if has_src {
                                    assert(self.transitions.val_at(e2) == self.transitions.val_at(
                                        e as int,
                                    ));
                                    assert(forall|d2: int|
                                        0 <= d2 < self.transitions.val_at(e as int).len()
                                            ==> reach@.contains(
                                            #[trigger] self.transitions.val_at(e as int)[d2],
                                        ));
                                } else {
                                    assert(!reach@.contains(key.0));
                                    assert(self.transitions.key_at(e2).0 == key.0);
                                }
                            }
                        }
                    }
                }
                e = e + 1;
            }
            proof {
                if !changed {
                    assert(reach@ == round_start);
                }
            }
        }
        proof {
            assert forall|c: char|
                spec_dfa_reachable(self.transitions, self.starting_states@, c) implies reach@
                .contains(c) by {
                let n = choose|n: nat|
                    dfa_reachable_within(self.transitions, self.starting_states@, c, n);
                lemma_dfa_reachable_complete(
                    self.transitions,
                    self.starting_states@,
                    reach@,
                    c,
                    n,
                );
            }
        }
        reach
    }

    /// Whether some declared state cannot be reached from the initial
    /// states.
    pub fn has_unreachable_states(&self) -> (r: bool)
        requires
            self.wf(),
        ensures
            r == exists|q: char|
                self.states@.contains(q) && !spec_dfa_reachable(
                    self.transitions,
                    self.starting_states@,
                    q,
                ),
    {
        let reach = self.reachable_states();
        proof {
            assert forall|e: int|
                #![trigger self.transitions.val_at(e)]
                0 <= e < self.transitions.spec_len() implies (forall|d: int|
                0 <= d < self.transitions.val_at(e).len() ==> self.states@.contains(
                    #[trigger] self.transitions.val_at(e)[d],
                )) by {
                assert(self.states@.contains(self.transitions.key_at(e).0));
            }
            assert forall|p: int|
                0 <= p < reach@.len() implies self.states@.contains(#[trigger] reach@[p]) by {
                assert(reach@.contains(reach@[p]));
                let n = choose|n: nat|
                    dfa_reachable_within(
                        self.transitions,
                        self.starting_states@,
                        reach@[p],
                        n,
                    );
                lemma_dfa_reachable_in_states(
                    self.transitions,
                    self.starting_states@,
                    self.states@,
                    reach@[p],
                    n,
                );
            }
            crate::symbols::lemma_distinct_subset_len(reach@, self.states@);
        }
        if reach.len() == self.states.len() {
            proof {
                crate::symbols::lemma_distinct_equal_len_same_members(reach@, self.states@);
                assert forall|q: char|
                    self.states@.contains(q) implies spec_dfa_reachable(
                    self.transitions,
                    self.starting_states@,
                    q,
                ) by {
                    assert(reach@.contains(q));
                }
            }
            false
        } else {
            proof {
                if forall|q: char|
                    self.states@.contains(q) ==> #[trigger] reach@.contains(q) {
                    crate::symbols::lemma_distinct_subset_len(self.states@, reach@);
                    assert(false);
                }
                let q = choose|q: char|
                    self.states@.contains(q) && !(#[trigger] reach@.contains(q));
                assert(!spec_dfa_reachable(self.transitions, self.starting_states@, q));
            }
            true
        }
    }

    /// Drops every state that cannot be reached from the initial states,
    /// from the state list, the final states, and the transition table.
    /// Afterwards every remaining state is reachable.
    pub fn remove_unreachable_states(&mut self)
        requires
            old(self).wf(),
        ensures
            final(self).wf(),
            final(self).inputs@ == old(self).inputs@,
            final(self).starting_states@ == old(self).starting_states@,
            final(self).state_combo_to_state_map@ == old(self).state_combo_to_state_map@,
            final(self).state_to_state_combo_map@ == old(self).state_to_state_combo_map@,
            final(self).states@ == crate::symbols::selected_chars(
                old(self).states@,
                (|c: char|
                    spec_dfa_reachable(old(self).transitions, old(self).starting_states@, c)),
            ),
            final(self).closing_states@ == crate::symbols::selected_chars(
                old(self).closing_states@,
                (|c: char|
                    spec_dfa_reachable(old(self).transitions, old(self).starting_states@, c)),
            ),
            forall|k: (char, char)|
                spec_dfa_reachable(old(self).transitions, old(self).starting_states@, k.0)
                    ==> #[trigger] final(self).transitions.spec_get(k) == old(
                    self,
                ).transitions.spec_get(k),
            forall|k: (char, char)|
                !spec_dfa_reachable(old(self).transitions, old(self).starting_states@, k.0)
                    ==> !#[trigger] final(self).transitions.spec_contains_key(k),
            forall|q: char|
                final(self).states@.contains(q) ==> spec_dfa_reachable(
                    final(self).transitions,
                    final(self).starting_states@,
                    q,
                ),
            pruned_by(*old(self), *final(self)),
    {
        let reach = self.reachable_states();
        let ghost keep = (|c: char|
            spec_dfa_reachable(old(self).transitions, old(self).starting_states@, c));
        let mut new_states: Vec<char> = Vec::new();
        let mut i: usize = 0;
        while i < self.states.len()
            invariant
                *self == *old(self),
                0 <= i <= self.states@.len(),
                forall|c: char|
                    reach@.contains(c) <==> spec_dfa_reachable(
                        self.transitions,
                        self.starting_states@,
                        c,
                    ),
                new_states@ == crate::symbols::selected_chars(
                    self.states@.subrange(0, i as int),
                    keep,
                ),
            decreases self.states@.len() - i,
        {
            proof {
                assert(self.states@.subrange(0, i + 1 as int).drop_last() =~= self
                    .states@.subrange(0, i as int));
                assert(self.states@.subrange(0, i + 1 as int).last() == self.states@[i as int]);
            }
            if contains_char(&reach, self.states[i]) {
                new_states.push(self.states[i]);
            }
            i = i + 1;
        }
        let mut new_closing: Vec<char> = Vec::new();
        let mut i: usize = 0;
        while i < self.closing_states.len()
            invariant
                *self == *old(self),
                0 <= i <= self.closing_states@.len(),
                forall|c: char|
                    reach@.contains(c) <==> spec_dfa_reachable(
                        self.transitions,
                        self.starting_states@,
                        c,
                    ),
                new_closing@ == crate::symbols::selected_chars(
                    self.closing_states@.subrange(0, i as int),
                    keep,
                ),
            decreases self.closing_states@.len() - i,
        {
            proof {
                assert(self.closing_states@.subrange(0, i + 1 as int).drop_last() =~= self
                    .closing_states@.subrange(0, i as int));
                assert(self.closing_states@.subrange(0, i + 1 as int).last()
                    == self.closing_states@[i as int]);
            }
            if contains_char(&reach, self.closing_states[i]) {
                new_closing.push(self.closing_states[i]);
            }
            i = i + 1;
        }
        let mut new_table = StateTransitionTable::new();
        let mut e: usize = 0;
        while e < self.transitions.len()
            invariant
                *self == *old(self),
                0 <= e <= self.transitions.spec_len(),
                new_table.wf(),
                forall|c: char|
                    reach@.contains(c) <==> spec_dfa_reachable(
                        self.transitions,
                        self.starting_states@,
                        c,
                    ),
                forall|k: (char, char)|
                    #[trigger] new_table.spec_contains_key(k) <==> (exists|e2: int|
                        0 <= e2 < e && self.transitions.key_at(e2) == k && reach@.contains(
                            #[trigger] self.transitions.key_at(e2).0,
                        )),
                forall|k: (char, char)|
                    new_table.spec_contains_key(k) ==> #[trigger] new_table.spec_get(k)
                        == self.transitions.spec_get(k),
            decreases self.transitions.spec_len() - e,
        {
            let key = self.transitions.entries[e].0;
            proof {
                assert(key == self.transitions.key_at(e as int));
                self.transitions.lemma_get_at(e as int);
            }
            if contains_char(&reach, key.0) {
                let val = clone_chars(&self.transitions.entries[e].1);
                proof {
                    assert(val@ == self.transitions.val_at(e as int));
                    assert(!new_table.spec_contains_key(key)) by {
                        if new_table.spec_contains_key(key) {
                            let e2 = choose|e2: int|
                                0 <= e2 < e && self.transitions.key_at(e2) == key
                                    && reach@.contains(
                                    #[trigger] self.transitions.key_at(e2).0,
                                );
                            assert(self.transitions.key_at(e2)
                                == self.transitions.key_at(e as int));
                        }
                    }
                }
                let ghost pre_nt = new_table;
                new_table.insert(key, val);
                proof {
                    assert forall|k: (char, char)|
                        #[trigger] new_table.spec_contains_key(k) <==> (exists|e2: int|
                            0 <= e2 < e + 1 && self.transitions.key_at(e2) == k
                                && reach@.contains(
                                #[trigger] self.transitions.key_at(e2).0,
                            )) by {
                        if new_table.spec_contains_key(k) {
                            if k == key {
                                assert(self.transitions.key_at(e as int) == k);
                                assert(reach@.contains(self.transitions.key_at(e as int).0));
                            } else {
                                assert(new_table.spec_get(k) == pre_nt.spec_get(k));
                                assert(pre_nt.spec_contains_key(k));
                                let e2 = choose|e2: int|
                                    0 <= e2 < e && self.transitions.key_at(e2) == k
                                        && reach@.contains(
                                        #[trigger] self.transitions.key_at(e2).0,
                                    );
                            }
                        }
                        if exists|e2: int|
                            0 <= e2 < e + 1 && self.transitions.key_at(e2) == k
                                && reach@.contains(#[trigger] self.transitions.key_at(e2).0) {
                            let e2 = choose|e2: int|
                                0 <= e2 < e + 1 && self.transitions.key_at(e2) == k
                                    && reach@.contains(
                                    #[trigger] self.transitions.key_at(e2).0,
                                );
                            if e2 == e {
                                assert(k == key);
                                assert(new_table.spec_contains_key(k));
                            } else {
                                assert(pre_nt.spec_contains_key(k));
                                assert(k != key) by {
                                    if k == key {
                                        assert(self.transitions.key_at(e2)
                                            == self.transitions.key_at(e as int));
                                    }
                                }
                                assert(new_table.spec_get(k) == pre_nt.spec_get(k));
                            }
                        }
                    }
                    assert forall|k: (char, char)|
                        new_table.spec_contains_key(k) implies #[trigger] new_table.spec_get(k)
                        == self.transitions.spec_get(k) by {
                        if k == key {
                            self.transitions.lemma_get_at(e as int);
                        } else {
                            assert(new_table.spec_get(k) == pre_nt.spec_get(k));
                            assert(pre_nt.spec_contains_key(k));
                        }
                    }
                }
            } else {
                proof {
                    assert forall|k: (char, char)|
                        #[trigger] new_table.spec_contains_key(k) <==> (exists|e2: int|
                            0 <= e2 < e + 1 && self.transitions.key_at(e2) == k
                                && reach@.contains(
                                #[trigger] self.transitions.key_at(e2).0,
                            )) by {
                        if exists|e2: int|
                            0 <= e2 < e + 1 && self.transitions.key_at(e2) == k
                                && reach@.contains(#[trigger] self.transitions.key_at(e2).0) {
                            let e2 = choose|e2: int|
                                0 <= e2 < e + 1 && self.transitions.key_at(e2) == k
                                    && reach@.contains(
                                    #[trigger] self.transitions.key_at(e2).0,
                                );
                            assert(e2 < e);
                        }
                    }
                }
            }
            e = e + 1;
        }
        proof {
            assert(self.states@.subrange(0, self.states@.len() as int) =~= self.states@);
            assert(self.closing_states@.subrange(0, self.closing_states@.len() as int) =~= self
                .closing_states@);
        }
        self.states = new_states;
        self.closing_states = new_closing;
        self.transitions = new_table;
        proof {
            let told = old(self).transitions;
            let tnew = self.transitions;
            let starting = old(self).starting_states@;
            assert forall|e: int|
                #![trigger told.val_at(e)]
                0 <= e < told.spec_len() implies (forall|d: int|
                0 <= d < told.val_at(e).len() ==> old(self).states@.contains(
                    #[trigger] told.val_at(e)[d],
                )) by {
                assert(old(self).states@.contains(told.key_at(e).0));
            }
            crate::symbols::lemma_selected_chars_props(old(self).states@, keep);
            crate::symbols::lemma_selected_chars_props(old(self).closing_states@, keep);
            // the new table keeps exactly the keys with reachable sources
            assert forall|k: (char, char)|
                spec_dfa_reachable(told, starting, k.0) implies #[trigger] tnew.spec_get(k)
                == told.spec_get(k) by {
                if told.spec_contains_key(k) {
                    let e2 = choose|e2: int|
                        0 <= e2 < told.spec_len() && told.entries@[e2].0 == k;
                    told.lemma_get_at(e2);
                    assert(told.key_at(e2) == k);
                    assert(reach@.contains(k.0));
                    assert(tnew.spec_contains_key(k));
                } else {
                    if tnew.spec_contains_key(k) {
                        let e2 = choose|e2: int|
                            0 <= e2 < told.spec_len() && told.key_at(e2) == k && reach@.contains(
                                #[trigger] told.key_at(e2).0,
                            );
                        told.lemma_get_at(e2);
                    }
                }
            }
            assert forall|k: (char, char)|
                !spec_dfa_reachable(told, starting, k.0) implies !#[trigger] tnew
                .spec_contains_key(k) by {
                if tnew.spec_contains_key(k) {
                    let e2 = choose|e2: int|
                        0 <= e2 < told.spec_len() && told.key_at(e2) == k && reach@.contains(
                            #[trigger] told.key_at(e2).0,
                        );
                }
            }
            // the remaining states are exactly the reachable old states, and
            // they stay reachable in the pruned automaton
            assert(self.states@ == crate::symbols::selected_chars(old(self).states@, keep));
            assert(self.closing_states@ == crate::symbols::selected_chars(
                old(self).closing_states@,
                keep,
            ));
            assert forall|q: char|
                self.states@.contains(q) implies spec_dfa_reachable(
                tnew,
                starting,
                q,
            ) by {
                assert(crate::symbols::selected_chars(old(self).states@, keep).contains(q));
                assert(old(self).states@.contains(q) && keep(q));
                let n = choose|n: nat| dfa_reachable_within(told, starting, q, n);
                lemma_dfa_reach_preserved(told, tnew, starting, q, n);
            }
            // well-formedness of the result
            assert(self.states@.contains(self.starting_states@[0])) by {
                assert(old(self).states@.contains(old(self).starting_states@[0]));
                assert(dfa_reachable_within(told, starting, starting[0], 0)) by {
                    assert(starting.contains(starting[0]));
                }
            }
            assert forall|p: int|
                0 <= p < self.closing_states@.len() implies self.states@.contains(
                #[trigger] self.closing_states@[p],
            ) by {
                assert(self.closing_states@.contains(self.closing_states@[p]));
                assert(crate::symbols::selected_chars(old(self).closing_states@, keep).contains(
                    self.closing_states@[p],
                ));
                assert(old(self).closing_states@.contains(self.closing_states@[p]) && keep(
                    self.closing_states@[p],
                ));
                assert(old(self).states@.contains(self.closing_states@[p]));
            }
            assert forall|e2: int|
                #![trigger tnew.key_at(e2)]
                0 <= e2 < tnew.spec_len() implies self.states@.contains(tnew.key_at(e2).0)
                && self.inputs@.contains(tnew.key_at(e2).1) && tnew.val_at(e2).len() == 1
                && self.states@.contains(tnew.val_at(e2)[0]) by {
                tnew.lemma_get_at(e2);
                let k = tnew.key_at(e2);
                assert(tnew.spec_contains_key(k));
                let e3 = choose|e3: int|
                    0 <= e3 < told.spec_len() && told.key_at(e3) == k && reach@.contains(
                        #[trigger] told.key_at(e3).0,
                    );
                told.lemma_get_at(e3);
                assert(tnew.spec_get(k) == told.spec_get(k));
                assert(tnew.val_at(e2) == told.val_at(e3));
                assert(old(self).states@.contains(k.0));
                assert(keep(k.0));
                assert(self.states@.contains(k.0));
                assert(told.val_at(e3).contains(told.val_at(e3)[0]));
                lemma_dfa_reachable_step(told, starting, e3, told.val_at(e3)[0]);
                let n = choose|n: nat|
                    dfa_reachable_within(told, starting, told.val_at(e3)[0], n);
                lemma_dfa_reachable_in_states(
                    told,
                    starting,
                    old(self).states@,
                    told.val_at(e3)[0],
                    n,
                );
                assert(keep(told.val_at(e3)[0]));
                assert(self.states@.contains(told.val_at(e3)[0]));
            }
            assert(self.wf());
            assert(pruned_by(*old(self), *self)) by {
                let keep2 = (|c: char|
                    spec_dfa_reachable(
                        old(self).transitions,
                        old(self).starting_states@,
                        c,
                    ));
                assert forall|c: char| #[trigger] keep(c) == keep2(c) by {}
                assert(keep =~= keep2);
                assert(self.states@ == crate::symbols::selected_chars(old(self).states@, keep2));
                assert(self.closing_states@ == crate::symbols::selected_chars(
                    old(self).closing_states@,
                    keep2,
                ));
            }
        }
    }
}

impl Dfa {
    /// Converts back to a nondeterministic automaton by inlining composite
    /// states: every state with a combo mapping leaves the state and closing
    /// lists together with its outgoing transitions, and every transition
    /// into it is rewritten to the underlying combo.
    pub fn to_non_deterministic(self) -> (r: Nfa)
        requires
            self.wf(),
        ensures
            r.inputs@ == self.inputs@,
            r.starting_states@ == self.starting_states@,
            r.states@ == crate::symbols::selected_chars(
                self.states@,
                (|c: char| !sm_has(self.state_to_state_combo_map@, c)),
            ),
            r.closing_states@ == crate::symbols::selected_chars(
                self.closing_states@,
                (|c: char| !sm_has(self.state_to_state_combo_map@, c)),
            ),
            forall|k: (char, char)|
                #[trigger] r.transitions.spec_contains_key(k) <==> (
                self.transitions.spec_contains_key(k) && !sm_has(
                    self.state_to_state_combo_map@,
                    k.0,
                )),
            forall|k: (char, char)|
                #[trigger] r.transitions.spec_contains_key(k)
                    ==> r.transitions.spec_get_val(k) == (if sm_has(
                    self.state_to_state_combo_map@,
                    self.transitions.spec_get_val(k)[0],
                ) {
                    sm_val(
                        self.state_to_state_combo_map@,
                        self.transitions.spec_get_val(k)[0],
                    )
                } else {
                    self.transitions.spec_get_val(k)
                }),
    {
        let ghost smv = self.state_to_state_combo_map@;
        let ghost keep = (|c: char| !sm_has(self.state_to_state_combo_map@, c));
        let mut new_states: Vec<char> = Vec::new();
        let mut i: usize = 0;
        while i < self.states.len()
            invariant
                0 <= i <= self.states@.len(),
                new_states@ == crate::symbols::selected_chars(
                    self.states@.subrange(0, i as int),
                    keep,
                ),
            decreases self.states@.len() - i,
        {
            proof {
                assert(self.states@.subrange(0, i + 1 as int).drop_last() =~= self
                    .states@.subrange(0, i as int));
                assert(self.states@.subrange(0, i + 1 as int).last() == self.states@[i as int]);
            }
            if find_name(&self.state_to_state_combo_map, self.states[i]).is_none() {
                new_states.push(self.states[i]);
                proof {
                    assert(keep(self.states@[i as int]));
                }
            } else {
                proof {
                    assert(!keep(self.states@[i as int]));
                }
            }
            i = i + 1;
        }
        let mut new_closing: Vec<char> = Vec::new();
        let mut i: usize = 0;
        while i < self.closing_states.len()
            invariant
                0 <= i <= self.closing_states@.len(),
                new_closing@ == crate::symbols::selected_chars(
                    self.closing_states@.subrange(0, i as int),
                    keep,
                ),
            decreases self.closing_states@.len() - i,
        {
            proof {
                assert(self.closing_states@.subrange(0, i + 1 as int).drop_last() =~= self
                    .closing_states@.subrange(0, i as int));
                assert(self.closing_states@.subrange(0, i + 1 as int).last()
                    == self.closing_states@[i as int]);
            }
            if find_name(&self.state_to_state_combo_map, self.closing_states[i]).is_none() {
                new_closing.push(self.closing_states[i]);
                proof {
                    assert(keep(self.closing_states@[i as int]));
                }
            } else {
                proof {
                    assert(!keep(self.closing_states@[i as int]));
                }
            }
            i = i + 1;
        }
        let mut new_table = StateTransitionTable::new();
        let mut e: usize = 0;
        while e < self.transitions.len()
            invariant
                0 <= e <= self.transitions.spec_len(),
                new_table.wf(),
                forall|k: (char, char)|
                    #[trigger] new_table.spec_contains_key(k) <==> (exists|e2: int|
                        0 <= e2 < e && self.transitions.key_at(e2) == k && !sm_has(
                            smv,
                            (#[trigger] self.transitions.key_at(e2)).0,
                        )),
                forall|k: (char, char)|
                    #[trigger] new_table.spec_contains_key(k) ==> new_table.spec_get_val(k) == (
                    if sm_has(smv, self.transitions.spec_get_val(k)[0]) {
                        sm_val(smv, self.transitions.spec_get_val(k)[0])
                    } else {
                        self.transitions.spec_get_val(k)
                    }),
            decreases self.transitions.spec_len() - e,
        {
            let key = self.transitions.entries[e].0;
            proof {
                assert(key == self.transitions.key_at(e as int));
                self.transitions.lemma_get_at(e as int);
            }
            if find_name(&self.state_to_state_combo_map, key.0).is_none() {
                let ghost pre_nt = new_table;
                proof {
                    assert(!new_table.spec_contains_key(key)) by {
                        if new_table.spec_contains_key(key) {
                            let e2 = choose|e2: int|
                                0 <= e2 < e && self.transitions.key_at(e2) == key && !sm_has(
                                    smv,
                                    (#[trigger] self.transitions.key_at(e2)).0,
                                );
                            assert(self.transitions.key_at(e2) == self.transitions.key_at(
                                e as int,
                            ));
                        }
                    }
                }
                let d0 = self.transitions.entries[e].1[0];
                proof {
                    assert(d0 == self.transitions.val_at(e as int)[0]);
                    assert(self.transitions.val_at(e as int).len() == 1) by {
                        assert(self.transitions.key_at(e as int) == self.transitions.key_at(
                            e as int,
                        ));
                    }
                }
                let newval: Vec<char> = match find_name(&self.state_to_state_combo_map, d0) {
                    Some(si) => {
                        let cb = clone_chars(&self.state_to_state_combo_map[si].1);
                        proof {
                            assert(cb@ == smv[si as int].1@);
                            assert(sm_has(smv, d0));
                            assert(sm_val(smv, d0) == cb@) by {
                                let q2 = choose|q2: int|
                                    0 <= q2 < smv.len() && (#[trigger] smv[q2]).0 == d0;
                                if q2 != si as int {
                                    if q2 < si as int {
                                        assert(smv[q2].0 != smv[si as int].0);
                                    } else {
                                        assert(smv[si as int].0 != smv[q2].0);
                                    }
                                }
                            }
                        }
                        cb
                    },
                    None => {
                        let v = clone_chars(&self.transitions.entries[e].1);
                        proof {
                            assert(v@ == self.transitions.val_at(e as int));
                        }
                        v
                    },
                };
                new_table.insert(key, newval);
                proof {
                    assert forall|k: (char, char)|
                        #[trigger] new_table.spec_contains_key(k) <==> (exists|e2: int|
                            0 <= e2 < e + 1 && self.transitions.key_at(e2) == k && !sm_has(
                                smv,
                                (#[trigger] self.transitions.key_at(e2)).0,
                            )) by {
                        if new_table.spec_contains_key(k) {
                            if k == key {
                                assert(self.transitions.key_at(e as int) == k);
                                assert(!sm_has(smv, self.transitions.key_at(e as int).0));
                            } else {
                                assert(new_table.spec_get(k) == pre_nt.spec_get(k));
                                assert(pre_nt.spec_contains_key(k));
                                let e2 = choose|e2: int|
                                    0 <= e2 < e && self.transitions.key_at(e2) == k && !sm_has(
                                        smv,
                                        (#[trigger] self.transitions.key_at(e2)).0,
                                    );
                            }
                        }
                        if exists|e2: int|
                            0 <= e2 < e + 1 && self.transitions.key_at(e2) == k && !sm_has(
                                smv,
                                (#[trigger] self.transitions.key_at(e2)).0,
                            ) {
                            let e2 = choose|e2: int|
                                0 <= e2 < e + 1 && self.transitions.key_at(e2) == k && !sm_has(
                                    smv,
                                    (#[trigger] self.transitions.key_at(e2)).0,
                                );
                            if e2 == e {
                                assert(k == key);
                                assert(new_table.spec_contains_key(k));
                            } else {
                                assert(pre_nt.spec_contains_key(k));
                                assert(k != key) by {
                                    if k == key {
                                        assert(self.transitions.key_at(e2)
                                            == self.transitions.key_at(e as int));
                                    }
                                }
                                assert(new_table.spec_get(k) == pre_nt.spec_get(k));
                            }
                        }
                    }
                    assert forall|k: (char, char)|
                        #[trigger] new_table.spec_contains_key(k) implies new_table.spec_get_val(
                        k,
                    ) == (if sm_has(smv, self.transitions.spec_get_val(k)[0]) {
                        sm_val(smv, self.transitions.spec_get_val(k)[0])
                    } else {
                        self.transitions.spec_get_val(k)
                    }) by {
                        if k == key {
                            assert(self.transitions.spec_get_val(k) == self.transitions.val_at(
                                e as int,
                            ));
                        } else {
                            assert(new_table.spec_get(k) == pre_nt.spec_get(k));
                            assert(pre_nt.spec_contains_key(k));
                        }
                    }
                }
            } else {
                proof {
                    assert(sm_has(smv, key.0));
                    assert forall|k: (char, char)|
                        #[trigger] new_table.spec_contains_key(k) <==> (exists|e2: int|
                            0 <= e2 < e + 1 && self.transitions.key_at(e2) == k && !sm_has(
                                smv,
                                (#[trigger] self.transitions.key_at(e2)).0,
                            )) by {
                        if exists|e2: int|
                            0 <= e2 < e + 1 && self.transitions.key_at(e2) == k && !sm_has(
                                smv,
                                (#[trigger] self.transitions.key_at(e2)).0,
                            ) {
                            let e2 = choose|e2: int|
                                0 <= e2 < e + 1 && self.transitions.key_at(e2) == k && !sm_has(
                                    smv,
                                    (#[trigger] self.transitions.key_at(e2)).0,
                                );
                            assert(e2 < e);
                        }
                    }
                }
            }
            e = e + 1;
        }
        proof {
            assert(self.states@.subrange(0, self.states@.len() as int) =~= self.states@);
            assert(self.closing_states@.subrange(0, self.closing_states@.len() as int) =~= self
                .closing_states@);
            assert forall|k: (char, char)|
                #[trigger] new_table.spec_contains_key(k) <==> (
            self.transitions.spec_contains_key(k) && !sm_has(smv, k.0)) by {
                if self.transitions.spec_contains_key(k) && !sm_has(smv, k.0) {
                    let e2 = choose|e2: int|
                        0 <= e2 < self.transitions.spec_len() && self.transitions.entries@[e2].0
                            == k;
                    assert(self.transitions.key_at(e2) == k);
                }
                if new_table.spec_contains_key(k) {
                    let e2 = choose|e2: int|
                        0 <= e2 < self.transitions.spec_len() && self.transitions.key_at(e2) == k
                            && !sm_has(smv, (#[trigger] self.transitions.key_at(e2)).0);
                    self.transitions.lemma_get_at(e2);
                }
            }
        }
        Nfa {
            states: new_states,
            inputs: self.inputs,
            transitions: new_table,
            starting_states: self.starting_states,
            closing_states: new_closing,
        }
    }
}

/// `b` arises from `a` by dropping exactly the unreachable states: states
/// and closing states keep their reachable members in order, transitions
/// keep exactly the reachable sources, everything else is untouched, and
/// every remaining state is reachable in the result.
pub open spec fn pruned_by(a: Dfa, b: Dfa) -> bool {
    &&& b.inputs@ == a.inputs@
    &&& b.starting_states@ == a.starting_states@
    &&& b.state_combo_to_state_map@ == a.state_combo_to_state_map@
    &&& b.state_to_state_combo_map@ == a.state_to_state_combo_map@
    &&& b.states@ == crate::symbols::selected_chars(
        a.states@,
        (|c: char| spec_dfa_reachable(a.transitions, a.starting_states@, c)),
    )
    &&& b.closing_states@ == crate::symbols::selected_chars(
        a.closing_states@,
        (|c: char| spec_dfa_reachable(a.transitions, a.starting_states@, c)),
    )
    &&& forall|k: (char, char)|
        spec_dfa_reachable(a.transitions, a.starting_states@, k.0)
            ==> #[trigger] b.transitions.spec_get(k) == a.transitions.spec_get(k)
    &&& forall|k: (char, char)|
        !spec_dfa_reachable(a.transitions, a.starting_states@, k.0)
            ==> !#[trigger] b.transitions.spec_contains_key(k)
    &&& forall|q: char|
        b.states@.contains(q) ==> spec_dfa_reachable(b.transitions, b.starting_states@, q)
}

/// The representative of `q` under a block structure: the name of the block
/// holding `q`.
pub open spec fn block_rep(pairs: Seq<(char, Seq<char>)>, q: char) -> char {
    pairs[choose|b: int| 0 <= b < pairs.len() && (#[trigger] pairs[b]).1.contains(q)].0
}

/// `b` arises from `a` by collapsing the given disjoint blocks of `a`'s
/// states: every block of more than one state takes a fresh name — the
/// first capital letter not among `a`'s states, `a`'s recorded composite
/// names and the earlier block names — and is recorded in the combo map,
/// while a singleton block keeps its state; the states are the block names
/// in block order; the initial state, the closing states and every
/// transition are rewritten through the block representatives.
pub open spec fn merged_by(a: Dfa, b: Dfa, pairs: Seq<(char, Seq<char>)>) -> bool {
    &&& forall|p: int|
        #![trigger pairs[p]]
        0 <= p < pairs.len() ==> pairs[p].1.len() >= 1 && distinct(pairs[p].1) && (forall|m: int|
            0 <= m < pairs[p].1.len() ==> a.states@.contains(#[trigger] pairs[p].1[m]))
    &&& forall|p1: int, p2: int, m1: int, m2: int|
        #![trigger pairs[p1].1[m1], pairs[p2].1[m2]]
        0 <= p1 < pairs.len() && 0 <= p2 < pairs.len() && p1 != p2 && 0 <= m1 < pairs[p1].1.len()
            && 0 <= m2 < pairs[p2].1.len() ==> pairs[p1].1[m1] != pairs[p2].1[m2]
    &&& forall|q: char|
        a.states@.contains(q) ==> exists|p: int|
            0 <= p < pairs.len() && (#[trigger] pairs[p]).1.contains(q)
    &&& forall|p: int|
        #![trigger pairs[p]]
        0 <= p < pairs.len() ==> ((pairs[p].1.len() == 1 && pairs[p].0 == pairs[p].1[0]) || (
        pairs[p].1.len() > 1 && !a.states@.contains(pairs[p].0)))
    &&& b.states@.len() == pairs.len()
    &&& forall|p: int| 0 <= p < pairs.len() ==> #[trigger] b.states@[p] == pairs[p].0
    &&& b.starting_states@ == seq![block_rep(pairs, a.starting_states@[0])]
    &&& forall|s: char|
        #[trigger] b.closing_states@.contains(s) <==> (exists|c: char|
            a.closing_states@.contains(c) && #[trigger] block_rep(pairs, c) == s)
    &&& forall|k: (char, char)|
        #[trigger] b.transitions.spec_contains_key(k) <==> (exists|e: int|
            0 <= e < a.transitions.spec_len() && block_rep(
                pairs,
                (#[trigger] a.transitions.key_at(e)).0,
            ) == k.0 && a.transitions.key_at(e).1 == k.1)
    &&& forall|k: (char, char)|
        #[trigger] b.transitions.spec_contains_key(k) ==> (exists|e: int|
            0 <= e < a.transitions.spec_len() && block_rep(
                pairs,
                (#[trigger] a.transitions.key_at(e)).0,
            ) == k.0 && a.transitions.key_at(e).1 == k.1 && b.transitions.spec_get_val(k)
                == seq![block_rep(pairs, a.transitions.val_at(e)[0])])
    &&& forall|p: int|
        #![trigger pairs[p]]
        0 <= p < pairs.len() && pairs[p].1.len() > 1 ==> 'A' <= pairs[p].0 && pairs[p].0 <= 'Z'
            && (forall|c2: char|
            'A' <= c2 && c2 < pairs[p].0 ==> a.states@.contains(c2) || sm_has(
                a.state_to_state_combo_map@,
                c2,
            ) || (exists|p2: int| 0 <= p2 < p && (#[trigger] pairs[p2]).0 == c2))
    &&& forall|p: int|
        #![trigger pairs[p]]
        0 <= p < pairs.len() && pairs[p].1.len() > 1 ==> cm_has(
            b.state_combo_to_state_map@,
            pairs[p].1,
        )
}

/// Some member of block `b` is a closing state.
pub open spec fn block_closing(pairs: Seq<(char, Seq<char>)>, closing: Seq<char>, b: int) -> bool {
    exists|m: int| 0 <= m < pairs[b].1.len() && closing.contains(#[trigger] pairs[b].1[m])
}

/// With pairwise disjoint blocks, the representative of a block member is
/// that block's name.
proof fn lemma_block_rep_unique(pairs: Seq<(char, Seq<char>)>, q: char, b: int)
    requires
        forall|p1: int, p2: int, m1: int, m2: int|
            #![trigger pairs[p1].1[m1], pairs[p2].1[m2]]
            0 <= p1 < pairs.len() && 0 <= p2 < pairs.len() && p1 != p2 && 0 <= m1
                < pairs[p1].1.len() && 0 <= m2 < pairs[p2].1.len() ==> pairs[p1].1[m1]
                != pairs[p2].1[m2],
        0 <= b < pairs.len(),
        pairs[b].1.contains(q),
    ensures
        block_rep(pairs, q) == pairs[b].0,
{
    let b2 = choose|b2: int| 0 <= b2 < pairs.len() && (#[trigger] pairs[b2]).1.contains(q);
    if b2 != b {
        let m1 = choose|m1: int| 0 <= m1 < pairs[b].1.len() && pairs[b].1[m1] == q;
        let m2 = choose|m2: int| 0 <= m2 < pairs[b2].1.len() && pairs[b2].1[m2] == q;
        assert(pairs[b].1[m1] != pairs[b2].1[m2]);
    }
}

/// A candidate partition: non-empty, duplicate-free, pairwise disjoint
/// blocks of declared states.
pub open spec fn partition_inv(list: Seq<Vec<char>>, states: Seq<char>) -> bool {
    &&& forall|b: int| 0 <= b < list.len() ==> (#[trigger] list[b])@.len() >= 1
    &&& forall|b: int| 0 <= b < list.len() ==> distinct((#[trigger] list[b])@)
    &&& forall|b: int, m: int|
        0 <= b < list.len() && 0 <= m < list[b]@.len() ==> states.contains(
            #[trigger] list[b]@[m],
        )
    &&& forall|b1: int, b2: int, m1: int, m2: int|
        #![trigger list[b1]@[m1], list[b2]@[m2]]
        0 <= b1 < list.len() && 0 <= b2 < list.len() && b1 != b2 && 0 <= m1 < list[b1]@.len() && 0
            <= m2 < list[b2]@.len() ==> list[b1]@[m1] != list[b2]@[m2]
}

/// The symbol sits in some block of the partition.
pub open spec fn in_some_block(list: Seq<Vec<char>>, x: char) -> bool {
    exists|b: int| 0 <= b < list.len() && (#[trigger] list[b])@.contains(x)
}

/// Every declared state sits in some block.
pub open spec fn partition_covers(list: Seq<Vec<char>>, states: Seq<char>) -> bool {
    forall|p: int| 0 <= p < states.len() ==> in_some_block(list, #[trigger] states[p])
}

/// Membership in some block survives growing the blocks or adding blocks.
proof fn lemma_in_some_block_mono(a: Seq<Vec<char>>, b: Seq<Vec<char>>)
    requires
        b.len() >= a.len(),
        forall|bb: int, x: char|
            #![trigger a[bb]@.contains(x)]
            0 <= bb < a.len() && a[bb]@.contains(x) ==> b[bb]@.contains(x),
    ensures
        forall|x: char| #[trigger] in_some_block(a, x) ==> in_some_block(b, x),
{
    assert forall|x: char| #[trigger] in_some_block(a, x) implies in_some_block(b, x) by {
        let bb = choose|bb: int| 0 <= bb < a.len() && (#[trigger] a[bb])@.contains(x);
        assert(a[bb]@.contains(x));
        assert(b[bb]@.contains(x));
    }
}

/// Finds the block holding `s`, if any.
fn find_block(list: &Vec<Vec<char>>, s: char) -> (r: Option<usize>)
    ensures
        match r {
            Some(i) => 0 <= i < list@.len() && list@[i as int]@.contains(s),
            None => forall|b: int| 0 <= b < list@.len() ==> !(#[trigger] list@[b])@.contains(s),
        },
{
    let mut i: usize = 0;
    while i < list.len()
        invariant
            0 <= i <= list@.len(),
            forall|b: int| 0 <= b < i ==> !(#[trigger] list@[b])@.contains(s),
        decreases list@.len() - i,
    {
        if contains_char(&list[i], s) {
            return Some(i);
        }
        i = i + 1;
    }
    None
}

/// Appends an unplaced state to the block at `i`.
fn append_member(list: &mut Vec<Vec<char>>, i: usize, s: char, Ghost(states): Ghost<Seq<char>>)
    requires
        partition_inv(old(list)@, states),
        0 <= i < old(list)@.len(),
        forall|b: int| 0 <= b < old(list)@.len() ==> !(#[trigger] old(list)@[b])@.contains(s),
        states.contains(s),
    ensures
        partition_inv(final(list)@, states),
        final(list)@.len() == old(list)@.len(),
        forall|b: int| 0 <= b < old(list)@.len() && b != i ==> final(list)@[b] == old(list)@[b],
        final(list)@[i as int]@ == old(list)@[i as int]@.push(s),
        forall|b: int, x: char|
            #![trigger old(list)@[b]@.contains(x)]
            0 <= b < old(list)@.len() && old(list)@[b]@.contains(x)
                ==> final(list)@[b]@.contains(x),
        final(list)@[i as int]@.contains(s),
{
    let ghost pre = list@;
    let mut blk = list.remove(i);
    let ghost mid = list@;
    blk.push(s);
    list.insert(i, blk);
    proof {
        assert(list@.len() == pre.len());
        assert forall|b: int| 0 <= b < pre.len() && b != i implies list@[b] == pre[b] by {
            if b < i {
                assert(mid[b] == pre[b]);
                assert(list@[b] == mid[b]);
            } else {
                assert(mid[b - 1] == pre[b]);
                assert(list@[b] == mid[b - 1]);
            }
        }
        assert(list@[i as int]@ == pre[i as int]@.push(s));
        crate::symbols::lemma_push_contains(pre[i as int]@, s);
        assert(list@[i as int]@.contains(s));
        assert forall|b: int, x: char|
            #![trigger pre[b]@.contains(x)]
            0 <= b < pre.len() && pre[b]@.contains(x) implies list@[b]@.contains(x) by {
            if b != i {
                assert(list@[b] == pre[b]);
            } else {
                let m = choose|m: int| 0 <= m < pre[b]@.len() && pre[b]@[m] == x;
                assert(list@[b]@[m] == x);
            }
        }
        assert(distinct(list@[i as int]@)) by {
            let nb = list@[i as int]@;
            assert forall|p: int, q: int| 0 <= p < q < nb.len() implies nb[p] != nb[q] by {
                if q < nb.len() - 1 {
                    assert(nb[p] == pre[i as int]@[p] && nb[q] == pre[i as int]@[q]);
                } else {
                    assert(nb[q] == s && nb[p] == pre[i as int]@[p]);
                    assert(pre[i as int]@.contains(pre[i as int]@[p]));
                }
            }
        }
        assert(partition_inv(list@, states)) by {
            assert forall|b: int, m: int|
                0 <= b < list@.len() && 0 <= m < list@[b]@.len() implies states.contains(
                #[trigger] list@[b]@[m],
            ) by {
                if b == i && m == list@[b]@.len() - 1 {
                    assert(list@[b]@[m] == s);
                } else if b == i {
                    assert(list@[b]@[m] == pre[b]@[m]);
                } else {
                    assert(list@[b] == pre[b]);
                }
            }
            assert forall|b1: int, b2: int, m1: int, m2: int|
                #![trigger list@[b1]@[m1], list@[b2]@[m2]]
                0 <= b1 < list@.len() && 0 <= b2 < list@.len() && b1 != b2 && 0 <= m1
                    < list@[b1]@.len() && 0 <= m2 < list@[b2]@.len() implies list@[b1]@[m1]
                != list@[b2]@[m2] by {
                if b1 == i && m1 == list@[b1]@.len() - 1 {
                    assert(list@[b1]@[m1] == s);
                    assert(list@[b2] == pre[b2]);
                    assert(pre[b2]@.contains(pre[b2]@[m2]));
                } else if b2 == i && m2 == list@[b2]@.len() - 1 {
                    assert(list@[b2]@[m2] == s);
                    assert(list@[b1] == pre[b1]);
                    assert(pre[b1]@.contains(pre[b1]@[m1]));
                } else {
                    let x1 = if b1 == i {
                        pre[b1]@[m1]
                    } else {
                        pre[b1]@[m1]
                    };
                    assert(list@[b1]@[m1] == pre[b1]@[m1]);
                    assert(list@[b2]@[m2] == pre[b2]@[m2]);
                }
            }
        }
    }
}

/// Opens a new block holding the unplaced states of `blk`.
fn push_block(list: &mut Vec<Vec<char>>, blk: Vec<char>, Ghost(states): Ghost<Seq<char>>)
    requires
        partition_inv(old(list)@, states),
        blk@.len() >= 1,
        distinct(blk@),
        forall|m: int| 0 <= m < blk@.len() ==> states.contains(#[trigger] blk@[m]),
        forall|b: int, m: int|
            0 <= b < old(list)@.len() && 0 <= m < blk@.len()
                ==> !(#[trigger] old(list)@[b])@.contains(#[trigger] blk@[m]),
    ensures
        partition_inv(final(list)@, states),
        final(list)@.len() == old(list)@.len() + 1,
        forall|b: int| 0 <= b < old(list)@.len() ==> final(list)@[b] == old(list)@[b],
        final(list)@.last()@ == blk@,
        forall|b: int, x: char|
            #![trigger old(list)@[b]@.contains(x)]
            0 <= b < old(list)@.len() && old(list)@[b]@.contains(x)
                ==> final(list)@[b]@.contains(x),
{
    let ghost pre = list@;
    let ghost bv = blk@;
    list.push(blk);
    proof {
        assert forall|b: int| 0 <= b < pre.len() implies list@[b] == pre[b] by {}
        assert(list@.last()@ == bv);
        assert(partition_inv(list@, states)) by {
            assert forall|b1: int, b2: int, m1: int, m2: int|
                #![trigger list@[b1]@[m1], list@[b2]@[m2]]
                0 <= b1 < list@.len() && 0 <= b2 < list@.len() && b1 != b2 && 0 <= m1
                    < list@[b1]@.len() && 0 <= m2 < list@[b2]@.len() implies list@[b1]@[m1]
                != list@[b2]@[m2] by {
                if b1 == list@.len() - 1 {
                    assert(list@[b2] == pre[b2]);
                    assert(list@[b1]@[m1] == bv[m1]);
                    assert(!pre[b2]@.contains(bv[m1]));
                    assert(pre[b2]@.contains(pre[b2]@[m2]));
                } else if b2 == list@.len() - 1 {
                    assert(list@[b1] == pre[b1]);
                    assert(list@[b2]@[m2] == bv[m2]);
                    assert(!pre[b1]@.contains(bv[m2]));
                    assert(pre[b1]@.contains(pre[b1]@[m1]));
                } else {
                    assert(list@[b1] == pre[b1] && list@[b2] == pre[b2]);
                }
            }
            assert forall|b: int, m: int|
                0 <= b < list@.len() && 0 <= m < list@[b]@.len() implies states.contains(
                #[trigger] list@[b]@[m],
            ) by {
                if b < pre.len() {
                    assert(list@[b] == pre[b]);
                } else {
                    assert(list@[b]@[m] == bv[m]);
                }
            }
        }
    }
}

impl Dfa {
    /// Whether `s1` and `s2` currently look equivalent: for every input
    /// symbol both transitions are absent, or both lead into the same block
    /// of the current partition.
    fn states_equivalent(&self, s1: char, s2: char, list: &Vec<Vec<char>>) -> (r: bool)
        requires
            self.transitions.wf(),
    {
        let mut idx: usize = 0;
        while idx < self.inputs.len()
            invariant
                0 <= idx <= self.inputs@.len(),
            decreases self.inputs@.len() - idx,
        {
            let a = self.inputs[idx];
            let o1 = self.transitions.get(&(s1, a)).is_some();
            let o2 = self.transitions.get(&(s2, a)).is_some();
            if o1 != o2 {
                return false;
            }
            if o1 && o2 {
                let d1 = match self.transitions.get(&(s1, a)) {
                    Some(l) => {
                        if l.len() == 0 {
                            return false;
                        }
                        l[0]
                    },
                    None => {
                        return false;
                    },
                };
                let d2 = match self.transitions.get(&(s2, a)) {
                    Some(l) => {
                        if l.len() == 0 {
                            return false;
                        }
                        l[0]
                    },
                    None => {
                        return false;
                    },
                };
                if d1 != d2 {
                    match (find_block(list, d1), find_block(list, d2)) {
                        (Some(i), Some(j)) => {
                            if i != j {
                                return false;
                            }
                        },
                        _ => {
                            return false;
                        },
                    }
                }
            }
            idx = idx + 1;
        }
        true
    }

    /// Merges the states that the window-of-two partition refinement groups
    /// together. States judged currently equivalent join one block; the
    /// refinement is re-run until the partition reaches a fixed point, for
    /// at most `|Q| + 2` rounds. Each block of size greater than one is then
    /// collapsed into a fresh synthesized state, recorded in the composite
    /// maps, and the automaton is rebuilt over the block names; `merged_by`
    /// in the contract captures that rewrite exactly. An automaton with
    /// unreachable states is left unchanged, as is one for which the
    /// fresh-name pool would not suffice.
    pub fn remove_redundant_states(&mut self) -> (r: Result<(), FiniteAutomataError>)
        requires
            old(self).wf(),
        ensures
            final(self).wf(),
            final(self).inputs@ == old(self).inputs@,
            final(self).states@.len() <= old(self).states@.len(),
            (exists|q: char|
                old(self).states@.contains(q) && !spec_dfa_reachable(
                    old(self).transitions,
                    old(self).starting_states@,
                    q,
                )) ==> *final(self) == *old(self),
            r matches Err(_) ==> *final(self) == *old(self),
            (r matches Ok(_) && !(exists|q: char|
                old(self).states@.contains(q) && !spec_dfa_reachable(
                    old(self).transitions,
                    old(self).starting_states@,
                    q,
                ))) ==> (exists|pairs: Seq<(char, Seq<char>)>|
                merged_by(*old(self), *final(self), pairs)),
    {
        let ghost states_v = self.states@;
        if self.has_unreachable_states() {
            return Ok(());
        }
        // initial partition: the non-closing states, then the closing states
        let mut b0: Vec<char> = Vec::new();
        let mut b1: Vec<char> = Vec::new();
        let mut i: usize = 0;
        while i < self.states.len()
            invariant
                *self == *old(self),
                0 <= i <= self.states@.len(),
                b0@ == crate::symbols::selected_chars(
                    self.states@.subrange(0, i as int),
                    (|c: char| !old(self).closing_states@.contains(c)),
                ),
                b1@ == crate::symbols::selected_chars(
                    self.states@.subrange(0, i as int),
                    (|c: char| old(self).closing_states@.contains(c)),
                ),
            decreases self.states@.len() - i,
        {
            proof {
                assert(self.states@.subrange(0, i + 1 as int).drop_last() =~= self
                    .states@.subrange(0, i as int));
                assert(self.states@.subrange(0, i + 1 as int).last() == self.states@[i as int]);
            }
            if contains_char(&self.closing_states, self.states[i]) {
                b1.push(self.states[i]);
            } else {
                b0.push(self.states[i]);
            }
            i = i + 1;
        }
        proof {
            assert(self.states@.subrange(0, self.states@.len() as int) =~= self.states@);
            crate::symbols::lemma_selected_chars_props(
                self.states@,
                (|c: char| !old(self).closing_states@.contains(c)),
            );
            crate::symbols::lemma_selected_chars_props(
                self.states@,
                (|c: char| old(self).closing_states@.contains(c)),
            );
        }
        let mut list: Vec<Vec<char>> = Vec::new();
        if b0.len() > 0 {
            proof {
                assert forall|m: int|
                    0 <= m < b0@.len() implies states_v.contains(#[trigger] b0@[m]) by {
                    assert(b0@.contains(b0@[m]));
                }
            }
            push_block(&mut list, b0, Ghost(states_v));
        }
        if b1.len() > 0 {
            proof {
                assert forall|m: int|
                    0 <= m < b1@.len() implies states_v.contains(#[trigger] b1@[m]) by {
                    assert(b1@.contains(b1@[m]));
                }
                assert forall|b: int, m: int|
                    0 <= b < list@.len() && 0 <= m < b1@.len() implies !(#[trigger] list@[b])@
                    .contains(#[trigger] b1@[m]) by {
                    assert(b1@.contains(b1@[m]));
                    assert(old(self).closing_states@.contains(b1@[m]));
                    if list@[b]@.contains(b1@[m]) {
                        assert(list@[b]@ == crate::symbols::selected_chars(
                            self.states@,
                            (|c: char| !old(self).closing_states@.contains(c)),
                        ));
                    }
                }
            }
            push_block(&mut list, b1, Ghost(states_v));
        }
        proof {
            assert(partition_covers(list@, states_v)) by {
                assert forall|p: int|
                    0 <= p < states_v.len() implies in_some_block(
                    list@,
                    #[trigger] states_v[p],
                ) by {
                    let x = states_v[p];
                    assert(self.states@.contains(x));
                    if old(self).closing_states@.contains(x) {
                        assert(crate::symbols::selected_chars(
                            self.states@,
                            (|c: char| old(self).closing_states@.contains(c)),
                        ).contains(x));
                        assert(list@[list@.len() - 1]@.contains(x));
                    } else {
                        assert(crate::symbols::selected_chars(
                            self.states@,
                            (|c: char| !old(self).closing_states@.contains(c)),
                        ).contains(x));
                        assert(list@[0]@.contains(x));
                    }
                }
            }
        }
        // refinement rounds, bounded
        let mut fuel: usize = self.states.len();
        if fuel < usize::MAX - 1 {
            fuel = fuel + 2;
        }
        while fuel > 0
            invariant
                *self == *old(self),
                states_v == self.states@,
                partition_inv(list@, states_v),
                partition_covers(list@, states_v),
            decreases fuel,
        {
            fuel = fuel - 1;
            let mut new_list: Vec<Vec<char>> = Vec::new();
            let mut bi: usize = 0;
            while bi < list.len()
                invariant
                    *self == *old(self),
                    states_v == self.states@,
                    partition_inv(list@, states_v),
                    partition_inv(new_list@, states_v),
                    0 <= bi <= list@.len(),
                    forall|b: int, m: int|
                        #![trigger list@[b]@[m]]
                        0 <= b < bi && 0 <= m < list@[b]@.len() ==> in_some_block(
                            new_list@,
                            list@[b]@[m],
                        ),
                decreases list@.len() - bi,
            {
                let blen = list[bi].len();
                if blen == 1 {
                    let s = list[bi][0];
                    proof {
                        assert(states_v.contains(s));
                    }
                    if find_block(&new_list, s).is_none() {
                        let mut sv: Vec<char> = Vec::new();
                        sv.push(s);
                        proof {
                            assert(sv@ =~= seq![s]);
                        }
                        let ghost pre_nl = new_list@;
                        push_block(&mut new_list, sv, Ghost(states_v));
                        proof {
                            assert(new_list@.last()@.contains(s)) by {
                                assert(new_list@.last()@[0] == s);
                            }
                            assert(new_list@[new_list@.len() - 1]@.contains(s));
                            lemma_in_some_block_mono(pre_nl, new_list@);
                        }
                    }
                    proof {
                        assert(in_some_block(new_list@, s)) by {
                            let b2 = choose|b2: int|
                                0 <= b2 < new_list@.len() && (#[trigger] new_list@[b2])@.contains(
                                    s,
                                );
                        }
                    }
                } else {
                    let mut w: usize = 0;
                    while w + 1 < list[bi].len()
                        invariant
                            *self == *old(self),
                            states_v == self.states@,
                            partition_inv(list@, states_v),
                            partition_inv(new_list@, states_v),
                            0 <= bi < list@.len(),
                            0 <= w <= list@[bi as int]@.len() - 1,
                            list@[bi as int]@.len() >= 2,
                            w >= 1 ==> forall|m: int|
                                0 <= m < w + 1 ==> in_some_block(
                                    new_list@,
                                    #[trigger] list@[bi as int]@[m],
                                ),
                            forall|b: int, m: int|
                                #![trigger list@[b]@[m]]
                                0 <= b < bi && 0 <= m < list@[b]@.len() ==> in_some_block(
                                    new_list@,
                                    list@[b]@[m],
                                ),
                        decreases list@[bi as int]@.len() - w,
                    {
                        let ghost wn = new_list@;
                        let s1 = list[bi][w];
                        let s2 = list[bi][w + 1];
                        proof {
                            assert(states_v.contains(s1));
                            assert(states_v.contains(s2));
                            assert(s1 != s2) by {
                                assert(distinct(list@[bi as int]@));
                            }
                        }
                        let eq = self.states_equivalent(s1, s2, &list);
                        let p1 = find_block(&new_list, s1);
                        let p2 = find_block(&new_list, s2);
                        if eq {
                            let ghost pre_nl = new_list@;
                            match (p1, p2) {
                                (Some(ii), None) => {
                                    append_member(&mut new_list, ii, s2, Ghost(states_v));
                                    proof {
                                        lemma_in_some_block_mono(pre_nl, new_list@);
                                        assert(new_list@[ii as int]@.contains(s2));
                                        assert(in_some_block(new_list@, s2));
                                        assert(pre_nl[ii as int]@.contains(s1));
                                        assert(in_some_block(pre_nl, s1));
                                    }
                                },
                                (None, None) => {
                                    let mut pv: Vec<char> = Vec::new();
                                    pv.push(s1);
                                    pv.push(s2);
                                    proof {
                                        assert(pv@ =~= seq![s1, s2]);
                                        assert(distinct(pv@));
                                    }
                                    push_block(&mut new_list, pv, Ghost(states_v));
                                    proof {
                                        lemma_in_some_block_mono(pre_nl, new_list@);
                                        assert(new_list@[new_list@.len() - 1]@.contains(s1)) by {
                                            assert(new_list@.last()@[0] == s1);
                                        }
                                        assert(new_list@[new_list@.len() - 1]@.contains(s2)) by {
                                            assert(new_list@.last()@[1] == s2);
                                        }
                                        assert(in_some_block(new_list@, s1));
                                        assert(in_some_block(new_list@, s2));
                                    }
                                },
                                (None, Some(jj)) => {
                                    append_member(&mut new_list, jj, s1, Ghost(states_v));
                                    proof {
                                        lemma_in_some_block_mono(pre_nl, new_list@);
                                        assert(new_list@[jj as int]@.contains(s1));
                                        assert(in_some_block(new_list@, s1));
                                        assert(pre_nl[jj as int]@.contains(s2));
                                        assert(in_some_block(pre_nl, s2));
                                    }
                                },
                                (Some(ii), Some(jj)) => {
                                    proof {
                                        assert(pre_nl[ii as int]@.contains(s1));
                                        assert(pre_nl[jj as int]@.contains(s2));
                                        assert(in_some_block(new_list@, s1));
                                        assert(in_some_block(new_list@, s2));
                                    }
                                },
                            }
                        } else {
                            let mut placed1 = p1.is_some();
                            let mut t: usize = 0;
                            while t < new_list.len()
                                invariant
                                    *self == *old(self),
                                    states_v == self.states@,
                                    partition_inv(new_list@, states_v),
                                    0 <= t <= new_list@.len(),
                                    states_v.contains(s1),
                                    placed1 ==> in_some_block(new_list@, s1),
                                    !placed1 ==> forall|b: int|
                                        0 <= b < new_list@.len() ==> !(
                                        #[trigger] new_list@[b])@.contains(s1),
                                    forall|x: char|
                                        #[trigger] in_some_block(wn, x) ==> in_some_block(
                                            new_list@,
                                            x,
                                        ),
                                decreases new_list@.len() - t,
                            {
                                if !placed1 {
                                    let has2 = contains_char(&new_list[t], s2);
                                    let rep = new_list[t][0];
                                    if !has2 && self.states_equivalent(rep, s1, &list) {
                                        let ghost pre_nl = new_list@;
                                        append_member(&mut new_list, t, s1, Ghost(states_v));
                                        placed1 = true;
                                        proof {
                                            assert(new_list@[t as int]@.contains(s1));
                                            assert(in_some_block(new_list@, s1));
                                            lemma_in_some_block_mono(pre_nl, new_list@);
                                        }
                                    }
                                }
                                t = t + 1;
                            }
                            if !placed1 {
                                let mut sv: Vec<char> = Vec::new();
                                sv.push(s1);
                                proof {
                                    assert(sv@ =~= seq![s1]);
                                }
                                let ghost pre_nl = new_list@;
                                push_block(&mut new_list, sv, Ghost(states_v));
                                proof {
                                    assert(new_list@[new_list@.len() - 1]@.contains(s1)) by {
                                        assert(new_list@.last()@[0] == s1);
                                    }
                                    assert(in_some_block(new_list@, s1));
                                    lemma_in_some_block_mono(pre_nl, new_list@);
                                }
                            }
                            // now place the second of the pair
                            let p2b = find_block(&new_list, s2);
                            let mut placed2 = p2b.is_some();
                            let mut t2: usize = 0;
                            while t2 < new_list.len()
                                invariant
                                    *self == *old(self),
                                    states_v == self.states@,
                                    partition_inv(new_list@, states_v),
                                    0 <= t2 <= new_list@.len(),
                                    states_v.contains(s2),
                                    in_some_block(new_list@, s1),
                                    placed2 ==> in_some_block(new_list@, s2),
                                    !placed2 ==> forall|b: int|
                                        0 <= b < new_list@.len() ==> !(
                                        #[trigger] new_list@[b])@.contains(s2),
                                    forall|x: char|
                                        #[trigger] in_some_block(wn, x) ==> in_some_block(
                                            new_list@,
                                            x,
                                        ),
                                decreases new_list@.len() - t2,
                            {
                                if !placed2 {
                                    let has1 = contains_char(&new_list[t2], s1);
                                    let rep = new_list[t2][0];
                                    if !has1 && self.states_equivalent(rep, s2, &list) {
                                        let ghost pre_nl = new_list@;
                                        append_member(&mut new_list, t2, s2, Ghost(states_v));
                                        placed2 = true;
                                        proof {
                                            assert(new_list@[t2 as int]@.contains(s2));
                                            assert(in_some_block(new_list@, s2));
                                            lemma_in_some_block_mono(pre_nl, new_list@);
                                        }
                                    }
                                }
                                t2 = t2 + 1;
                            }
                            if !placed2 {
                                let mut sv: Vec<char> = Vec::new();
                                sv.push(s2);
                                proof {
                                    assert(sv@ =~= seq![s2]);
                                }
                                let ghost pre_nl = new_list@;
                                push_block(&mut new_list, sv, Ghost(states_v));
                                proof {
                                    assert(new_list@[new_list@.len() - 1]@.contains(s2)) by {
                                        assert(new_list@.last()@[0] == s2);
                                    }
                                    assert(in_some_block(new_list@, s2));
                                    lemma_in_some_block_mono(pre_nl, new_list@);
                                }
                            }
                        }
                        proof {
                            assert(in_some_block(new_list@, s1));
                            assert(in_some_block(new_list@, s2));
                            assert forall|x: char|
                                #[trigger] in_some_block(wn, x) implies in_some_block(
                                new_list@,
                                x,
                            ) by {}
                            assert forall|m: int|
                                0 <= m < w + 2 implies in_some_block(
                                new_list@,
                                #[trigger] list@[bi as int]@[m],
                            ) by {
                                if m == w {
                                    assert(list@[bi as int]@[m] == s1);
                                } else if m == w + 1 {
                                    assert(list@[bi as int]@[m] == s2);
                                } else {
                                    assert(w >= 1 ==> in_some_block(wn, list@[bi as int]@[m]));
                                    assert(m < w);
                                    assert(w >= 1);
                                }
                            }
                            assert forall|b: int, m: int|
                                #![trigger list@[b]@[m]]
                                0 <= b < bi && 0 <= m < list@[b]@.len() implies in_some_block(
                                new_list@,
                                list@[b]@[m],
                            ) by {
                                assert(in_some_block(wn, list@[b]@[m]));
                            }
                        }
                        w = w + 1;
                    }
                }
                bi = bi + 1;
            }
            proof {
                assert(partition_covers(new_list@, states_v)) by {
                    assert forall|p: int|
                        0 <= p < states_v.len() implies in_some_block(
                        new_list@,
                        #[trigger] states_v[p],
                    ) by {
                        let x = states_v[p];
                        assert(in_some_block(list@, x));
                        let b = choose|b: int|
                            0 <= b < list@.len() && (#[trigger] list@[b])@.contains(x);
                        let m = choose|m: int| 0 <= m < list@[b]@.len() && list@[b]@[m] == x;
                        assert(list@[b]@[m] == x);
                    }
                }
            }
            let same = blocks_equal(&list, &new_list);
            list = new_list;
            if same {
                break;
            }
        }
        self.finish_merge(list)
    }

    /// Collapses the settled partition: each block of more than one state
    /// gets a fresh capital-letter name recorded in the composite maps, a
    /// singleton block keeps its state, and states, initial and final states
    /// and transitions are rewritten over the block names.
    fn finish_merge(&mut self, list: Vec<Vec<char>>) -> (r: Result<(), FiniteAutomataError>)
        requires
            old(self).wf(),
            partition_inv(list@, old(self).states@),
            partition_covers(list@, old(self).states@),
        ensures
            final(self).wf(),
            final(self).inputs@ == old(self).inputs@,
            final(self).states@.len() <= old(self).states@.len(),
            r matches Err(_) ==> *final(self) == *old(self),
            r matches Ok(_) ==> (exists|pairs: Seq<(char, Seq<char>)>|
                merged_by(*old(self), *final(self), pairs)),
    {
        let ghost states_v = old(self).states@;
        let ghost sm0 = old(self).state_to_state_combo_map@;
        proof {
            // one block, one leading member: the partition is no larger than
            // the state list
            let firsts = Seq::new(list@.len(), |b: int| list@[b]@[0]);
            assert(distinct(firsts)) by {
                assert forall|p: int, q: int|
                    0 <= p < q < firsts.len() implies firsts[p] != firsts[q] by {
                    assert(firsts[p] == list@[p]@[0] && firsts[q] == list@[q]@[0]);
                }
            }
            assert forall|k: int| 0 <= k < firsts.len() implies states_v.contains(
                #[trigger] firsts[k],
            ) by {
                assert(firsts[k] == list@[k]@[0]);
            }
            crate::symbols::lemma_distinct_subset_len(firsts, states_v);
            assert(list@.len() <= states_v.len());
        }
        // gather the symbols no fresh name may collide with
        let mut used = clone_chars(&self.states);
        let mut qi: usize = 0;
        while qi < self.state_to_state_combo_map.len()
            invariant
                *self == *old(self),
                0 <= qi <= self.state_to_state_combo_map@.len(),
                forall|x: char| self.states@.contains(x) ==> used@.contains(x),
                forall|q: int|
                    0 <= q < qi ==> used@.contains(
                        (#[trigger] self.state_to_state_combo_map@[q]).0,
                    ),
                forall|x: char|
                    #[trigger] used@.contains(x) <==> (self.states@.contains(x) || (exists|q: int|
                        0 <= q < qi && (#[trigger] sm0[q]).0 == x)),
            decreases self.state_to_state_combo_map@.len() - qi,
        {
            let n = self.state_to_state_combo_map[qi].0;
            let ghost pre_u = used@;
            used.push(n);
            proof {
                crate::symbols::lemma_push_contains(pre_u, n);
                assert forall|x: char| self.states@.contains(x) implies used@.contains(x) by {
                    assert(pre_u.contains(x));
                }
                assert forall|q: int|
                    0 <= q < qi + 1 implies used@.contains(
                    (#[trigger] self.state_to_state_combo_map@[q]).0,
                ) by {
                    if q < qi {
                        assert(pre_u.contains(self.state_to_state_combo_map@[q].0));
                    } else {
                        assert(self.state_to_state_combo_map@[q].0 == n);
                    }
                }
                assert forall|x: char|
                    #[trigger] used@.contains(x) <==> (self.states@.contains(x) || (exists|
                    q: int,
                |
                    0 <= q < qi + 1 && (#[trigger] sm0[q]).0 == x)) by {
                    if used@.contains(x) && !pre_u.contains(x) {
                        assert(x == n);
                        assert(sm0[qi as int].0 == n);
                    }
                    if exists|q: int| 0 <= q < qi + 1 && (#[trigger] sm0[q]).0 == x {
                        let q = choose|q: int| 0 <= q < qi + 1 && (#[trigger] sm0[q]).0 == x;
                        if q < qi {
                            assert(pre_u.contains(x));
                        } else {
                            assert(x == n);
                        }
                    }
                }
            }
            qi = qi + 1;
        }
        // pick every block's representative before touching the automaton
        let mut reps: Vec<char> = Vec::new();
        let mut bi: usize = 0;
        proof {
            assert forall|x: char|
                #[trigger] used@.contains(x) <==> (self.states@.contains(x) || sm_has(sm0, x)
                    || (exists|p: int| 0 <= p < 0 && (#[trigger] reps@[p]) == x)) by {
                if used@.contains(x) && !self.states@.contains(x) {
                    let q = choose|q: int|
                        0 <= q < sm0.len() && (#[trigger] sm0[q]).0 == x;
                }
                if sm_has(sm0, x) {
                    let q = choose|q: int| 0 <= q < sm0.len() && (#[trigger] sm0[q]).0 == x;
                }
            }
        }
        while bi < list.len()
            invariant
                *self == *old(self),
                0 <= bi <= list@.len(),
                reps@.len() == bi,
                partition_inv(list@, states_v),
                distinct(reps@),
                forall|x: char| self.states@.contains(x) ==> used@.contains(x),
                forall|q: int|
                    0 <= q < self.state_to_state_combo_map@.len() ==> used@.contains(
                        (#[trigger] self.state_to_state_combo_map@[q]).0,
                    ),
                forall|p: int| 0 <= p < bi ==> used@.contains(#[trigger] reps@[p]),
                forall|x: char|
                    #[trigger] used@.contains(x) <==> (self.states@.contains(x) || sm_has(
                        sm0,
                        x,
                    ) || (exists|p: int| 0 <= p < bi && (#[trigger] reps@[p]) == x)),
                forall|p: int|
                    #![trigger reps@[p]]
                    0 <= p < bi ==> ((list@[p]@.len() == 1 && reps@[p] == list@[p]@[0]) || (
                    list@[p]@.len() > 1 && !self.states@.contains(reps@[p]) && !sm_has(
                        sm0,
                        reps@[p],
                    ) && 'A' <= reps@[p] && reps@[p] <= 'Z' && (forall|c2: char|
                        'A' <= c2 && c2 < reps@[p] ==> self.states@.contains(c2) || sm_has(
                            sm0,
                            c2,
                        ) || (exists|p2: int| 0 <= p2 < p && (#[trigger] reps@[p2]) == c2)))),
            decreases list@.len() - bi,
        {
            let blen = list[bi].len();
            let ghost pre_u = used@;
            let ghost pre_r = reps@;
            if blen == 1 {
                let rp = list[bi][0];
                proof {
                    assert(states_v.contains(rp));
                    assert(distinct(pre_r.push(rp))) by {
                        crate::symbols::lemma_push_contains(pre_r, rp);
                        assert forall|p: int, q: int|
                            0 <= p < q < pre_r.push(rp).len() implies pre_r.push(rp)[p]
                            != pre_r.push(rp)[q] by {
                            if q == pre_r.len() {
                                assert(pre_r.push(rp)[q] == rp);
                                assert(pre_r.push(rp)[p] == pre_r[p]);
                                if list@[p]@.len() == 1 && pre_r[p] == list@[p]@[0] {
                                    assert(list@[p]@[0] != list@[bi as int]@[0]);
                                } else {
                                    assert(!self.states@.contains(pre_r[p]));
                                }
                            }
                        }
                    }
                }
                let ghost pre_r2 = reps@;
                let ghost pre_u2 = used@;
                reps.push(rp);
                used.push(rp);
                proof {
                    crate::symbols::lemma_push_contains(pre_u2, rp);
                    crate::symbols::lemma_push_contains(pre_r2, rp);
                    assert forall|x: char|
                        #[trigger] used@.contains(x) <==> (self.states@.contains(x) || sm_has(
                        sm0,
                        x,
                    ) || (exists|p: int| 0 <= p < bi + 1 && (#[trigger] reps@[p]) == x)) by {
                        if used@.contains(x) && !pre_u2.contains(x) {
                            assert(x == rp);
                            assert(reps@[bi as int] == rp);
                        }
                        if pre_u2.contains(x) && !self.states@.contains(x) && !sm_has(sm0, x) {
                            let p = choose|p: int| 0 <= p < bi && (#[trigger] pre_r2[p]) == x;
                            assert(reps@[p] == x);
                        }
                        if exists|p: int| 0 <= p < bi + 1 && (#[trigger] reps@[p]) == x {
                            let p = choose|p: int|
                                0 <= p < bi + 1 && (#[trigger] reps@[p]) == x;
                            if p < bi {
                                assert(pre_r2[p] == x);
                                assert(pre_u2.contains(x));
                            } else {
                                assert(x == rp);
                                assert(self.states@.contains(rp));
                            }
                        }
                    }
                }
            } else {
                match find_fresh_letter(&used) {
                    Some(c) => {
                        proof {
                            assert(!self.states@.contains(c)) by {
                                if self.states@.contains(c) {
                                    assert(used@.contains(c));
                                }
                            }
                            assert(!sm_has(sm0, c)) by {
                                if sm_has(sm0, c) {
                                    let q = choose|q: int|
                                        0 <= q < sm0.len() && (#[trigger] sm0[q]).0 == c;
                                    assert(used@.contains(sm0[q].0));
                                }
                            }
                            assert(distinct(pre_r.push(c))) by {
                                assert forall|p: int, q: int|
                                    0 <= p < q < pre_r.push(c).len() implies pre_r.push(c)[p]
                                    != pre_r.push(c)[q] by {
                                    if q == pre_r.len() {
                                        assert(pre_r.push(c)[q] == c);
                                        assert(pre_r.push(c)[p] == pre_r[p]);
                                        assert(used@.contains(pre_r[p]));
                                    }
                                }
                            }
                        }
                        let ghost pre_r2 = reps@;
                        let ghost pre_u2 = used@;
                        reps.push(c);
                        used.push(c);
                        proof {
                            crate::symbols::lemma_push_contains(pre_u2, c);
                            crate::symbols::lemma_push_contains(pre_r2, c);
                            assert forall|x: char|
                                #[trigger] used@.contains(x) <==> (self.states@.contains(x)
                                || sm_has(sm0, x) || (exists|p: int|
                                0 <= p < bi + 1 && (#[trigger] reps@[p]) == x)) by {
                                if used@.contains(x) && !pre_u2.contains(x) {
                                    assert(x == c);
                                    assert(reps@[bi as int] == c);
                                }
                                if pre_u2.contains(x) && !self.states@.contains(x) && !sm_has(
                                    sm0,
                                    x,
                                ) {
                                    let p = choose|p: int|
                                        0 <= p < bi && (#[trigger] pre_r2[p]) == x;
                                    assert(reps@[p] == x);
                                }
                                if exists|p: int|
                                    0 <= p < bi + 1 && (#[trigger] reps@[p]) == x {
                                    let p = choose|p: int|
                                        0 <= p < bi + 1 && (#[trigger] reps@[p]) == x;
                                    if p < bi {
                                        assert(pre_r2[p] == x);
                                        assert(pre_u2.contains(x));
                                    } else {
                                        assert(x == c);
                                        assert(used@[used@.len() - 1] == c);
                                    }
                                }
                            }
                            // the fresh letter is first-unused among states,
                            // stale map names and earlier block names
                            assert forall|c2: char|
                                'A' <= c2 && c2 < c implies self.states@.contains(c2) || sm_has(
                                sm0,
                                c2,
                            ) || (exists|p2: int|
                                0 <= p2 < bi && (#[trigger] reps@[p2]) == c2) by {
                                assert(pre_u2.contains(c2));
                                if !self.states@.contains(c2) && !sm_has(sm0, c2) {
                                    let p2 = choose|p2: int|
                                        0 <= p2 < bi && (#[trigger] pre_r2[p2]) == c2;
                                    assert(reps@[p2] == c2);
                                }
                            }
                        }
                    },
                    None => {
                        return Err(FiniteAutomataError::NamingCapacityExceeded);
                    },
                }
            }
            proof {
                crate::symbols::lemma_push_contains(pre_u, reps@.last());
                assert forall|p: int| 0 <= p < reps@.len() implies used@.contains(
                    #[trigger] reps@[p],
                ) by {
                    if p < pre_r.len() {
                        assert(reps@[p] == pre_r[p]);
                        assert(pre_u.contains(pre_r[p]));
                    } else {
                        assert(used@.last() == reps@[p]);
                        assert(used@[used@.len() - 1] == reps@[p]);
                    }
                }
                assert forall|x: char| self.states@.contains(x) implies used@.contains(x) by {
                    assert(pre_u.contains(x));
                }
                assert forall|q: int|
                    0 <= q < self.state_to_state_combo_map@.len() implies used@.contains(
                    (#[trigger] self.state_to_state_combo_map@[q]).0,
                ) by {
                    assert(pre_u.contains(self.state_to_state_combo_map@[q].0));
                }
            }
            bi = bi + 1;
        }
        let ghost pairsw = Seq::new(list@.len() as nat, |b: int| (reps@[b], list@[b]@));
        proof {
            assert forall|p1: int, p2: int, m1: int, m2: int|
                #![trigger pairsw[p1].1[m1], pairsw[p2].1[m2]]
                0 <= p1 < pairsw.len() && 0 <= p2 < pairsw.len() && p1 != p2 && 0 <= m1
                    < pairsw[p1].1.len() && 0 <= m2 < pairsw[p2].1.len() implies pairsw[p1].1[m1]
                != pairsw[p2].1[m2] by {
                assert(pairsw[p1].1 == list@[p1]@ && pairsw[p2].1 == list@[p2]@);
                assert(list@[p1]@[m1] != list@[p2]@[m2]);
            }
        }
        // the rewritten initial state
        let h = self.starting_states[0];
        let hb = match find_block(&list, h) {
            Some(b) => b,
            None => {
                proof {
                    assert(states_v.contains(h));
                    let p = choose|p: int| 0 <= p < states_v.len() && states_v[p] == h;
                    assert(in_some_block(list@, states_v[p]));
                    assert(false);
                }
                return Err(FiniteAutomataError::NamingCapacityExceeded);
            },
        };
        proof {
            assert(pairsw[hb as int].1 == list@[hb as int]@);
            lemma_block_rep_unique(pairsw, h, hb as int);
            assert(block_rep(pairsw, h) == reps@[hb as int]);
        }
        let mut new_starting: Vec<char> = Vec::new();
        new_starting.push(reps[hb]);
        // the rewritten closing states
        let mut new_closing: Vec<char> = Vec::new();
        let mut bi2: usize = 0;
        while bi2 < list.len()
            invariant
                *self == *old(self),
                0 <= bi2 <= list@.len(),
                reps@.len() == list@.len(),
                pairsw == Seq::new(list@.len() as nat, |b: int| (reps@[b], list@[b]@)),
                distinct(new_closing@),
                forall|p: int| 0 <= p < new_closing@.len() ==> reps@.contains(
                    #[trigger] new_closing@[p],
                ),
                forall|sx: char|
                    #[trigger] new_closing@.contains(sx) <==> (exists|b: int|
                        0 <= b < bi2 && (#[trigger] pairsw[b]).0 == sx && block_closing(
                            pairsw,
                            old(self).closing_states@,
                            b,
                        )),
            decreases list@.len() - bi2,
        {
            let mut inter = false;
            let mut m: usize = 0;
            while m < list[bi2].len()
                invariant
                    0 <= m <= list@[bi2 as int]@.len(),
                    0 <= bi2 < list@.len(),
                    *self == *old(self),
                    inter <==> (exists|m2: int|
                        0 <= m2 < m && old(self).closing_states@.contains(
                            #[trigger] list@[bi2 as int]@[m2],
                        )),
                decreases list@[bi2 as int]@.len() - m,
            {
                if contains_char(&self.closing_states, list[bi2][m]) {
                    inter = true;
                    proof {
                        assert(old(self).closing_states@.contains(list@[bi2 as int]@[m as int]));
                    }
                } else {
                    proof {
                        assert forall|m2: int|
                            0 <= m2 < m + 1 && old(self).closing_states@.contains(
                                #[trigger] list@[bi2 as int]@[m2],
                            ) implies m2 < m by {}
                    }
                }
                m = m + 1;
            }
            proof {
                assert(pairsw[bi2 as int].1 == list@[bi2 as int]@);
                assert(inter == block_closing(pairsw, old(self).closing_states@, bi2 as int));
            }
            if inter {
                let rp = reps[bi2];
                if !contains_char(&new_closing, rp) {
                    let ghost pre_c = new_closing@;
                    new_closing.push(rp);
                    proof {
                        crate::symbols::lemma_push_contains(pre_c, rp);
                        assert(distinct(new_closing@)) by {
                            assert forall|p: int, q: int|
                                0 <= p < q < new_closing@.len() implies new_closing@[p]
                                != new_closing@[q] by {
                                if q == pre_c.len() {
                                    assert(new_closing@[q] == rp);
                                    assert(new_closing@[p] == pre_c[p]);
                                    assert(pre_c.contains(pre_c[p]));
                                }
                            }
                        }
                        assert forall|p: int|
                            0 <= p < new_closing@.len() implies reps@.contains(
                            #[trigger] new_closing@[p],
                        ) by {
                            if p < pre_c.len() {
                                assert(new_closing@[p] == pre_c[p]);
                                assert(pre_c.contains(pre_c[p]));
                            } else {
                                assert(new_closing@[p] == rp);
                                assert(reps@[bi2 as int] == rp);
                            }
                        }
                        assert forall|sx: char|
                            #[trigger] new_closing@.contains(sx) <==> (exists|b: int|
                            0 <= b < bi2 + 1 && (#[trigger] pairsw[b]).0 == sx && block_closing(
                                pairsw,
                                old(self).closing_states@,
                                b,
                            )) by {
                            if new_closing@.contains(sx) {
                                if sx == rp {
                                    assert(pairsw[bi2 as int].0 == rp);
                                } else {
                                    assert(pre_c.contains(sx));
                                    let b = choose|b: int|
                                        0 <= b < bi2 && (#[trigger] pairsw[b]).0 == sx
                                            && block_closing(
                                            pairsw,
                                            old(self).closing_states@,
                                            b,
                                        );
                                }
                            }
                            if exists|b: int|
                                0 <= b < bi2 + 1 && (#[trigger] pairsw[b]).0 == sx
                                    && block_closing(pairsw, old(self).closing_states@, b) {
                                let b = choose|b: int|
                                    0 <= b < bi2 + 1 && (#[trigger] pairsw[b]).0 == sx
                                        && block_closing(pairsw, old(self).closing_states@, b);
                                if b == bi2 as int {
                                    assert(sx == rp);
                                    assert(new_closing@[new_closing@.len() - 1] == rp);
                                } else {
                                    assert(pre_c.contains(sx));
                                    let pp = choose|pp: int|
                                        0 <= pp < pre_c.len() && pre_c[pp] == sx;
                                    assert(new_closing@[pp] == sx);
                                }
                            }
                        }
                    }
                } else {
                    proof {
                        assert forall|sx: char|
                            #[trigger] new_closing@.contains(sx) <==> (exists|b: int|
                            0 <= b < bi2 + 1 && (#[trigger] pairsw[b]).0 == sx && block_closing(
                                pairsw,
                                old(self).closing_states@,
                                b,
                            )) by {
                            if exists|b: int|
                                0 <= b < bi2 + 1 && (#[trigger] pairsw[b]).0 == sx
                                    && block_closing(pairsw, old(self).closing_states@, b) {
                                let b = choose|b: int|
                                    0 <= b < bi2 + 1 && (#[trigger] pairsw[b]).0 == sx
                                        && block_closing(pairsw, old(self).closing_states@, b);
                                if b == bi2 as int {
                                    assert(sx == rp);
                                    assert(new_closing@.contains(rp));
                                }
                            }
                        }
                    }
                }
            } else {
                proof {
                    assert forall|sx: char|
                        #[trigger] new_closing@.contains(sx) <==> (exists|b: int|
                        0 <= b < bi2 + 1 && (#[trigger] pairsw[b]).0 == sx && block_closing(
                            pairsw,
                            old(self).closing_states@,
                            b,
                        )) by {
                        if exists|b: int|
                            0 <= b < bi2 + 1 && (#[trigger] pairsw[b]).0 == sx && block_closing(
                                pairsw,
                                old(self).closing_states@,
                                b,
                            ) {
                            let b = choose|b: int|
                                0 <= b < bi2 + 1 && (#[trigger] pairsw[b]).0 == sx
                                    && block_closing(pairsw, old(self).closing_states@, b);
                            assert(b != bi2 as int);
                        }
                    }
                }
            }
            bi2 = bi2 + 1;
        }
        // the rewritten transition table
        let mut new_table = StateTransitionTable::new();
        let mut e: usize = 0;
        while e < self.transitions.len()
            invariant
                *self == *old(self),
                0 <= e <= self.transitions.spec_len(),
                reps@.len() == list@.len(),
                pairsw == Seq::new(list@.len() as nat, |b: int| (reps@[b], list@[b]@)),
                partition_inv(list@, states_v),
                partition_covers(list@, states_v),
                new_table.wf(),
                forall|e2: int|
                    #![trigger new_table.key_at(e2)]
                    0 <= e2 < new_table.spec_len() ==> reps@.contains(new_table.key_at(e2).0)
                        && self.inputs@.contains(new_table.key_at(e2).1) && new_table.val_at(
                        e2,
                    ).len() == 1 && reps@.contains(new_table.val_at(e2)[0]),
                forall|k: (char, char)|
                    #[trigger] new_table.spec_contains_key(k) <==> (exists|e2: int|
                        0 <= e2 < e && block_rep(
                            pairsw,
                            (#[trigger] self.transitions.key_at(e2)).0,
                        ) == k.0 && self.transitions.key_at(e2).1 == k.1),
                forall|k: (char, char)|
                    #[trigger] new_table.spec_contains_key(k) ==> (exists|e2: int|
                        0 <= e2 < e && block_rep(
                            pairsw,
                            (#[trigger] self.transitions.key_at(e2)).0,
                        ) == k.0 && self.transitions.key_at(e2).1 == k.1
                            && new_table.spec_get_val(k) == seq![
                        block_rep(pairsw, self.transitions.val_at(e2)[0]),
                    ]),
            decreases self.transitions.spec_len() - e,
        {
            let key = self.transitions.entries[e].0;
            proof {
                assert(key == self.transitions.key_at(e as int));
                self.transitions.lemma_get_at(e as int);
                assert(self.transitions.val_at(e as int).len() == 1);
                assert(states_v.contains(key.0));
                assert(states_v.contains(self.transitions.val_at(e as int)[0]));
            }
            let d0 = self.transitions.entries[e].1[0];
            let qb = match find_block(&list, key.0) {
                Some(b) => b,
                None => {
                    proof {
                        let p = choose|p: int|
                            0 <= p < states_v.len() && states_v[p] == key.0;
                        assert(in_some_block(list@, states_v[p]));
                        assert(false);
                    }
                    return Err(FiniteAutomataError::NamingCapacityExceeded);
                },
            };
            let db = match find_block(&list, d0) {
                Some(b) => b,
                None => {
                    proof {
                        let p = choose|p: int| 0 <= p < states_v.len() && states_v[p] == d0;
                        assert(in_some_block(list@, states_v[p]));
                        assert(false);
                    }
                    return Err(FiniteAutomataError::NamingCapacityExceeded);
                },
            };
            let mut sv: Vec<char> = Vec::new();
            sv.push(reps[db]);
            proof {
                assert(sv@ =~= seq![reps@[db as int]]);
                assert(pairsw[qb as int].1 == list@[qb as int]@);
                assert(pairsw[db as int].1 == list@[db as int]@);
                lemma_block_rep_unique(pairsw, key.0, qb as int);
                lemma_block_rep_unique(pairsw, d0, db as int);
                assert(block_rep(pairsw, key.0) == reps@[qb as int]);
                assert(block_rep(pairsw, d0) == reps@[db as int]);
                assert(d0 == self.transitions.val_at(e as int)[0]);
            }
            let ghost pre_nt = new_table;
            let nk = (reps[qb], key.1);
            new_table.insert(nk, sv);
            proof {
                assert forall|k: (char, char)|
                    #[trigger] new_table.spec_contains_key(k) <==> (exists|e2: int|
                    0 <= e2 < e + 1 && block_rep(
                        pairsw,
                        (#[trigger] self.transitions.key_at(e2)).0,
                    ) == k.0 && self.transitions.key_at(e2).1 == k.1) by {
                    if new_table.spec_contains_key(k) {
                        if k == nk {
                            assert(block_rep(pairsw, self.transitions.key_at(e as int).0) == k.0
                                && self.transitions.key_at(e as int).1 == k.1);
                        } else {
                            assert(new_table.spec_get(k) == pre_nt.spec_get(k));
                            assert(pre_nt.spec_contains_key(k));
                            let e2 = choose|e2: int|
                                0 <= e2 < e && block_rep(
                                    pairsw,
                                    (#[trigger] self.transitions.key_at(e2)).0,
                                ) == k.0 && self.transitions.key_at(e2).1 == k.1;
                        }
                    }
                    if exists|e2: int|
                        0 <= e2 < e + 1 && block_rep(
                            pairsw,
                            (#[trigger] self.transitions.key_at(e2)).0,
                        ) == k.0 && self.transitions.key_at(e2).1 == k.1 {
                        let e2 = choose|e2: int|
                            0 <= e2 < e + 1 && block_rep(
                                pairsw,
                                (#[trigger] self.transitions.key_at(e2)).0,
                            ) == k.0 && self.transitions.key_at(e2).1 == k.1;
                        if e2 == e {
                            assert(k == nk);
                            assert(new_table.spec_contains_key(k));
                        } else {
                            assert(pre_nt.spec_contains_key(k));
                            if k != nk {
                                assert(new_table.spec_get(k) == pre_nt.spec_get(k));
                            }
                        }
                    }
                }
                assert forall|k: (char, char)|
                    #[trigger] new_table.spec_contains_key(k) implies (exists|e2: int|
                    0 <= e2 < e + 1 && block_rep(
                        pairsw,
                        (#[trigger] self.transitions.key_at(e2)).0,
                    ) == k.0 && self.transitions.key_at(e2).1 == k.1
                        && new_table.spec_get_val(k) == seq![
                    block_rep(pairsw, self.transitions.val_at(e2)[0]),
                ]) by {
                    if k == nk {
                        assert(new_table.spec_get(k) == Some(sv@)) by {
                            assert(nk == (nk.0, nk.1));
                        }
                        assert(new_table.spec_get_val(k) == seq![
                            block_rep(pairsw, self.transitions.val_at(e as int)[0]),
                        ]);
                        assert(block_rep(pairsw, self.transitions.key_at(e as int).0) == k.0
                            && self.transitions.key_at(e as int).1 == k.1);
                    } else {
                        assert(new_table.spec_get(k) == pre_nt.spec_get(k));
                        assert(pre_nt.spec_contains_key(k));
                        let e2 = choose|e2: int|
                            0 <= e2 < e && block_rep(
                                pairsw,
                                (#[trigger] self.transitions.key_at(e2)).0,
                            ) == k.0 && self.transitions.key_at(e2).1 == k.1
                                && pre_nt.spec_get_val(k) == seq![
                            block_rep(pairsw, self.transitions.val_at(e2)[0]),
                        ];
                        assert(new_table.spec_get_val(k) == pre_nt.spec_get_val(k)) by {
                            assert(new_table.spec_get(k) == pre_nt.spec_get(k));
                        }
                    }
                }
                assert forall|e2: int|
                    #![trigger new_table.key_at(e2)]
                    0 <= e2 < new_table.spec_len() implies reps@.contains(new_table.key_at(e2).0)
                    && self.inputs@.contains(new_table.key_at(e2).1) && new_table.val_at(
                    e2,
                ).len() == 1 && reps@.contains(new_table.val_at(e2)[0]) by {
                    if e2 < pre_nt.spec_len() {
                        if pre_nt.key_at(e2) == nk {
                            new_table.lemma_get_at(e2);
                            assert(new_table.key_at(e2) == nk);
                            assert(new_table.spec_get((nk.0, nk.1)) == Some(
                                new_table.val_at(e2),
                            )) by {
                                assert(nk == (nk.0, nk.1));
                            }
                            assert(new_table.val_at(e2) == seq![reps@[db as int]]);
                            assert(reps@.contains(reps@[qb as int]));
                            assert(reps@.contains(reps@[db as int]));
                        } else {
                            assert(new_table.val_at(e2) == pre_nt.val_at(e2));
                            assert(new_table.key_at(e2) == pre_nt.key_at(e2));
                        }
                    } else {
                        assert(!pre_nt.spec_contains_key(nk)) by {
                            if pre_nt.spec_contains_key(nk) {
                                assert(new_table.spec_len() == pre_nt.spec_len());
                            }
                        }
                        assert(e2 == pre_nt.spec_len() as int);
                        assert(new_table.key_at(e2) == nk);
                        new_table.lemma_get_at(e2);
                        assert(new_table.spec_get((nk.0, nk.1)) == Some(new_table.val_at(e2)))
                            by {
                            assert(nk == (nk.0, nk.1));
                        }
                        assert(new_table.val_at(e2) == seq![reps@[db as int]]);
                        assert(reps@.contains(reps@[qb as int]));
                        assert(reps@.contains(reps@[db as int]));
                    }
                }
            }
            e = e + 1;
        }
        // record the merged blocks in the composite maps
        let ghost old_sm_len = self.state_to_state_combo_map@.len();
        let mut bi3: usize = 0;
        while bi3 < list.len()
            invariant
                0 <= bi3 <= list@.len(),
                reps@.len() == list@.len(),
                partition_inv(list@, states_v),
                partition_covers(list@, states_v),
                pairsw == Seq::new(list@.len() as nat, |b: int| (reps@[b], list@[b]@)),
                self.states@ == old(self).states@,
                self.inputs@ == old(self).inputs@,
                self.transitions == old(self).transitions,
                self.starting_states@ == old(self).starting_states@,
                self.closing_states@ == old(self).closing_states@,
                maps_bijective(self.state_combo_to_state_map@, self.state_to_state_combo_map@),
                self.state_to_state_combo_map@.len() >= old_sm_len,
                forall|q: int|
                    0 <= q < old_sm_len ==> #[trigger] self.state_to_state_combo_map@[q] == sm0[q],
                forall|q: int|
                    old_sm_len <= q < self.state_to_state_combo_map@.len() ==> (exists|j: int|
                        0 <= j < bi3 && (#[trigger] self.state_to_state_combo_map@[q]).0
                            == reps@[j]),
                forall|b: int|
                    0 <= b < bi3 && (#[trigger] list@[b])@.len() > 1 ==> cm_has(
                        self.state_combo_to_state_map@,
                        list@[b]@,
                    ),
                distinct(reps@),
                forall|p: int|
                    #![trigger reps@[p]]
                    0 <= p < list@.len() ==> ((list@[p]@.len() == 1 && reps@[p] == list@[p]@[0])
                        || (list@[p]@.len() > 1 && !self.states@.contains(reps@[p]) && !sm_has(
                        sm0,
                        reps@[p],
                    ))),
            decreases list@.len() - bi3,
        {
            let blen = list[bi3].len();
            if blen > 1 {
                match find_combo(&self.state_combo_to_state_map, &list[bi3]) {
                    Some(ci3) => {
                        proof {
                            assert(self.state_combo_to_state_map@[ci3 as int].0@
                                == list@[bi3 as int]@);
                            assert(cm_has(
                                self.state_combo_to_state_map@,
                                list@[bi3 as int]@,
                            ));
                        }
                    },
                    None => {
                    let rp = reps[bi3];
                    proof {
                        assert(!sm_has(self.state_to_state_combo_map@, rp)) by {
                            if sm_has(self.state_to_state_combo_map@, rp) {
                                let q = choose|q: int|
                                    0 <= q < self.state_to_state_combo_map@.len() && (
                                    #[trigger] self.state_to_state_combo_map@[q]).0 == rp;
                                if q < old_sm_len {
                                    assert(self.state_to_state_combo_map@[q] == sm0[q]);
                                    assert(sm_has(sm0, rp));
                                    assert(!sm_has(sm0, reps@[bi3 as int]));
                                } else {
                                    let j = choose|j: int|
                                        0 <= j < bi3 && (
                                        #[trigger] self.state_to_state_combo_map@[q]).0
                                            == reps@[j];
                                    assert(reps@[j] == reps@[bi3 as int]);
                                }
                            }
                        }
                    }
                    let cb = clone_chars(&list[bi3]);
                    let ghost pre_sm = self.state_to_state_combo_map@;
                    let ghost pre_cm3 = self.state_combo_to_state_map@;
                    maps_insert_pair(
                        &mut self.state_combo_to_state_map,
                        &mut self.state_to_state_combo_map,
                        cb,
                        rp,
                    );
                    proof {
                        assert(cm_has(
                            self.state_combo_to_state_map@,
                            list@[bi3 as int]@,
                        )) by {
                            let n3 = self.state_combo_to_state_map@.len() - 1;
                            assert(self.state_combo_to_state_map@[n3].0@ == cb@);
                        }
                        assert forall|b: int|
                            0 <= b < bi3 && (#[trigger] list@[b])@.len() > 1 implies cm_has(
                            self.state_combo_to_state_map@,
                            list@[b]@,
                        ) by {
                            let p3 = choose|p3: int|
                                0 <= p3 < pre_cm3.len() && (#[trigger] pre_cm3[p3]).0@
                                    == list@[b]@;
                            assert(self.state_combo_to_state_map@[p3] == pre_cm3[p3]);
                        }
                        assert forall|q: int|
                            old_sm_len <= q
                                < self.state_to_state_combo_map@.len() implies (exists|j: int|
                            0 <= j < bi3 + 1 && (#[trigger] self.state_to_state_combo_map@[q]).0
                                == reps@[j]) by {
                            if q < pre_sm.len() {
                                assert(self.state_to_state_combo_map@[q] == pre_sm[q]);
                            } else {
                                assert(self.state_to_state_combo_map@.last().0 == rp);
                                assert(self.state_to_state_combo_map@[q].0
                                    == reps@[bi3 as int]);
                            }
                        }
                    }
                    },
                }
            }
            proof {
                assert forall|q: int|
                    old_sm_len <= q
                        < self.state_to_state_combo_map@.len() implies (exists|j: int|
                    0 <= j < bi3 + 1 && (#[trigger] self.state_to_state_combo_map@[q]).0
                        == reps@[j]) by {
                    let j = choose|j: int|
                        0 <= j < bi3 + 1 && (#[trigger] self.state_to_state_combo_map@[q]).0
                            == reps@[j];
                    if !(0 <= j < bi3 + 1 && self.state_to_state_combo_map@[q].0 == reps@[j]) {
                        let j2 = choose|j2: int|
                            0 <= j2 < bi3 && (#[trigger] self.state_to_state_combo_map@[q]).0
                                == reps@[j2];
                        assert(0 <= j2 < bi3 + 1 && self.state_to_state_combo_map@[q].0
                            == reps@[j2]);
                    }
                }
                assert forall|b: int|
                    0 <= b < bi3 + 1 && (#[trigger] list@[b])@.len() > 1 implies cm_has(
                    self.state_combo_to_state_map@,
                    list@[b]@,
                ) by {
                    if b == bi3 as int {
                        assert(cm_has(self.state_combo_to_state_map@, list@[bi3 as int]@));
                    }
                }
            }
            bi3 = bi3 + 1;
        }
        // swap in the rewritten automaton
        self.transitions = new_table;
        self.closing_states = new_closing;
        self.starting_states = new_starting;
        self.states = reps;
        proof {
            assert(self.starting_states@.len() == 1);
            assert(self.states@.contains(self.starting_states@[0])) by {
                assert(self.starting_states@[0] == self.states@[hb as int]);
            }
            assert(self.wf());
            // the rewrite is exactly a block collapse under `pairsw`
            assert(merged_by(*old(self), *self, pairsw)) by {
                assert forall|p: int|
                    #![trigger pairsw[p]]
                    0 <= p < pairsw.len() implies pairsw[p].1.len() >= 1 && distinct(pairsw[p].1)
                    && (forall|m: int|
                    0 <= m < pairsw[p].1.len() ==> old(self).states@.contains(
                        #[trigger] pairsw[p].1[m],
                    )) by {
                    assert(pairsw[p].1 == list@[p]@);
                }
                assert forall|q: char|
                    old(self).states@.contains(q) implies exists|p: int|
                    0 <= p < pairsw.len() && (#[trigger] pairsw[p]).1.contains(q) by {
                    let ip = choose|ip: int| 0 <= ip < states_v.len() && states_v[ip] == q;
                    assert(in_some_block(list@, states_v[ip]));
                    let b = choose|b: int|
                        0 <= b < list@.len() && (#[trigger] list@[b])@.contains(q);
                    assert(pairsw[b].1 == list@[b]@);
                    assert(pairsw[b].1.contains(q));
                }
                assert forall|p: int|
                    #![trigger pairsw[p]]
                    0 <= p < pairsw.len() implies ((pairsw[p].1.len() == 1 && pairsw[p].0
                    == pairsw[p].1[0]) || (pairsw[p].1.len() > 1 && !old(self).states@.contains(
                    pairsw[p].0,
                ))) by {
                    assert(pairsw[p].0 == reps@[p] && pairsw[p].1 == list@[p]@);
                }
                assert(self.states@.len() == pairsw.len());
                assert forall|p: int|
                    0 <= p < pairsw.len() implies #[trigger] self.states@[p] == pairsw[p].0 by {
                    assert(self.states@[p] == reps@[p]);
                }
                assert(self.starting_states@ =~= seq![block_rep(pairsw, old(
                    self,
                ).starting_states@[0])]);
                assert forall|sx: char|
                    #[trigger] self.closing_states@.contains(sx) <==> (exists|c: char|
                    old(self).closing_states@.contains(c) && #[trigger] block_rep(pairsw, c)
                        == sx) by {
                    if self.closing_states@.contains(sx) {
                        let b = choose|b: int|
                            0 <= b < list@.len() && (#[trigger] pairsw[b]).0 == sx
                                && block_closing(pairsw, old(self).closing_states@, b);
                        let m = choose|m: int|
                            0 <= m < pairsw[b].1.len() && old(self).closing_states@.contains(
                                #[trigger] pairsw[b].1[m],
                            );
                        lemma_block_rep_unique(pairsw, pairsw[b].1[m], b);
                        assert(old(self).closing_states@.contains(pairsw[b].1[m])
                            && block_rep(pairsw, pairsw[b].1[m]) == sx);
                    }
                    if exists|c: char|
                        old(self).closing_states@.contains(c) && #[trigger] block_rep(pairsw, c)
                            == sx {
                        let c = choose|c: char|
                            old(self).closing_states@.contains(c) && #[trigger] block_rep(
                                pairsw,
                                c,
                            ) == sx;
                        assert(old(self).states@.contains(c));
                        let ip = choose|ip: int|
                            0 <= ip < states_v.len() && states_v[ip] == c;
                        assert(in_some_block(list@, states_v[ip]));
                        let b = choose|b: int|
                            0 <= b < list@.len() && (#[trigger] list@[b])@.contains(c);
                        assert(pairsw[b].1 == list@[b]@);
                        lemma_block_rep_unique(pairsw, c, b);
                        assert(pairsw[b].0 == sx);
                        assert(block_closing(pairsw, old(self).closing_states@, b)) by {
                            let m = choose|m: int|
                                0 <= m < list@[b]@.len() && list@[b]@[m] == c;
                            assert(old(self).closing_states@.contains(pairsw[b].1[m]));
                        }
                    }
                }
            }
        }
        Ok(())
    }

    /// Runs the two minimization passes in order: unreachable states are
    /// removed first, then currently equivalent states are merged.
    pub fn minify(&mut self) -> (r: Result<(), FiniteAutomataError>)
        requires
            old(self).wf(),
        ensures
            final(self).wf(),
            final(self).inputs@ == old(self).inputs@,
            final(self).states@.len() <= old(self).states@.len(),
            r matches Ok(_) ==> (exists|mid: Dfa, pairs: Seq<(char, Seq<char>)>|
                (mid == *old(self) || pruned_by(*old(self), mid)) && merged_by(
                    mid,
                    *final(self),
                    pairs,
                )),
    {
        if self.has_unreachable_states() {
            self.remove_unreachable_states();
            proof {
                crate::symbols::lemma_selected_chars_props(
                    old(self).states@,
                    (|c: char|
                        spec_dfa_reachable(
                            old(self).transitions,
                            old(self).starting_states@,
                            c,
                        )),
                );
            }
        }
        let ghost mid = *self;
        let r = self.remove_redundant_states();
        proof {
            if r matches Ok(_) {
                assert(!(exists|q: char|
                    mid.states@.contains(q) && !spec_dfa_reachable(
                        mid.transitions,
                        mid.starting_states@,
                        q,
                    )));
                let pairs = choose|pairs: Seq<(char, Seq<char>)>|
                    merged_by(mid, *self, pairs);
                assert((mid == *old(self) || pruned_by(*old(self), mid)) && merged_by(
                    mid,
                    *self,
                    pairs,
                ));
            }
        }
        r
    }
}

/// Whether two partitions are equal, block for block.
fn blocks_equal(a: &Vec<Vec<char>>, b: &Vec<Vec<char>>) -> (r: bool)
{
    if a.len() != b.len() {
        return false;
    }
    let mut i: usize = 0;
    while i < a.len()
        invariant
            0 <= i <= a@.len(),
            a@.len() == b@.len(),
        decreases a@.len() - i,
    {
        if !chars_eq(&a[i], &b[i]) {
            return false;
        }
        i = i + 1;
    }
    true
}

} // verus!
