//! Context-free grammar cleaning: the productive fixed point (non-terminals
//! that derive a terminal string), removal of non-productive non-terminals,
//! and removal of unreachable symbols.
use vstd::prelude::*;

use crate::grammar::{rule_wf, spec_classify, Grammar, GrammarType, Rule};
use crate::symbols::{contains_char, distinct, EMPTY_SEQUENCE};

verus! {

/// Every symbol of the variant is a terminal, the empty sequence, or
/// productive within `n` rounds.
pub open spec fn variant_productive_within(rules: Seq<Rule>, ts: Seq<char>, v: Seq<char>, n: nat) -> bool
    decreases n, 1int,
{
    forall|k: int|
        0 <= k < v.len() ==> ts.contains(#[trigger] v[k]) || v[k] == EMPTY_SEQUENCE
            || productive_within(rules, ts, v[k], n)
}

/// `c` derives a terminal string within `n` rounds: some rule whose input
/// mentions `c` has a variant whose symbols are all terminals, the empty
/// sequence, or themselves productive within `n - 1` rounds.
pub open spec fn productive_within(rules: Seq<Rule>, ts: Seq<char>, c: char, n: nat) -> bool
    decreases n, 0int,
{
    n > 0 && exists|i: int, j: int|
        #![trigger rules[i].variants@[j]]
        0 <= i < rules.len() && 0 <= j < rules[i].variants@.len() && rules[i].input@.contains(c)
            && variant_productive_within(rules, ts, rules[i].variants@[j]@, (n - 1) as nat)
}

/// A productive symbol: one that derives a terminal string in some number of
/// rounds.
pub open spec fn spec_productive(rules: Seq<Rule>, ts: Seq<char>, c: char) -> bool {
    exists|n: nat| productive_within(rules, ts, c, n)
}

/// Every symbol of the variant is a terminal, the empty sequence, or a member
/// of the collected list.
pub open spec fn variant_over_list(ts: Seq<char>, have: Seq<char>, v: Seq<char>) -> bool {
    forall|k: int|
        0 <= k < v.len() ==> ts.contains(#[trigger] v[k]) || v[k] == EMPTY_SEQUENCE
            || have.contains(v[k])
}

/// One round of the productive fixed point over an already collected list:
/// some rule mentioning `c` in its input has a variant drawn wholly from
/// terminals, the empty sequence, and the collected list.
pub open spec fn productive_step_ok(
    rules: Seq<Rule>,
    ts: Seq<char>,
    have: Seq<char>,
    c: char,
) -> bool {
    exists|i: int, j: int|
        #![trigger rules[i].variants@[j]]
        0 <= i < rules.len() && 0 <= j < rules[i].variants@.len() && rules[i].input@.contains(c)
            && variant_over_list(ts, have, rules[i].variants@[j]@)
}

proof fn lemma_variant_productive_monotonic(
    rules: Seq<Rule>,
    ts: Seq<char>,
    v: Seq<char>,
    n1: nat,
    n2: nat,
)
    requires
        variant_productive_within(rules, ts, v, n1),
        n1 <= n2,
    ensures
        variant_productive_within(rules, ts, v, n2),
    decreases n1, 1int,
{
    assert forall|k: int|
        0 <= k < v.len() implies ts.contains(#[trigger] v[k]) || v[k] == EMPTY_SEQUENCE
        || productive_within(rules, ts, v[k], n2) by {
        if !ts.contains(v[k]) && v[k] != EMPTY_SEQUENCE {
            lemma_productive_monotonic(rules, ts, v[k], n1, n2);
        }
    }
}

proof fn lemma_productive_monotonic(rules: Seq<Rule>, ts: Seq<char>, c: char, n1: nat, n2: nat)
    requires
        productive_within(rules, ts, c, n1),
        n1 <= n2,
    ensures
        productive_within(rules, ts, c, n2),
    decreases n1, 0int,
{
    let (i, j) = choose|i: int, j: int|
        #![trigger rules[i].variants@[j]]
        0 <= i < rules.len() && 0 <= j < rules[i].variants@.len() && rules[i].input@.contains(c)
            && variant_productive_within(rules, ts, rules[i].variants@[j]@, (n1 - 1) as nat);
    lemma_variant_productive_monotonic(
        rules,
        ts,
        rules[i].variants@[j]@,
        (n1 - 1) as nat,
        (n2 - 1) as nat,
    );
    assert(productive_within(rules, ts, c, n2));
}

/// A bound under which every symbol of `v` that is neither a terminal nor the
/// empty sequence is productive, given that they all lie in a productive list.
proof fn lemma_variant_bound(
    rules: Seq<Rule>,
    ts: Seq<char>,
    have: Seq<char>,
    v: Seq<char>,
    k: int,
) -> (n: nat)
    requires
        0 <= k <= v.len(),
        forall|p: int|
            0 <= p < k ==> ts.contains(#[trigger] v[p]) || v[p] == EMPTY_SEQUENCE || have.contains(
                v[p],
            ),
        forall|x: char| have.contains(x) ==> spec_productive(rules, ts, x),
    ensures
        forall|p: int|
            0 <= p < k && !ts.contains(#[trigger] v[p]) && v[p] != EMPTY_SEQUENCE
                ==> productive_within(rules, ts, v[p], n),
    decreases k,
{
    if k == 0 {
        0
    } else {
        let n0 = lemma_variant_bound(rules, ts, have, v, k - 1);
        let s = v[k - 1];
        if ts.contains(s) || s == EMPTY_SEQUENCE {
            n0
        } else {
            assert(have.contains(s));
            assert(spec_productive(rules, ts, s));
            let m = choose|m: nat| productive_within(rules, ts, s, m);
            let n = if n0 >= m {
                n0
            } else {
                m
            };
            lemma_productive_monotonic(rules, ts, s, m, n);
            assert forall|p: int|
                0 <= p < k - 1 && !ts.contains(#[trigger] v[p]) && v[p]
                    != EMPTY_SEQUENCE implies productive_within(rules, ts, v[p], n) by {
                lemma_productive_monotonic(rules, ts, v[p], n0, n);
            }
            n
        }
    }
}

/// Everything the fixed-point round adds over a list of productive symbols is
/// itself productive.
proof fn lemma_productive_step_sound(rules: Seq<Rule>, ts: Seq<char>, have: Seq<char>, c: char)
    requires
        productive_step_ok(rules, ts, have, c),
        forall|x: char| have.contains(x) ==> spec_productive(rules, ts, x),
    ensures
        spec_productive(rules, ts, c),
{
    let (i, j) = choose|i: int, j: int|
        #![trigger rules[i].variants@[j]]
        0 <= i < rules.len() && 0 <= j < rules[i].variants@.len() && rules[i].input@.contains(c)
            && variant_over_list(ts, have, rules[i].variants@[j]@);
    let v = rules[i].variants@[j]@;
    let n = lemma_variant_bound(rules, ts, have, v, v.len() as int);
    assert(variant_productive_within(rules, ts, v, n));
    assert(productive_within(rules, ts, c, n + 1));
}

/// Once a round adds nothing, the collected list holds every productive
/// non-terminal.
proof fn lemma_productive_complete(
    rules: Seq<Rule>,
    ts: Seq<char>,
    ns: Seq<char>,
    have: Seq<char>,
    c: char,
    n: nat,
)
    requires
        forall|x: char|
            ns.contains(x) && !have.contains(x) ==> !productive_step_ok(rules, ts, have, x),
        forall|i: int, k: int|
            0 <= i < rules.len() && 0 <= k < rules[i].input@.len() ==> ts.contains(
                #[trigger] rules[i].input@[k],
            ) || ns.contains(rules[i].input@[k]),
        productive_within(rules, ts, c, n),
        ns.contains(c),
    ensures
        have.contains(c),
    decreases n,
{
    let (i, j) = choose|i: int, j: int|
        #![trigger rules[i].variants@[j]]
        0 <= i < rules.len() && 0 <= j < rules[i].variants@.len() && rules[i].input@.contains(c)
            && variant_productive_within(rules, ts, rules[i].variants@[j]@, (n - 1) as nat);
    assert forall|k: int|
        0 <= k < rules[i].variants@[j]@.len() implies ts.contains(
        #[trigger] rules[i].variants@[j]@[k],
    ) || rules[i].variants@[j]@[k] == EMPTY_SEQUENCE || have.contains(
        rules[i].variants@[j]@[k],
    ) by {
        let s = rules[i].variants@[j]@[k];
        if !ts.contains(s) && s != EMPTY_SEQUENCE {
            assert(productive_within(rules, ts, s, (n - 1) as nat));
            if ns.contains(s) {
                lemma_productive_complete(rules, ts, ns, have, s, (n - 1) as nat);
            } else {
                // A productive symbol is mentioned in some rule input, so it
                // is a declared symbol; being no terminal, it is a
                // non-terminal.
                let (i2, j2) = choose|i2: int, j2: int|
                    #![trigger rules[i2].variants@[j2]]
                    0 <= i2 < rules.len() && 0 <= j2 < rules[i2].variants@.len()
                        && rules[i2].input@.contains(s) && variant_productive_within(
                        rules,
                        ts,
                        rules[i2].variants@[j2]@,
                        (n - 2) as nat,
                    );
                let p = choose|p: int|
                    0 <= p < rules[i2].input@.len() && rules[i2].input@[p] == s;
                assert(ts.contains(rules[i2].input@[p]) || ns.contains(rules[i2].input@[p]));
                assert(false);
            }
        }
    }
    assert(variant_over_list(ts, have, rules[i].variants@[j]@));
    assert(productive_step_ok(rules, ts, have, c));
}

/// `c` is reachable from the start symbol within `n` rounds: it is the start
/// symbol, or it occurs in a variant of a rule whose head symbol is reachable
/// within `n - 1` rounds.
pub open spec fn reachable_within(rules: Seq<Rule>, start: char, c: char, n: nat) -> bool
    decreases n,
{
    if n == 0 {
        c == start
    } else {
        reachable_within(rules, start, c, (n - 1) as nat) || exists|i: int, j: int, k: int|
            #![trigger rules[i].variants@[j]@[k]]
            0 <= i < rules.len() && 0 <= j < rules[i].variants@.len() && 0 <= k
                < rules[i].variants@[j]@.len() && rules[i].input@.len() >= 1 && reachable_within(
                rules,
                start,
                rules[i].input@[0],
                (n - 1) as nat,
            ) && rules[i].variants@[j]@[k] == c
    }
}

/// A reachable symbol: one that occurs in some sentential form derived from
/// the start symbol.
pub open spec fn spec_reachable(rules: Seq<Rule>, start: char, c: char) -> bool {
    exists|n: nat| reachable_within(rules, start, c, n)
}

proof fn lemma_reachable_monotonic(rules: Seq<Rule>, start: char, c: char, n1: nat, n2: nat)
    requires
        reachable_within(rules, start, c, n1),
        n1 <= n2,
    ensures
        reachable_within(rules, start, c, n2),
    decreases n2,
{
    if n1 < n2 {
        lemma_reachable_monotonic(rules, start, c, n1, (n2 - 1) as nat);
    }
}

/// A symbol in a variant of a rule with a reachable head is reachable.
proof fn lemma_reachable_step(rules: Seq<Rule>, start: char, i: int, j: int, k: int)
    requires
        0 <= i < rules.len(),
        0 <= j < rules[i].variants@.len(),
        0 <= k < rules[i].variants@[j]@.len(),
        rules[i].input@.len() >= 1,
        spec_reachable(rules, start, rules[i].input@[0]),
    ensures
        spec_reachable(rules, start, rules[i].variants@[j]@[k]),
{
    let n = choose|n: nat| reachable_within(rules, start, rules[i].input@[0], n);
    assert(reachable_within(rules, start, rules[i].variants@[j]@[k], n + 1));
}

/// Once a round adds nothing, the collected lists hold every reachable
/// symbol of the respective alphabet.
proof fn lemma_reachable_complete(
    rules: Seq<Rule>,
    ts: Seq<char>,
    ns: Seq<char>,
    start: char,
    nts: Seq<char>,
    tss: Seq<char>,
    c: char,
    n: nat,
)
    requires
        nts.contains(start),
        ns.contains(start),
        forall|x: char| !(ts.contains(x) && ns.contains(x)),
        crate::grammar::rules_single_non_terminal(rules, ns),
        // closure of the collected lists under one round
        forall|i: int, j: int, k: int|
            #![trigger rules[i].variants@[j]@[k]]
            0 <= i < rules.len() && 0 <= j < rules[i].variants@.len() && 0 <= k
                < rules[i].variants@[j]@.len() && nts.contains(rules[i].input@[0]) ==> ((
            ts.contains(rules[i].variants@[j]@[k]) ==> tss.contains(rules[i].variants@[j]@[k]))
                && (!ts.contains(rules[i].variants@[j]@[k]) && ns.contains(
                rules[i].variants@[j]@[k],
            ) ==> nts.contains(rules[i].variants@[j]@[k]))),
        reachable_within(rules, start, c, n),
    ensures
        ns.contains(c) ==> nts.contains(c),
        ts.contains(c) ==> tss.contains(c),
    decreases n,
{
    if n == 0 {
        assert(c == start);
    } else {
        if reachable_within(rules, start, c, (n - 1) as nat) {
            lemma_reachable_complete(rules, ts, ns, start, nts, tss, c, (n - 1) as nat);
        } else {
            let (i, j, k) = choose|i: int, j: int, k: int|
                #![trigger rules[i].variants@[j]@[k]]
                0 <= i < rules.len() && 0 <= j < rules[i].variants@.len() && 0 <= k
                    < rules[i].variants@[j]@.len() && rules[i].input@.len() >= 1
                    && reachable_within(rules, start, rules[i].input@[0], (n - 1) as nat)
                    && rules[i].variants@[j]@[k] == c;
            let head = rules[i].input@[0];
            assert(ns.contains(head));
            lemma_reachable_complete(rules, ts, ns, start, nts, tss, head, (n - 1) as nat);
            assert(nts.contains(head));
            assert(ts.contains(c) ==> tss.contains(c));
            assert(!ts.contains(c) && ns.contains(c) ==> nts.contains(c));
            if ns.contains(c) {
                assert(!ts.contains(c));
            }
        }
    }
}

/// The view of a rule's variants as plain sequences of symbols.
pub open spec fn variant_view(r: Rule) -> Seq<Seq<char>> {
    r.variants@.map_values(|v: Vec<char>| v@)
}

/// The variants of `vs` that satisfy `keep`, in order.
pub open spec fn selected_variants(
    vs: Seq<Seq<char>>,
    keep: spec_fn(Seq<char>) -> bool,
) -> Seq<Seq<char>>
    decreases vs.len(),
{
    if vs.len() == 0 {
        Seq::empty()
    } else {
        let prefix = selected_variants(vs.drop_last(), keep);
        if keep(vs.last()) {
            prefix.push(vs.last())
        } else {
            prefix
        }
    }
}

/// The cleaned reading of a rule list: a rule whose head survives keeps its
/// head and its surviving variants, in order; the other rules are dropped.
pub open spec fn selected_rules_view(
    rules: Seq<Rule>,
    head_ok: spec_fn(char) -> bool,
    keep: spec_fn(Seq<char>) -> bool,
) -> Seq<(char, Seq<Seq<char>>)>
    decreases rules.len(),
{
    if rules.len() == 0 {
        Seq::empty()
    } else {
        let prefix = selected_rules_view(rules.drop_last(), head_ok, keep);
        let r = rules.last();
        if head_ok(r.input@[0]) {
            prefix.push((r.input@[0], selected_variants(variant_view(r), keep)))
        } else {
            prefix
        }
    }
}

/// An executable rule list realises a cleaned reading: single-symbol inputs
/// and variants as the reading gives them.
pub open spec fn rules_match_view(rs: Seq<Rule>, view: Seq<(char, Seq<Seq<char>>)>) -> bool {
    &&& rs.len() == view.len()
    &&& forall|p: int| 0 <= p < rs.len() ==> (#[trigger] rs[p].input@) == seq![view[p].0]
    &&& forall|p: int| 0 <= p < rs.len() ==> variant_view(#[trigger] rs[p]) == view[p].1
}

/// Every selected variant satisfies the filter and comes from the original
/// list.
proof fn lemma_selected_variants_props(vs: Seq<Seq<char>>, keep: spec_fn(Seq<char>) -> bool)
    ensures
        forall|p: int|
            0 <= p < selected_variants(vs, keep).len() ==> keep(
                #[trigger] selected_variants(vs, keep)[p],
            ) && vs.contains(selected_variants(vs, keep)[p]),
    decreases vs.len(),
{
    if vs.len() > 0 {
        lemma_selected_variants_props(vs.drop_last(), keep);
        let prefix = selected_variants(vs.drop_last(), keep);
        assert forall|p: int|
            0 <= p < selected_variants(vs, keep).len() implies keep(
            #[trigger] selected_variants(vs, keep)[p],
        ) && vs.contains(selected_variants(vs, keep)[p]) by {
            if p < prefix.len() {
                assert(selected_variants(vs, keep)[p] == prefix[p]);
                assert(vs.drop_last().contains(prefix[p]));
                let q = choose|q: int|
                    0 <= q < vs.drop_last().len() && vs.drop_last()[q] == prefix[p];
                assert(vs[q] == prefix[p]);
            } else {
                assert(selected_variants(vs, keep)[p] == vs.last());
                assert(vs[vs.len() - 1] == vs.last());
            }
        }
    }
}

/// Every entry of the cleaned reading has a surviving head and stems from an
/// original rule.
proof fn lemma_selected_rules_props(
    rules: Seq<Rule>,
    head_ok: spec_fn(char) -> bool,
    keep: spec_fn(Seq<char>) -> bool,
)
    ensures
        forall|p: int|
            #![trigger selected_rules_view(rules, head_ok, keep)[p]]
            0 <= p < selected_rules_view(rules, head_ok, keep).len() ==> head_ok(
                selected_rules_view(rules, head_ok, keep)[p].0,
            ) && exists|q: int|
                0 <= q < rules.len() && selected_rules_view(rules, head_ok, keep)[p].0
                    == rules[q].input@[0] && selected_rules_view(rules, head_ok, keep)[p].1
                    == selected_variants(variant_view(#[trigger] rules[q]), keep),
    decreases rules.len(),
{
    if rules.len() > 0 {
        lemma_selected_rules_props(rules.drop_last(), head_ok, keep);
        let prefix = selected_rules_view(rules.drop_last(), head_ok, keep);
        let whole = selected_rules_view(rules, head_ok, keep);
        assert forall|p: int|
            #![trigger whole[p]]
            0 <= p < whole.len() implies head_ok(whole[p].0) && exists|q: int|
            0 <= q < rules.len() && whole[p].0 == rules[q].input@[0] && whole[p].1
                == selected_variants(variant_view(#[trigger] rules[q]), keep) by {
            if p < prefix.len() {
                assert(whole[p] == prefix[p]);
                let q = choose|q: int|
                    0 <= q < rules.drop_last().len() && prefix[p].0 == rules.drop_last()[q].input@[0]
                        && prefix[p].1 == selected_variants(
                        variant_view(rules.drop_last()[q]),
                        keep,
                    );
                assert(rules[q] == rules.drop_last()[q]);
            } else {
                assert(whole[p] == (rules.last().input@[0], selected_variants(
                    variant_view(rules.last()),
                    keep,
                )));
                assert(rules[rules.len() - 1] == rules.last());
            }
        }
    }
}

impl Grammar {
    /// The step test of the productive fixed point: does some rule mention
    /// `nt` in its input and carry a variant drawn wholly from terminals, the
    /// empty sequence, and the list collected so far?
    fn has_productive_rule(&self, nt: char, list: &Vec<char>) -> (r: bool)
        ensures
            r == productive_step_ok(self.rules@, self.terminals@, list@, nt),
    {
        let mut i: usize = 0;
        while i < self.rules.len()
            invariant
                0 <= i <= self.rules@.len(),
                forall|a: int, b: int|
                    #![trigger self.rules@[a].variants@[b]]
                    0 <= a < i && 0 <= b < self.rules@[a].variants@.len() ==> !(
                    self.rules@[a].input@.contains(nt) && variant_over_list(
                        self.terminals@,
                        list@,
                        self.rules@[a].variants@[b]@,
                    )),
            decreases self.rules@.len() - i,
        {
            let r = &self.rules[i];
            if contains_char(&r.input, nt) {
                let mut j: usize = 0;
                while j < r.variants.len()
                    invariant
                        0 <= j <= r.variants@.len(),
                        r == &self.rules@[i as int],
                        0 <= i < self.rules@.len(),
                        forall|b: int|
                            #![trigger r.variants@[b]]
                            0 <= b < j ==> !variant_over_list(
                                self.terminals@,
                                list@,
                                r.variants@[b]@,
                            ),
                    decreases r.variants@.len() - j,
                {
                    let v = &r.variants[j];
                    let mut k: usize = 0;
                    let mut all_ok = true;
                    while k < v.len()
                        invariant
                            0 <= k <= v@.len(),
                            v == &r.variants@[j as int],
                            0 <= j < r.variants@.len(),
                            r == &self.rules@[i as int],
                            0 <= i < self.rules@.len(),
                            all_ok == (forall|p: int|
                                0 <= p < k ==> self.terminals@.contains(#[trigger] v@[p]) || v@[p]
                                    == EMPTY_SEQUENCE || list@.contains(v@[p])),
                        decreases v@.len() - k,
                    {
                        let c = v[k];
                        if !(contains_char(&self.terminals, c) || c == EMPTY_SEQUENCE
                            || contains_char(list, c)) {
                            all_ok = false;
                        }
                        k = k + 1;
                    }
                    if all_ok {
                        proof {
                            assert(productive_step_ok(self.rules@, self.terminals@, list@, nt));
                        }
                        return true;
                    }
                    j = j + 1;
                }
            }
            i = i + 1;
        }
        false
    }

    /// The non-terminals from which a terminal string can be derived,
    /// computed as a fixed point from the empty list.
    pub fn get_non_terminals_with_terminal_strings(&self) -> (r: Vec<char>)
        requires
            self.wf(),
        ensures
            distinct(r@),
            forall|k: int| 0 <= k < r@.len() ==> self.non_terminals@.contains(#[trigger] r@[k]),
            forall|c: char|
                r@.contains(c) <==> (self.non_terminals@.contains(c) && spec_productive(
                    self.rules@,
                    self.terminals@,
                    c,
                )),
    {
        let mut list: Vec<char> = Vec::new();
        let mut changed = true;
        while changed
            invariant
                distinct(list@),
                list@.len() <= self.non_terminals@.len(),
                forall|k: int|
                    0 <= k < list@.len() ==> self.non_terminals@.contains(#[trigger] list@[k]),
                forall|x: char|
                    list@.contains(x) ==> spec_productive(self.rules@, self.terminals@, x),
                !changed ==> forall|x: char|
                    self.non_terminals@.contains(x) && !list@.contains(x)
                        ==> !productive_step_ok(self.rules@, self.terminals@, list@, x),
            decreases
                    self.non_terminals@.len() - list@.len(),
                    (if changed {
                        1int
                    } else {
                        0int
                    }),
        {
            changed = false;
            let ghost round_start = list@;
            let mut idx: usize = 0;
            while idx < self.non_terminals.len()
                invariant
                    distinct(list@),
                    list@.len() <= self.non_terminals@.len(),
                    forall|k: int|
                        0 <= k < list@.len() ==> self.non_terminals@.contains(#[trigger] list@[k]),
                    forall|x: char|
                        list@.contains(x) ==> spec_productive(self.rules@, self.terminals@, x),
                    !changed ==> list@ == round_start,
                    !changed ==> forall|p: int|
                        0 <= p < idx ==> list@.contains(#[trigger] self.non_terminals@[p])
                            || !productive_step_ok(
                            self.rules@,
                            self.terminals@,
                            list@,
                            self.non_terminals@[p],
                        ),
                    changed ==> round_start.len() < list@.len(),
                    round_start.len() <= list@.len(),
                decreases self.non_terminals@.len() - idx,
            {
                let nt = self.non_terminals[idx];
                if !contains_char(&list, nt) && self.has_productive_rule(nt, &list) {
                    proof {
                        lemma_productive_step_sound(self.rules@, self.terminals@, list@, nt);
                    }
                    let ghost pre = list@;
                    list.push(nt);
                    changed = true;
                    proof {
                        assert(list@ == pre.push(nt));
                        assert(self.non_terminals@[idx as int] == nt);
                        assert(self.non_terminals@.contains(nt));
                        assert forall|k: int|
                            0 <= k < list@.len() implies self.non_terminals@.contains(
                            #[trigger] list@[k],
                        ) by {
                            if k < pre.len() {
                                assert(list@[k] == pre[k]);
                            } else {
                                assert(list@[k] == nt);
                            }
                        }
                        assert(distinct(list@)) by {
                            assert forall|p: int, q: int|
                                0 <= p < q < list@.len() implies list@[p] != list@[q] by {
                                if q < pre.len() {
                                    assert(list@[p] == pre[p] && list@[q] == pre[q]);
                                } else {
                                    assert(list@[q] == nt && list@[p] == pre[p]);
                                    assert(pre.contains(pre[p]));
                                }
                            }
                        }
                        assert forall|x: char| list@.contains(x) implies spec_productive(
                            self.rules@,
                            self.terminals@,
                            x,
                        ) by {
                            let q = choose|q: int| 0 <= q < list@.len() && list@[q] == x;
                            if q < pre.len() {
                                assert(pre[q] == x);
                                assert(pre.contains(x));
                            } else {
                                assert(x == nt);
                            }
                        }
                        crate::symbols::lemma_distinct_subset_len(list@, self.non_terminals@);
                    }
                }
                idx = idx + 1;
            }
            proof {
                if !changed {
                    assert forall|x: char|
                        self.non_terminals@.contains(x) && !list@.contains(
                            x,
                        ) implies !productive_step_ok(self.rules@, self.terminals@, list@, x) by {
                        let p = choose|p: int|
                            0 <= p < self.non_terminals@.len() && self.non_terminals@[p] == x;
                        assert(list@.contains(self.non_terminals@[p]) || !productive_step_ok(
                            self.rules@,
                            self.terminals@,
                            list@,
                            self.non_terminals@[p],
                        ));
                    }
                }
            }
        }
        proof {
            assert forall|i: int, k: int|
                0 <= i < self.rules@.len() && 0 <= k < self.rules@[i].input@.len() implies self
                .terminals@.contains(#[trigger] self.rules@[i].input@[k])
                || self.non_terminals@.contains(self.rules@[i].input@[k]) by {
                assert(rule_wf(self.rules@[i], self.terminals@, self.non_terminals@));
            }
            assert forall|c: char|
                self.non_terminals@.contains(c) && spec_productive(
                    self.rules@,
                    self.terminals@,
                    c,
                ) implies list@.contains(c) by {
                let n = choose|n: nat| productive_within(self.rules@, self.terminals@, c, n);
                lemma_productive_complete(
                    self.rules@,
                    self.terminals@,
                    self.non_terminals@,
                    list@,
                    c,
                    n,
                );
            }
        }
        list
    }

    /// Whether the grammar's language is non-empty: the grammar is
    /// context-free and its start symbol is productive.
    pub fn is_grammar_language_exists(&self) -> (r: bool)
        requires
            self.wf(),
        ensures
            r == (self.grammar_type == GrammarType::ContextFree && spec_productive(
                self.rules@,
                self.terminals@,
                self.starting_non_terminal,
            )),
    {
        if !(self.grammar_type == GrammarType::ContextFree) {
            return false;
        }
        let list = self.get_non_terminals_with_terminal_strings();
        contains_char(&list, self.starting_non_terminal)
    }

    /// Whether every symbol of `v` is a terminal, the empty sequence, or a
    /// member of `keep`.
    fn variant_within_list(v: &Vec<char>, terminals: &Vec<char>, keep: &Vec<char>) -> (r: bool)
        ensures
            r == (forall|k: int|
                0 <= k < v@.len() ==> terminals@.contains(#[trigger] v@[k]) || v@[k]
                    == EMPTY_SEQUENCE || keep@.contains(v@[k])),
    {
        let mut k: usize = 0;
        while k < v.len()
            invariant
                0 <= k <= v@.len(),
                forall|p: int|
                    0 <= p < k ==> terminals@.contains(#[trigger] v@[p]) || v@[p] == EMPTY_SEQUENCE
                        || keep@.contains(v@[p]),
            decreases v@.len() - k,
        {
            let c = v[k];
            if !(contains_char(terminals, c) || c == EMPTY_SEQUENCE || contains_char(keep, c)) {
                return false;
            }
            k = k + 1;
        }
        true
    }

    /// Removes the non-terminals that derive no terminal string. The
    /// non-terminal set becomes the productive set; a rule survives when its
    /// head is productive, keeping the variants drawn wholly from terminals,
    /// the empty sequence, and productive non-terminals. A grammar that is
    /// not context-free is left unchanged. The classification is re-derived;
    /// the full invariant is re-established whenever the start symbol itself
    /// is productive.
    pub fn remove_non_ending_non_terminals(&mut self)
        requires
            old(self).wf(),
        ensures
            old(self).grammar_type != GrammarType::ContextFree ==> *final(self) == *old(self),
            final(self).terminals@ == old(self).terminals@,
            final(self).starting_non_terminal == old(self).starting_non_terminal,
            final(self).grammar_type == spec_classify(
                final(self).terminals@,
                final(self).non_terminals@,
                final(self).rules@,
            ),
            old(self).grammar_type == GrammarType::ContextFree ==> {
                &&& final(self).non_terminals@ == crate::symbols::selected_chars(
                    old(self).non_terminals@,
                    (|c: char|
                        old(self).non_terminals@.contains(c) && spec_productive(
                            old(self).rules@,
                            old(self).terminals@,
                            c,
                        )),
                )
                &&& (distinct(old(self).non_terminals@) ==> distinct(final(self).non_terminals@))
                &&& (forall|c: char|
                    final(self).non_terminals@.contains(c) <==> (old(
                        self,
                    ).non_terminals@.contains(c) && spec_productive(
                        old(self).rules@,
                        old(self).terminals@,
                        c,
                    )))
                &&& rules_match_view(
                    final(self).rules@,
                    selected_rules_view(
                        old(self).rules@,
                        (|c: char|
                            old(self).non_terminals@.contains(c) && spec_productive(
                                old(self).rules@,
                                old(self).terminals@,
                                c,
                            )),
                        (|v: Seq<char>|
                            forall|k: int|
                                0 <= k < v.len() ==> old(self).terminals@.contains(
                                    #[trigger] v[k],
                                ) || v[k] == EMPTY_SEQUENCE || (old(self).non_terminals@.contains(
                                    v[k],
                                ) && spec_productive(old(self).rules@, old(self).terminals@, v[k]))),
                    ),
                )
                &&& (spec_productive(
                    old(self).rules@,
                    old(self).terminals@,
                    old(self).starting_non_terminal,
                ) ==> final(self).wf())
            },
    {
        if !(self.grammar_type == GrammarType::ContextFree) {
            return ;
        }
        let keep = self.get_non_terminals_with_terminal_strings();
        let ghost head_ok = (|c: char|
            old(self).non_terminals@.contains(c) && spec_productive(
                old(self).rules@,
                old(self).terminals@,
                c,
            ));
        let ghost keep_v = (|v: Seq<char>|
            forall|k: int|
                0 <= k < v.len() ==> old(self).terminals@.contains(#[trigger] v[k]) || v[k]
                    == EMPTY_SEQUENCE || (old(self).non_terminals@.contains(v[k])
                    && spec_productive(old(self).rules@, old(self).terminals@, v[k])));
        let mut new_rules: Vec<Rule> = Vec::new();
        let mut q: usize = 0;
        while q < self.rules.len()
            invariant
                *self == *old(self),
                0 <= q <= self.rules@.len(),
                forall|c: char|
                    keep@.contains(c) <==> (old(self).non_terminals@.contains(c)
                        && spec_productive(old(self).rules@, old(self).terminals@, c)),
                rules_match_view(
                    new_rules@,
                    selected_rules_view(self.rules@.subrange(0, q as int), head_ok, keep_v),
                ),
            decreases self.rules@.len() - q,
        {
            let r = &self.rules[q];
            let ghost prefix_view = selected_rules_view(
                self.rules@.subrange(0, q as int),
                head_ok,
                keep_v,
            );
            proof {
                assert(self.rules@.subrange(0, q + 1 as int).drop_last() =~= self.rules@.subrange(
                    0,
                    q as int,
                ));
                assert(self.rules@.subrange(0, q + 1 as int).last() == self.rules@[q as int]);
            }
            if contains_char(&keep, r.input[0]) {
                let mut new_variants: Vec<Vec<char>> = Vec::new();
                let mut j: usize = 0;
                while j < r.variants.len()
                    invariant
                        *self == *old(self),
                        0 <= q < self.rules@.len(),
                        r == &self.rules@[q as int],
                        0 <= j <= r.variants@.len(),
                        forall|c: char|
                            keep@.contains(c) <==> (old(self).non_terminals@.contains(c)
                                && spec_productive(old(self).rules@, old(self).terminals@, c)),
                        new_variants@.map_values(|v: Vec<char>| v@) == selected_variants(
                            variant_view(*r).subrange(0, j as int),
                            keep_v,
                        ),
                    decreases r.variants@.len() - j,
                {
                    let v = &r.variants[j];
                    proof {
                        assert(variant_view(*r).subrange(0, j + 1 as int).drop_last()
                            =~= variant_view(*r).subrange(0, j as int));
                        assert(variant_view(*r).subrange(0, j + 1 as int).last() == v@);
                    }
                    if Self::variant_within_list(v, &self.terminals, &keep) {
                        let copy = crate::symbols::clone_chars(v);
                        new_variants.push(copy);
                        proof {
                            assert(keep_v(v@)) by {
                                assert forall|k: int|
                                    0 <= k < v@.len() implies old(self).terminals@.contains(
                                    #[trigger] v@[k],
                                ) || v@[k] == EMPTY_SEQUENCE || (old(
                                    self,
                                ).non_terminals@.contains(v@[k]) && spec_productive(
                                    old(self).rules@,
                                    old(self).terminals@,
                                    v@[k],
                                )) by {
                                    assert(old(self).terminals@.contains(v@[k]) || v@[k]
                                        == EMPTY_SEQUENCE || keep@.contains(v@[k]));
                                }
                            }
                            assert(new_variants@.map_values(|vv: Vec<char>| vv@)
                                =~= selected_variants(
                                variant_view(*r).subrange(0, j + 1 as int),
                                keep_v,
                            ));
                        }
                    } else {
                        proof {
                            assert(!keep_v(v@)) by {
                                let k = choose|k: int|
                                    0 <= k < v@.len() && !(old(self).terminals@.contains(v@[k])
                                        || v@[k] == EMPTY_SEQUENCE || keep@.contains(v@[k]));
                                assert(!(old(self).terminals@.contains(v@[k]) || v@[k]
                                    == EMPTY_SEQUENCE || (old(self).non_terminals@.contains(v@[k])
                                    && spec_productive(
                                    old(self).rules@,
                                    old(self).terminals@,
                                    v@[k],
                                ))));
                            }
                            assert(new_variants@.map_values(|vv: Vec<char>| vv@)
                                =~= selected_variants(
                                variant_view(*r).subrange(0, j + 1 as int),
                                keep_v,
                            ));
                        }
                    }
                    j = j + 1;
                }
                proof {
                    assert(variant_view(*r).subrange(0, r.variants@.len() as int) =~= variant_view(
                        *r,
                    ));
                    assert(head_ok(r.input@[0]));
                }
                let mut input: Vec<char> = Vec::new();
                input.push(r.input[0]);
                let new_rule = Rule { input, variants: new_variants };
                proof {
                    assert(variant_view(new_rule) == new_rule.variants@.map_values(
                        |vv: Vec<char>| vv@,
                    ));
                    assert(new_rule.input@ =~= seq![self.rules@[q as int].input@[0]]);
                }
                new_rules.push(new_rule);
                proof {
                    let whole = selected_rules_view(
                        self.rules@.subrange(0, q + 1 as int),
                        head_ok,
                        keep_v,
                    );
                    assert(whole == prefix_view.push(
                        (r.input@[0], selected_variants(variant_view(*r), keep_v)),
                    ));
                    assert(rules_match_view(new_rules@, whole)) by {
                        assert forall|p: int|
                            0 <= p < new_rules@.len() implies (#[trigger] new_rules@[p].input@)
                            == seq![whole[p].0] && variant_view(new_rules@[p]) == whole[p].1 by {
                            if p < new_rules@.len() - 1 {
                                assert(new_rules@[p] == new_rules@.drop_last()[p]);
                                assert(whole[p] == prefix_view[p]);
                            } else {
                                assert(new_rules@[p] == new_rule);
                            }
                        }
                    }
                }
            } else {
                proof {
                    assert(!head_ok(r.input@[0])) by {
                        assert(!keep@.contains(r.input@[0]));
                    }
                    assert(selected_rules_view(
                        self.rules@.subrange(0, q + 1 as int),
                        head_ok,
                        keep_v,
                    ) == prefix_view);
                }
            }
            q = q + 1;
        }
        proof {
            assert(self.rules@.subrange(0, self.rules@.len() as int) =~= self.rules@);
        }
        let mut new_ns: Vec<char> = Vec::new();
        let mut ni: usize = 0;
        while ni < self.non_terminals.len()
            invariant
                *self == *old(self),
                0 <= ni <= self.non_terminals@.len(),
                forall|c: char|
                    keep@.contains(c) <==> (old(self).non_terminals@.contains(c)
                        && spec_productive(old(self).rules@, old(self).terminals@, c)),
                new_ns@ == crate::symbols::selected_chars(
                    self.non_terminals@.subrange(0, ni as int),
                    head_ok,
                ),
            decreases self.non_terminals@.len() - ni,
        {
            proof {
                assert(self.non_terminals@.subrange(0, ni + 1 as int).drop_last() =~= self
                    .non_terminals@.subrange(0, ni as int));
                assert(self.non_terminals@.subrange(0, ni + 1 as int).last()
                    == self.non_terminals@[ni as int]);
                assert(self.non_terminals@.contains(self.non_terminals@[ni as int]));
            }
            if contains_char(&keep, self.non_terminals[ni]) {
                new_ns.push(self.non_terminals[ni]);
            }
            ni = ni + 1;
        }
        proof {
            assert(self.non_terminals@.subrange(0, self.non_terminals@.len() as int) =~= self
                .non_terminals@);
            crate::symbols::lemma_selected_chars_membership(self.non_terminals@, head_ok);
            if distinct(self.non_terminals@) {
                crate::symbols::lemma_selected_chars_props(self.non_terminals@, head_ok);
            }
            assert forall|c: char|
                new_ns@.contains(c) <==> (old(self).non_terminals@.contains(c)
                    && spec_productive(old(self).rules@, old(self).terminals@, c)) by {
                if new_ns@.contains(c) {
                    assert(old(self).non_terminals@.contains(c) && head_ok(c));
                }
            }
        }
        self.rules = new_rules;
        self.non_terminals = new_ns;
        self.grammar_type = Self::get_type(&self.terminals, &self.non_terminals, &self.rules);
        proof {
            if spec_productive(
                old(self).rules@,
                old(self).terminals@,
                old(self).starting_non_terminal,
            ) {
                self.lemma_cleaned_wf(*old(self), head_ok, keep_v);
            }
        }
    }

    /// After productive cleaning the grammar invariant holds again, provided
    /// the start symbol survived.
    proof fn lemma_cleaned_wf(
        self,
        prev: Grammar,
        head_ok: spec_fn(char) -> bool,
        keep_v: spec_fn(Seq<char>) -> bool,
    )
        requires
            prev.wf(),
            head_ok == (|c: char|
                prev.non_terminals@.contains(c) && spec_productive(
                    prev.rules@,
                    prev.terminals@,
                    c,
                )),
            keep_v == (|v: Seq<char>|
                forall|k: int|
                    0 <= k < v.len() ==> prev.terminals@.contains(#[trigger] v[k]) || v[k]
                        == EMPTY_SEQUENCE || (prev.non_terminals@.contains(v[k])
                        && spec_productive(prev.rules@, prev.terminals@, v[k]))),
            self.terminals@ == prev.terminals@,
            self.starting_non_terminal == prev.starting_non_terminal,
            spec_productive(prev.rules@, prev.terminals@, prev.starting_non_terminal),
            forall|c: char|
                self.non_terminals@.contains(c) <==> (prev.non_terminals@.contains(c)
                    && spec_productive(prev.rules@, prev.terminals@, c)),
            rules_match_view(self.rules@, selected_rules_view(prev.rules@, head_ok, keep_v)),
            self.grammar_type == spec_classify(
                self.terminals@,
                self.non_terminals@,
                self.rules@,
            ),
        ensures
            self.wf(),
    {
        lemma_selected_rules_props(prev.rules@, head_ok, keep_v);
        let view = selected_rules_view(prev.rules@, head_ok, keep_v);
        assert forall|i: int|
            0 <= i < self.rules@.len() implies rule_wf(
            self.rules@[i],
            self.terminals@,
            self.non_terminals@,
        ) by {
            assert(self.rules@[i].input@ == seq![view[i].0]);
            assert(head_ok(view[i].0));
            assert(self.non_terminals@.contains(view[i].0));
            assert(self.rules@[i].input@.len() == 1);
            assert(self.rules@[i].input@[0] == view[i].0);
            let q = choose|q: int|
                0 <= q < prev.rules@.len() && view[i].0 == prev.rules@[q].input@[0] && view[i].1
                    == selected_variants(variant_view(#[trigger] prev.rules@[q]), keep_v);
            lemma_selected_variants_props(variant_view(prev.rules@[q]), keep_v);
            assert(rule_wf(prev.rules@[q], prev.terminals@, prev.non_terminals@));
            assert forall|j: int|
                0 <= j < self.rules@[i].variants@.len() implies self.rules@[i].variants@[j]@.len()
                    >= 1 && (forall|k: int|
                0 <= k < self.rules@[i].variants@[j]@.len() ==> crate::grammar::variant_symbol_ok(
                    #[trigger] self.rules@[i].variants@[j]@[k],
                    self.terminals@,
                    self.non_terminals@,
                )) by {
                assert(variant_view(self.rules@[i])[j] == self.rules@[i].variants@[j]@);
                assert(view[i].1[j] == self.rules@[i].variants@[j]@);
                let v = self.rules@[i].variants@[j]@;
                assert(keep_v(v) && variant_view(prev.rules@[q]).contains(v));
                let b = choose|b: int|
                    0 <= b < variant_view(prev.rules@[q]).len() && variant_view(prev.rules@[q])[b]
                        == v;
                assert(prev.rules@[q].variants@[b]@ == v);
                assert(v.len() >= 1);
                assert forall|k: int|
                    0 <= k < v.len() implies crate::grammar::variant_symbol_ok(
                    #[trigger] v[k],
                    self.terminals@,
                    self.non_terminals@,
                ) by {
                    assert(prev.terminals@.contains(v[k]) || v[k] == EMPTY_SEQUENCE || (
                    prev.non_terminals@.contains(v[k]) && spec_productive(
                        prev.rules@,
                        prev.terminals@,
                        v[k],
                    )));
                }
            }
        }
    }

    /// Collects into `nts` and `tss` the declared symbols occurring in the
    /// variants of `r`, keeping both lists duplicate-free.
    #[verifier::rlimit(100)]
    #[verifier::spinoff_prover]
    fn collect_from_rule(
        r: &Rule,
        g_ts: &Vec<char>,
        g_ns: &Vec<char>,
        nts: &mut Vec<char>,
        tss: &mut Vec<char>,
    ) -> (ch: bool)
        requires
            distinct(old(nts)@),
            distinct(old(tss)@),
        ensures
            distinct(final(nts)@),
            distinct(final(tss)@),
            final(nts)@.len() >= old(nts)@.len(),
            final(tss)@.len() >= old(tss)@.len(),
            final(nts)@.subrange(0, old(nts)@.len() as int) == old(nts)@,
            final(tss)@.subrange(0, old(tss)@.len() as int) == old(tss)@,
            forall|p: int|
                old(nts)@.len() <= p < final(nts)@.len() ==> g_ns@.contains(
                    #[trigger] final(nts)@[p],
                ) && (exists|j: int, k: int|
                    0 <= j < r.variants@.len() && 0 <= k < r.variants@[j]@.len()
                        && (#[trigger] r.variants@[j]@[k]) == final(nts)@[p]),
            forall|p: int|
                old(tss)@.len() <= p < final(tss)@.len() ==> g_ts@.contains(
                    #[trigger] final(tss)@[p],
                ) && (exists|j: int, k: int|
                    0 <= j < r.variants@.len() && 0 <= k < r.variants@[j]@.len()
                        && (#[trigger] r.variants@[j]@[k]) == final(tss)@[p]),
            !ch ==> final(nts)@ == old(nts)@ && final(tss)@ == old(tss)@,
            ch ==> final(nts)@.len() + final(tss)@.len() > old(nts)@.len() + old(tss)@.len(),
            forall|j: int, k: int|
                0 <= j < r.variants@.len() && 0 <= k < r.variants@[j]@.len() ==> ((g_ts@.contains(
                    #[trigger] r.variants@[j]@[k],
                ) ==> final(tss)@.contains(r.variants@[j]@[k])) && (!g_ts@.contains(
                    r.variants@[j]@[k],
                ) && g_ns@.contains(r.variants@[j]@[k]) ==> final(nts)@.contains(
                    r.variants@[j]@[k],
                ))),
    {
        let mut ch = false;
        let mut j: usize = 0;
        while j < r.variants.len()
            invariant
                distinct(nts@),
                distinct(tss@),
                nts@.len() >= old(nts)@.len(),
                tss@.len() >= old(tss)@.len(),
                nts@.subrange(0, old(nts)@.len() as int) == old(nts)@,
                tss@.subrange(0, old(tss)@.len() as int) == old(tss)@,
                0 <= j <= r.variants@.len(),
                forall|p: int|
                    old(nts)@.len() <= p < nts@.len() ==> g_ns@.contains(#[trigger] nts@[p]) && (
                    exists|j2: int, k2: int|
                        0 <= j2 < r.variants@.len() && 0 <= k2 < r.variants@[j2]@.len()
                            && (#[trigger] r.variants@[j2]@[k2]) == nts@[p]),
                forall|p: int|
                    old(tss)@.len() <= p < tss@.len() ==> g_ts@.contains(#[trigger] tss@[p]) && (
                    exists|j2: int, k2: int|
                        0 <= j2 < r.variants@.len() && 0 <= k2 < r.variants@[j2]@.len()
                            && (#[trigger] r.variants@[j2]@[k2]) == tss@[p]),
                !ch ==> nts@ == old(nts)@ && tss@ == old(tss)@,
                ch ==> nts@.len() + tss@.len() > old(nts)@.len() + old(tss)@.len(),
                forall|j2: int, k2: int|
                    0 <= j2 < j && 0 <= k2 < r.variants@[j2]@.len() ==> ((g_ts@.contains(
                        #[trigger] r.variants@[j2]@[k2],
                    ) ==> tss@.contains(r.variants@[j2]@[k2])) && (!g_ts@.contains(
                        r.variants@[j2]@[k2],
                    ) && g_ns@.contains(r.variants@[j2]@[k2]) ==> nts@.contains(
                        r.variants@[j2]@[k2],
                    ))),
            decreases r.variants@.len() - j,
        {
            let v = &r.variants[j];
            let mut k: usize = 0;
            while k < v.len()
                invariant
                    distinct(nts@),
                    distinct(tss@),
                    nts@.len() >= old(nts)@.len(),
                    tss@.len() >= old(tss)@.len(),
                    nts@.subrange(0, old(nts)@.len() as int) == old(nts)@,
                    tss@.subrange(0, old(tss)@.len() as int) == old(tss)@,
                    v == &r.variants@[j as int],
                    0 <= j < r.variants@.len(),
                    0 <= k <= v@.len(),
                    forall|p: int|
                        old(nts)@.len() <= p < nts@.len() ==> g_ns@.contains(#[trigger] nts@[p])
                            && (exists|j2: int, k2: int|
                            0 <= j2 < r.variants@.len() && 0 <= k2 < r.variants@[j2]@.len()
                                && (#[trigger] r.variants@[j2]@[k2]) == nts@[p]),
                    forall|p: int|
                        old(tss)@.len() <= p < tss@.len() ==> g_ts@.contains(#[trigger] tss@[p])
                            && (exists|j2: int, k2: int|
                            0 <= j2 < r.variants@.len() && 0 <= k2 < r.variants@[j2]@.len()
                                && (#[trigger] r.variants@[j2]@[k2]) == tss@[p]),
                    !ch ==> nts@ == old(nts)@ && tss@ == old(tss)@,
                    ch ==> nts@.len() + tss@.len() > old(nts)@.len() + old(tss)@.len(),
                    forall|j2: int, k2: int|
                        0 <= j2 < j && 0 <= k2 < r.variants@[j2]@.len() ==> ((g_ts@.contains(
                            #[trigger] r.variants@[j2]@[k2],
                        ) ==> tss@.contains(r.variants@[j2]@[k2])) && (!g_ts@.contains(
                            r.variants@[j2]@[k2],
                        ) && g_ns@.contains(r.variants@[j2]@[k2]) ==> nts@.contains(
                            r.variants@[j2]@[k2],
                        ))),
                    forall|k2: int|
                        0 <= k2 < k ==> ((g_ts@.contains(#[trigger] v@[k2]) ==> tss@.contains(
                            v@[k2],
                        )) && (!g_ts@.contains(v@[k2]) && g_ns@.contains(v@[k2]) ==> nts@.contains(
                            v@[k2],
                        ))),
                decreases v@.len() - k,
            {
                let c = v[k];
                proof {
                    assert(v@[k as int] == c);
                    assert(r.variants@[j as int]@[k as int] == c);
                }
                if contains_char(g_ts, c) {
                    if !contains_char(tss, c) {
                        let ghost pre = tss@;
                        tss.push(c);
                        ch = true;
                        proof {
                            assert(tss@ == pre.push(c));
                            crate::symbols::lemma_push_contains(pre, c);
                            assert(tss@.subrange(0, old(tss)@.len() as int) =~= pre.subrange(
                                0,
                                old(tss)@.len() as int,
                            ));
                            assert(distinct(tss@)) by {
                                assert forall|a: int, b: int|
                                    0 <= a < b < tss@.len() implies tss@[a] != tss@[b] by {
                                    if b < pre.len() {
                                        assert(tss@[a] == pre[a] && tss@[b] == pre[b]);
                                    } else {
                                        assert(tss@[b] == c && tss@[a] == pre[a]);
                                        assert(pre.contains(pre[a]));
                                    }
                                }
                            }
                            assert forall|p: int|
                                old(tss)@.len() <= p < tss@.len() implies g_ts@.contains(
                                #[trigger] tss@[p],
                            ) && (exists|j2: int, k2: int|
                                0 <= j2 < r.variants@.len() && 0 <= k2 < r.variants@[j2]@.len()
                                    && (#[trigger] r.variants@[j2]@[k2]) == tss@[p]) by {
                                if p < pre.len() {
                                    assert(tss@[p] == pre[p]);
                                } else {
                                    assert(tss@[p] == c);
                                }
                            }
                        }
                    }
                } else if contains_char(g_ns, c) {
                    if !contains_char(nts, c) {
                        let ghost pre = nts@;
                        nts.push(c);
                        ch = true;
                        proof {
                            assert(nts@ == pre.push(c));
                            crate::symbols::lemma_push_contains(pre, c);
                            assert(nts@.subrange(0, old(nts)@.len() as int) =~= pre.subrange(
                                0,
                                old(nts)@.len() as int,
                            ));
                            assert(distinct(nts@)) by {
                                assert forall|a: int, b: int|
                                    0 <= a < b < nts@.len() implies nts@[a] != nts@[b] by {
                                    if b < pre.len() {
                                        assert(nts@[a] == pre[a] && nts@[b] == pre[b]);
                                    } else {
                                        assert(nts@[b] == c && nts@[a] == pre[a]);
                                        assert(pre.contains(pre[a]));
                                    }
                                }
                            }
                            assert forall|p: int|
                                old(nts)@.len() <= p < nts@.len() implies g_ns@.contains(
                                #[trigger] nts@[p],
                            ) && (exists|j2: int, k2: int|
                                0 <= j2 < r.variants@.len() && 0 <= k2 < r.variants@[j2]@.len()
                                    && (#[trigger] r.variants@[j2]@[k2]) == nts@[p]) by {
                                if p < pre.len() {
                                    assert(nts@[p] == pre[p]);
                                } else {
                                    assert(nts@[p] == c);
                                }
                            }
                        }
                    }
                }
                proof {
                    assert(g_ts@.contains(c) ==> tss@.contains(c));
                    assert(!g_ts@.contains(c) && g_ns@.contains(c) ==> nts@.contains(c));
                }
                k = k + 1;
            }
            proof {
                assert forall|p: int|
                    old(nts)@.len() <= p < nts@.len() implies g_ns@.contains(#[trigger] nts@[p])
                    && (exists|j2: int, k2: int|
                    0 <= j2 < r.variants@.len() && 0 <= k2 < r.variants@[j2]@.len()
                        && (#[trigger] r.variants@[j2]@[k2]) == nts@[p]) by {
                    let (j2, k2) = choose|j2: int, k2: int|
                        0 <= j2 < r.variants@.len() && 0 <= k2 < r.variants@[j2]@.len()
                            && (#[trigger] r.variants@[j2]@[k2]) == nts@[p];
                    assert(r.variants@[j2]@[k2] == nts@[p]);
                }
                assert forall|p: int|
                    old(tss)@.len() <= p < tss@.len() implies g_ts@.contains(#[trigger] tss@[p])
                    && (exists|j2: int, k2: int|
                    0 <= j2 < r.variants@.len() && 0 <= k2 < r.variants@[j2]@.len()
                        && (#[trigger] r.variants@[j2]@[k2]) == tss@[p]) by {
                    let (j2, k2) = choose|j2: int, k2: int|
                        0 <= j2 < r.variants@.len() && 0 <= k2 < r.variants@[j2]@.len()
                            && (#[trigger] r.variants@[j2]@[k2]) == tss@[p];
                    assert(r.variants@[j2]@[k2] == tss@[p]);
                }
            }
            j = j + 1;
        }
        proof {
            assert forall|p: int|
                old(nts)@.len() <= p < nts@.len() implies g_ns@.contains(#[trigger] nts@[p])
                && (exists|j2: int, k2: int|
                0 <= j2 < r.variants@.len() && 0 <= k2 < r.variants@[j2]@.len()
                    && (#[trigger] r.variants@[j2]@[k2]) == nts@[p]) by {
                let (j2, k2) = choose|j2: int, k2: int|
                    0 <= j2 < r.variants@.len() && 0 <= k2 < r.variants@[j2]@.len()
                        && (#[trigger] r.variants@[j2]@[k2]) == nts@[p];
                assert(r.variants@[j2]@[k2] == nts@[p]);
            }
            assert forall|p: int|
                old(tss)@.len() <= p < tss@.len() implies g_ts@.contains(#[trigger] tss@[p])
                && (exists|j2: int, k2: int|
                0 <= j2 < r.variants@.len() && 0 <= k2 < r.variants@[j2]@.len()
                    && (#[trigger] r.variants@[j2]@[k2]) == tss@[p]) by {
                let (j2, k2) = choose|j2: int, k2: int|
                    0 <= j2 < r.variants@.len() && 0 <= k2 < r.variants@[j2]@.len()
                        && (#[trigger] r.variants@[j2]@[k2]) == tss@[p];
                assert(r.variants@[j2]@[k2] == tss@[p]);
            }
        }
        ch
    }

    /// Removes the symbols that no derivation from the start symbol can
    /// reach. Both alphabets shrink to their reachable members; a rule
    /// survives when its head is reachable, keeping the variants drawn
    /// wholly from surviving symbols and the empty sequence. A grammar that
    /// is not context-free is left unchanged; the classification is
    /// re-derived and the invariant is re-established.
    #[verifier::rlimit(100)]
    #[verifier::spinoff_prover]
    pub fn remove_unreachable_symbols(&mut self)
        requires
            old(self).wf(),
        ensures
            old(self).grammar_type != GrammarType::ContextFree ==> *final(self) == *old(self),
            final(self).starting_non_terminal == old(self).starting_non_terminal,
            final(self).grammar_type == spec_classify(
                final(self).terminals@,
                final(self).non_terminals@,
                final(self).rules@,
            ),
            final(self).wf(),
            old(self).grammar_type == GrammarType::ContextFree ==> {
                &&& final(self).non_terminals@ == crate::symbols::selected_chars(
                    old(self).non_terminals@,
                    (|c: char|
                        old(self).non_terminals@.contains(c) && spec_reachable(
                            old(self).rules@,
                            old(self).starting_non_terminal,
                            c,
                        )),
                )
                &&& final(self).terminals@ == crate::symbols::selected_chars(
                    old(self).terminals@,
                    (|c: char|
                        old(self).terminals@.contains(c) && spec_reachable(
                            old(self).rules@,
                            old(self).starting_non_terminal,
                            c,
                        )),
                )
                &&& (distinct(old(self).non_terminals@) ==> distinct(final(self).non_terminals@))
                &&& (distinct(old(self).terminals@) ==> distinct(final(self).terminals@))
                &&& (forall|c: char|
                    final(self).non_terminals@.contains(c) <==> (old(
                        self,
                    ).non_terminals@.contains(c) && spec_reachable(
                        old(self).rules@,
                        old(self).starting_non_terminal,
                        c,
                    )))
                &&& (forall|c: char|
                    final(self).terminals@.contains(c) <==> (old(self).terminals@.contains(c)
                        && spec_reachable(
                        old(self).rules@,
                        old(self).starting_non_terminal,
                        c,
                    )))
                &&& rules_match_view(
                    final(self).rules@,
                    selected_rules_view(
                        old(self).rules@,
                        (|c: char|
                            old(self).non_terminals@.contains(c) && spec_reachable(
                                old(self).rules@,
                                old(self).starting_non_terminal,
                                c,
                            )),
                        (|v: Seq<char>|
                            forall|k: int|
                                0 <= k < v.len() ==> (old(self).terminals@.contains(
                                    #[trigger] v[k],
                                ) && spec_reachable(
                                    old(self).rules@,
                                    old(self).starting_non_terminal,
                                    v[k],
                                )) || v[k] == EMPTY_SEQUENCE || (old(
                                    self,
                                ).non_terminals@.contains(v[k]) && spec_reachable(
                                    old(self).rules@,
                                    old(self).starting_non_terminal,
                                    v[k],
                                ))),
                    ),
                )
            },
    {
        if !(self.grammar_type == GrammarType::ContextFree) {
            return ;
        }
        let ghost start = self.starting_non_terminal;
        let mut nts: Vec<char> = Vec::new();
        nts.push(self.starting_non_terminal);
        let mut tss: Vec<char> = Vec::new();
        proof {
            assert(reachable_within(self.rules@, start, start, 0));
            assert(nts@ =~= seq![start]);
            assert(nts@[0] == start);
            assert(nts@.contains(start));
        }
        let mut changed = true;
        while changed
            invariant
                *self == *old(self),
                distinct(nts@),
                distinct(tss@),
                nts@.contains(start),
                nts@.len() <= self.non_terminals@.len(),
                tss@.len() <= self.terminals@.len(),
                forall|p: int|
                    0 <= p < nts@.len() ==> self.non_terminals@.contains(#[trigger] nts@[p]),
                forall|p: int| 0 <= p < tss@.len() ==> self.terminals@.contains(#[trigger] tss@[p]),
                forall|x: char| nts@.contains(x) ==> spec_reachable(self.rules@, start, x),
                forall|x: char| tss@.contains(x) ==> spec_reachable(self.rules@, start, x),
                !changed ==> forall|i: int, j: int, k: int|
                    #![trigger self.rules@[i].variants@[j]@[k]]
                    0 <= i < self.rules@.len() && 0 <= j < self.rules@[i].variants@.len() && 0 <= k
                        < self.rules@[i].variants@[j]@.len() && nts@.contains(
                        self.rules@[i].input@[0],
                    ) ==> ((self.terminals@.contains(self.rules@[i].variants@[j]@[k])
                        ==> tss@.contains(self.rules@[i].variants@[j]@[k]))
                        && (!self.terminals@.contains(self.rules@[i].variants@[j]@[k])
                        && self.non_terminals@.contains(self.rules@[i].variants@[j]@[k])
                        ==> nts@.contains(self.rules@[i].variants@[j]@[k]))),
            decreases
                    self.non_terminals@.len() + self.terminals@.len() - nts@.len() - tss@.len(),
                    (if changed {
                        1int
                    } else {
                        0int
                    }),
        {
            changed = false;
            let ghost round_nts = nts@;
            let ghost round_tss = tss@;
            let mut i: usize = 0;
            while i < self.rules.len()
                invariant
                    *self == *old(self),
                    0 <= i <= self.rules@.len(),
                    distinct(nts@),
                    distinct(tss@),
                    nts@.contains(start),
                    nts@.len() <= self.non_terminals@.len(),
                    tss@.len() <= self.terminals@.len(),
                    forall|p: int|
                        0 <= p < nts@.len() ==> self.non_terminals@.contains(#[trigger] nts@[p]),
                    forall|p: int|
                        0 <= p < tss@.len() ==> self.terminals@.contains(#[trigger] tss@[p]),
                    forall|x: char| nts@.contains(x) ==> spec_reachable(self.rules@, start, x),
                    forall|x: char| tss@.contains(x) ==> spec_reachable(self.rules@, start, x),
                    !changed ==> nts@ == round_nts && tss@ == round_tss,
                    changed ==> round_nts.len() + round_tss.len() < nts@.len() + tss@.len(),
                    !changed ==> forall|i2: int, j: int, k: int|
                        #![trigger self.rules@[i2].variants@[j]@[k]]
                        0 <= i2 < i && 0 <= j < self.rules@[i2].variants@.len() && 0 <= k
                            < self.rules@[i2].variants@[j]@.len() && nts@.contains(
                            self.rules@[i2].input@[0],
                        ) ==> ((self.terminals@.contains(self.rules@[i2].variants@[j]@[k])
                            ==> tss@.contains(self.rules@[i2].variants@[j]@[k]))
                            && (!self.terminals@.contains(self.rules@[i2].variants@[j]@[k])
                            && self.non_terminals@.contains(self.rules@[i2].variants@[j]@[k])
                            ==> nts@.contains(self.rules@[i2].variants@[j]@[k]))),
                decreases self.rules@.len() - i,
            {
                let r = &self.rules[i];
                if contains_char(&nts, r.input[0]) {
                    let ghost pre_nts = nts@;
                    let ghost pre_tss = tss@;
                    proof {
                        assert(pre_nts.contains(r.input@[0]));
                        assert(spec_reachable(self.rules@, start, self.rules@[i as int].input@[0]));
                    }
                    let ch = Self::collect_from_rule(
                        r,
                        &self.terminals,
                        &self.non_terminals,
                        &mut nts,
                        &mut tss,
                    );
                    if ch {
                        changed = true;
                    }
                    proof {
                        assert(rule_wf(
                            self.rules@[i as int],
                            self.terminals@,
                            self.non_terminals@,
                        ));
                        assert(self.rules@[i as int].input@.len() >= 1);
                        assert forall|x: char| nts@.contains(x) implies spec_reachable(
                            self.rules@,
                            start,
                            x,
                        ) by {
                            let p = choose|p: int| 0 <= p < nts@.len() && nts@[p] == x;
                            if p < pre_nts.len() {
                                assert(nts@.subrange(0, pre_nts.len() as int)[p] == x);
                                assert(pre_nts.contains(x));
                            } else {
                                let (j, k) = choose|j: int, k: int|
                                    0 <= j < r.variants@.len() && 0 <= k < r.variants@[j]@.len()
                                        && (#[trigger] r.variants@[j]@[k]) == nts@[p];
                                lemma_reachable_step(self.rules@, start, i as int, j, k);
                            }
                        }
                        assert forall|x: char| tss@.contains(x) implies spec_reachable(
                            self.rules@,
                            start,
                            x,
                        ) by {
                            let p = choose|p: int| 0 <= p < tss@.len() && tss@[p] == x;
                            if p < pre_tss.len() {
                                assert(tss@.subrange(0, pre_tss.len() as int)[p] == x);
                                assert(pre_tss.contains(x));
                            } else {
                                let (j, k) = choose|j: int, k: int|
                                    0 <= j < r.variants@.len() && 0 <= k < r.variants@[j]@.len()
                                        && (#[trigger] r.variants@[j]@[k]) == tss@[p];
                                lemma_reachable_step(self.rules@, start, i as int, j, k);
                            }
                        }
                        assert(nts@.contains(start)) by {
                            let p = choose|p: int| 0 <= p < pre_nts.len() && pre_nts[p] == start;
                            assert(nts@.subrange(0, pre_nts.len() as int)[p] == start);
                            assert(nts@[p] == start);
                        }
                        assert forall|p: int|
                            0 <= p < nts@.len() implies self.non_terminals@.contains(
                            #[trigger] nts@[p],
                        ) by {
                            if p < pre_nts.len() {
                                assert(nts@.subrange(0, pre_nts.len() as int)[p] == nts@[p]);
                                assert(pre_nts[p] == nts@[p]);
                                assert(pre_nts.contains(nts@[p]));
                            }
                        }
                        assert forall|p: int|
                            0 <= p < tss@.len() implies self.terminals@.contains(
                            #[trigger] tss@[p],
                        ) by {
                            if p < pre_tss.len() {
                                assert(tss@.subrange(0, pre_tss.len() as int)[p] == tss@[p]);
                                assert(pre_tss[p] == tss@[p]);
                                assert(pre_tss.contains(tss@[p]));
                            }
                        }
                        crate::symbols::lemma_distinct_subset_len(nts@, self.non_terminals@);
                        crate::symbols::lemma_distinct_subset_len(tss@, self.terminals@);
                    }
                }
                i = i + 1;
            }
        }
        let ghost head_ok = (|c: char|
            old(self).non_terminals@.contains(c) && spec_reachable(
                old(self).rules@,
                old(self).starting_non_terminal,
                c,
            ));
        let ghost keep_v = (|v: Seq<char>|
            forall|k: int|
                0 <= k < v.len() ==> (old(self).terminals@.contains(#[trigger] v[k])
                    && spec_reachable(old(self).rules@, old(self).starting_non_terminal, v[k]))
                    || v[k] == EMPTY_SEQUENCE || (old(self).non_terminals@.contains(v[k])
                    && spec_reachable(old(self).rules@, old(self).starting_non_terminal, v[k])));
        proof {
            assert forall|i: int, k: int|
                0 <= i < self.rules@.len() && 0 <= k < self.rules@[i].input@.len() implies self
                .terminals@.contains(#[trigger] self.rules@[i].input@[k])
                || self.non_terminals@.contains(self.rules@[i].input@[k]) by {
                assert(rule_wf(self.rules@[i], self.terminals@, self.non_terminals@));
            }
            assert forall|c: char|
                self.non_terminals@.contains(c) && spec_reachable(
                    self.rules@,
                    start,
                    c,
                ) implies nts@.contains(c) by {
                let n = choose|n: nat| reachable_within(self.rules@, start, c, n);
                lemma_reachable_complete(
                    self.rules@,
                    self.terminals@,
                    self.non_terminals@,
                    start,
                    nts@,
                    tss@,
                    c,
                    n,
                );
            }
            assert forall|c: char|
                self.terminals@.contains(c) && spec_reachable(
                    self.rules@,
                    start,
                    c,
                ) implies tss@.contains(c) by {
                let n = choose|n: nat| reachable_within(self.rules@, start, c, n);
                lemma_reachable_complete(
                    self.rules@,
                    self.terminals@,
                    self.non_terminals@,
                    start,
                    nts@,
                    tss@,
                    c,
                    n,
                );
            }
        }
        let mut new_rules: Vec<Rule> = Vec::new();
        let mut q: usize = 0;
        while q < self.rules.len()
            invariant
                *self == *old(self),
                0 <= q <= self.rules@.len(),
                forall|c: char|
                    nts@.contains(c) <==> (old(self).non_terminals@.contains(c) && spec_reachable(
                        old(self).rules@,
                        old(self).starting_non_terminal,
                        c,
                    )),
                forall|c: char|
                    tss@.contains(c) <==> (old(self).terminals@.contains(c) && spec_reachable(
                        old(self).rules@,
                        old(self).starting_non_terminal,
                        c,
                    )),
                rules_match_view(
                    new_rules@,
                    selected_rules_view(self.rules@.subrange(0, q as int), head_ok, keep_v),
                ),
            decreases self.rules@.len() - q,
        {
            let r = &self.rules[q];
            let ghost prefix_view = selected_rules_view(
                self.rules@.subrange(0, q as int),
                head_ok,
                keep_v,
            );
            proof {
                assert(self.rules@.subrange(0, q + 1 as int).drop_last() =~= self.rules@.subrange(
                    0,
                    q as int,
                ));
                assert(self.rules@.subrange(0, q + 1 as int).last() == self.rules@[q as int]);
            }
            if contains_char(&nts, r.input[0]) {
                let mut new_variants: Vec<Vec<char>> = Vec::new();
                let mut j: usize = 0;
                while j < r.variants.len()
                    invariant
                        *self == *old(self),
                        0 <= q < self.rules@.len(),
                        r == &self.rules@[q as int],
                        0 <= j <= r.variants@.len(),
                        forall|c: char|
                            nts@.contains(c) <==> (old(self).non_terminals@.contains(c)
                                && spec_reachable(
                                old(self).rules@,
                                old(self).starting_non_terminal,
                                c,
                            )),
                        forall|c: char|
                            tss@.contains(c) <==> (old(self).terminals@.contains(c)
                                && spec_reachable(
                                old(self).rules@,
                                old(self).starting_non_terminal,
                                c,
                            )),
                        new_variants@.map_values(|v: Vec<char>| v@) == selected_variants(
                            variant_view(*r).subrange(0, j as int),
                            keep_v,
                        ),
                    decreases r.variants@.len() - j,
                {
                    let v = &r.variants[j];
                    proof {
                        assert(variant_view(*r).subrange(0, j + 1 as int).drop_last()
                            =~= variant_view(*r).subrange(0, j as int));
                        assert(variant_view(*r).subrange(0, j + 1 as int).last() == v@);
                    }
                    if Self::variant_within_list(v, &tss, &nts) {
                        let copy = crate::symbols::clone_chars(v);
                        new_variants.push(copy);
                        proof {
                            assert(keep_v(v@)) by {
                                assert forall|k: int|
                                    0 <= k < v@.len() implies (old(self).terminals@.contains(
                                    #[trigger] v@[k],
                                ) && spec_reachable(
                                    old(self).rules@,
                                    old(self).starting_non_terminal,
                                    v@[k],
                                )) || v@[k] == EMPTY_SEQUENCE || (old(
                                    self,
                                ).non_terminals@.contains(v@[k]) && spec_reachable(
                                    old(self).rules@,
                                    old(self).starting_non_terminal,
                                    v@[k],
                                )) by {
                                    assert(tss@.contains(v@[k]) || v@[k] == EMPTY_SEQUENCE
                                        || nts@.contains(v@[k]));
                                }
                            }
                            assert(new_variants@.map_values(|vv: Vec<char>| vv@)
                                =~= selected_variants(
                                variant_view(*r).subrange(0, j + 1 as int),
                                keep_v,
                            ));
                        }
                    } else {
                        proof {
                            assert(!keep_v(v@)) by {
                                let k = choose|k: int|
                                    0 <= k < v@.len() && !(tss@.contains(v@[k]) || v@[k]
                                        == EMPTY_SEQUENCE || nts@.contains(v@[k]));
                                assert(!((old(self).terminals@.contains(v@[k]) && spec_reachable(
                                    old(self).rules@,
                                    old(self).starting_non_terminal,
                                    v@[k],
                                )) || v@[k] == EMPTY_SEQUENCE || (old(
                                    self,
                                ).non_terminals@.contains(v@[k]) && spec_reachable(
                                    old(self).rules@,
                                    old(self).starting_non_terminal,
                                    v@[k],
                                ))));
                            }
                            assert(new_variants@.map_values(|vv: Vec<char>| vv@)
                                =~= selected_variants(
                                variant_view(*r).subrange(0, j + 1 as int),
                                keep_v,
                            ));
                        }
                    }
                    j = j + 1;
                }
                proof {
                    assert(variant_view(*r).subrange(0, r.variants@.len() as int) =~= variant_view(
                        *r,
                    ));
                    assert(head_ok(r.input@[0]));
                }
                let mut input: Vec<char> = Vec::new();
                input.push(r.input[0]);
                let new_rule = Rule { input, variants: new_variants };
                proof {
                    assert(new_rule.input@ =~= seq![self.rules@[q as int].input@[0]]);
                }
                new_rules.push(new_rule);
                proof {
                    let whole = selected_rules_view(
                        self.rules@.subrange(0, q + 1 as int),
                        head_ok,
                        keep_v,
                    );
                    assert(whole == prefix_view.push(
                        (r.input@[0], selected_variants(variant_view(*r), keep_v)),
                    ));
                    assert(rules_match_view(new_rules@, whole)) by {
                        assert forall|p: int|
                            0 <= p < new_rules@.len() implies (#[trigger] new_rules@[p].input@)
                            == seq![whole[p].0] && variant_view(new_rules@[p]) == whole[p].1 by {
                            if p < new_rules@.len() - 1 {
                                assert(new_rules@[p] == new_rules@.drop_last()[p]);
                                assert(whole[p] == prefix_view[p]);
                            } else {
                                assert(new_rules@[p] == new_rule);
                            }
                        }
                    }
                }
            } else {
                proof {
                    assert(!head_ok(r.input@[0])) by {
                        assert(!nts@.contains(r.input@[0]));
                    }
                    assert(selected_rules_view(
                        self.rules@.subrange(0, q + 1 as int),
                        head_ok,
                        keep_v,
                    ) == prefix_view);
                }
            }
            q = q + 1;
        }
        proof {
            assert(self.rules@.subrange(0, self.rules@.len() as int) =~= self.rules@);
        }
        self.rules = new_rules;
        let ghost ns_keep = (|c: char|
            old(self).non_terminals@.contains(c) && spec_reachable(
                old(self).rules@,
                old(self).starting_non_terminal,
                c,
            ));
        let ghost ts_keep = (|c: char|
            old(self).terminals@.contains(c) && spec_reachable(
                old(self).rules@,
                old(self).starting_non_terminal,
                c,
            ));
        let mut new_ns: Vec<char> = Vec::new();
        let mut ni: usize = 0;
        while ni < self.non_terminals.len()
            invariant
                self.non_terminals@ == old(self).non_terminals@,
                self.terminals@ == old(self).terminals@,
                self.starting_non_terminal == old(self).starting_non_terminal,
                0 <= ni <= self.non_terminals@.len(),
                forall|c: char|
                    nts@.contains(c) <==> (old(self).non_terminals@.contains(c) && spec_reachable(
                        old(self).rules@,
                        old(self).starting_non_terminal,
                        c,
                    )),
                new_ns@ == crate::symbols::selected_chars(
                    self.non_terminals@.subrange(0, ni as int),
                    ns_keep,
                ),
            decreases self.non_terminals@.len() - ni,
        {
            proof {
                assert(self.non_terminals@.subrange(0, ni + 1 as int).drop_last() =~= self
                    .non_terminals@.subrange(0, ni as int));
                assert(self.non_terminals@.subrange(0, ni + 1 as int).last()
                    == self.non_terminals@[ni as int]);
                assert(self.non_terminals@.contains(self.non_terminals@[ni as int]));
            }
            if contains_char(&nts, self.non_terminals[ni]) {
                new_ns.push(self.non_terminals[ni]);
            }
            ni = ni + 1;
        }
        let mut new_ts: Vec<char> = Vec::new();
        let mut ti: usize = 0;
        while ti < self.terminals.len()
            invariant
                self.non_terminals@ == old(self).non_terminals@,
                self.terminals@ == old(self).terminals@,
                self.starting_non_terminal == old(self).starting_non_terminal,
                0 <= ti <= self.terminals@.len(),
                forall|c: char|
                    tss@.contains(c) <==> (old(self).terminals@.contains(c) && spec_reachable(
                        old(self).rules@,
                        old(self).starting_non_terminal,
                        c,
                    )),
                new_ts@ == crate::symbols::selected_chars(
                    self.terminals@.subrange(0, ti as int),
                    ts_keep,
                ),
            decreases self.terminals@.len() - ti,
        {
            proof {
                assert(self.terminals@.subrange(0, ti + 1 as int).drop_last() =~= self
                    .terminals@.subrange(0, ti as int));
                assert(self.terminals@.subrange(0, ti + 1 as int).last()
                    == self.terminals@[ti as int]);
                assert(self.terminals@.contains(self.terminals@[ti as int]));
            }
            if contains_char(&tss, self.terminals[ti]) {
                new_ts.push(self.terminals[ti]);
            }
            ti = ti + 1;
        }
        proof {
            assert(self.non_terminals@.subrange(0, self.non_terminals@.len() as int) =~= self
                .non_terminals@);
            assert(self.terminals@.subrange(0, self.terminals@.len() as int) =~= self.terminals@);
            crate::symbols::lemma_selected_chars_membership(old(self).non_terminals@, ns_keep);
            crate::symbols::lemma_selected_chars_membership(old(self).terminals@, ts_keep);
            if distinct(old(self).non_terminals@) {
                crate::symbols::lemma_selected_chars_props(old(self).non_terminals@, ns_keep);
            }
            if distinct(old(self).terminals@) {
                crate::symbols::lemma_selected_chars_props(old(self).terminals@, ts_keep);
            }
        }
        self.non_terminals = new_ns;
        self.terminals = new_ts;
        self.grammar_type = Self::get_type(&self.terminals, &self.non_terminals, &self.rules);
        proof {
            assert forall|c: char|
                self.non_terminals@.contains(c) <==> (old(self).non_terminals@.contains(c)
                    && spec_reachable(
                    old(self).rules@,
                    old(self).starting_non_terminal,
                    c,
                )) by {}
            assert forall|c: char|
                self.terminals@.contains(c) <==> (old(self).terminals@.contains(c)
                    && spec_reachable(
                    old(self).rules@,
                    old(self).starting_non_terminal,
                    c,
                )) by {}
            self.lemma_reachable_cleaned_wf(*old(self), head_ok, keep_v);
        }
    }

    /// After reachability cleaning the grammar invariant holds again.
    proof fn lemma_reachable_cleaned_wf(
        self,
        prev: Grammar,
        head_ok: spec_fn(char) -> bool,
        keep_v: spec_fn(Seq<char>) -> bool,
    )
        requires
            prev.wf(),
            head_ok == (|c: char|
                prev.non_terminals@.contains(c) && spec_reachable(
                    prev.rules@,
                    prev.starting_non_terminal,
                    c,
                )),
            keep_v == (|v: Seq<char>|
                forall|k: int|
                    0 <= k < v.len() ==> (prev.terminals@.contains(#[trigger] v[k])
                        && spec_reachable(prev.rules@, prev.starting_non_terminal, v[k])) || v[k]
                        == EMPTY_SEQUENCE || (prev.non_terminals@.contains(v[k]) && spec_reachable(
                        prev.rules@,
                        prev.starting_non_terminal,
                        v[k],
                    ))),
            self.starting_non_terminal == prev.starting_non_terminal,
            forall|c: char|
                self.non_terminals@.contains(c) <==> (prev.non_terminals@.contains(c)
                    && spec_reachable(prev.rules@, prev.starting_non_terminal, c)),
            forall|c: char|
                self.terminals@.contains(c) <==> (prev.terminals@.contains(c) && spec_reachable(
                    prev.rules@,
                    prev.starting_non_terminal,
                    c,
                )),
            rules_match_view(self.rules@, selected_rules_view(prev.rules@, head_ok, keep_v)),
            self.grammar_type == spec_classify(
                self.terminals@,
                self.non_terminals@,
                self.rules@,
            ),
        ensures
            self.wf(),
    {
        assert(reachable_within(prev.rules@, prev.starting_non_terminal, prev.starting_non_terminal, 0));
        assert(spec_reachable(prev.rules@, prev.starting_non_terminal, prev.starting_non_terminal));
        assert(self.non_terminals@.contains(self.starting_non_terminal));
        lemma_selected_rules_props(prev.rules@, head_ok, keep_v);
        let view = selected_rules_view(prev.rules@, head_ok, keep_v);
        assert forall|i: int|
            0 <= i < self.rules@.len() implies rule_wf(
            self.rules@[i],
            self.terminals@,
            self.non_terminals@,
        ) by {
            assert(self.rules@[i].input@ == seq![view[i].0]);
            assert(head_ok(view[i].0));
            assert(self.non_terminals@.contains(view[i].0));
            assert(self.rules@[i].input@.len() == 1);
            assert(self.rules@[i].input@[0] == view[i].0);
            let q = choose|q: int|
                0 <= q < prev.rules@.len() && view[i].0 == prev.rules@[q].input@[0] && view[i].1
                    == selected_variants(variant_view(#[trigger] prev.rules@[q]), keep_v);
            lemma_selected_variants_props(variant_view(prev.rules@[q]), keep_v);
            assert(rule_wf(prev.rules@[q], prev.terminals@, prev.non_terminals@));
            assert forall|j: int|
                0 <= j < self.rules@[i].variants@.len() implies self.rules@[i].variants@[j]@.len()
                    >= 1 && (forall|k: int|
                0 <= k < self.rules@[i].variants@[j]@.len() ==> crate::grammar::variant_symbol_ok(
                    #[trigger] self.rules@[i].variants@[j]@[k],
                    self.terminals@,
                    self.non_terminals@,
                )) by {
                assert(variant_view(self.rules@[i])[j] == self.rules@[i].variants@[j]@);
                assert(view[i].1[j] == self.rules@[i].variants@[j]@);
                let v = self.rules@[i].variants@[j]@;
                assert(keep_v(v) && variant_view(prev.rules@[q]).contains(v));
                let b = choose|b: int|
                    0 <= b < variant_view(prev.rules@[q]).len() && variant_view(prev.rules@[q])[b]
                        == v;
                assert(prev.rules@[q].variants@[b]@ == v);
                assert(v.len() >= 1);
                assert forall|k: int|
                    0 <= k < v.len() implies crate::grammar::variant_symbol_ok(
                    #[trigger] v[k],
                    self.terminals@,
                    self.non_terminals@,
                ) by {
                    assert((prev.terminals@.contains(v[k]) && spec_reachable(
                        prev.rules@,
                        prev.starting_non_terminal,
                        v[k],
                    )) || v[k] == EMPTY_SEQUENCE || (prev.non_terminals@.contains(v[k])
                        && spec_reachable(prev.rules@, prev.starting_non_terminal, v[k])));
                }
            }
        }
    }

    /// Declared equivalence transformation. No rewriting is performed yet:
    /// the grammar is left unchanged.
    pub fn make_equivalent(&mut self)
        ensures
            *final(self) == *old(self),
    {
        if !(self.grammar_type == GrammarType::ContextFree) {
            return ;
        }
    }
}

} // verus!
