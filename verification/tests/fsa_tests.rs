use fsa_toolkit::dfa::Dfa;
use fsa_toolkit::grammar::{Grammar, GrammarError, GrammarType, RegularType, Rule};
use fsa_toolkit::nfa::Nfa;
use fsa_toolkit::state_transition_table::StateTransitionTable;

fn rule(input: &str, variants: &[&str]) -> Rule {
    Rule {
        input: input.chars().collect(),
        variants: variants.iter().map(|v| v.chars().collect()).collect(),
    }
}

fn grammar(ts: &[char], ns: &[char], start: char, rules: Vec<Rule>) -> Result<Grammar, GrammarError> {
    Grammar::new(ts.to_vec(), ns.to_vec(), start, rules)
}

fn transitions(entries: &[(char, char, &[char])]) -> StateTransitionTable {
    let mut t = StateTransitionTable::new();
    for (q, a, ds) in entries {
        t.insert((*q, *a), ds.to_vec());
    }
    t
}

#[test]
fn test_automata() {
    let g = grammar(
        &['a', 'b'],
        &['S', 'A', 'B'],
        'S',
        vec![
            rule("S", &["aB", "aA"]),
            rule("B", &["bB", "a"]),
            rule("A", &["aA", "b"]),
        ],
    )
    .expect("Failed to generate grammar");
    assert_eq!(g.grammar_type, GrammarType::Regular(RegularType::Right));
    let nfa = Nfa::from_grammar(g).expect("Failed to generate finite automata");
    let dfa = nfa.to_deterministic().expect("Failed to determinize");
    let _nfa = dfa.to_non_deterministic();
}

#[test]
fn test_remove_unreachable_states() {
    let t = transitions(&[
        ('A', 'a', &['B']),
        ('A', 'b', &['C']),
        ('B', 'b', &['D']),
        ('C', 'b', &['E']),
        ('D', 'a', &['C']),
        ('D', 'b', &['E']),
        ('E', 'a', &['B']),
        ('E', 'b', &['D']),
        ('F', 'a', &['D']),
        ('F', 'b', &['G']),
        ('G', 'a', &['F']),
        ('G', 'b', &['E']),
    ]);
    let nfa = Nfa::new(
        vec!['A', 'B', 'C', 'D', 'E', 'F', 'G'],
        vec!['a', 'b'],
        t,
        vec!['A'],
        vec!['D', 'E'],
    )
    .unwrap();
    let mut dfa = nfa.to_deterministic().unwrap();
    dfa.remove_unreachable_states();
    assert_eq!(dfa.states, vec!['A', 'B', 'C', 'D', 'E'], "Something went wrong with algorithm");
}

#[test]
fn test_remove_redundant_states() {
    let t = transitions(&[
        ('A', 'a', &['B']),
        ('A', 'b', &['C']),
        ('B', 'b', &['D']),
        ('C', 'b', &['E']),
        ('D', 'a', &['C']),
        ('D', 'b', &['E']),
        ('E', 'a', &['B']),
        ('E', 'b', &['D']),
    ]);
    let mut dfa = Dfa::new(
        vec!['A', 'B', 'C', 'D', 'E'],
        vec!['a', 'b'],
        t,
        vec!['A'],
        vec!['D', 'E'],
        Vec::new(),
        Vec::new(),
    )
    .unwrap();
    assert!(!dfa.has_unreachable_states());
    dfa.remove_redundant_states().unwrap();
    assert_eq!(dfa.states, vec!['A', 'F', 'G'], "Something went wrong with algorithm");
}

#[test]
fn test_transition() {
    let rules = vec![
        rule("S", &["aB", "aA"]),
        rule("B", &["bB", "aN"]),
        rule("A", &["aA", "bN"]),
    ];
    let mut transitions = StateTransitionTable::new();
    for r in rules.iter() {
        for variant in r.variants.iter() {
            let (arg, output) = (variant[0], variant[1]);
            let key = (r.input[0], arg);
            let mut list = match transitions.get(&key) {
                Some(v) => v.clone(),
                None => Vec::new(),
            };
            list.push(output);
            transitions.insert(key, list);
        }
    }
    assert_eq!(transitions.len(), 5);
    assert_eq!(transitions.get(&('S', 'a')), Some(&vec!['B', 'A']));
}

#[test]
fn two() {
    let g = grammar(
        &['a', 'b', 'c'],
        &['S', 'A', 'B', 'C'],
        'S',
        vec![
            rule("S", &["aA", "bB", "aC", "b"]),
            rule("A", &["bA", "bB", "c"]),
            rule("B", &["aA", "cC", "b"]),
            rule("C", &["bB", "bC", "a"]),
        ],
    )
    .expect("Failed to generate grammar");
    assert_eq!(g.grammar_type, GrammarType::Regular(RegularType::Right));
    let nfa = Nfa::from_grammar(g).expect("Failed to generate finite automata");
    let _dfa = nfa.to_deterministic().unwrap();
}

#[test]
fn three() {
    let t = transitions(&[
        ('S', '(', &['M']),
        ('K', '1', &['M']),
        ('L', '0', &['K']),
        ('Q', '0', &['R']),
        ('T', '1', &['Q']),
        ('T', ')', &['U']),
        ('M', '0', &['R']),
        ('M', '1', &['R']),
        ('R', ')', &['U']),
        ('R', '&', &['L']),
        ('R', '~', &['O']),
        ('N', '1', &['M']),
        ('O', '0', &['N']),
        ('P', '1', &['R']),
        ('F', '0', &['P']),
        ('F', ')', &['U']),
    ]);
    let mut dfa = Dfa::new(
        vec!['K', 'L', 'Q', 'T', 'S', 'M', 'R', 'U', 'N', 'O', 'P', 'F'],
        vec!['0', '1', '(', ')', '~', '&'],
        t,
        vec!['S'],
        vec!['U'],
        Vec::new(),
        Vec::new(),
    )
    .unwrap();
    dfa.remove_unreachable_states();
    let mut states = dfa.states.clone();
    states.sort();
    let mut expected_states = vec!['S', 'M', 'R', 'U', 'L', 'K', 'O', 'N'];
    expected_states.sort();
    assert_eq!(states, expected_states, "Incorrect state array");
    dfa.remove_redundant_states().unwrap();
}

#[test]
fn right_regular_to_dfa_scenario() {
    let g = grammar(
        &['a', 'b'],
        &['S', 'A', 'B'],
        'S',
        vec![
            rule("S", &["aB", "aA"]),
            rule("B", &["bB", "a"]),
            rule("A", &["aA", "b"]),
        ],
    )
    .expect("Failed to generate grammar");
    assert_eq!(g.grammar_type, GrammarType::Regular(RegularType::Right));
    let nfa = Nfa::from_grammar(g).expect("Failed to generate finite automata");
    assert_eq!(nfa.states, vec!['S', 'A', 'B', 'N']);
    assert_eq!(nfa.starting_states, vec!['S']);
    assert!(nfa.closing_states.contains(&'N'));
    // the two S-transitions on `a` merge into one sorted destination list
    assert_eq!(nfa.transitions.get(&('S', 'a')), Some(&vec!['A', 'B']));
    let dfa = nfa.to_deterministic().expect("Failed to determinize");
    assert_eq!(dfa.starting_states.len(), 1);
    // the composite {A, B} takes the first unused capital letter
    assert!(dfa.states.contains(&'C'));
    let combo = dfa
        .state_combo_to_state_map
        .iter()
        .find(|(c, _)| c == &vec!['A', 'B'])
        .map(|(_, n)| *n);
    assert_eq!(combo, Some('C'));
    assert_eq!(dfa.transitions.get(&('S', 'a')), Some(&vec!['C']));
    // the closure step names {A,N} and {B,N} next and gives the composites
    // their own transitions; finality is decided at synthesis time
    assert_eq!(dfa.states, vec!['S', 'A', 'B', 'N', 'C', 'D', 'E']);
    assert_eq!(dfa.closing_states, vec!['N', 'D', 'E']);
    assert_eq!(dfa.transitions.get(&('C', 'a')), Some(&vec!['D']));
    assert_eq!(dfa.transitions.get(&('C', 'b')), Some(&vec!['E']));
    assert_eq!(dfa.transitions.get(&('D', 'a')), Some(&vec!['A']));
    assert_eq!(dfa.transitions.get(&('D', 'b')), Some(&vec!['N']));
    assert_eq!(dfa.transitions.get(&('E', 'a')), Some(&vec!['N']));
    assert_eq!(dfa.transitions.get(&('E', 'b')), Some(&vec!['B']));
    let combo_d = dfa
        .state_to_state_combo_map
        .iter()
        .find(|(n, _)| *n == 'D')
        .map(|(_, c)| c.clone());
    assert_eq!(combo_d, Some(vec!['A', 'N']));
    let combo_e = dfa
        .state_to_state_combo_map
        .iter()
        .find(|(n, _)| *n == 'E')
        .map(|(_, c)| c.clone());
    assert_eq!(combo_e, Some(vec!['B', 'N']));
}

#[test]
fn epsilon_on_start_closes_the_start_state() {
    let g = grammar(&['a'], &['S'], 'S', vec![rule("S", &["aS", "\u{3b5}"])])
        .expect("Failed to generate grammar");
    assert_eq!(g.grammar_type, GrammarType::Regular(RegularType::Right));
    let nfa = Nfa::from_grammar(g).expect("Failed to generate finite automata");
    assert_eq!(nfa.closing_states, vec!['N', 'S']);
}

#[test]
fn conversion_rejects_non_right_regular_grammars() {
    let g = grammar(&['a'], &['S'], 'S', vec![rule("S", &["aSa"])])
        .expect("Failed to generate grammar");
    let r = Nfa::from_grammar(g);
    assert!(matches!(r, Err(fsa_toolkit::fsa::FiniteAutomataError::InvalidGrammarType)));
}

#[test]
fn minify_prunes_then_merges() {
    let t = transitions(&[
        ('A', 'a', &['B']),
        ('A', 'b', &['C']),
        ('B', 'b', &['D']),
        ('C', 'b', &['E']),
        ('D', 'a', &['C']),
        ('D', 'b', &['E']),
        ('E', 'a', &['B']),
        ('E', 'b', &['D']),
        ('F', 'a', &['D']),
        ('G', 'a', &['F']),
    ]);
    let mut dfa = Dfa::new(
        vec!['A', 'B', 'C', 'D', 'E', 'F', 'G'],
        vec!['a', 'b'],
        t,
        vec!['A'],
        vec!['D', 'E'],
        Vec::new(),
        Vec::new(),
    )
    .unwrap();
    dfa.minify().unwrap();
    assert_eq!(dfa.states, vec!['A', 'F', 'G']);
    assert_eq!(dfa.starting_states, vec!['A']);
    assert_eq!(dfa.closing_states, vec!['G']);
    assert_eq!(dfa.transitions.get(&('A', 'a')), Some(&vec!['F']));
    assert_eq!(dfa.transitions.get(&('F', 'b')), Some(&vec!['G']));
    assert_eq!(dfa.transitions.get(&('G', 'b')), Some(&vec!['G']));
    assert_eq!(dfa.transitions.get(&('G', 'a')), Some(&vec!['F']));
}

#[test]
fn table_operations_behave_like_a_map() {
    let mut t = StateTransitionTable::new();
    assert_eq!(t.len(), 0);
    assert_eq!(t.insert(('A', 'x'), vec!['B']), None);
    assert_eq!(t.insert(('A', 'y'), vec!['C']), None);
    assert_eq!(t.len(), 2);
    assert_eq!(t.get(&('A', 'x')), Some(&vec!['B']));
    assert_eq!(t.insert(('A', 'x'), vec!['D']), Some(vec!['B']));
    assert_eq!(t.len(), 2);
    assert_eq!(t.get(&('A', 'x')), Some(&vec!['D']));
    assert_eq!(t.remove(&('A', 'z')), None);
    assert_eq!(t.remove_entry(&('A', 'y')), Some((('A', 'y'), vec!['C'])));
    assert_eq!(t.remove(&('A', 'x')), Some(vec!['D']));
    assert_eq!(t.len(), 0);
    assert_eq!(t.get(&('A', 'x')), None);
}

#[test]
fn conversion_reports_name_exhaustion() {
    let ns: Vec<char> = ('A'..='Z').collect();
    let g = Grammar::new(vec!['a'], ns, 'S', vec![rule("S", &["aS"])])
        .expect("Failed to generate grammar");
    assert_eq!(g.grammar_type, GrammarType::Regular(RegularType::Right));
    let r = Nfa::from_grammar(g);
    assert!(matches!(r, Err(fsa_toolkit::fsa::FiniteAutomataError::NamingCapacityExceeded)));
}

#[test]
fn table_get_mut_edits_in_place() {
    let mut t = StateTransitionTable::new();
    t.insert(('S', 'a'), vec!['B']);
    t.insert(('S', 'b'), vec!['C']);
    let list = t.get_mut(&('S', 'a'));
    list.push('A');
    assert_eq!(t.get(&('S', 'a')), Some(&vec!['B', 'A']));
    assert_eq!(t.get(&('S', 'b')), Some(&vec!['C']));
    assert_eq!(t.len(), 2);
}
