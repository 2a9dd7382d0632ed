use fsa_toolkit::fsa::FSAType;
use fsa_toolkit::grammar::{Grammar, GrammarError, GrammarType, RegularType, Rule};

const EPS: char = '\u{3b5}';

fn rule(input: &str, variants: &[&str]) -> Rule {
    Rule {
        input: input.chars().collect(),
        variants: variants.iter().map(|v| v.chars().collect()).collect(),
    }
}

fn grammar(ts: &[char], ns: &[char], start: char, rules: Vec<Rule>) -> Result<Grammar, GrammarError> {
    Grammar::new(ts.to_vec(), ns.to_vec(), start, rules)
}

#[test]
fn test_grammar_types() {
    let g = grammar(
        &['a', 'b', 'c', 'd'],
        &['A', 'B', 'S'],
        'S',
        vec![rule("A", &["aB", "\u{3b5}"])],
    )
    .expect("Failed to generate grammar");
    assert_eq!(g.grammar_type, GrammarType::Regular(RegularType::Right));

    let g = grammar(&['a', 'b', 'c', 'd'], &['A', 'B', 'S'], 'S', vec![rule("A", &["bBc"])])
        .expect("Failed to generate grammar");
    assert_eq!(g.grammar_type, GrammarType::ContextFree);

    let g = grammar(&['a', 'b', 'c', 'd'], &['A', 'B', 'C', 'S'], 'S', vec![rule("CB", &["BC"])])
        .expect("Failed to generate grammar");
    assert_eq!(g.grammar_type, GrammarType::ContextDependent);

    let g = grammar(
        &['a', 'b', 'c', 'd'],
        &['A', 'B', 'C', 'S'],
        'S',
        vec![rule("AB", &["bBA"]), rule("bCB", &["\u{3b5}"])],
    )
    .expect("Failed to generate grammar");
    assert_eq!(g.grammar_type, GrammarType::Type0);
}

#[test]
fn test_is_grammar_language_exists() {
    let g = grammar(
        &['0', '1'],
        &['S', 'A', 'B'],
        'S',
        vec![rule("S", &["AB"]), rule("A", &["0A", "0"]), rule("B", &["1"])],
    )
    .expect("Failed to generate grammar");
    assert_eq!(g.grammar_type, GrammarType::ContextFree);
    assert!(g.is_grammar_language_exists(), "Grammar language should exist for this grammar");
}

#[test]
fn test_remove_non_terminals_without_terminals() {
    let mut g = grammar(
        &['a', 'b', 'c'],
        &['S', 'A', 'B', 'C'],
        'S',
        vec![
            rule("S", &["ab", "AC"]),
            rule("A", &["AB"]),
            rule("B", &["b"]),
            rule("C", &["cb"]),
        ],
    )
    .expect("Failed to generate grammar");
    g.remove_non_ending_non_terminals();
    assert_eq!(g.non_terminals, vec!['S', 'B', 'C'], "Invalid non-terminals, got: {:?}", g.non_terminals);
}

#[test]
fn test_remove_unreachable_symbols() {
    let mut g = grammar(
        &['a', 'b', 'c'],
        &['S', 'B', 'C'],
        'S',
        vec![rule("S", &["ab"]), rule("B", &["b"]), rule("C", &["cb"])],
    )
    .expect("Failed to generate grammar");
    g.remove_unreachable_symbols();
    assert_eq!(g.non_terminals, vec!['S'], "Invalid non-terminals, got: {:?}", g.non_terminals);
    assert_eq!(g.terminals, vec!['a', 'b'], "Invalid terminals, got: {:?}", g.terminals);
}

#[test]
fn one() {
    let g = grammar(
        &['a', 'b', 'c', 'd'],
        &['A', 'B', 'S'],
        'S',
        vec![
            rule("S", &["AB", "A", "B"]),
            rule("A", &["ab", "abA", "\u{3b5}"]),
            rule("B", &["cd", "cdB", "\u{3b5}"]),
        ],
    )
    .expect("Failed to generate grammar");
    assert_eq!(g.grammar_type, GrammarType::ContextFree);
}

#[test]
fn four() {
    let mut g = grammar(
        &['+', '-', '*', '/', 'n', 'm', 'h'],
        &['E', 'T', 'F', 'G', 'H'],
        'E',
        vec![
            rule("E", &["T", "E+T", "E-T", "\u{3b5}"]),
            rule("T", &["F", "F*T", "F/T", "\u{3b5}"]),
            rule("F", &["G", "Fn", "n"]),
            rule("G", &["Gm"]),
            rule("H", &["Hh", "h"]),
        ],
    )
    .expect("Failed to generate grammar");
    assert_eq!(g.grammar_type, GrammarType::ContextFree);
    assert!(g.is_grammar_language_exists(), "This grammar should have its grammar language");
    if g.is_grammar_language_exists() {
        g.remove_non_ending_non_terminals();
    }
}

#[test]
fn validation_rejects_overlapping_symbols() {
    let r = grammar(&['a', 'b'], &['S', 'a'], 'S', vec![]);
    assert!(matches!(r, Err(GrammarError::OverlappingSymbols)));
}

#[test]
fn validation_rejects_missing_start() {
    let r = grammar(&['a', 'b'], &['A', 'B'], 'S', vec![]);
    assert!(matches!(r, Err(GrammarError::MissingStartingNonTerminalSymbol)));
}

#[test]
fn validation_rejects_alien_symbols_and_empty_inputs() {
    let r = grammar(&['a'], &['S'], 'S', vec![rule("S", &["ax"])]);
    assert!(matches!(r, Err(GrammarError::InvalidRule)));
    let r = grammar(&['a'], &['S'], 'S', vec![rule("", &["a"])]);
    assert!(matches!(r, Err(GrammarError::InvalidRule)));
}

#[test]
fn validation_accepts_epsilon_and_operators() {
    let g = grammar(&['a'], &['S'], 'S', vec![rule("S", &["a+a", "\u{3b5}"])])
        .expect("Failed to generate grammar");
    assert_eq!(g.starting_non_terminal, 'S');
    assert_eq!(g.rules.len(), 1);
    assert_eq!(g.rules[0].variants[1], vec![EPS]);
}

#[test]
fn classification_demotes_mixed_alignment() {
    // one left-aligned and one right-aligned variant: no single alignment
    let g = grammar(&['a'], &['S', 'A'], 'S', vec![rule("S", &["aA", "Aa"])])
        .expect("Failed to generate grammar");
    assert_eq!(g.grammar_type, GrammarType::ContextFree);
}

#[test]
fn classification_left_regular() {
    let g = grammar(&['a', 'b'], &['S', 'A'], 'S', vec![rule("S", &["Aa", "b"])])
        .expect("Failed to generate grammar");
    assert_eq!(g.grammar_type, GrammarType::Regular(RegularType::Left));
}

#[test]
fn unproductive_start_symbol_has_no_language() {
    let g = grammar(&['a'], &['S'], 'S', vec![rule("S", &["S"])])
        .expect("Failed to generate grammar");
    assert_eq!(g.grammar_type, GrammarType::ContextFree);
    assert!(!g.is_grammar_language_exists());
}

#[test]
fn cleaning_skips_non_context_free_grammars() {
    let mut g = grammar(&['a', 'b'], &['S', 'A'], 'S', vec![rule("SA", &["ab"])])
        .expect("Failed to generate grammar");
    assert_eq!(g.grammar_type, GrammarType::ContextDependent);
    g.remove_non_ending_non_terminals();
    assert_eq!(g.non_terminals, vec!['S', 'A']);
    g.make_equivalent();
    assert_eq!(g.non_terminals, vec!['S', 'A']);
}

#[test]
fn productive_cleaning_keeps_variants_over_productive_symbols() {
    // B is productive through its terminal variant, so S keeps `aB`
    let mut g = grammar(
        &['a', 'b'],
        &['S', 'B', 'C'],
        'S',
        vec![rule("S", &["aB", "aC"]), rule("B", &["b"]), rule("C", &["C"])],
    )
    .expect("Failed to generate grammar");
    g.remove_non_ending_non_terminals();
    assert_eq!(g.non_terminals, vec!['S', 'B']);
    assert_eq!(g.rules.len(), 2);
    assert_eq!(g.rules[0].variants, vec![vec!['a', 'B']]);
    assert_eq!(g.rules[1].variants, vec![vec!['b']]);
}

#[test]
fn classifier_display_strings() {
    assert_eq!(GrammarType::Type0.display_text(), "Тип 0".to_string());
    assert_eq!(
        GrammarType::ContextDependent.display_text(),
        "Тип 1 (КЗ-грамматика)".to_string()
    );
    assert_eq!(GrammarType::ContextFree.display_text(), "Тип 2 (КС-грамматика)".to_string());
    assert_eq!(
        GrammarType::Regular(RegularType::Left).display_text(),
        "Тип 3 (Р-грамматика, выровненная влево)".to_string()
    );
    assert_eq!(
        GrammarType::Regular(RegularType::Right).display_text(),
        "Тип 3 (Р-грамматика, выровненная вправо)".to_string()
    );
}

#[test]
fn automaton_display_strings() {
    assert_eq!(
        FSAType::NonDeterministic.display_text(),
        "Недетерминированный конечный автомат (НКА)".to_string()
    );
    assert_eq!(
        FSAType::Deterministic.display_text(),
        "Детерминированный конечный автомат (ДКА)".to_string()
    );
}
