use flcd::fa::{FaError, FiniteAutomaton, NotDFAError};
use flcd::fa_parser::{parse_fa, parse_truple};

/// A DFA over `[A-Za-z_]` accepting one or more such characters.
fn identifier_dfa() -> FiniteAutomaton {
    let states = vec!['S', 'F'];
    let mut alphabet: Vec<char> = Vec::new();
    for c in 'a'..='z' {
        alphabet.push(c);
    }
    for c in 'A'..='Z' {
        alphabet.push(c);
    }
    alphabet.push('_');
    let mut transitions: Vec<(char, char, char)> = Vec::new();
    for &c in alphabet.iter() {
        transitions.push(('S', 'F', c));
        transitions.push(('F', 'F', c));
    }
    FiniteAutomaton::new(states, 'S', vec!['F'], alphabet, transitions).unwrap()
}

/// A DFA accepting `0 | -?[1-9][0-9]*`.
fn integer_dfa() -> FiniteAutomaton {
    let states = vec!['s', 'z', 'm', 'd'];
    let mut alphabet: Vec<char> = Vec::new();
    for c in '0'..='9' {
        alphabet.push(c);
    }
    alphabet.push('-');
    let mut transitions: Vec<(char, char, char)> = Vec::new();
    transitions.push(('s', 'z', '0'));
    transitions.push(('s', 'm', '-'));
    for c in '1'..='9' {
        transitions.push(('s', 'd', c));
        transitions.push(('m', 'd', c));
    }
    for c in '0'..='9' {
        transitions.push(('d', 'd', c));
    }
    FiniteAutomaton::new(states, 's', vec!['z', 'd'], alphabet, transitions).unwrap()
}

#[test]
fn is_dfa_accepts_distinct_labels() {
    assert!(identifier_dfa().is_dfa());
    assert!(integer_dfa().is_dfa());
}

#[test]
fn is_dfa_rejects_equal_labels_from_one_node() {
    let fa = FiniteAutomaton::new(
        vec!['p', 'q', 'r'],
        'p',
        vec!['q'],
        vec!['a'],
        vec![('p', 'q', 'a'), ('p', 'r', 'a')],
    )
    .unwrap();
    assert!(!fa.is_dfa());
}

#[test]
fn identifier_dfa_acceptance() {
    let fa = identifier_dfa();
    assert_eq!(fa.check_match("abc"), Ok(true));
    assert_eq!(fa.check_match(""), Ok(false));
    assert_eq!(fa.check_match("1a"), Ok(false));
    assert_eq!(fa.check_match("_x_"), Ok(true));
}

#[test]
fn integer_dfa_acceptance() {
    let fa = integer_dfa();
    assert_eq!(fa.check_match("0"), Ok(true));
    assert_eq!(fa.check_match("007"), Ok(false));
    assert_eq!(fa.check_match("-5"), Ok(true));
    assert_eq!(fa.check_match("-0"), Ok(false));
    assert_eq!(fa.check_match(""), Ok(false));
}

#[test]
fn nondeterminism_is_detected() {
    let fa = FiniteAutomaton::new(
        vec!['p', 'q', 'r'],
        'p',
        vec!['q'],
        vec!['a'],
        vec![('p', 'q', 'a'), ('p', 'r', 'a')],
    )
    .unwrap();
    assert_eq!(fa.check_match("a"), Err(NotDFAError));
}

#[test]
fn empty_input_is_accepted_iff_start_is_final() {
    let accepting_start = FiniteAutomaton::new(
        vec!['p'],
        'p',
        vec!['p'],
        vec!['a'],
        vec![('p', 'p', 'a')],
    )
    .unwrap();
    assert_eq!(accepting_start.check_match(""), Ok(true));

    let rejecting_start = FiniteAutomaton::new(
        vec!['p', 'q'],
        'p',
        vec!['q'],
        vec!['a'],
        vec![('p', 'q', 'a')],
    )
    .unwrap();
    assert_eq!(rejecting_start.check_match(""), Ok(false));
}

#[test]
fn characters_outside_the_alphabet_reject_without_error() {
    let fa = FiniteAutomaton::new(
        vec!['p', 'q'],
        'p',
        vec!['q'],
        vec!['a'],
        vec![('p', 'q', 'a')],
    )
    .unwrap();
    assert_eq!(fa.check_match("z"), Ok(false));
}

#[test]
fn construction_rejects_label_outside_alphabet() {
    let r = FiniteAutomaton::new(
        vec!['p', 'q'],
        'p',
        vec!['q'],
        vec!['a'],
        vec![('p', 'q', 'b')],
    );
    assert_eq!(r.err(), Some(FaError::AlphabetViolation));
}

#[test]
fn construction_rejects_unknown_states() {
    let r = FiniteAutomaton::new(
        vec!['p', 'q'],
        'x',
        vec!['q'],
        vec!['a'],
        vec![],
    );
    assert_eq!(r.err(), Some(FaError::UnknownState));

    let r = FiniteAutomaton::new(
        vec!['p', 'q'],
        'p',
        vec!['z'],
        vec!['a'],
        vec![],
    );
    assert_eq!(r.err(), Some(FaError::UnknownState));

    let r = FiniteAutomaton::new(
        vec!['p', 'q'],
        'p',
        vec!['q'],
        vec!['a'],
        vec![('p', 'z', 'a')],
    );
    assert_eq!(r.err(), Some(FaError::UnknownState));
}

#[test]
fn construction_rejects_duplicate_states() {
    let r = FiniteAutomaton::new(vec!['p', 'p'], 'p', vec![], vec![], vec![]);
    assert_eq!(r.err(), Some(FaError::DuplicateState));
}

#[test]
fn parse_truple_reads_three_fields() {
    assert_eq!(parse_truple("p,q,a"), Ok(('p', 'q', 'a')));
    assert_eq!(parse_truple("p,q"), Err(FaError::MalformedDescription));
    assert_eq!(parse_truple("p,,a"), Err(FaError::MalformedDescription));
}

#[test]
fn parse_fa_reads_a_description() {
    let lines = vec![
        "p,q".to_owned(),
        "p".to_owned(),
        "q".to_owned(),
        "a,b".to_owned(),
        "p,q,a;q,q,b".to_owned(),
    ];
    let fa = parse_fa(&lines).unwrap();
    assert!(fa.is_dfa());
    assert_eq!(fa.check_match("ab"), Ok(true));
    assert_eq!(fa.check_match("ba"), Ok(false));
}

#[test]
fn parse_fa_rejects_short_descriptions() {
    let lines = vec!["p".to_owned(), "p".to_owned(), "p".to_owned(), "a".to_owned()];
    assert_eq!(parse_fa(&lines).err(), Some(FaError::MalformedDescription));
}

#[test]
fn parse_fa_rejects_alphabet_violations() {
    let lines = vec![
        "p,q".to_owned(),
        "p".to_owned(),
        "q".to_owned(),
        "a".to_owned(),
        "p,q,z".to_owned(),
    ];
    assert_eq!(parse_fa(&lines).err(), Some(FaError::AlphabetViolation));
}
