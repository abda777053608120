use flcd::fa::FiniteAutomaton;
use flcd::scanner::process_source_code;
use flcd::symbol_table::SymbolTableType;
use flcd::text::parse_i32;
use flcd::token_manager::TokenManager;
use flcd::tokenizer::extract_tokens_from_line;

fn identifier_dfa() -> FiniteAutomaton {
    let states = vec!['S', 'F'];
    let mut alphabet: Vec<char> = Vec::new();
    for c in 'a'..='z' {
        alphabet.push(c);
    }
    for c in 'A'..='Z' {
        alphabet.push(c);
    }
    alphabet.push('_');
    let mut transitions: Vec<(char, char, char)> = Vec::new();
    for &c in alphabet.iter() {
        transitions.push(('S', 'F', c));
        transitions.push(('F', 'F', c));
    }
    FiniteAutomaton::new(states, 'S', vec!['F'], alphabet, transitions).unwrap()
}

fn integer_dfa() -> FiniteAutomaton {
    let states = vec!['s', 'z', 'm', 'd'];
    let mut alphabet: Vec<char> = Vec::new();
    for c in '0'..='9' {
        alphabet.push(c);
    }
    alphabet.push('-');
    let mut transitions: Vec<(char, char, char)> = Vec::new();
    transitions.push(('s', 'z', '0'));
    transitions.push(('s', 'm', '-'));
    for c in '1'..='9' {
        transitions.push(('s', 'd', c));
        transitions.push(('m', 'd', c));
    }
    for c in '0'..='9' {
        transitions.push(('d', 'd', c));
    }
    FiniteAutomaton::new(states, 's', vec!['z', 'd'], alphabet, transitions).unwrap()
}

fn lexemes(line: &str) -> Vec<String> {
    extract_tokens_from_line(line)
}

#[test]
fn tokenizer_splits_operator_boundaries() {
    assert_eq!(lexemes("a+b"), vec!["a", "+", "b"]);
}

#[test]
fn tokenizer_coalesces_operator_runs() {
    assert_eq!(lexemes("a == b"), vec!["a", "==", "b"]);
}

#[test]
fn tokenizer_keeps_separators_alone() {
    assert_eq!(lexemes("(x);"), vec!["(", "x", ")", ";"]);
}

#[test]
fn tokenizer_glues_the_dot() {
    assert_eq!(lexemes("1.5"), vec!["1.5"]);
}

#[test]
fn tokenizer_discards_lone_spaces() {
    assert_eq!(lexemes("a  b"), vec!["a", "b"]);
}

#[test]
fn scan_builds_pif_and_symbol_table() {
    let catalogue = TokenManager::new(vec![
        "if".to_owned(),
        "+".to_owned(),
        "=".to_owned(),
        ";".to_owned(),
    ]);
    let int_fa = integer_dfa();
    let id_fa = identifier_dfa();
    let lines = vec!["if x = 1 + y;".to_owned()];

    let (pif, st) = process_source_code(&lines, &catalogue, &int_fa, &id_fa).unwrap();

    assert_eq!(pif.len(), 7);
    let codes: Vec<isize> = (0..pif.len()).map(|i| pif.get(i).token).collect();
    assert_eq!(codes, vec![0, -1, 2, -1, 1, -1, 3]);

    assert!(pif.get(0).st_pos.is_none());
    assert_eq!(pif.get(1).st_pos.unwrap().tp, SymbolTableType::ID);
    assert_eq!(pif.get(3).st_pos.unwrap().tp, SymbolTableType::INT);
    assert_eq!(pif.get(5).st_pos.unwrap().tp, SymbolTableType::ID);

    assert!(st.find_id("x").is_some());
    assert!(st.find_id("y").is_some());
    assert!(st.find_int(&1).is_some());
    assert!(st.find_id("if").is_none());

    let px = pif.get(1).st_pos.unwrap();
    assert_eq!(st.find_id("x"), Some((px.bucket, px.item)));
}

#[test]
fn scan_interns_repeated_identifiers() {
    let catalogue = TokenManager::new(Vec::new());
    let int_fa = integer_dfa();
    let id_fa = identifier_dfa();
    let lines = vec!["x y x".to_owned()];

    let (pif, _st) = process_source_code(&lines, &catalogue, &int_fa, &id_fa).unwrap();

    assert_eq!(pif.len(), 3);
    assert_eq!(pif.get(0).st_pos, pif.get(2).st_pos);
    assert_ne!(pif.get(0).st_pos, pif.get(1).st_pos);
}

#[test]
fn scan_reports_the_offending_line() {
    let catalogue = TokenManager::new(Vec::new());
    let int_fa = integer_dfa();
    let id_fa = identifier_dfa();
    let lines = vec!["a b".to_owned(), "c @ d".to_owned()];

    let err = process_source_code(&lines, &catalogue, &int_fa, &id_fa).unwrap_err();
    assert_eq!(err.line, 2);
    assert_eq!(err.message(), "Lexical error on line 2!");
}

#[test]
fn lexical_error_message_names_double_digit_lines() {
    let catalogue = TokenManager::new(Vec::new());
    let int_fa = integer_dfa();
    let id_fa = identifier_dfa();
    let mut lines: Vec<String> = Vec::new();
    for _ in 0..11 {
        lines.push("ok".to_owned());
    }
    lines.push("#".to_owned());

    let err = process_source_code(&lines, &catalogue, &int_fa, &id_fa).unwrap_err();
    assert_eq!(err.line, 12);
    assert_eq!(err.message(), "Lexical error on line 12!");
}

#[test]
fn scan_stores_string_constants() {
    let catalogue = TokenManager::new(Vec::new());
    let int_fa = integer_dfa();
    let id_fa = identifier_dfa();
    let lines = vec!["\"hi\"".to_owned()];

    let (pif, st) = process_source_code(&lines, &catalogue, &int_fa, &id_fa).unwrap();
    assert_eq!(pif.len(), 1);
    assert_eq!(pif.get(0).st_pos.unwrap().tp, SymbolTableType::STRING);
    assert!(st.find_string("\"hi\"").is_some());
}

#[test]
fn tokenizer_gives_no_lexemes_for_an_empty_line() {
    assert!(lexemes("").is_empty());
}

#[test]
fn tokenizer_glues_dots_across_words() {
    assert_eq!(lexemes("a.b.c"), vec!["a.b.c"]);
}

#[test]
fn scan_of_an_empty_source_succeeds() {
    let catalogue = TokenManager::new(Vec::new());
    let int_fa = integer_dfa();
    let id_fa = identifier_dfa();
    let lines: Vec<String> = Vec::new();

    let (pif, _st) = process_source_code(&lines, &catalogue, &int_fa, &id_fa).unwrap();
    assert_eq!(pif.len(), 0);
}

#[test]
fn catalogue_duplicates_keep_the_first_code() {
    let catalogue = TokenManager::new(vec!["x".to_owned(), "x".to_owned()]);
    assert_eq!(catalogue.get_token_code("x"), Some(0));
}

#[test]
fn catalogue_codes_are_line_indices() {
    let catalogue = TokenManager::new(vec!["if".to_owned(), "else".to_owned()]);
    assert_eq!(catalogue.get_token_code("if"), Some(0));
    assert_eq!(catalogue.get_token_code("else"), Some(1));
    assert_eq!(catalogue.get_token_code("while"), None);
}

#[test]
fn parse_i32_reads_signed_decimals() {
    assert_eq!(parse_i32("0"), Some(0));
    assert_eq!(parse_i32("007"), Some(7));
    assert_eq!(parse_i32("-5"), Some(-5));
    assert_eq!(parse_i32("+12"), Some(12));
    assert_eq!(parse_i32("2147483647"), Some(i32::MAX));
    assert_eq!(parse_i32("-2147483648"), Some(i32::MIN));
    assert_eq!(parse_i32("2147483648"), None);
    assert_eq!(parse_i32(""), None);
    assert_eq!(parse_i32("abc"), None);
    assert_eq!(parse_i32("-"), None);
}
