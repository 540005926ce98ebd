use finite_automaton::automaton::{FiniteAutomaton, TraversalError};
use finite_automaton::parser::ParseError;

fn name(s: &str) -> Vec<char> {
    s.chars().collect()
}

fn identifiers() -> FiniteAutomaton {
    let letters = "abcdefghijklmnopqrstuvwxyzABCDEFGHIJKLMNOPQRSTUVWXYZ_";
    let digits = "0123456789";
    let text = format!(
        "Init Invalid Valid\nInit\nValid\n{l}{d}\nInit {l} Valid {d} Invalid\nValid {l}{d} Valid\nInvalid {l}{d} Invalid\n",
        l = letters,
        d = digits
    );
    FiniteAutomaton::new(&text).unwrap()
}

const ABC: &str = "q1 q2 q3\nq1\nq3\nab\nq1 a q2 b q3\nq2 a q2 b q3\nq3 a q3 b q3\n";

#[test]
fn identifier_automaton() {
    let fa = identifiers();
    assert_eq!(fa.is_valid_token("valid_123").ok(), Some(true));
    assert_eq!(fa.is_valid_token("1_begins_with_digit").ok(), Some(false));
    assert_eq!(fa.is_valid_token("").ok(), Some(false));
}

#[test]
fn two_symbol_automaton() {
    let fa = FiniteAutomaton::new(ABC).unwrap();
    assert_eq!(fa.is_valid_token("b").ok(), Some(true));
    assert_eq!(fa.is_valid_token("aab").ok(), Some(true));
    assert_eq!(fa.is_valid_token("a").ok(), Some(false));
}

#[test]
fn repeated_queries_agree() {
    let fa = FiniteAutomaton::new(ABC).unwrap();
    let first = fa.is_valid_token("aab").ok();
    let _ = fa.is_valid_token("a");
    let _ = fa.is_valid_token("c");
    assert_eq!(fa.is_valid_token("aab").ok(), first);
    assert_eq!(fa.is_valid_token("a").ok(), Some(false));
}

#[test]
fn empty_token_follows_initial_state() {
    let fa = FiniteAutomaton::new("s t\ns\ns\nx\n").unwrap();
    assert_eq!(fa.is_valid_token("").ok(), Some(true));
    let fa = FiniteAutomaton::new("s t\ns\nt\nx\n").unwrap();
    assert_eq!(fa.is_valid_token("").ok(), Some(false));
}

#[test]
fn missing_symbol_is_reported() {
    let fa = FiniteAutomaton::new("q1 q2\nq1\nq2\nab\nq1 a q2\nq2 a q2\n").unwrap();
    match fa.is_valid_token("ab") {
        Err(TraversalError::NoSymbolTransition { state, symbol }) => {
            assert_eq!(state, name("q2"));
            assert_eq!(symbol, 'b');
        }
        _ => panic!("expected a missing transition"),
    }
    // the automaton stays usable after a failed query
    assert_eq!(fa.is_valid_token("a").ok(), Some(true));
}

#[test]
fn missing_table_is_reported() {
    let fa = FiniteAutomaton::new("q1 q2\nq1\nq2\na\nq1 a q2\n").unwrap();
    match fa.is_valid_token("aa") {
        Err(TraversalError::NoTransitions { state }) => assert_eq!(state, name("q2")),
        _ => panic!("expected a state without transitions"),
    }
    match fa.is_valid_token("c") {
        Err(TraversalError::NoSymbolTransition { state, symbol }) => {
            assert_eq!(state, name("q1"));
            assert_eq!(symbol, 'c');
        }
        _ => panic!("expected a missing transition"),
    }
}

#[test]
fn later_definition_wins() {
    let fa = FiniteAutomaton::new("p q r\np\nr\nx\np x q\np x r\n").unwrap();
    assert_eq!(fa.is_valid_token("x").ok(), Some(true));
    let moves = &fa.transitions()[0].moves;
    assert_eq!(moves.len(), 1);
    assert_eq!(moves[0], ('x', name("r")));
}

#[test]
fn missing_sections() {
    assert_eq!(FiniteAutomaton::new("").err(), Some(ParseError::MissingStates));
    assert_eq!(FiniteAutomaton::new("# only a comment\n\n").err(), Some(ParseError::MissingStates));
    assert_eq!(FiniteAutomaton::new("a b\n").err(), Some(ParseError::MissingInitialState));
    assert_eq!(FiniteAutomaton::new("a b\na\n").err(), Some(ParseError::MissingFinalStates));
    assert_eq!(FiniteAutomaton::new("a b\na\nb\n").err(), Some(ParseError::MissingAlphabet));
    assert!(FiniteAutomaton::new("a b\na\nb\nx").is_ok());
}

#[test]
fn comments_and_blank_lines_are_skipped() {
    let text = "# states\n  q1 q2 q3  \n\n# initial\nq1\n\t\nq3\n  # alphabet next\nab\nq1 a q2 b q3\n# q2\nq2 a q2 b q3\nq3 a q3 b q3";
    let fa = FiniteAutomaton::new(text).unwrap();
    assert_eq!(fa.states().len(), 3);
    assert_eq!(fa.initial_state(), &name("q1"));
    assert_eq!(fa.is_valid_token("aab").ok(), Some(true));
}

#[test]
fn components_are_kept_as_sets() {
    let fa = FiniteAutomaton::new("q1 q2 q1  q2\nq1\nq2 q2\naba\nq1 ab q2\n").unwrap();
    assert_eq!(fa.states(), &vec![name("q1"), name("q2")]);
    assert_eq!(fa.final_states(), &vec![name("q2")]);
    assert_eq!(fa.alphabet(), &vec!['a', 'b']);
    assert_eq!(fa.initial_state(), &name("q1"));
    let t = fa.transitions();
    assert_eq!(t.len(), 1);
    assert_eq!(t[0].state, name("q1"));
    assert_eq!(t[0].moves, vec![('a', name("q2")), ('b', name("q2"))]);
}

#[test]
fn dangling_group_is_ignored() {
    let fa = FiniteAutomaton::new("p q\np\nq\nxy\np x q y\n").unwrap();
    assert_eq!(fa.is_valid_token("x").ok(), Some(true));
    match fa.is_valid_token("y") {
        Err(TraversalError::NoSymbolTransition { state, symbol }) => {
            assert_eq!(state, name("p"));
            assert_eq!(symbol, 'y');
        }
        _ => panic!("expected a missing transition"),
    }
}

#[test]
fn transition_lines_accumulate() {
    let fa = FiniteAutomaton::new("p q\np\nq\nxy\np x p\np y q\n").unwrap();
    assert_eq!(fa.transitions().len(), 1);
    assert_eq!(fa.is_valid_token("xxy").ok(), Some(true));
    assert_eq!(fa.is_valid_token("xx").ok(), Some(false));
}

#[test]
fn written_text_matches_format() {
    let fa = FiniteAutomaton::new(ABC).unwrap();
    let text: String = fa.to_text().iter().collect();
    assert_eq!(text, ABC);
}

#[test]
fn round_trip_keeps_answers() {
    let original = "# comment\n  a b  a c\na\nc b\nxyx \na xy b\nb x c y a\nc x c\na y c\n";
    let fa = FiniteAutomaton::new(original).unwrap();
    let text: String = fa.to_text().iter().collect();
    assert_eq!(text, "a b c\na\nc b\nxy\na x b y c\nb x c y a\nc x c\n");
    let again = FiniteAutomaton::new(&text).unwrap();
    for token in ["", "x", "y", "xx", "xy", "yx", "xyx", "xxy", "yxx", "z", "xz"] {
        assert_eq!(
            format!("{:?}", fa.is_valid_token(token)),
            format!("{:?}", again.is_valid_token(token))
        );
    }
    assert_eq!(again.states(), fa.states());
    assert_eq!(again.final_states(), fa.final_states());
    assert_eq!(again.initial_state(), fa.initial_state());
}
