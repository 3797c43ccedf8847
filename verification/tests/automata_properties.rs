use mygrep::automata::{AutomataLabel, AutomataState};
use mygrep::dfa::{build_dfa, delta, empty_closure, DfaStateKey};
use mygrep::nfa::{build_nfa, is_compilable};
use mygrep::postfixer::{get_alphabet, transform};
use mygrep::regex::{OperatorType, RegexSymbol};

#[test]
fn given_a_symbol_when_asking_for_class_and_precedence_should_answer_per_the_table() {
    assert_eq!(RegexSymbol::from_char('?'), RegexSymbol::Optional);
    assert_eq!(RegexSymbol::from_char('('), RegexSymbol::Open);
    assert_eq!(RegexSymbol::from_char('x'), RegexSymbol::Char('x'));

    assert_eq!(RegexSymbol::Star.get_precedence(), 3);
    assert_eq!(RegexSymbol::Concat.get_precedence(), 2);
    assert_eq!(RegexSymbol::Alternation.get_precedence(), 1);
    assert_eq!(RegexSymbol::Open.get_precedence(), 0);

    assert_eq!(RegexSymbol::Plus.get_type(), OperatorType::Unary);
    assert_eq!(RegexSymbol::Concat.get_type(), OperatorType::Binary);
    assert_eq!(RegexSymbol::Char('a').get_type(), OperatorType::NonOperator);

    assert!(RegexSymbol::is_unary_operator('*'));
    assert!(RegexSymbol::is_binary_operator('|'));
    assert!(!RegexSymbol::is_operator('('));

    assert_eq!(RegexSymbol::get_escaped('n'), Ok(RegexSymbol::Char('\n')));
    assert_eq!(RegexSymbol::get_escaped('('), Ok(RegexSymbol::Char('(')));
    assert!(RegexSymbol::get_escaped('z').is_err());
}

#[test]
fn given_an_automata_label_when_built_empty_should_carry_no_character() {
    let empty = AutomataLabel::new(None, true);
    assert!(empty.is_empty());
    assert!(empty.get_label().is_err());

    let labeled = AutomataLabel::new(Some('a'), false);
    assert!(!labeled.is_empty());
    assert_eq!(labeled.get_label(), Ok('a'));
}

#[test]
fn given_a_built_nfa_exactly_one_state_should_accept_and_it_is_the_exit() {
    let postfix = transform("a(bb)+a".to_string()).unwrap();
    let (handle, nfa) = build_nfa(postfix);

    let mut accepting = 0;
    for n in 0..nfa.num_of_nodes() {
        if nfa.get_node_data(n).is_accepting() {
            accepting += 1;
            assert_eq!(n, handle.get_accept_state());
        }
    }
    assert_eq!(accepting, 1);
}

#[test]
fn given_a_built_nfa_every_non_accepting_state_should_have_an_outgoing_edge() {
    let postfix = transform("a*(b+|(a|b))?(c|d)".to_string()).unwrap();
    let (handle, nfa) = build_nfa(postfix);

    for n in 0..nfa.num_of_nodes() {
        if n != handle.get_accept_state() {
            let outgoing = nfa.outgoing_edges(n).unwrap();
            assert!(outgoing.len() >= 1);
        }
    }

    let state = AutomataState::new(false);
    assert!(!state.is_accepting());
}

#[test]
fn given_a_state_set_its_empty_closure_should_be_idempotent() {
    let postfix = transform("(a|b)*a".to_string()).unwrap();
    let (handle, nfa) = build_nfa(postfix);

    let seed = DfaStateKey::singleton(handle.get_start_state());
    let once = empty_closure(&nfa, &seed);
    let twice = empty_closure(&nfa, &once);
    assert!(once.same_key(&twice));

    let moved = delta(&nfa, &once, 'a');
    let closed = empty_closure(&nfa, &moved);
    let closed_again = empty_closure(&nfa, &closed);
    assert!(closed.same_key(&closed_again));
}

#[test]
fn given_a_built_dfa_no_state_should_carry_two_edges_with_one_label() {
    let postfix = transform("a*(b+|(a|b))?(c|d)".to_string()).unwrap();
    let alphabet = get_alphabet(&postfix);
    let (handle, nfa) = build_nfa(postfix);
    let (_start, dfa) = build_dfa(handle, nfa, alphabet);

    for n in 0..dfa.num_of_nodes() {
        let outgoing = dfa.outgoing_edges(n).unwrap();
        for x in 0..outgoing.len() {
            for y in (x + 1)..outgoing.len() {
                assert!(dfa.get_edge_data(outgoing[x]) != dfa.get_edge_data(outgoing[y]));
            }
        }
    }
}

#[test]
fn given_a_postfix_queue_compilability_should_track_fragment_arity() {
    assert!(is_compilable(&transform("a|b".to_string()).unwrap()));
    assert!(is_compilable(&transform("a(b|c)*d".to_string()).unwrap()));
    // an empty group passes the postfixer but leaves nothing to compile
    assert!(!is_compilable(&transform("()".to_string()).unwrap()));
    assert!(!is_compilable(&transform(String::new()).unwrap()));
}

#[test]
fn given_equivalent_constructions_dfa_and_nfa_should_agree_on_concrete_strings() {
    // the DFA built from "(a|b)*a" must accept exactly the strings of
    // a's and b's that end in an a, as the NFA does
    let postfix = transform("(a|b)*a".to_string()).unwrap();
    let alphabet = get_alphabet(&postfix);
    let (handle, nfa) = build_nfa(postfix);
    let (start, dfa) = build_dfa(handle, nfa, alphabet);

    // run_automata reports whether the rest state after the whole
    // suffix accepts; over the full string this is DFA acceptance
    assert!(mygrep::run_automata(start, &dfa, "a", false));
    assert!(mygrep::run_automata(start, &dfa, "ba", false));
    assert!(mygrep::run_automata(start, &dfa, "abba", false));
    assert!(!mygrep::run_automata(start, &dfa, "", false));
}
