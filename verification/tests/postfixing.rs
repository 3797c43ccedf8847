use mygrep::postfixer::transform;
use mygrep::regex::{RegexError, RegexSymbol};

fn rendered(symbols: &[RegexSymbol]) -> String {
    symbols.iter().map(|x| x.to_text()).collect()
}

#[test]
fn given_valid_basic_examples_when_formatting_it_should_correctly_do_so() {
    let examples = ["aaron", "(a)(a)", "(aa)"];
    let answers = ["a.a.r.o.n", "(a).(a)", "(a.a)"];

    for i in 0..examples.len() {
        let result: String = rendered(&mygrep::postfixer::format(examples[i].to_string()).unwrap());

        let answer = answers[i];

        assert_eq!(result, answer);
    }
}

#[test]
fn given_valid_basic_examples_with_escaped_characters_when_formatting_it_should_correctly_do_so() {
    let examples = [r"\*a\ro\+", r"(\r)(\n)", r"(\r\n)", r"\\"];
    let answers = ["*.a.\r.o.+", "(\r).(\n)", "(\r.\n)", "\\"];

    for i in 0..examples.len() {
        let result: String = rendered(&mygrep::postfixer::format(examples[i].to_string()).unwrap());

        let answer = answers[i];

        assert_eq!(result, answer);
    }
}

#[test]
fn given_valid_examples_with_unary_operators_when_formatting_it_should_correctly_do_so() {
    let examples = ["aa*", "a*a", "a*a*", "(a)*a", "a*(a)"];
    let answers = ["a.a*", "a*.a", "a*.a*", "(a)*.a", "a*.(a)"];

    for i in 0..examples.len() {
        let result: String = rendered(&mygrep::postfixer::format(examples[i].to_string()).unwrap());

        let answer = answers[i];

        assert_eq!(result, answer);
    }
}

#[test]
fn given_xamples_when_formatting_it_should_not_concatenate_operators_together() {
    let examples = ["(a)", "a|a", "a*", "((a))"];
    let answers = ["(a)", "a|a", "a*", "((a))"];

    for i in 0..examples.len() {
        let result: String = rendered(&mygrep::postfixer::format(examples[i].to_string()).unwrap());

        let answer = answers[i];

        assert_eq!(result, answer);
    }
}

#[test]
fn given_random_examples_with_invalid_escape_sequences_when_formatting_it_should_not_accept() {
    let examples = [r"\p", r"\q", r"\c", r"\\\", r"ab\"];

    for example in examples {
        let result = mygrep::postfixer::format(example.to_string());

        assert!(result.is_err());
    }
}

#[test]
fn given_valid_complicated_examples_when_formatting_it_should_correctly_do_so() {
    let examples = ["a?a?a?aaa", "a(bb)+a", "ab|bc"];
    let answers = ["a?.a?.a?.a.a.a", "a.(b.b)+.a", "a.b|b.c"];

    for i in 0..examples.len() {
        let result: String = rendered(&mygrep::postfixer::format(examples[i].to_string()).unwrap());

        let answer = answers[i];

        assert_eq!(result, answer);
    }
}

#[test]
fn given_valid_complicated_examples_with_escaped_characters_when_formatting_it_should_correctly_do_so(
) {
    let examples = [
        r"a\na", r"a\(a", r"a\)a", r"a\|a", r"a\(a\)a", r"\n\n", r"\\\n", r"\\\\",
    ];
    let answers = [
        "a.\n.a",
        "a.(.a",
        "a.).a",
        "a.|.a",
        "a.(.a.).a",
        "\n.\n",
        "\\.\n",
        "\\.\\",
    ];

    for i in 0..examples.len() {
        let result: String = rendered(&mygrep::postfixer::format(examples[i].to_string()).unwrap());

        let answer = answers[i];

        assert_eq!(result, answer);
    }
}

#[test]
fn given_valid_complicated_examples_when_transforming_it_should_correctly_output_postfix() {
    let examples = [
        "a",
        "a(bb)+a",
        "abcdefg",
        "(a|b)*a",
        "a(b|c)*d",
        "a*(b+|(a|b))?(c|d)",
    ];
    let answers = [
        "a",
        "abb.+.a.",
        "ab.c.d.e.f.g.",
        "ab|*a.",
        "abc|*.d.",
        "a*b+ab||?.cd|.",
    ];

    for i in 0..examples.len() {
        let queue = transform(examples[i].to_string()).unwrap();
        let result: String = queue.iter().map(|x| x.to_text()).collect();

        let answer = answers[i];

        assert_eq!(result, answer);
    }
}

#[test]
fn given_valid_complicated_examples_with_escaped_characters_when_transforming_it_should_correctly_output_postfix(
) {
    let examples = [
        r"\n",
        r"\((b\n)+a",
        r"ab\*\)efg",
        r"(\\|\?)*a",
        r"\t(a|\t)*\t",
        r"a*(b+|(\)|\())?(\n|d)",
    ];
    let answers = [
        "\n",
        "(b\n.+.a.",
        "ab.*.).e.f.g.",
        "\\?|*a.",
        "\ta\t|*.\t.",
        "a*b+)(||?.\nd|.",
    ];

    for i in 0..examples.len() {
        let queue = transform(examples[i].to_string()).unwrap();
        let result: String = queue.iter().map(|x| x.to_text()).collect();

        let answer = answers[i];

        assert_eq!(result, answer);
    }
}

#[test]
fn given_invalid_examples_when_transforming_it_should_reject_them() {
    let examples = ["*a", "|a", "(a))", "((a)", "a|", "a||a", "a**a"];

    for example in examples {
        let result = transform(example.to_string());

        assert!(result.is_err());
    }
}

#[test]
fn given_invalid_examples_when_transforming_the_reported_error_should_name_the_fault() {
    assert!(matches!(
        transform("*a".to_string()),
        Err(RegexError::InvalidPatternStart)
    ));
    assert!(matches!(
        transform("a|".to_string()),
        Err(RegexError::InvalidPatternEnd)
    ));
    assert!(matches!(
        transform("ab||a".to_string()),
        Err(RegexError::IllegalOperatorSequence('|', '|', 2))
    ));
    assert!(matches!(
        transform(r"a\qb".to_string()),
        Err(RegexError::InvalidEscape('q'))
    ));
    assert!(matches!(
        transform(r"ab\".to_string()),
        Err(RegexError::TrailingBackslash)
    ));
    assert!(matches!(
        transform("(a))".to_string()),
        Err(RegexError::UnbalancedParens)
    ));
    assert!(matches!(
        transform("((a)".to_string()),
        Err(RegexError::UnbalancedParens)
    ));
}

#[test]
fn given_a_valid_pattern_the_postfix_output_should_hold_no_parentheses() {
    let examples = ["((a))", "(a|b)*a", "a*(b+|(a|b))?(c|d)", r"a\(b\)c"];

    for example in examples {
        let queue = transform(example.to_string()).unwrap();
        for symbol in queue.iter() {
            assert!(!matches!(symbol, RegexSymbol::Open));
            assert!(!matches!(symbol, RegexSymbol::Close));
        }
    }
}

#[test]
fn given_an_empty_pattern_transforming_should_yield_an_empty_queue() {
    let queue = transform(String::new()).unwrap();
    assert!(queue.is_empty());
}

#[test]
fn given_a_formatted_pattern_the_stream_should_hold_the_expected_symbols() {
    let formatted = mygrep::postfixer::format("ab".to_string()).unwrap();
    assert_eq!(
        formatted,
        vec![
            RegexSymbol::Char('a'),
            RegexSymbol::Concat,
            RegexSymbol::Char('b')
        ]
    );
}
