use mygrep::search;

#[test]
fn given_basic_input_when_searching_in_case_sensitive_mode_should_return_answers_and_respect_case()
{
    let query = "duct";
    let contents = "\
Rust:
safe, fast, productive.
Pick three.
Duct tape.";

    assert_eq!(
        vec!["safe, fast, productive."],
        search(query, contents, false)
    );
}

#[test]
fn given_basic_input_when_searching_in_case_insensitive_mode_should_return_answers_and_not_respect_case(
) {
    let query = "rUsT";
    let contents = "\
Rust:
safe, fast, productive.
Pick three.
Trust me.";

    assert_eq!(vec!["Rust:", "Trust me."], search(query, contents, true));
}

#[test]
fn given_test_input_when_searching_with_alternation_operator_should_correctly_return_answers() {
    let query = "(safe)|(three)";
    let contents = "\
Rust:
safe, fast, productive.
Pick three.
Trust me.";

    assert_eq!(
        vec!["safe, fast, productive.", "Pick three."],
        search(query, contents, false)
    );
}

#[test]
fn given_test_input_when_searching_with_star_operator_should_correctly_return_answers() {
    let query = "thre*";
    let contents = "\
Rust:
safe, fast, productive.
Pick three.
Trust me.";

    assert_eq!(vec!["Pick three."], search(query, contents, false));
}

#[test]
fn given_test_input_when_searching_with_plus_operator_should_correctly_return_answers() {
    let query = ",+";
    let contents = "\
Rust:
safe, fast, productive.
Pick three,
Trust me.";

    assert_eq!(
        vec!["safe, fast, productive.", "Pick three,"],
        search(query, contents, false)
    );
}

#[test]
fn given_test_input_when_searching_with_optional_operator_should_correctly_return_answers() {
    let query = "e,?";
    let contents = "\
Rust:
safe, fast, productive.
Pick three,
Trust me.";

    assert_eq!(
        vec!["safe, fast, productive.", "Pick three,", "Trust me."],
        search(query, contents, false)
    );
}

#[test]
fn given_empty_contents_when_searching_should_return_no_lines() {
    let results = search("a", "", false);
    assert!(results.is_empty());
}

#[test]
fn given_contents_with_carriage_returns_when_searching_should_strip_them_from_line_ends() {
    let results = search("b", "ab\r\nbc\r\ncd", false);
    assert_eq!(vec!["ab", "bc"], results);
}

#[test]
fn given_a_single_character_query_when_searching_case_insensitively_should_fold_both_sides() {
    let results = search("A", "a\nb\nA", true);
    assert_eq!(vec!["a", "A"], results);
}

#[test]
fn given_an_escaped_metacharacter_query_when_searching_should_match_it_literally() {
    let results = search(r"a\*", "a*b\naxb", false);
    assert_eq!(vec!["a*b"], results);
}

#[test]
fn given_a_nested_grouped_query_when_searching_should_match_per_the_grouping() {
    let results = search("a(b|c)*d", "abcbcd\nad\nabc\nacccd", false);
    assert_eq!(vec!["abcbcd", "ad", "acccd"], results);
}
