use std::rc::Rc;

use combinator::CombinatorParser;
use combinator::ParseResult;
use combinator::Parser;
use combinator::ParserError;

fn chars(s: &str) -> Vec<char> {
    s.chars().collect()
}

fn err_fields<C>(e: ParserError<C>) -> (Option<C>, Option<C>) {
    match e {
        ParserError::ParseError { expects, found } => (expects, found),
    }
}

#[test]
fn simple_parse() {
    let one = CombinatorParser::Sequence(vec![
        Rc::new(CombinatorParser::new_from_str("(")),
        Rc::new(
            CombinatorParser::new_from_str("0").or_longest(CombinatorParser::new_from_str("1")),
        ),
        Rc::new(CombinatorParser::new_from_str(")")),
    ]);

    let s = chars("(0)");
    let result: Result<(_, ParseResult<String>), _> = one.parse_text(s.as_slice());
    assert!(result.is_ok());
    println!("{:?}", result);

    let s = chars("(1)");
    let result: Result<(_, ParseResult<String>), _> = one.parse_text(s.as_slice());
    assert!(result.is_ok());
    println!("{:?}", result);

    let s = chars("(2)");
    let result: Result<(_, ParseResult<String>), _> = one.parse_text(s.as_slice());
    assert!(result.is_err());
    println!("{:?}", result);
}

#[test]
fn elemental_bracket_scenarios() {
    let tree = CombinatorParser::Sequence(vec![
        Rc::new(CombinatorParser::new_from('(')),
        Rc::new(CombinatorParser::new_from('0').or_longest(CombinatorParser::new_from('1'))),
        Rc::new(CombinatorParser::new_from(')')),
    ]);

    let input = chars("(0)");
    let (rem, res) = tree.parse(input.as_slice()).expect("(0) must match");
    assert_eq!(rem.len(), 0);
    assert_eq!(res.len(), 3);
    assert_eq!(res.flatten(), vec!['(', '0', ')']);

    let input = chars("(1)");
    let (rem, res) = tree.parse(input.as_slice()).expect("(1) must match");
    assert_eq!(rem.len(), 0);
    assert_eq!(res.flatten(), vec!['(', '1', ')']);

    let input = chars("(2)");
    let e = tree.parse(input.as_slice()).expect_err("(2) must fail");
    let (expects, found) = err_fields(e);
    assert_eq!(expects, Some('0'));
    assert_eq!(found, Some('2'));
}

#[test]
fn empty_sequence_succeeds_on_any_input() {
    let tree = CombinatorParser::<char>::Sequence(vec![]);
    let input = chars("xyz");
    let (rem, res) = tree.parse(input.as_slice()).expect("empty Seq always matches");
    assert_eq!(rem, input.as_slice());
    assert_eq!(res.len(), 0);
    assert!(matches!(res, ParseResult::Sequence(v) if v.is_empty()));

    let empty: Vec<char> = vec![];
    let (rem, res) = tree.parse(empty.as_slice()).expect("empty Seq matches empty input");
    assert_eq!(rem.len(), 0);
    assert_eq!(res.len(), 0);
}

#[test]
fn one_on_empty_input_reports_end_of_input() {
    let tree = CombinatorParser::new_from('a');
    let empty: Vec<char> = vec![];
    let e = tree.parse(empty.as_slice()).expect_err("no input to match");
    let (expects, found) = err_fields(e);
    assert_eq!(expects, Some('a'));
    assert_eq!(found, None);
}

#[test]
fn alt_returns_longest_match() {
    let tree = CombinatorParser::Alt(vec![
        Rc::new(CombinatorParser::new_from('a')),
        Rc::new(CombinatorParser::Sequence(vec![
            Rc::new(CombinatorParser::new_from('a')),
            Rc::new(CombinatorParser::new_from('b')),
        ])),
    ]);
    let input = chars("ab");
    let (rem, res) = tree.parse(input.as_slice()).expect("both match, longest wins");
    assert_eq!(rem.len(), 0);
    assert_eq!(res.len(), 2);
    assert_eq!(res.flatten(), vec!['a', 'b']);
}

#[test]
fn alt_prefers_earlier_on_equal_length() {
    let tree = CombinatorParser::Alt(vec![
        Rc::new(CombinatorParser::Sequence(vec![Rc::new(CombinatorParser::new_from('a'))])),
        Rc::new(CombinatorParser::new_from('a')),
    ]);
    let input = chars("a");
    let (rem, res) = tree.parse(input.as_slice()).expect("both match");
    assert_eq!(rem.len(), 0);
    assert!(matches!(res, ParseResult::Sequence(_)), "the earlier alternative must win the tie");
}

#[test]
fn alt_failure_keeps_first_error() {
    let tree = CombinatorParser::Alt(vec![
        Rc::new(CombinatorParser::new_from('x')),
        Rc::new(CombinatorParser::new_from('y')),
    ]);
    let input = chars("z");
    let e = tree.parse(input.as_slice()).expect_err("neither matches");
    let (expects, found) = err_fields(e);
    assert_eq!(expects, Some('x'));
    assert_eq!(found, Some('z'));
}

#[test]
fn empty_alternation_cannot_name_expectation() {
    let tree = CombinatorParser::<char>::Alt(vec![]);
    let input = chars("q");
    let (expects, found) = err_fields(tree.parse(input.as_slice()).expect_err("no alternative"));
    assert_eq!(expects, None);
    assert_eq!(found, Some('q'));

    let empty: Vec<char> = vec![];
    let (expects, found) = err_fields(tree.parse(empty.as_slice()).expect_err("no alternative"));
    assert_eq!(expects, None);
    assert_eq!(found, None);
}

#[test]
fn any_returns_first_match() {
    let tree = CombinatorParser::Any(vec![
        Rc::new(CombinatorParser::new_from('a')),
        Rc::new(CombinatorParser::Sequence(vec![
            Rc::new(CombinatorParser::new_from('a')),
            Rc::new(CombinatorParser::new_from('b')),
        ])),
    ]);
    let input = chars("ab");
    let (rem, res) = tree.parse(input.as_slice()).expect("first matches");
    assert_eq!(rem, &input.as_slice()[1..]);
    assert_eq!(res.flatten(), vec!['a']);

    let tree = CombinatorParser::Any(vec![
        Rc::new(CombinatorParser::new_from('x')),
        Rc::new(CombinatorParser::new_from('a')),
    ]);
    let (rem, res) = tree.parse(input.as_slice()).expect("second matches");
    assert_eq!(rem.len(), 1);
    assert_eq!(res.flatten(), vec!['a']);
}

#[test]
fn any_failure_keeps_first_error() {
    let tree = CombinatorParser::Any(vec![
        Rc::new(CombinatorParser::new_from('x')),
        Rc::new(CombinatorParser::new_from('y')),
    ]);
    let input = chars("z");
    let (expects, found) = err_fields(tree.parse(input.as_slice()).expect_err("neither matches"));
    assert_eq!(expects, Some('x'));
    assert_eq!(found, Some('z'));
}

#[test]
fn composite_token_round_trip() {
    let tree = CombinatorParser::new_from_vec(vec![1u8, 2, 3]);
    let input: Vec<u8> = vec![1, 2, 3, 4];
    let (rem, res) = tree.parse_composite(input.as_slice()).expect("prefix matches");
    assert_eq!(rem, &[4u8][..]);
    assert!(matches!(res, ParseResult::One(v) if v == vec![1u8, 2, 3]));

    let input: Vec<u8> = vec![1, 9, 3];
    let e = tree.parse_composite(input.as_slice()).expect_err("mismatch at position 1");
    let (expects, found) = err_fields(e);
    assert_eq!(expects, Some(vec![1u8, 2, 3]));
    assert_eq!(found, Some(vec![1u8, 9]));

    let input: Vec<u8> = vec![1, 2];
    let e = tree.parse_composite(input.as_slice()).expect_err("input exhausted");
    let (expects, found) = err_fields(e);
    assert_eq!(expects, Some(vec![1u8, 2, 3]));
    assert_eq!(found, None);
}

#[test]
fn text_results_collect_into_strings() {
    let tree = CombinatorParser::new_from_str("if");
    let input = chars("ifx");
    let (rem, res) = tree.parse_text(input.as_slice()).expect("literal matches");
    assert_eq!(rem, &input.as_slice()[2..]);
    assert!(matches!(res, ParseResult::One(s) if s == "if"));

    let input = chars("ix");
    let e = tree.parse_text(input.as_slice()).expect_err("mismatch at position 1");
    let (expects, found) = err_fields(e);
    assert_eq!(expects, Some(String::from("if")));
    assert_eq!(found, Some(String::from("ix")));
}

#[test]
fn flatten_len_and_map_agree() {
    let tree: ParseResult<u8> = ParseResult::Sequence(vec![
        ParseResult::One(1),
        ParseResult::Sequence(vec![ParseResult::One(2), ParseResult::One(3)]),
        ParseResult::Sequence(vec![]),
    ]);
    assert_eq!(tree.len(), 3);
    let mapped = tree.map(|c: &u8| c + 10);
    assert_eq!(mapped.len(), 3);
    let flat = tree.flatten();
    assert_eq!(flat, vec![1u8, 2, 3]);
    let mapped_flat = mapped.flatten();
    let flat_then_mapped: Vec<u8> = vec![1u8, 2, 3].into_iter().map(|c| c + 10).collect();
    assert_eq!(mapped_flat, flat_then_mapped);
}

#[test]
fn result_converts_to_composite_unit() {
    let tree: ParseResult<char> =
        ParseResult::Sequence(vec![ParseResult::One('a'), ParseResult::One('b')]);
    let unit = tree.to_composite();
    assert!(matches!(unit, ParseResult::One(v) if v == vec!['a', 'b']));
}

#[test]
fn error_map_retypes_both_fields() {
    let e: ParserError<char> =
        ParserError::ParseError { expects: Some('a'), found: Some('b') };
    let (expects, found) = err_fields(e.map(|c: char| c as u32));
    assert_eq!(expects, Some(97));
    assert_eq!(found, Some(98));

    let e: ParserError<char> = ParserError::ParseError { expects: Some('a'), found: None };
    let (expects, found) = err_fields(e.map(|c: char| c as u32));
    assert_eq!(expects, Some(97));
    assert_eq!(found, None);
}

#[test]
fn parser_trait_exposes_parse() {
    let tree = CombinatorParser::new_from('a');
    let input = chars("ab");
    let result = Parser::parse(&tree, input.as_slice());
    let (rem, res) = result.expect("head matches");
    assert_eq!(rem.len(), 1);
    assert_eq!(res.flatten(), vec!['a']);
}
