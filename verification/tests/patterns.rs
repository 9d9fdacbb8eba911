use regexgen::{
    enumerate, iterate_all, lower, parse, ByteRange, CharClass, ConfigError, ParseError,
    ScalarRange, SyntaxNode,
};

fn text(pattern: &str, max_length: Option<usize>) -> Vec<String> {
    let node = parse(pattern).unwrap();
    let mut out = Vec::new();
    let mut candidates = iterate_all(&node, max_length);
    while let Some(candidate) = candidates.next() {
        out.push(String::from_utf8_lossy(&candidate).into_owned());
    }
    out
}

fn literal(word: &str) -> SyntaxNode {
    SyntaxNode::Literal(word.as_bytes().to_vec())
}

#[test]
fn test_unbounded() {
    let hir = parse("a*b*").unwrap();
    let mut patterns: Vec<String> = Vec::new();
    let mut candidates = iterate_all(&hir, Some(5));
    while let Some(s) = candidates.next() {
        patterns.push(String::from_utf8_lossy(&s).into_owned());
    }
    assert_eq!(
        patterns,
        [
            "", "a", "aa", "aaa", "aaaa", "aaaaa", "b", "ab", "aab", "aaab", "aaaab", "bb", "abb",
            "aabb", "aaabb", "bbb", "abbb", "aabbb", "bbbb", "abbbb", "bbbbb"
        ]
        .into_iter()
        .map(String::from)
        .collect::<Vec<_>>()
    )
}

#[test]
fn pattern_class() {
    assert_eq!(text("[ab]", None), vec!["a", "b"]);
}

#[test]
fn pattern_group_of_alternation() {
    assert_eq!(text("(ab|cd)", None), vec!["ab", "cd"]);
}

#[test]
fn pattern_counted_repetition() {
    assert_eq!(text("a{2,3}", None), vec!["aa", "aaa"]);
}

#[test]
fn pattern_plus_without_limits_is_refused() {
    let node = parse("a+").unwrap();
    match enumerate(&node, None, None) {
        Err(error) => assert_eq!(error, ConfigError::Unlimited),
        Ok(_) => panic!("the enumeration was started"),
    }
}

#[test]
fn pattern_with_anchors() {
    assert_eq!(text("^ab?$", None), vec!["a", "ab"]);
}

#[test]
fn pattern_with_digits() {
    assert_eq!(text("[0-2]x", None), vec!["0x", "1x", "2x"]);
    assert_eq!(text("[0-1]{2}", None), vec!["00", "10", "01", "11"]);
}

#[test]
fn a_literal_is_parsed_into_its_bytes() {
    assert_eq!(parse("abc").unwrap(), literal("abc"));
    assert_eq!(parse("é").unwrap(), SyntaxNode::Literal(vec![0xC3, 0xA9]));
}

#[test]
fn the_empty_pattern_is_the_empty_node() {
    assert_eq!(parse("").unwrap(), SyntaxNode::Empty);
}

#[test]
fn an_assertion_is_parsed_into_a_lookaround() {
    assert_eq!(parse("^").unwrap(), SyntaxNode::Lookaround);
    assert_eq!(parse(r"\b").unwrap(), SyntaxNode::Lookaround);
}

#[test]
fn a_class_is_parsed_into_its_ranges() {
    assert_eq!(
        parse("[a-cx]").unwrap(),
        SyntaxNode::Class(CharClass::Unicode(vec![
            ScalarRange { start: 'a', end: 'c' },
            ScalarRange { start: 'x', end: 'x' },
        ]))
    );
    assert_eq!(
        parse("(?-u:[a-cx])").unwrap(),
        SyntaxNode::Class(CharClass::Bytes(vec![
            ByteRange { start: b'a', end: b'c' },
            ByteRange { start: b'x', end: b'x' },
        ]))
    );
}

#[test]
fn a_repetition_is_parsed_with_its_bounds() {
    assert_eq!(
        parse("a{2,5}").unwrap(),
        SyntaxNode::Repetition { sub: Box::new(literal("a")), min: 2, max: Some(5) }
    );
    assert_eq!(
        parse("a*").unwrap(),
        SyntaxNode::Repetition { sub: Box::new(literal("a")), min: 0, max: None }
    );
    assert_eq!(
        parse("a+").unwrap(),
        SyntaxNode::Repetition { sub: Box::new(literal("a")), min: 1, max: None }
    );
    assert_eq!(
        parse("a?").unwrap(),
        SyntaxNode::Repetition { sub: Box::new(literal("a")), min: 0, max: Some(1) }
    );
}

#[test]
fn groups_concatenations_and_alternations_are_parsed_in_order() {
    assert_eq!(
        parse("(ab|cd)").unwrap(),
        SyntaxNode::Group(Box::new(SyntaxNode::Alternation(vec![literal("ab"), literal("cd")])))
    );
    assert_eq!(
        parse("a*b*").unwrap(),
        SyntaxNode::Concat(vec![
            SyntaxNode::Repetition { sub: Box::new(literal("a")), min: 0, max: None },
            SyntaxNode::Repetition { sub: Box::new(literal("b")), min: 0, max: None },
        ])
    );
}

#[test]
fn a_broken_pattern_is_refused() {
    assert!(matches!(parse("(ab"), Err(ParseError::Syntax(_))));
    assert!(matches!(parse("a{2,1}"), Err(ParseError::Syntax(_))));
    assert!(matches!(parse("[z-a]"), Err(ParseError::Syntax(_))));
}

#[test]
fn the_same_pattern_parses_into_the_same_tree() {
    assert_eq!(parse("(a|bc)*[x-z]{2}$").unwrap(), parse("(a|bc)*[x-z]{2}$").unwrap());
}

#[test]
fn a_parsed_expression_is_lowered_node_by_node() {
    let hir = regex_syntax::Parser::new().parse("x(a|bc)*[0-9]").unwrap();
    assert_eq!(
        lower(&hir),
        SyntaxNode::Concat(vec![
            literal("x"),
            SyntaxNode::Repetition {
                sub: Box::new(SyntaxNode::Group(Box::new(SyntaxNode::Alternation(vec![
                    literal("a"),
                    literal("bc"),
                ])))),
                min: 0,
                max: None,
            },
            SyntaxNode::Class(CharClass::Unicode(vec![ScalarRange { start: '0', end: '9' }])),
        ])
    );
}

#[test]
fn unbounded_patterns_are_told_apart() {
    assert!(regexgen::is_unbounded(&parse("a*b").unwrap()));
    assert!(regexgen::is_unbounded(&parse("(a+){2}").unwrap()));
    assert!(regexgen::is_unbounded(&parse("x|y{3,}").unwrap()));
    assert!(!regexgen::is_unbounded(&parse("(a{1,3}|b)c?").unwrap()));
}
