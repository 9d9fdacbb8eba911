use regexgen::{CharClass, Factory, MultiCartesianProduct, ScalarRange, SyntaxNode};

fn class(start: char, end: char) -> SyntaxNode {
    SyntaxNode::Class(CharClass::Unicode(vec![ScalarRange { start, end }]))
}

fn unlimited(node: &SyntaxNode) -> Factory<'_> {
    Factory { node, max_length: None }
}

fn tuples(factories: Vec<Factory<'_>>) -> Vec<Vec<String>> {
    let mut out = Vec::new();
    let mut product = MultiCartesianProduct::new(factories);
    while let Some(tuple) = product.next() {
        out.push(tuple.iter().map(|c| String::from_utf8_lossy(c).into_owned()).collect());
    }
    out
}

#[test]
fn test_cartesian() {
    let first = class('a', 'b');
    let second = class('f', 'g');
    let third = class('y', 'z');
    let mut product = MultiCartesianProduct::new(vec![
        unlimited(&first),
        unlimited(&second),
        unlimited(&third),
    ]);
    while let Some(item) = product.next() {
        println!("{:?}", item);
    }
}

#[test]
fn test_cartesian_2() {
    let first = class('a', 'c');
    let second = class('f', 'h');
    let mut product = MultiCartesianProduct::new(vec![unlimited(&first), unlimited(&second)]);
    while let Some(item) = product.next() {
        println!("{:?}", item);
    }
}

#[test]
fn three_dimensions_count_with_the_first_fastest() {
    let first = class('a', 'b');
    let second = class('f', 'g');
    let third = class('y', 'z');
    assert_eq!(
        tuples(vec![unlimited(&first), unlimited(&second), unlimited(&third)]),
        vec![
            vec!["a", "f", "y"],
            vec!["b", "f", "y"],
            vec!["a", "g", "y"],
            vec!["b", "g", "y"],
            vec!["a", "f", "z"],
            vec!["b", "f", "z"],
            vec!["a", "g", "z"],
            vec!["b", "g", "z"],
        ]
    );
}

#[test]
fn two_dimensions_of_three() {
    let first = class('a', 'c');
    let second = class('f', 'h');
    assert_eq!(
        tuples(vec![unlimited(&first), unlimited(&second)]),
        vec![
            vec!["a", "f"],
            vec!["b", "f"],
            vec!["c", "f"],
            vec!["a", "g"],
            vec!["b", "g"],
            vec!["c", "g"],
            vec!["a", "h"],
            vec!["b", "h"],
            vec!["c", "h"],
        ]
    );
}

#[test]
fn no_dimension_gives_the_empty_tuple_once() {
    let mut product = MultiCartesianProduct::new(Vec::new());
    assert_eq!(product.next(), Some(Vec::new()));
    assert_eq!(product.next(), None);
    assert_eq!(product.next(), None);
}

#[test]
fn one_dimension_gives_its_sequence() {
    let only = class('p', 'r');
    assert_eq!(tuples(vec![unlimited(&only)]), vec![vec!["p"], vec!["q"], vec!["r"]]);
}

#[test]
fn an_empty_dimension_leaves_nothing() {
    let first = class('a', 'b');
    let nothing = SyntaxNode::Class(CharClass::Unicode(Vec::new()));
    let third = class('y', 'z');
    assert_eq!(
        tuples(vec![unlimited(&first), unlimited(&nothing), unlimited(&third)]),
        Vec::<Vec<String>>::new()
    );
    assert_eq!(tuples(vec![unlimited(&nothing)]), Vec::<Vec<String>>::new());
}

#[test]
fn an_exhausted_product_stays_exhausted() {
    let only = class('a', 'a');
    let mut product = MultiCartesianProduct::new(vec![unlimited(&only), unlimited(&only)]);
    assert_eq!(product.next(), Some(vec![b"a".to_vec(), b"a".to_vec()]));
    assert_eq!(product.next(), None);
    assert_eq!(product.next(), None);
}

#[test]
fn a_dimension_under_a_limit_holds_what_fits() {
    let word = SyntaxNode::Alternation(vec![
        SyntaxNode::Literal(b"long".to_vec()),
        SyntaxNode::Literal(b"s".to_vec()),
    ]);
    let letter = class('x', 'y');
    assert_eq!(
        tuples(vec![Factory { node: &word, max_length: Some(1) }, unlimited(&letter)]),
        vec![vec!["s", "x"], vec!["s", "y"]]
    );
}

#[test]
fn a_factory_makes_the_same_sequence_again() {
    let node = class('a', 'c');
    let factory = unlimited(&node);
    let mut first = factory.make();
    let mut second = factory.make();
    assert_eq!(first.next(), Some(b"a".to_vec()));
    assert_eq!(first.next(), Some(b"b".to_vec()));
    assert_eq!(second.next(), Some(b"a".to_vec()));
    assert_eq!(second.next(), Some(b"b".to_vec()));
    assert_eq!(second.next(), Some(b"c".to_vec()));
    assert_eq!(first.next(), Some(b"c".to_vec()));
    assert_eq!(first.next(), None);
    assert_eq!(second.next(), None);
}
