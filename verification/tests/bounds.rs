use regexgen::bounds::{minimum_length, scalar_width};
use regexgen::encode::encode;
use regexgen::{ByteRange, CharClass, ScalarRange, SyntaxNode};

fn literal(word: &str) -> SyntaxNode {
    SyntaxNode::Literal(word.as_bytes().to_vec())
}

fn repeat(sub: SyntaxNode, min: u32, max: Option<u32>) -> SyntaxNode {
    SyntaxNode::Repetition { sub: Box::new(sub), min, max }
}

fn class(start: char, end: char) -> SyntaxNode {
    SyntaxNode::Class(CharClass::Unicode(vec![ScalarRange { start, end }]))
}

#[test]
fn the_least_length_of_leaves() {
    assert_eq!(minimum_length(&SyntaxNode::Empty), 0);
    assert_eq!(minimum_length(&SyntaxNode::Lookaround), 0);
    assert_eq!(minimum_length(&literal("abc")), 3);
    assert_eq!(minimum_length(&literal("")), 0);
}

#[test]
fn the_least_length_of_a_class_is_its_least_width() {
    assert_eq!(minimum_length(&class('a', '€')), 1);
    assert_eq!(minimum_length(&class('é', '€')), 2);
    assert_eq!(minimum_length(&class('€', '😀')), 3);
    assert_eq!(minimum_length(&class('😀', '😀')), 4);
    let node = SyntaxNode::Class(CharClass::Unicode(vec![
        ScalarRange { start: '😀', end: '😀' },
        ScalarRange { start: 'é', end: 'é' },
        ScalarRange { start: '€', end: '€' },
    ]));
    assert_eq!(minimum_length(&node), 2);
    assert_eq!(minimum_length(&SyntaxNode::Class(CharClass::Unicode(Vec::new()))), 4);
    assert_eq!(
        minimum_length(&SyntaxNode::Class(CharClass::Bytes(vec![ByteRange { start: 1, end: 2 }]))),
        1
    );
}

#[test]
fn the_least_length_of_a_repetition_multiplies() {
    assert_eq!(minimum_length(&repeat(literal("ab"), 3, None)), 6);
    assert_eq!(minimum_length(&repeat(literal("ab"), 0, Some(9))), 0);
    assert_eq!(minimum_length(&repeat(literal(""), 9, Some(9))), 0);
}

#[test]
fn the_least_length_of_a_concatenation_adds() {
    let node = SyntaxNode::Concat(vec![literal("ab"), class('é', 'é'), repeat(literal("x"), 2, None)]);
    assert_eq!(minimum_length(&node), 6);
    assert_eq!(minimum_length(&SyntaxNode::Concat(Vec::new())), 0);
}

#[test]
fn the_least_length_of_an_alternation_is_the_least() {
    let node = SyntaxNode::Alternation(vec![literal("abc"), literal("de"), literal("fghi")]);
    assert_eq!(minimum_length(&node), 2);
    assert_eq!(minimum_length(&SyntaxNode::Alternation(vec![literal("abc")])), 3);
    assert_eq!(minimum_length(&SyntaxNode::Alternation(Vec::new())), 0);
    assert_eq!(minimum_length(&SyntaxNode::Group(Box::new(node))), 2);
}

#[test]
fn the_least_length_stops_at_the_largest_usize() {
    let mut node = literal("ab");
    for _ in 0..3 {
        node = repeat(node, u32::MAX, None);
    }
    assert_eq!(minimum_length(&node), usize::MAX);
    let sum = SyntaxNode::Concat(vec![
        repeat(repeat(repeat(literal("a"), u32::MAX, None), u32::MAX, None), u32::MAX, None),
        literal("b"),
    ]);
    assert_eq!(minimum_length(&sum), usize::MAX);
}

#[test]
fn the_width_of_scalar_values() {
    assert_eq!(scalar_width(0), 1);
    assert_eq!(scalar_width(0x7F), 1);
    assert_eq!(scalar_width(0x80), 2);
    assert_eq!(scalar_width(0x7FF), 2);
    assert_eq!(scalar_width(0x800), 3);
    assert_eq!(scalar_width(0xFFFF), 3);
    assert_eq!(scalar_width(0x10000), 4);
    assert_eq!(scalar_width(0x10FFFF), 4);
}

#[test]
fn the_encoding_of_scalar_values() {
    assert_eq!(encode(0x41), vec![0x41]);
    assert_eq!(encode(0xE9), vec![0xC3, 0xA9]);
    assert_eq!(encode(0x20AC), vec![0xE2, 0x82, 0xAC]);
    assert_eq!(encode(0x1F600), vec![0xF0, 0x9F, 0x98, 0x80]);
}

#[test]
fn the_encoding_agrees_with_the_standard_library() {
    for value in [0u32, 0x7F, 0x80, 0x7FF, 0x800, 0xD7FF, 0xE000, 0xFFFF, 0x10000, 0x10FFFF] {
        let c = char::from_u32(value).unwrap();
        let mut buffer = [0u8; 4];
        assert_eq!(encode(value), c.encode_utf8(&mut buffer).as_bytes().to_vec());
        assert_eq!(scalar_width(value), c.len_utf8());
    }
}
