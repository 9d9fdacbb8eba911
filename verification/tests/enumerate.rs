use regexgen::{iterate_all, ByteRange, CharClass, ScalarRange, SyntaxNode};

fn all(node: &SyntaxNode, max_length: Option<usize>) -> Vec<Vec<u8>> {
    let mut out = Vec::new();
    let mut candidates = iterate_all(node, max_length);
    while let Some(candidate) = candidates.next() {
        out.push(candidate);
    }
    out
}

fn first(node: &SyntaxNode, max_length: Option<usize>, count: usize) -> Vec<String> {
    let mut out = Vec::new();
    let mut candidates = iterate_all(node, max_length);
    while out.len() < count {
        match candidates.next() {
            Some(candidate) => out.push(String::from_utf8_lossy(&candidate).into_owned()),
            None => break,
        }
    }
    out
}

fn text(node: &SyntaxNode, max_length: Option<usize>) -> Vec<String> {
    all(node, max_length).iter().map(|c| String::from_utf8_lossy(c).into_owned()).collect()
}

fn literal(word: &str) -> SyntaxNode {
    SyntaxNode::Literal(word.as_bytes().to_vec())
}

fn class(start: char, end: char) -> SyntaxNode {
    SyntaxNode::Class(CharClass::Unicode(vec![ScalarRange { start, end }]))
}

fn repeat(sub: SyntaxNode, min: u32, max: Option<u32>) -> SyntaxNode {
    SyntaxNode::Repetition { sub: Box::new(sub), min, max }
}

fn none() -> Vec<String> {
    Vec::new()
}

#[test]
fn a_literal_yields_its_bytes_once() {
    assert_eq!(all(&literal("abc"), None), vec![b"abc".to_vec()]);
    assert_eq!(all(&SyntaxNode::Literal(vec![0xFF, 0x00]), None), vec![vec![0xFF, 0x00]]);
    assert_eq!(all(&literal("abc"), Some(3)), vec![b"abc".to_vec()]);
}

#[test]
fn a_literal_over_the_limit_yields_nothing() {
    assert_eq!(text(&literal("abc"), Some(2)), none());
    assert_eq!(text(&literal("a"), Some(0)), none());
}

#[test]
fn empty_and_lookaround_yield_the_empty_candidate() {
    assert_eq!(all(&SyntaxNode::Empty, None), vec![Vec::<u8>::new()]);
    assert_eq!(all(&SyntaxNode::Lookaround, None), vec![Vec::<u8>::new()]);
    assert_eq!(all(&SyntaxNode::Empty, Some(0)), vec![Vec::<u8>::new()]);
    assert_eq!(all(&SyntaxNode::Lookaround, Some(0)), vec![Vec::<u8>::new()]);
}

#[test]
fn a_lookaround_in_a_concatenation_adds_nothing() {
    let node = SyntaxNode::Concat(vec![SyntaxNode::Lookaround, literal("a"), SyntaxNode::Lookaround]);
    assert_eq!(text(&node, None), vec!["a"]);
}

#[test]
fn class_of_two() {
    assert_eq!(text(&class('a', 'b'), None), vec!["a", "b"]);
}

#[test]
fn a_class_goes_range_by_range() {
    let node = SyntaxNode::Class(CharClass::Unicode(vec![
        ScalarRange { start: '0', end: '2' },
        ScalarRange { start: 'x', end: 'z' },
    ]));
    assert_eq!(text(&node, None), vec!["0", "1", "2", "x", "y", "z"]);
}

#[test]
fn a_class_skips_ranges_that_hold_nothing() {
    let node = SyntaxNode::Class(CharClass::Unicode(vec![
        ScalarRange { start: 'b', end: 'a' },
        ScalarRange { start: 'k', end: 'k' },
        ScalarRange { start: 'z', end: 'y' },
        ScalarRange { start: 'm', end: 'n' },
        ScalarRange { start: 'q', end: 'p' },
    ]));
    assert_eq!(text(&node, None), vec!["k", "m", "n"]);
}

#[test]
fn a_class_encodes_each_width() {
    let node = SyntaxNode::Class(CharClass::Unicode(vec![
        ScalarRange { start: '\u{7F}', end: '\u{80}' },
        ScalarRange { start: '\u{7FF}', end: '\u{800}' },
        ScalarRange { start: '\u{FFFF}', end: '\u{10000}' },
        ScalarRange { start: '\u{10FFFF}', end: '\u{10FFFF}' },
    ]));
    assert_eq!(
        all(&node, None),
        vec![
            vec![0x7F],
            vec![0xC2, 0x80],
            vec![0xDF, 0xBF],
            vec![0xE0, 0xA0, 0x80],
            vec![0xEF, 0xBF, 0xBF],
            vec![0xF0, 0x90, 0x80, 0x80],
            vec![0xF4, 0x8F, 0xBF, 0xBF],
        ]
    );
}

#[test]
fn a_class_encodes_as_the_standard_library_does() {
    let node = SyntaxNode::Class(CharClass::Unicode(vec![ScalarRange { start: 'é', end: 'ë' }]));
    assert_eq!(text(&node, None), vec!["é", "ê", "ë"]);
    let node = SyntaxNode::Class(CharClass::Unicode(vec![ScalarRange { start: '€', end: '€' }]));
    assert_eq!(all(&node, None), vec!["€".as_bytes().to_vec()]);
    let node = SyntaxNode::Class(CharClass::Unicode(vec![ScalarRange { start: '😀', end: '😁' }]));
    assert_eq!(text(&node, None), vec!["😀", "😁"]);
}

#[test]
fn a_class_steps_over_the_surrogates() {
    let node = SyntaxNode::Class(CharClass::Unicode(vec![ScalarRange {
        start: '\u{D7FE}',
        end: '\u{E001}',
    }]));
    assert_eq!(
        all(&node, None),
        vec![
            vec![0xED, 0x9F, 0xBE],
            vec![0xED, 0x9F, 0xBF],
            vec![0xEE, 0x80, 0x80],
            vec![0xEE, 0x80, 0x81],
        ]
    );
}

#[test]
fn a_wide_class_under_a_limit_keeps_the_narrow_elements() {
    let node = SyntaxNode::Class(CharClass::Unicode(vec![ScalarRange {
        start: '\u{7E}',
        end: '\u{81}',
    }]));
    assert_eq!(all(&node, Some(1)), vec![vec![0x7E], vec![0x7F]]);
    assert_eq!(all(&node, Some(0)), Vec::<Vec<u8>>::new());
}

#[test]
fn a_byte_class_yields_raw_bytes() {
    let node = SyntaxNode::Class(CharClass::Bytes(vec![
        ByteRange { start: 0xFE, end: 0xFF },
        ByteRange { start: 0x00, end: 0x01 },
        ByteRange { start: 0x09, end: 0x08 },
    ]));
    assert_eq!(all(&node, None), vec![vec![0xFE], vec![0xFF], vec![0x00], vec![0x01]]);
}

#[test]
fn a_whole_byte_class_has_256_elements() {
    let node = SyntaxNode::Class(CharClass::Bytes(vec![ByteRange { start: 0, end: 255 }]));
    let found = all(&node, None);
    assert_eq!(found.len(), 256);
    for (value, candidate) in found.iter().enumerate() {
        assert_eq!(candidate, &vec![value as u8]);
    }
}

#[test]
fn an_empty_class_yields_nothing() {
    assert_eq!(text(&SyntaxNode::Class(CharClass::Unicode(Vec::new())), None), none());
    assert_eq!(text(&SyntaxNode::Class(CharClass::Bytes(Vec::new())), None), none());
}

#[test]
fn bounded_repetition() {
    assert_eq!(text(&repeat(literal("a"), 2, Some(3)), None), vec!["aa", "aaa"]);
}

#[test]
fn a_repetition_goes_count_by_count_in_mixed_radix_order() {
    assert_eq!(
        text(&repeat(class('a', 'b'), 0, Some(2)), None),
        vec!["", "a", "b", "aa", "ba", "ab", "bb"]
    );
    assert_eq!(
        text(&repeat(class('a', 'b'), 3, Some(3)), None),
        vec!["aaa", "baa", "aba", "bba", "aab", "bab", "abb", "bbb"]
    );
}

#[test]
fn a_repetition_of_zero_copies_yields_the_empty_candidate() {
    assert_eq!(text(&repeat(literal("a"), 0, Some(0)), None), vec![""]);
    assert_eq!(text(&repeat(SyntaxNode::Class(CharClass::Unicode(Vec::new())), 0, Some(0)), None), vec![""]);
}

#[test]
fn a_repetition_with_its_bounds_crossed_yields_nothing() {
    assert_eq!(text(&repeat(literal("a"), 3, Some(2)), None), none());
}

#[test]
fn a_repetition_of_nothing_yields_at_most_the_empty_candidate() {
    let nothing = || SyntaxNode::Class(CharClass::Unicode(Vec::new()));
    assert_eq!(text(&repeat(nothing(), 0, Some(5)), None), vec![""]);
    assert_eq!(text(&repeat(nothing(), 1, Some(5)), None), none());
    assert_eq!(text(&repeat(nothing(), 0, None), None), vec![""]);
    assert_eq!(text(&repeat(nothing(), 2, None), Some(7)), none());
}

#[test]
fn an_open_repetition_under_a_limit_ends() {
    assert_eq!(text(&repeat(literal("ab"), 1, None), Some(5)), vec!["ab", "abab"]);
    assert_eq!(text(&repeat(literal("ab"), 0, None), Some(1)), vec![""]);
    assert_eq!(text(&repeat(literal("ab"), 1, None), Some(1)), none());
    assert_eq!(text(&repeat(literal("abc"), 2, None), Some(6)), vec!["abcabc"]);
}

#[test]
fn a_huge_repetition_under_a_limit_is_cut_before_it_is_built() {
    assert_eq!(
        text(&repeat(literal("a"), 0, Some(u32::MAX)), Some(3)),
        vec!["", "a", "aa", "aaa"]
    );
    assert_eq!(text(&repeat(literal("a"), u32::MAX, None), Some(3)), none());
    assert_eq!(text(&repeat(literal("a"), u32::MAX, Some(u32::MAX)), Some(1000)), none());
}

#[test]
fn a_repetition_of_candidates_of_mixed_length_keeps_all_that_fit() {
    let sub = SyntaxNode::Alternation(vec![literal("bb"), literal("a")]);
    assert_eq!(
        text(&repeat(sub, 1, Some(2)), Some(2)),
        vec!["bb", "a", "aa"]
    );
}

#[test]
fn an_open_repetition_without_a_limit_is_pulled_lazily() {
    assert_eq!(first(&repeat(literal("a"), 1, None), None, 4), vec!["a", "aa", "aaa", "aaaa"]);
    assert_eq!(
        first(&repeat(class('a', 'b'), 0, None), None, 8),
        vec!["", "a", "b", "aa", "ba", "ab", "bb", "aaa"]
    );
}

#[test]
fn an_open_first_part_never_carries() {
    let node = SyntaxNode::Concat(vec![repeat(literal("a"), 0, None), class('x', 'y')]);
    assert_eq!(first(&node, None, 4), vec!["x", "ax", "aax", "aaax"]);
}

#[test]
fn a_repetition_of_a_repetition_that_may_be_empty_goes_on() {
    let node = repeat(repeat(literal("a"), 0, Some(1)), 0, None);
    assert_eq!(first(&node, Some(5), 7), vec!["", "", "a", "", "a", "a", "aa"]);
}

#[test]
fn group_of_alternation() {
    let node = SyntaxNode::Group(Box::new(SyntaxNode::Alternation(vec![
        literal("ab"),
        literal("cd"),
    ])));
    assert_eq!(text(&node, None), vec!["ab", "cd"]);
}

#[test]
fn a_group_is_what_it_holds() {
    let inside = || repeat(class('a', 'b'), 1, Some(2));
    assert_eq!(text(&SyntaxNode::Group(Box::new(inside())), Some(2)), text(&inside(), Some(2)));
}

#[test]
fn a_concatenation_of_two_pairs_each_with_each() {
    let node = SyntaxNode::Concat(vec![class('a', 'b'), class('c', 'd')]);
    assert_eq!(text(&node, None), vec!["ac", "bc", "ad", "bd"]);
}

#[test]
fn a_concatenation_of_uneven_parts() {
    let node = SyntaxNode::Concat(vec![class('a', 'c'), literal("-"), class('x', 'y')]);
    assert_eq!(text(&node, None), vec!["a-x", "b-x", "c-x", "a-y", "b-y", "c-y"]);
}

#[test]
fn a_concatenation_without_parts_yields_the_empty_candidate() {
    assert_eq!(text(&SyntaxNode::Concat(Vec::new()), None), vec![""]);
}

#[test]
fn a_concatenation_with_an_empty_part_yields_nothing() {
    let node = SyntaxNode::Concat(vec![
        class('a', 'b'),
        SyntaxNode::Class(CharClass::Bytes(Vec::new())),
    ]);
    assert_eq!(text(&node, None), none());
    let node = SyntaxNode::Concat(vec![literal("toolong"), literal("a")]);
    assert_eq!(text(&node, Some(3)), none());
}

#[test]
fn a_concatenation_is_filtered_after_it_is_joined() {
    let node = SyntaxNode::Concat(vec![
        repeat(literal("a"), 0, Some(2)),
        repeat(literal("b"), 0, Some(2)),
    ]);
    assert_eq!(text(&node, Some(2)), vec!["", "a", "aa", "b", "ab", "bb"]);
}

#[test]
fn star_star_with_limit() {
    let node = SyntaxNode::Concat(vec![
        repeat(literal("a"), 0, None),
        repeat(literal("b"), 0, None),
    ]);
    assert_eq!(
        text(&node, Some(5)),
        vec![
            "", "a", "aa", "aaa", "aaaa", "aaaaa", "b", "ab", "aab", "aaab", "aaaab", "bb", "abb",
            "aabb", "aaabb", "bbb", "abbb", "aabbb", "bbbb", "abbbb", "bbbbb"
        ]
    );
}

#[test]
fn an_alternation_chains_its_branches() {
    let node = SyntaxNode::Alternation(vec![class('a', 'b'), literal("xy"), class('c', 'c')]);
    assert_eq!(text(&node, None), vec!["a", "b", "xy", "c"]);
}

#[test]
fn an_alternation_keeps_what_two_branches_share() {
    let node = SyntaxNode::Alternation(vec![class('a', 'b'), class('b', 'c')]);
    assert_eq!(text(&node, None), vec!["a", "b", "b", "c"]);
}

#[test]
fn an_alternation_passes_over_branches_that_yield_nothing() {
    let nothing = || SyntaxNode::Class(CharClass::Unicode(Vec::new()));
    let node = SyntaxNode::Alternation(vec![
        nothing(),
        literal("a"),
        nothing(),
        nothing(),
        literal("b"),
        nothing(),
    ]);
    assert_eq!(text(&node, None), vec!["a", "b"]);
    assert_eq!(text(&SyntaxNode::Alternation(vec![nothing(), nothing()]), None), none());
}

#[test]
fn an_alternation_without_branches_yields_nothing() {
    assert_eq!(text(&SyntaxNode::Alternation(Vec::new()), None), none());
}

#[test]
fn an_alternation_under_a_limit() {
    let node = SyntaxNode::Alternation(vec![literal("abc"), literal("de"), literal("f")]);
    assert_eq!(text(&node, Some(2)), vec!["de", "f"]);
}

#[test]
fn two_runs_yield_the_same_in_the_same_order() {
    let node = SyntaxNode::Concat(vec![
        repeat(class('a', 'c'), 0, Some(2)),
        SyntaxNode::Alternation(vec![literal("x"), class('0', '1')]),
    ]);
    let once = text(&node, Some(2));
    let again = text(&node, Some(2));
    assert_eq!(once, again);
    assert_eq!(once.len(), 12);
}

#[test]
fn a_sequence_that_is_through_stays_through() {
    let node = literal("a");
    let mut candidates = iterate_all(&node, None);
    assert_eq!(candidates.next(), Some(b"a".to_vec()));
    assert_eq!(candidates.next(), None);
    assert_eq!(candidates.next(), None);
}
