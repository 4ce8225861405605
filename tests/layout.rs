use gdbmi::layout::{
    parse, ContainerType, Input, LayoutNode, LayoutParseError, CLOSING_BRACKET_CHARS,
    NODE_START_CHARS,
};

fn expect_equal(input: &str, expected: &str) {
    let parsed = parse(input).unwrap();
    assert_eq!(parsed.describe(), expected);
}

fn expect_error(input: &str, e: LayoutParseError) {
    let pe = parse(input).unwrap_err();
    assert_eq!(pe, e);
}

#[test]
fn parse_default() {
    expect_equal(
        "(1s-1c)|(1e-1t)",
        "(1(1SrcView-1Console)|1(1ExpressionTable-1Terminal))",
    );
}

#[test]
fn parse_triple_weighted() {
    expect_equal(
        "(s|2t|c)-99e",
        "(1(1SrcView|2Terminal|1Console)-99ExpressionTable)",
    );
}

#[test]
fn parse_empty() {
    expect_error("", LayoutParseError::TooShortExpected(NODE_START_CHARS));
}

#[test]
fn parse_unclosed() {
    expect_error(
        "(c-e",
        LayoutParseError::TooShortExpected(CLOSING_BRACKET_CHARS),
    );
}

#[test]
fn parse_unexpected() {
    expect_error(
        "f",
        LayoutParseError::ExpectedGotMany(0, NODE_START_CHARS, 'f'),
    );
}

#[test]
fn parse_change_split() {
    expect_error(
        "s-e|t",
        LayoutParseError::SplitTypeChangeFromTo(3, '-', '|'),
    );
}

#[test]
fn parse_single_leaf() {
    assert_eq!(parse("t").unwrap(), LayoutNode::Leaf(ContainerType::Terminal));
}

#[test]
fn parse_unexpected_closing() {
    expect_error(
        "(c-e]",
        LayoutParseError::ExpectedGotMany(4, CLOSING_BRACKET_CHARS, ']'),
    );
}

#[test]
fn parse_change_split_vertical_after_horizontal() {
    expect_error(
        "s|e-t",
        LayoutParseError::SplitTypeChangeFromTo(3, '|', '-'),
    );
}

#[test]
fn parse_weight_saturates() {
    let parsed = parse("99999999999s|t").unwrap();
    assert_eq!(
        parsed,
        LayoutNode::HSplit(vec![
            (LayoutNode::Leaf(ContainerType::SrcView), u32::MAX),
            (LayoutNode::Leaf(ContainerType::Terminal), 1),
        ])
    );
}

#[test]
fn parse_stops_at_other_character() {
    assert_eq!(parse("c)").unwrap(), LayoutNode::Leaf(ContainerType::Console));
}

#[test]
fn input_walks_the_text() {
    assert!(Input::new("").is_err());
    let mut i = Input::new("ab").unwrap();
    assert_eq!(i.current(), Some('a'));
    assert_eq!(i.current_index(), 0);
    i.advance();
    assert_eq!(i.current(), Some('b'));
    assert_eq!(i.current_index(), 1);
    i.advance();
    assert_eq!(i.current(), None);
    i.advance();
    assert_eq!(i.current_index(), 2);
}
