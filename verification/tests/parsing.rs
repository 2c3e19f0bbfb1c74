use atlas::Parser;
use atlas::SyntaxError;
use atlas::tree::{Symbols, Token, TokenExpression, Tree};

#[test]
fn parse_accepts_flat_addition() {
    let mut parser = Parser::new();
    assert_eq!(parser.parse(String::from("(+ 2 4 5)")), Ok(()));
}

#[test]
fn parse_accepts_nested_addition() {
    let mut parser = Parser::new();
    assert_eq!(parser.parse(String::from("(+ 1 (+ 1 1) (+ 2 2))")), Ok(()));
}

#[test]
fn parse_rejects_missing_close() {
    let mut parser = Parser::new();
    let r = parser.parse(String::from("(+ 1 2"));
    assert!(matches!(r, Err(SyntaxError { .. })));
    assert_eq!(r, Err(SyntaxError { at: 6 }));
}

#[test]
fn parse_rejects_extra_close() {
    let mut parser = Parser::new();
    let r = parser.parse(String::from("(+ 1))"));
    assert!(matches!(r, Err(SyntaxError { .. })));
    assert_eq!(r, Err(SyntaxError { at: 5 }));
}

#[test]
fn parse_rejects_unclosed_nesting_of_any_depth() {
    for text in ["(", "((", "(+ (a (b c", "(+ 1 (+ 2 2)"] {
        let mut parser = Parser::new();
        assert!(parser.parse(String::from(text)).is_err());
    }
}

#[test]
fn parse_rejects_empty_input() {
    let mut parser = Parser::new();
    assert_eq!(parser.parse(String::new()), Err(SyntaxError { at: 0 }));
}

#[test]
fn parse_rejects_atom_glued_to_open_paren() {
    let mut parser = Parser::new();
    let r = parser.parse(String::from("(foo(bar))"));
    assert_eq!(r, Err(SyntaxError { at: 4 }));
}

#[test]
fn parse_rejects_text_outside_the_form() {
    let mut parser = Parser::new();
    assert!(parser.parse(String::from("x (+ 1 2)")).is_err());
    let mut parser2 = Parser::new();
    assert!(parser2.parse(String::from("(+ 1 2) x")).is_err());
}

#[test]
fn parse_records_keyword_and_arguments() {
    let mut parser = Parser::new();
    parser.parse(String::from("(+ 2 4 5)")).unwrap();
    let root = parser.get_from_depth_and_idx(0, 0).unwrap();
    assert_eq!(root.keyword, Some(Token::Variable(String::from("+"))));
    assert_eq!(
        root.args,
        vec![Token::Number(2), Token::Number(4), Token::Number(5)]
    );
    assert_eq!(root.depth, 0);
    assert_eq!(root.index, 0);
}

#[test]
fn parse_records_delimiter_positions() {
    let mut parser = Parser::new();
    parser.parse(String::from("(+ 1)")).unwrap();
    let root = parser.get_from_depth_and_idx(0, 0).unwrap();
    assert_eq!(root.delimiters, (Some(0), Some(4)));
    assert!(!root.is_unclosed());
}

#[test]
fn parse_links_children_by_coordinates() {
    let mut parser = Parser::new();
    parser.parse(String::from("(+ 1 (+ 1 1) (+ 2 2))")).unwrap();
    let root = parser.get_from_depth_and_idx(0, 0).unwrap();
    assert_eq!(
        root.args,
        vec![
            Token::Number(1),
            Token::Expression((1, 0)),
            Token::Expression((1, 1)),
        ]
    );
    let first = parser.get_from_depth_and_idx(1, 0).unwrap();
    assert_eq!(first.args, vec![Token::Number(1), Token::Number(1)]);
    assert_eq!((first.depth, first.index), (1, 0));
    let second = parser.get_from_depth_and_idx(1, 1).unwrap();
    assert_eq!(second.args, vec![Token::Number(2), Token::Number(2)]);
    assert_eq!((second.depth, second.index), (1, 1));
}

#[test]
fn deepest_depth_equals_nesting_minus_one() {
    // the outermost form stands at depth 0 under one open parenthesis
    let mut parser = Parser::new();
    parser.parse(String::from("(+ 1 (+ 1 (+ 1 1)) (+ 2 2))")).unwrap();
    assert!(parser.get_from_depth_and_idx(2, 0).is_ok());
    assert!(parser.get_from_depth_and_idx(3, 0).is_err());
}

#[test]
fn reparsing_identical_text_gives_identical_coordinates() {
    let text = "(+ 1 (+ 1 1) (+ 2 2))";
    let mut one = Parser::new();
    let mut two = Parser::new();
    one.parse(String::from(text)).unwrap();
    two.parse(String::from(text)).unwrap();
    for depth in 0..3_usize {
        for idx in 0..3_usize {
            let a = one.get_from_depth_and_idx(depth, idx);
            let b = two.get_from_depth_and_idx(depth, idx);
            assert_eq!(a, b);
        }
    }
}

#[test]
fn coordinates_are_rejected_out_of_range() {
    let mut parser = Parser::new();
    parser.parse(String::from("(+ 1 2)")).unwrap();
    assert!(parser.get_from_depth_and_idx(0, 1).is_err());
    assert!(parser.get_from_depth_and_idx(1, 0).is_err());
    assert!(parser.get_from_depth_and_idx(7, 7).is_err());
}

#[test]
fn symbols_classify_parentheses() {
    assert_eq!(Symbols::try_from('('), Ok(Symbols::LPAREN));
    assert_eq!(Symbols::try_from(')'), Ok(Symbols::RPAREN));
    assert!(Symbols::try_from('x').is_err());
    assert!(Symbols::try_from(' ').is_err());
}

#[test]
fn tree_lookup_is_bounds_checked() {
    let tree = Tree::new();
    assert!(tree.peek(0).is_err());
    let mut tree2 = Tree::new();
    tree2.push(TokenExpression::new());
    assert!(tree2.peek(0).is_ok());
    assert!(tree2.peek(1).is_err());
    assert_eq!(tree2.len(), 1);
}
