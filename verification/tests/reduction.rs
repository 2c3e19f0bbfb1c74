use atlas::Parser;
use atlas::logic::{BuiltinFuncs, EvalError};
use atlas::tree::Token;

#[test]
fn flat_addition_reduces_to_eleven() {
    let mut parser = Parser::new();
    parser.parse(String::from("(+ 2 4 5)")).unwrap();
    assert_eq!(parser.reduce_all(), Ok(Token::Number(11)));
}

#[test]
fn nested_addition_reduces_to_seven() {
    let mut parser = Parser::new();
    parser.parse(String::from("(+ 1 (+ 1 1) (+ 2 2))")).unwrap();
    assert_eq!(parser.reduce_all(), Ok(Token::Number(7)));
}

#[test]
fn deeper_nesting_propagates_results() {
    let mut parser = Parser::new();
    parser.parse(String::from("(+ 1 (+ 1 (+ 2 3)) (+ 2 2))")).unwrap();
    assert_eq!(parser.reduce_all(), Ok(Token::Number(11)));
}

#[test]
fn a_later_sibling_after_a_deep_subtree_keeps_its_place() {
    // the first child carries a grandchild, so the second child enters
    // the flat storage between expressions created before it
    let mut parser = Parser::new();
    parser.parse(String::from("(+ (+ 1 (+ 2 2)) (+ 3 3))")).unwrap();
    let root = parser.get_from_depth_and_idx(0, 0).unwrap();
    assert_eq!(
        root.args,
        vec![Token::Expression((1, 0)), Token::Expression((1, 1))]
    );
    let second = parser.get_from_depth_and_idx(1, 1).unwrap();
    assert_eq!(second.args, vec![Token::Number(3), Token::Number(3)]);
    assert_eq!(parser.reduce_all(), Ok(Token::Number(11)));
}

#[test]
fn no_expression_reference_survives_a_successful_reduction() {
    let mut parser = Parser::new();
    parser.parse(String::from("(+ 1 (+ 1 (+ 2 3)) (+ 2 2))")).unwrap();
    parser.reduce_all().unwrap();
    for depth in 0..4_usize {
        for idx in 0..4_usize {
            if let Ok(expr) = parser.get_from_depth_and_idx(depth, idx) {
                for arg in &expr.args {
                    assert!(!matches!(arg, Token::Expression(_)));
                }
            }
        }
    }
}

#[test]
fn unknown_function_is_reported() {
    let mut parser = Parser::new();
    parser.parse(String::from("(foo 1 2)")).unwrap();
    assert_eq!(
        parser.reduce_all(),
        Err(EvalError::UnknownFunction { depth: 0, index: 0 })
    );
}

#[test]
fn unimplemented_builtin_is_reported() {
    let mut parser = Parser::new();
    parser.parse(String::from("(- 5 2)")).unwrap();
    assert_eq!(
        parser.reduce_all(),
        Err(EvalError::NotImplemented { depth: 0, index: 0 })
    );
}

#[test]
fn multiply_and_divide_are_not_implemented_either() {
    let mut parser = Parser::new();
    parser.parse(String::from("(* 5 2)")).unwrap();
    assert_eq!(
        parser.reduce_all(),
        Err(EvalError::NotImplemented { depth: 0, index: 0 })
    );
    let mut parser2 = Parser::new();
    parser2.parse(String::from("(/ 5 2)")).unwrap();
    assert_eq!(
        parser2.reduce_all(),
        Err(EvalError::NotImplemented { depth: 0, index: 0 })
    );
}

#[test]
fn non_numeric_argument_to_addition_is_invalid() {
    let mut parser = Parser::new();
    parser.parse(String::from("(+ 1 x)")).unwrap();
    assert_eq!(
        parser.reduce_all(),
        Err(EvalError::InvalidArgument { depth: 0, index: 0 })
    );
}

#[test]
fn an_evaluation_failure_names_the_failing_coordinate() {
    // the failing sub-expression, not the root, is reported
    let mut parser = Parser::new();
    parser.parse(String::from("(+ 1 (foo 2))")).unwrap();
    assert_eq!(
        parser.reduce_all(),
        Err(EvalError::UnknownFunction { depth: 1, index: 0 })
    );
    let mut parser2 = Parser::new();
    parser2.parse(String::from("(+ 1 (+ 2 2) (- 1 1))")).unwrap();
    assert_eq!(
        parser2.reduce_all(),
        Err(EvalError::NotImplemented { depth: 1, index: 1 })
    );
}

#[test]
fn addition_of_nothing_is_zero() {
    let mut parser = Parser::new();
    parser.parse(String::from("(+ )")).unwrap();
    assert_eq!(parser.reduce_all(), Ok(Token::Number(0)));
}

#[test]
fn addition_clamps_at_the_numeric_bounds() {
    let mut parser = Parser::new();
    parser
        .parse(String::from("(+ 9223372036854775807 1)"))
        .unwrap();
    assert_eq!(parser.reduce_all(), Ok(Token::Number(i64::MAX)));
    let mut parser2 = Parser::new();
    parser2
        .parse(String::from("(+ -9223372036854775808 -1)"))
        .unwrap();
    assert_eq!(parser2.reduce_all(), Ok(Token::Number(i64::MIN)));
}

#[test]
fn negative_numbers_add_up() {
    let mut parser = Parser::new();
    parser.parse(String::from("(+ -3 10)")).unwrap();
    assert_eq!(parser.reduce_all(), Ok(Token::Number(7)));
}

#[test]
fn print_yields_the_placeholder_literal() {
    let mut parser = Parser::new();
    parser.parse(String::from("(print 1)")).unwrap();
    assert_eq!(parser.reduce_all(), Ok(Token::Literal(String::from("TODO"))));
}

#[test]
fn keyword_match_ignores_ascii_case_and_surrounding_whitespace() {
    assert_eq!(
        BuiltinFuncs::try_from(&Token::Variable(String::from("PRINT"))),
        Ok(BuiltinFuncs::Print)
    );
    assert_eq!(
        BuiltinFuncs::try_from(&Token::Variable(String::from("Print"))),
        Ok(BuiltinFuncs::Print)
    );
    assert_eq!(
        BuiltinFuncs::try_from(&Token::Variable(String::from("\t+\n"))),
        Ok(BuiltinFuncs::Add)
    );
    assert!(BuiltinFuncs::try_from(&Token::Variable(String::from("plus"))).is_err());
    assert!(BuiltinFuncs::try_from(&Token::Number(1)).is_err());
}

#[test]
fn an_expression_reduces_on_its_own() {
    let expr = atlas::tree::TokenExpression {
        keyword: Some(Token::Variable(String::from("+"))),
        depth: 0,
        args: vec![Token::Number(1), Token::Number(2)],
        delimiters: (Some(0), Some(6)),
        index: 0,
    };
    assert_eq!(expr.reduce(), Ok(Token::Number(3)));
}

#[test]
fn an_expression_without_keyword_is_unknown() {
    let expr = atlas::tree::TokenExpression::new();
    assert_eq!(
        expr.reduce(),
        Err(EvalError::UnknownFunction { depth: 0, index: 0 })
    );
}

#[test]
fn exec_is_reachable_through_the_table_type() {
    let expr = atlas::tree::TokenExpression {
        keyword: Some(Token::Variable(String::from("+"))),
        depth: 0,
        args: vec![Token::Number(20), Token::Number(22)],
        delimiters: (None, None),
        index: 0,
    };
    assert_eq!(BuiltinFuncs::exec(&expr), Ok(Token::Number(42)));
}

#[test]
fn an_unresolved_reference_at_dispatch_is_invalid() {
    let expr = atlas::tree::TokenExpression {
        keyword: Some(Token::Variable(String::from("+"))),
        depth: 2,
        args: vec![Token::Number(1), Token::Expression((3, 0))],
        delimiters: (None, None),
        index: 5,
    };
    assert_eq!(
        BuiltinFuncs::exec(&expr),
        Err(EvalError::InvalidArgument { depth: 2, index: 5 })
    );
}
