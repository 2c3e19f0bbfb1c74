use atlas::tree::Token;

#[test]
fn digits_classify_as_numbers() {
    assert_eq!(Token::from(String::from("12")), Token::Number(12));
    assert_eq!(Token::from(String::from("0")), Token::Number(0));
    assert_eq!(Token::from(String::from("007")), Token::Number(7));
}

#[test]
fn signed_digits_classify_as_numbers() {
    assert_eq!(Token::from(String::from("-3")), Token::Number(-3));
    assert_eq!(Token::from(String::from("+7")), Token::Number(7));
    assert_eq!(
        Token::from(String::from("-9223372036854775808")),
        Token::Number(i64::MIN)
    );
    assert_eq!(
        Token::from(String::from("9223372036854775807")),
        Token::Number(i64::MAX)
    );
}

#[test]
fn quoted_text_classifies_as_literal_with_quotes_stripped() {
    assert_eq!(
        Token::from(String::from("\"hi\"")),
        Token::Literal(String::from("hi"))
    );
    assert_eq!(Token::from(String::from("\"\"")), Token::Literal(String::new()));
    // every double quote goes, inner ones included
    assert_eq!(
        Token::from(String::from("\"a\"b\"")),
        Token::Literal(String::from("ab"))
    );
}

#[test]
fn anything_else_classifies_as_variable() {
    assert_eq!(
        Token::from(String::from("abc")),
        Token::Variable(String::from("abc"))
    );
    assert_eq!(Token::from(String::from("+")), Token::Variable(String::from("+")));
    assert_eq!(Token::from(String::from("-")), Token::Variable(String::from("-")));
    assert_eq!(
        Token::from(String::from("1x2")),
        Token::Variable(String::from("1x2"))
    );
}

#[test]
fn numbers_that_overflow_the_machine_word_stay_variables() {
    assert_eq!(
        Token::from(String::from("9223372036854775808")),
        Token::Variable(String::from("9223372036854775808"))
    );
    assert_eq!(
        Token::from(String::from("-9223372036854775809")),
        Token::Variable(String::from("-9223372036854775809"))
    );
}

#[test]
fn duplicate_copies_every_variant() {
    let samples = vec![
        Token::Literal(String::from("x")),
        Token::Number(-5),
        Token::Variable(String::from("y")),
        Token::Expression((2, 3)),
        Token::Resolved,
    ];
    for t in &samples {
        assert_eq!(&t.duplicate(), t);
    }
}
