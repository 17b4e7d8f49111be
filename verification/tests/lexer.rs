use c1_parser::{C1Lexer, C1Token};

#[test]
fn lines_are_counted() {
    let mut lexer1 = C1Lexer::new("Hello\nTest");
    assert_eq!(lexer1.current_line_number(), Some(1));
    assert_eq!(lexer1.peek_line_number(), Some(2));
    lexer1.eat();
    assert_eq!(lexer1.current_line_number(), Some(2));
    assert_eq!(lexer1.peek_line_number(), None);
    lexer1.eat();
    assert_eq!(lexer1.current_line_number(), None);
    assert_eq!(lexer1.peek_line_number(), None);
}

#[test]
fn line_count_is_reset() {
    {
        let mut lexer1 = C1Lexer::new("Hello\nTest\nbla\nfoo");
        lexer1.eat();
        lexer1.eat();
        assert_eq!(lexer1.current_line_number(), Some(3));
        assert_eq!(lexer1.peek_line_number(), Some(4));
    }
    let lexer2 = C1Lexer::new("bool foo()");
    assert_eq!(lexer2.current_line_number(), Some(1));
    assert_eq!(lexer2.peek_line_number(), Some(1));
}

#[test]
fn float_recognition() {
    let lexer = C1Lexer::new("1.2");
    assert_eq!(lexer.current_token(), Some(C1Token::ConstFloat));

    let lexer = C1Lexer::new("1.000");
    assert_eq!(lexer.current_token(), Some(C1Token::ConstFloat));

    let lexer = C1Lexer::new(".2");
    assert_eq!(lexer.current_token(), Some(C1Token::ConstFloat));

    let lexer = C1Lexer::new("1.2e4");
    assert_eq!(lexer.current_token(), Some(C1Token::ConstFloat));

    let lexer = C1Lexer::new("1.2e+4");
    assert_eq!(lexer.current_token(), Some(C1Token::ConstFloat));

    let lexer = C1Lexer::new("1.2e-10");
    assert_eq!(lexer.current_token(), Some(C1Token::ConstFloat));

    let lexer = C1Lexer::new("1.2E-10");
    assert_eq!(lexer.current_token(), Some(C1Token::ConstFloat));

    let lexer = C1Lexer::new("33E+2");
    assert_eq!(lexer.current_token(), Some(C1Token::ConstFloat));
}

#[test]
fn lookahead_over_a_function() {
    let mut lexer = C1Lexer::new(
        "void main() {
                                x = 4;
                              }",
    );
    assert_eq!(lexer.current_token(), Some(C1Token::KwVoid));
    assert_eq!(lexer.current_line_number(), Some(1));
    assert_eq!(lexer.peek_token(), Some(C1Token::Identifier));
    assert_eq!(lexer.peek_line_number(), Some(1));

    lexer.eat();
    lexer.eat();
    lexer.eat();
    lexer.eat();

    assert_eq!(lexer.current_token(), Some(C1Token::LeftBrace));
    assert_eq!(lexer.current_line_number(), Some(1));
    assert_eq!(lexer.peek_token(), Some(C1Token::Identifier));
    assert_eq!(lexer.peek_text(), Some("x"));
    assert_eq!(lexer.peek_line_number(), Some(2));
}

#[test]
fn inspection_does_not_consume() {
    let lexer = C1Lexer::new("current next");
    assert_eq!(lexer.current_token(), Some(C1Token::Identifier));
    assert_eq!(lexer.current_text(), Some("current"));
    assert_eq!(lexer.current_token(), Some(C1Token::Identifier));
    assert_eq!(lexer.current_text(), Some("current"));
    assert_eq!(lexer.peek_token(), Some(C1Token::Identifier));
    assert_eq!(lexer.peek_text(), Some("next"));
    assert_eq!(lexer.peek_token(), Some(C1Token::Identifier));
    assert_eq!(lexer.peek_text(), Some("next"));
}

#[test]
fn eat_shifts_the_buffer_and_is_safe_at_the_end() {
    let mut lexer = C1Lexer::new("current next last");
    assert_eq!(lexer.current_text(), Some("current"));
    assert_eq!(lexer.peek_text(), Some("next"));

    lexer.eat();
    assert_eq!(lexer.current_text(), Some("next"));
    assert_eq!(lexer.peek_text(), Some("last"));

    lexer.eat();
    assert_eq!(lexer.current_text(), Some("last"));
    assert_eq!(lexer.peek_text(), None);

    lexer.eat();
    assert_eq!(lexer.current_text(), None);
    assert_eq!(lexer.peek_text(), None);

    lexer.eat();
    lexer.eat();
    assert_eq!(lexer.current_token(), None);
    assert_eq!(lexer.peek_token(), None);
    assert_eq!(lexer.current_line_number(), None);
}

#[test]
fn empty_text_has_no_tokens() {
    let mut lexer = C1Lexer::new("");
    assert_eq!(lexer.current_token(), None);
    assert_eq!(lexer.peek_token(), None);
    lexer.eat();
    assert_eq!(lexer.current_token(), None);
}
