use c1_parser::{C1Lexer, C1Token};

fn tokens(text: &str) -> Vec<(C1Token, String, usize)> {
    let mut lexer = C1Lexer::new(text);
    let mut found = Vec::new();
    while let Some(kind) = lexer.current_token() {
        let word = lexer.current_text().unwrap().to_string();
        let line = lexer.current_line_number().unwrap();
        found.push((kind, word, line));
        lexer.eat();
    }
    found
}

fn kinds(text: &str) -> Vec<C1Token> {
    tokens(text).into_iter().map(|t| t.0).collect()
}

fn one(kind: C1Token, word: &str, line: usize) -> (C1Token, String, usize) {
    (kind, word.to_string(), line)
}

#[test]
fn every_keyword_has_its_category() {
    assert_eq!(
        kinds("bool do else float for if int printf return void while"),
        vec![
            C1Token::KwBoolean,
            C1Token::KwDo,
            C1Token::KwElse,
            C1Token::KwFloat,
            C1Token::KwFor,
            C1Token::KwIf,
            C1Token::KwInt,
            C1Token::KwPrintf,
            C1Token::KwReturn,
            C1Token::KwVoid,
            C1Token::KwWhile,
        ]
    );
}

#[test]
fn every_operator_has_its_category() {
    assert_eq!(
        kinds("+ - * / = == != < > <= >= && || , ; ( ) { }"),
        vec![
            C1Token::Plus,
            C1Token::Minus,
            C1Token::Asterisk,
            C1Token::Slash,
            C1Token::Assign,
            C1Token::Equal,
            C1Token::NotEqual,
            C1Token::Less,
            C1Token::Greater,
            C1Token::LessEqual,
            C1Token::GreaterEqual,
            C1Token::And,
            C1Token::Or,
            C1Token::Comma,
            C1Token::Semicolon,
            C1Token::LeftParenthesis,
            C1Token::RightParenthesis,
            C1Token::LeftBrace,
            C1Token::RightBrace,
        ]
    );
}

#[test]
fn keyword_wins_over_identifier() {
    assert_eq!(tokens("if"), vec![one(C1Token::KwIf, "if", 1)]);
    assert_eq!(tokens("while"), vec![one(C1Token::KwWhile, "while", 1)]);
    assert_eq!(tokens("true"), vec![one(C1Token::ConstBoolean, "true", 1)]);
    assert_eq!(tokens("false"), vec![one(C1Token::ConstBoolean, "false", 1)]);
}

#[test]
fn longer_word_is_an_identifier() {
    assert_eq!(tokens("iff"), vec![one(C1Token::Identifier, "iff", 1)]);
    assert_eq!(tokens("if2"), vec![one(C1Token::Identifier, "if2", 1)]);
    assert_eq!(tokens("truex"), vec![one(C1Token::Identifier, "truex", 1)]);
    assert_eq!(tokens("integer"), vec![one(C1Token::Identifier, "integer", 1)]);
    assert_eq!(tokens("If"), vec![one(C1Token::Identifier, "If", 1)]);
    assert_eq!(tokens("Printf"), vec![one(C1Token::Identifier, "Printf", 1)]);
}

#[test]
fn identifiers_have_no_underscore() {
    assert_eq!(
        tokens("bar _foo"),
        vec![
            one(C1Token::Identifier, "bar", 1),
            one(C1Token::Error, "_", 1),
            one(C1Token::Identifier, "foo", 1),
        ]
    );
}

#[test]
fn digits_then_letters_are_two_tokens() {
    assert_eq!(
        tokens("12ab"),
        vec![one(C1Token::ConstInt, "12", 1), one(C1Token::Identifier, "ab", 1)]
    );
}

#[test]
fn two_character_operators_win() {
    assert_eq!(tokens("=="), vec![one(C1Token::Equal, "==", 1)]);
    assert_eq!(
        tokens("==="),
        vec![one(C1Token::Equal, "==", 1), one(C1Token::Assign, "=", 1)]
    );
    assert_eq!(
        tokens("<=>"),
        vec![one(C1Token::LessEqual, "<=", 1), one(C1Token::Greater, ">", 1)]
    );
    assert_eq!(
        tokens("= ="),
        vec![one(C1Token::Assign, "=", 1), one(C1Token::Assign, "=", 1)]
    );
}

#[test]
fn half_operators_are_errors() {
    assert_eq!(tokens("!"), vec![one(C1Token::Error, "!", 1)]);
    assert_eq!(tokens("&"), vec![one(C1Token::Error, "&", 1)]);
    assert_eq!(tokens("|"), vec![one(C1Token::Error, "|", 1)]);
    assert_eq!(
        tokens("&|"),
        vec![one(C1Token::Error, "&", 1), one(C1Token::Error, "|", 1)]
    );
}

#[test]
fn integers() {
    assert_eq!(tokens("0"), vec![one(C1Token::ConstInt, "0", 1)]);
    assert_eq!(tokens("0042"), vec![one(C1Token::ConstInt, "0042", 1)]);
}

#[test]
fn floats_take_the_longest_form() {
    assert_eq!(tokens("1.2"), vec![one(C1Token::ConstFloat, "1.2", 1)]);
    assert_eq!(tokens(".5"), vec![one(C1Token::ConstFloat, ".5", 1)]);
    assert_eq!(tokens(".5e3"), vec![one(C1Token::ConstFloat, ".5e3", 1)]);
    assert_eq!(tokens(".5E-3"), vec![one(C1Token::ConstFloat, ".5E-3", 1)]);
    assert_eq!(tokens("33E+2"), vec![one(C1Token::ConstFloat, "33E+2", 1)]);
    assert_eq!(tokens("7e1"), vec![one(C1Token::ConstFloat, "7e1", 1)]);
}

#[test]
fn float_with_point_takes_no_exponent() {
    assert_eq!(
        tokens("1.2e-10"),
        vec![
            one(C1Token::ConstFloat, "1.2", 1),
            one(C1Token::Identifier, "e", 1),
            one(C1Token::Minus, "-", 1),
            one(C1Token::ConstInt, "10", 1),
        ]
    );
}

#[test]
fn unfinished_numbers_fall_back() {
    assert_eq!(
        tokens("1."),
        vec![one(C1Token::ConstInt, "1", 1), one(C1Token::Error, ".", 1)]
    );
    assert_eq!(
        tokens("1e"),
        vec![one(C1Token::ConstInt, "1", 1), one(C1Token::Identifier, "e", 1)]
    );
    assert_eq!(
        tokens("1e+"),
        vec![
            one(C1Token::ConstInt, "1", 1),
            one(C1Token::Identifier, "e", 1),
            one(C1Token::Plus, "+", 1),
        ]
    );
    assert_eq!(
        tokens(".5e"),
        vec![one(C1Token::ConstFloat, ".5", 1), one(C1Token::Identifier, "e", 1)]
    );
    assert_eq!(
        tokens(".x"),
        vec![one(C1Token::Error, ".", 1), one(C1Token::Identifier, "x", 1)]
    );
    assert_eq!(
        tokens("1.2.3"),
        vec![one(C1Token::ConstFloat, "1.2", 1), one(C1Token::ConstFloat, ".3", 1)]
    );
}

#[test]
fn strings() {
    assert_eq!(tokens("\"\""), vec![one(C1Token::ConstString, "\"\"", 1)]);
    assert_eq!(
        tokens("\"a b /* c */ // d\""),
        vec![one(C1Token::ConstString, "\"a b /* c */ // d\"", 1)]
    );
    assert_eq!(
        tokens("\"gr\u{fc}\u{df}e\" x"),
        vec![
            one(C1Token::ConstString, "\"gr\u{fc}\u{df}e\"", 1),
            one(C1Token::Identifier, "x", 1),
        ]
    );
}

#[test]
fn string_does_not_cross_a_line() {
    assert_eq!(
        tokens("\"ab\ncd\""),
        vec![
            one(C1Token::Error, "\"", 1),
            one(C1Token::Identifier, "ab", 1),
            one(C1Token::Identifier, "cd", 2),
            one(C1Token::Error, "\"", 2),
        ]
    );
}

#[test]
fn unknown_characters_are_errors_of_one_character() {
    assert_eq!(tokens("#"), vec![one(C1Token::Error, "#", 1)]);
    assert_eq!(tokens("\r"), vec![one(C1Token::Error, "\r", 1)]);
    assert_eq!(
        tokens("\u{e4}\u{20ac}\u{1f600}x"),
        vec![
            one(C1Token::Error, "\u{e4}", 1),
            one(C1Token::Error, "\u{20ac}", 1),
            one(C1Token::Error, "\u{1f600}", 1),
            one(C1Token::Identifier, "x", 1),
        ]
    );
}

#[test]
fn blanks_are_dropped() {
    assert_eq!(
        tokens(" \t\x0c a \t b"),
        vec![one(C1Token::Identifier, "a", 1), one(C1Token::Identifier, "b", 1)]
    );
    assert_eq!(tokens(" \t "), vec![]);
}

#[test]
fn line_comment_runs_to_the_end_of_the_line() {
    assert_eq!(tokens("// a b c"), vec![]);
    assert_eq!(tokens("x // y\n"), vec![one(C1Token::Identifier, "x", 1)]);
    assert_eq!(tokens("//"), vec![]);
    assert_eq!(
        tokens("a / b"),
        vec![
            one(C1Token::Identifier, "a", 1),
            one(C1Token::Slash, "/", 1),
            one(C1Token::Identifier, "b", 1),
        ]
    );
}

#[test]
fn block_comment_is_dropped() {
    assert_eq!(
        tokens("a /* b c */ d"),
        vec![one(C1Token::Identifier, "a", 1), one(C1Token::Identifier, "d", 1)]
    );
    assert_eq!(tokens("/**/"), vec![]);
}

#[test]
fn block_comment_runs_to_the_first_close() {
    assert_eq!(tokens("/* a * b */"), vec![]);
    assert_eq!(tokens("/* a*b */"), vec![]);
    assert_eq!(tokens("/***/"), vec![]);
    assert_eq!(tokens("/* a / b // c */ x"), vec![one(C1Token::Identifier, "x", 1)]);
    assert_eq!(tokens("/* /* */ x"), vec![one(C1Token::Identifier, "x", 1)]);
    assert_eq!(
        tokens("/* \"s */ \"t\""),
        vec![one(C1Token::ConstString, "\"t\"", 1)]
    );
    assert_eq!(
        tokens("/* a */ b */"),
        vec![
            one(C1Token::Identifier, "b", 1),
            one(C1Token::Asterisk, "*", 1),
            one(C1Token::Slash, "/", 1),
        ]
    );
    assert_eq!(
        tokens("/* gr\u{fc}\u{df}e \u{20ac} */ x"),
        vec![one(C1Token::Identifier, "x", 1)]
    );
}

#[test]
fn block_comment_without_a_close_is_no_comment() {
    assert_eq!(
        tokens("/* a"),
        vec![
            one(C1Token::Slash, "/", 1),
            one(C1Token::Asterisk, "*", 1),
            one(C1Token::Identifier, "a", 1),
        ]
    );
    assert_eq!(
        tokens("/*/"),
        vec![
            one(C1Token::Slash, "/", 1),
            one(C1Token::Asterisk, "*", 1),
            one(C1Token::Slash, "/", 1),
        ]
    );
    assert_eq!(
        tokens("/* a *"),
        vec![
            one(C1Token::Slash, "/", 1),
            one(C1Token::Asterisk, "*", 1),
            one(C1Token::Identifier, "a", 1),
            one(C1Token::Asterisk, "*", 1),
        ]
    );
}

#[test]
fn every_bare_newline_starts_a_line() {
    assert_eq!(
        tokens("a\nb\n\n\nc"),
        vec![
            one(C1Token::Identifier, "a", 1),
            one(C1Token::Identifier, "b", 2),
            one(C1Token::Identifier, "c", 5),
        ]
    );
    assert_eq!(tokens("\n\n x"), vec![one(C1Token::Identifier, "x", 3)]);
}

#[test]
fn newlines_in_a_block_comment_start_no_line() {
    assert_eq!(
        tokens("a /* one\ntwo\nthree */ b\nc"),
        vec![
            one(C1Token::Identifier, "a", 1),
            one(C1Token::Identifier, "b", 1),
            one(C1Token::Identifier, "c", 2),
        ]
    );
}

#[test]
fn newline_after_a_line_comment_starts_a_line() {
    assert_eq!(
        tokens("a // note\nb\nc"),
        vec![
            one(C1Token::Identifier, "a", 1),
            one(C1Token::Identifier, "b", 2),
            one(C1Token::Identifier, "c", 3),
        ]
    );
    assert_eq!(tokens("// c\nx"), vec![one(C1Token::Identifier, "x", 2)]);
    assert_eq!(tokens("//\n//\n\nx // y"), vec![one(C1Token::Identifier, "x", 4)]);
    let lexer = C1Lexer::new("// c\nx");
    assert_eq!(lexer.current_text(), Some("x"));
    assert_eq!(lexer.current_line_number(), Some(2));
}

#[test]
fn line_number_counts_the_newlines_outside_block_comments() {
    let text = "a // one\n/* two\nthree\n*/ b\n\"s\"\n\n// four\n  c /* five */ d\n/*\n*/\ne";
    let expected: Vec<(&str, usize)> =
        vec![("a", 1), ("b", 2), ("\"s\"", 3), ("c", 6), ("d", 6), ("e", 8)];
    let found = tokens(text);
    assert_eq!(found.len(), expected.len());
    for (token, (word, line)) in found.iter().zip(expected) {
        assert_eq!(token.1, word);
        assert_eq!(token.2, line);
    }
}

#[test]
fn text_that_ends_in_newlines() {
    assert_eq!(tokens("a\n\n"), vec![one(C1Token::Identifier, "a", 1)]);
    assert_eq!(tokens("\n"), vec![]);
}

#[test]
fn two_lexers_share_nothing() {
    let first = tokens("a\nb // c\nd /* \n */ e");
    let second = tokens("a\nb // c\nd /* \n */ e");
    assert_eq!(first, second);
    assert_eq!(tokens("x")[0].2, 1);
}

#[test]
fn peek_is_one_ahead_of_current() {
    let mut lexer = C1Lexer::new("a = 1 ;");
    let all = tokens("a = 1 ;");
    let mut index = 0;
    while lexer.current_token().is_some() {
        assert_eq!(lexer.current_token(), Some(all[index].0));
        assert_eq!(lexer.current_text(), Some(all[index].1.as_str()));
        assert_eq!(lexer.peek_token(), all.get(index + 1).map(|t| t.0));
        assert_eq!(lexer.peek_text(), all.get(index + 1).map(|t| t.1.as_str()));
        assert_eq!(lexer.peek_line_number(), all.get(index + 1).map(|t| t.2));
        lexer.eat();
        index += 1;
    }
    assert_eq!(index, 4);
}
