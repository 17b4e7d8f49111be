use c1_parser::{C1Parser, ParseResult};

fn fails_with(result: ParseResult, message: &str) {
    assert_eq!(result, Err(message.to_string()));
}

#[test]
fn top_level_statement_is_no_program() {
    fails_with(C1Parser::parse("x = 1;"), "unexpected type at line 1 with text: 'x'");
}

#[test]
fn comments_alone_are_a_program() {
    assert_eq!(C1Parser::parse("/* a*b */"), Ok(()));
    assert_eq!(C1Parser::parse("/* a / b */ // c * d\n/***/"), Ok(()));
    assert_eq!(C1Parser::parse("void f() { x = a /* b * c */ * d; }"), Ok(()));
}

#[test]
fn small_programs_parse() {
    assert_eq!(C1Parser::parse("void main(){}"), Ok(()));
    assert_eq!(C1Parser::parse("int f() { return 1; }"), Ok(()));
}

#[test]
fn end_of_text_is_reported() {
    fails_with(C1Parser::parse("  bool  "), "unexpected token. Reached EOF");
    fails_with(C1Parser::parse("int f() {"), "unexpected token. Reached EOF");
    fails_with(C1Parser::parse("int f() { return"), "unexpected token. Reached EOF");
    fails_with(C1Parser::parse("int f() { x = "), "unexpected token. Reached EOF");
}

#[test]
fn refused_token_is_named_with_its_line() {
    fails_with(
        C1Parser::parse("int f() {\n  x = 4\n  y = 2;\n}"),
        "unexpected token at line 3 with text: 'y'",
    );
    fails_with(
        C1Parser::parse("void foo()) {}"),
        "unexpected token at line 1 with text: ')'",
    );
    fails_with(
        C1Parser::parse("const bar() {return 0;}"),
        "unexpected type at line 1 with text: 'const'",
    );
    fails_with(
        C1Parser::parse("// A valid comment\nInvalid line."),
        "unexpected type at line 2 with text: 'Invalid'",
    );
    fails_with(
        C1Parser::parse("void f() { // one\n x = 1; // two\n y = ; // three\n}"),
        "unexpected token at line 3 with text: ';'",
    );
    fails_with(
        C1Parser::parse("void f() { /* one\n two */ x = 1 /* * / */ y }"),
        "unexpected token at line 1 with text: 'y'",
    );
    fails_with(
        C1Parser::parse("void f() {}\n\nInvalid"),
        "unexpected type at line 3 with text: 'Invalid'",
    );
}

#[test]
fn empty_statement_is_reported() {
    let mut parser = C1Parser::initialize_parser(";");
    fails_with(parser.statement(), "empty statement at line 1 with text: ';'");
    let mut parser = C1Parser::initialize_parser("");
    fails_with(parser.statement(), "empty statement. Reached EOF");
    fails_with(
        C1Parser::parse("void f() { ; }"),
        "empty statement at line 1 with text: ';'",
    );
    fails_with(
        C1Parser::parse("void f() { 1 + 2; }"),
        "empty statement at line 1 with text: '1'",
    );
}

#[test]
fn unexpected_type_is_reported() {
    let mut parser = C1Parser::initialize_parser("string");
    fails_with(parser.return_type(), "unexpected type at line 1 with text: 'string'");
    let mut parser = C1Parser::initialize_parser("");
    fails_with(parser.return_type(), "unexpected type. Reached EOF");
}

#[test]
fn if_statement_with_and_without_operand() {
    let mut parser = C1Parser::initialize_parser("if(x==1){}");
    assert_eq!(parser.if_statement(), Ok(()));
    let mut parser = C1Parser::initialize_parser("if(x == ) {}");
    fails_with(parser.if_statement(), "unexpected token at line 1 with text: ')'");
    let mut parser = C1Parser::initialize_parser("if(x ==\n\n ) {}");
    fails_with(parser.if_statement(), "unexpected token at line 3 with text: ')'");
}

#[test]
fn identifier_as_factor_and_as_statement() {
    let mut parser = C1Parser::initialize_parser("foo()");
    assert_eq!(parser.factor(), Ok(()));
    let mut parser = C1Parser::initialize_parser("foo");
    assert_eq!(parser.factor(), Ok(()));
    let mut parser = C1Parser::initialize_parser("foo;");
    fails_with(parser.statement(), "unexpected token at line 1 with text: ';'");
}

#[test]
fn error_token_is_refused_by_the_grammar() {
    fails_with(
        C1Parser::parse("void f() { x = 1 # 2; }"),
        "unexpected token at line 1 with text: '#'",
    );
    fails_with(
        C1Parser::parse("void f() { x = \u{20ac}; }"),
        "unexpected token at line 1 with text: '\u{20ac}'",
    );
    fails_with(
        C1Parser::parse("void f() {\r\n}"),
        "empty statement at line 1 with text: '\r'",
    );
}

#[test]
fn string_constant_is_no_factor() {
    fails_with(
        C1Parser::parse("void f() { printf(\"hi\"); }"),
        "unexpected token at line 1 with text: '\"hi\"'",
    );
}

#[test]
fn line_numbers_of_several_digits() {
    let mut text = String::from("void f() {\n");
    for _ in 0..10 {
        text.push_str("x = 1;\n");
    }
    text.push_str("y");
    fails_with(C1Parser::parse(&text), "unexpected token. Reached EOF");
    text.push_str(" 7");
    fails_with(C1Parser::parse(&text), "unexpected token at line 12 with text: '7'");

    let mut text = String::new();
    for _ in 0..1204 {
        text.push('\n');
    }
    text.push_str("oops");
    fails_with(C1Parser::parse(&text), "unexpected type at line 1205 with text: 'oops'");

    let mut text = String::new();
    for _ in 0..99 {
        text.push('\n');
    }
    text.push_str("oops");
    fails_with(C1Parser::parse(&text), "unexpected type at line 100 with text: 'oops'");
}

#[test]
fn parse_is_repeatable() {
    for text in ["void main(){}", "x = 1;", "int f() { return 1 }", "", "int f() { if (a < b < c) {} }"]
    {
        let first = C1Parser::parse(text);
        let second = C1Parser::parse(text);
        assert_eq!(first, second);
    }
}

#[test]
fn routine_stops_at_the_refused_token() {
    let mut parser = C1Parser::initialize_parser("x = (1 + ; y");
    fails_with(parser.stat_assignment(), "unexpected token at line 1 with text: ';'");
    fails_with(parser.expect_token(c1_parser::C1Token::Identifier), "unexpected token at line 1 with text: ';'");
    assert_eq!(parser.expect_token(c1_parser::C1Token::Semicolon), Ok(()));
    assert_eq!(parser.expect_token(c1_parser::C1Token::Identifier), Ok(()));
    fails_with(parser.expect_token(c1_parser::C1Token::Identifier), "unexpected token. Reached EOF");
}

#[test]
fn refusal_does_not_depend_on_what_follows() {
    let refused = "unexpected token at line 2 with text: ')'";
    for rest in ["", " {}", " ; } int g() {}", " ) ) )", "\n\n# \"", " x = 1; }"] {
        let text = format!("void f() {{\n x = ( 1 + ) {}", rest);
        fails_with(C1Parser::parse(&text), refused);
    }
}

#[test]
fn tokens_before_a_refusal_start_a_program() {
    let cut_short = [
        ("void f() { x = ( 1 + ", "y ) ; }"),
        ("void f() { if ( a < ", "b ) { } }"),
        ("void f() { printf ", "( x ) ; }"),
        ("void f() { return a * ", "b ; }"),
        ("void f() { { { g ( ", ") ; } } }"),
        ("void f() { g ", "( ) ; }"),
        ("void f ( ", ") { }"),
        ("void ", "f ( ) { }"),
        ("int f() { } ", ""),
        ("int f() { if (x) ", "return ; }"),
    ];
    for (start, rest) in cut_short {
        assert_eq!(
            C1Parser::parse(start).is_err(),
            !start.trim_end().ends_with('}'),
            "{}",
            start
        );
        assert_eq!(C1Parser::parse(&format!("{}{}", start, rest)), Ok(()), "{}{}", start, rest);
    }
    fails_with(
        C1Parser::parse("void f() { x = ( 1 + ; }"),
        "unexpected token at line 1 with text: ';'",
    );
    assert_eq!(C1Parser::parse("void f() { x = ( 1 + y ) ; }"), Ok(()));
}
