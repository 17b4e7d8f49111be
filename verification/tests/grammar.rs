use c1_parser::{C1Parser, ParseResult};

fn accepted(text: &str) -> bool {
    C1Parser::parse(text).is_ok()
}

fn in_function(body: &str) -> bool {
    accepted(&format!("void f() {{ {} }}", body))
}

fn run<'a, F>(routine: F, text: &'a str) -> ParseResult
where
    F: Fn(&mut C1Parser<'a>) -> ParseResult,
{
    let mut parser = C1Parser::initialize_parser(text);
    routine(&mut parser)
}

#[test]
fn programs_are_sequences_of_functions() {
    assert!(accepted(""));
    assert!(accepted("void a() {} int b() {} float c() {} bool d() {}"));
    assert!(!accepted("void a() {} x"));
    assert!(!accepted("void a() {} }"));
    assert!(!accepted("void a() {};"));
    assert!(!accepted("void a(int x) {}"));
    assert!(!accepted("a() {}"));
    assert!(!accepted("void () {}"));
    assert!(!accepted("void a() {"));
    assert!(!accepted("void a()"));
}

#[test]
fn statements() {
    assert!(in_function("return;"));
    assert!(in_function("return 1;"));
    assert!(in_function("return x = y = 3;"));
    assert!(in_function("printf(x);"));
    assert!(in_function("printf(x = 1);"));
    assert!(in_function("x = 1;"));
    assert!(in_function("f();"));
    assert!(in_function("if (x) y = 1;"));
    assert!(in_function("if (x) { y = 1; z = 2; }"));
    assert!(in_function("if (x) if (y) z();"));
    assert!(in_function("{ } { { } } x = 1; { y(); }"));
    assert!(!in_function("x;"));
    assert!(!in_function("x + 1;"));
    assert!(!in_function("1;"));
    assert!(!in_function("printf();"));
    assert!(!in_function("printf(x)"));
    assert!(!in_function("return 1"));
    assert!(!in_function("f(x);"));
    assert!(!in_function("if x { }"));
    assert!(!in_function("if () { }"));
    assert!(!in_function("if (x)"));
    assert!(!in_function("if (x) { } else { }"));
    assert!(!in_function("while (x) { }"));
    assert!(!in_function("for (;;) { }"));
    assert!(!in_function("do { } while (x);"));
    assert!(!in_function("int x;"));
    assert!(!in_function("{"));
}

#[test]
fn chained_assignment_is_taken_from_the_right() {
    assert!(in_function("x = y = z = 1;"));
    assert!(in_function("x = (y = 1) + 2;"));
    assert!(!in_function("x = 1 = y;"));
    assert!(!in_function("x = y + z = 1;"));
    assert!(!in_function("1 = x;"));
}

#[test]
fn relational_operators_do_not_chain() {
    assert!(in_function("x = a < b;"));
    assert!(in_function("x = a == b;"));
    assert!(in_function("x = a != b;"));
    assert!(in_function("x = a <= b;"));
    assert!(in_function("x = a >= b;"));
    assert!(in_function("x = a > b;"));
    assert!(in_function("x = (a < b) < c;"));
    assert!(!in_function("x = a < b < c;"));
    assert!(!in_function("x = a == b == c;"));
    assert!(!in_function("if (a < b > c) { }"));
}

#[test]
fn minus_only_leads_a_simple_expression() {
    assert!(in_function("x = -a;"));
    assert!(in_function("x = -a + b;"));
    assert!(in_function("x = a - b;"));
    assert!(in_function("x = a < -b;"));
    assert!(in_function("x = -(-a);"));
    assert!(in_function("x = a + (-b);"));
    assert!(!in_function("x = --a;"));
    assert!(!in_function("x = a + -b;"));
    assert!(!in_function("x = a * -b;"));
    assert!(!in_function("x = +a;"));
}

#[test]
fn operators_of_each_level() {
    assert!(in_function("x = a * b / c && d;"));
    assert!(in_function("x = a + b - c || d;"));
    assert!(in_function("x = a + b * c - d / e;"));
    assert!(in_function("x = 1 + 2.5 * true - f() / (g() + y);"));
    assert!(!in_function("x = a +;"));
    assert!(!in_function("x = a * ;"));
    assert!(!in_function("x = * a;"));
    assert!(!in_function("x = (a;"));
    assert!(!in_function("x = a);"));
    assert!(!in_function("x = a b;"));
    assert!(!in_function("x = a , b;"));
}

#[test]
fn factors() {
    assert!(run(C1Parser::factor, "1").is_ok());
    assert!(run(C1Parser::factor, "1.5").is_ok());
    assert!(run(C1Parser::factor, "false").is_ok());
    assert!(run(C1Parser::factor, "f()").is_ok());
    assert!(run(C1Parser::factor, "((x))").is_ok());
    assert!(run(C1Parser::factor, "(x = 1)").is_ok());
    assert!(run(C1Parser::factor, "f(").is_err());
    assert!(run(C1Parser::factor, "f(1)").is_err());
    assert!(run(C1Parser::factor, "()").is_err());
    assert!(run(C1Parser::factor, "\"text\"").is_err());
    assert!(run(C1Parser::factor, "-1").is_err());
    assert!(run(C1Parser::factor, "").is_err());
}

#[test]
fn routines_take_a_phrase_and_leave_the_rest() {
    let mut parser = C1Parser::initialize_parser("a * b + c < d = e");
    assert!(parser.term().is_ok());
    assert!(parser.expect_token(c1_parser::C1Token::Plus).is_ok());
    assert!(parser.simpexpr().is_ok());
    assert!(parser.expect_token(c1_parser::C1Token::Less).is_ok());
    assert!(parser.expr().is_ok());
    assert!(parser.expect_token(c1_parser::C1Token::Assign).is_ok());
    assert!(parser.assignment().is_ok());
    assert!(parser.program().is_ok());
}

#[test]
fn statement_list_stops_at_a_closing_brace() {
    let mut parser = C1Parser::initialize_parser("x = 1; } y = 2;");
    assert!(parser.statement_list().is_ok());
    assert!(parser.expect_token(c1_parser::C1Token::RightBrace).is_ok());
    assert!(parser.statement_list().is_ok());
    assert!(parser.statement_list().is_ok());
    assert!(parser.expect_token(c1_parser::C1Token::RightBrace).is_err());
}

#[test]
fn return_statement_without_a_value() {
    assert!(run(C1Parser::return_statement, "return ;").is_ok());
    assert!(run(C1Parser::return_statement, "return").is_ok());
    assert!(run(C1Parser::return_statement, "return }").is_err());
    assert!(run(C1Parser::return_statement, "x").is_err());
}

#[test]
fn function_definition_takes_one_function() {
    let mut parser = C1Parser::initialize_parser("int f() { } int g() { }");
    assert!(parser.function_definition().is_ok());
    assert!(parser.function_definition().is_ok());
    assert!(parser.function_definition().is_err());
}

#[test]
fn comments_and_blanks_between_tokens() {
    assert!(accepted("void /* a */ main // b\n ( /* c\n d */ ) {\n\t}\n"));
    assert!(accepted("void main(){x=1;y=x+2;if(x<y){return;}}"));
}

#[test]
fn parser_hands_out_its_lexer() {
    let mut parser = C1Parser::initialize_parser("x = 1 ;\ny");
    assert_eq!(parser.current_token(), Some(c1_parser::C1Token::Identifier));
    assert_eq!(parser.peek_token(), Some(c1_parser::C1Token::Assign));
    assert!(parser.stat_assignment().is_ok());
    assert_eq!(parser.current_text(), Some(";"));
    assert_eq!(parser.current_line_number(), Some(1));
    assert_eq!(parser.peek_text(), Some("y"));
    assert_eq!(parser.peek_line_number(), Some(2));
    parser.eat();
    assert_eq!(parser.current_text(), Some("y"));
    assert_eq!(parser.peek_token(), None);
    assert!(parser.factor().is_ok());
    assert_eq!(parser.current_token(), None);
}
