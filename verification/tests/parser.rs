use c1_parser::{C1Parser, ParseResult};

fn call_method<'a, F>(parse_method: F, text: &'static str) -> ParseResult
where
    F: Fn(&mut C1Parser<'a>) -> ParseResult,
{
    let mut parser = C1Parser::initialize_parser(text);
    if let Err(message) = parse_method(&mut parser) {
        println!("Parse Error: {}", message);
        Err(message)
    } else {
        Ok(())
    }
}

#[test]
fn valid_statement() {
    assert!(call_method(C1Parser::statement, "foo();").is_ok());
    assert!(call_method(C1Parser::statement, "if(x==y){}").is_ok());
    assert!(call_method(C1Parser::statement, "return x;").is_ok());
    assert!(call_method(C1Parser::statement, "x=y;").is_ok());
    assert!(call_method(C1Parser::statement, "x=a+b;").is_ok());
}

#[test]
fn valid_blocks() {
    assert!(call_method(C1Parser::block, "{}").is_ok());
    assert!(call_method(C1Parser::block, "{}{}").is_ok());
    assert!(call_method(C1Parser::block, "{{}}").is_ok());
    assert!(call_method(C1Parser::block, "{} x=y;").is_ok());
    assert!(call_method(C1Parser::block, "x=y;").is_ok());
    assert!(call_method(C1Parser::block, "x=y;{}").is_ok());
    assert!(call_method(C1Parser::block, "if(x==y){}{}").is_ok());
}

#[test]
fn parse_empty_program() {
    let result = C1Parser::parse("");
    assert_eq!(result, Ok(()));

    let result = C1Parser::parse("   ");
    assert_eq!(result, Ok(()));

    let result = C1Parser::parse("// This is a valid comment!");
    assert_eq!(result, Ok(()));

    let result = C1Parser::parse("/* This is a valid comment!\nIn two lines!*/\n");
    assert_eq!(result, Ok(()));

    let result = C1Parser::parse("  \n ");
    assert_eq!(result, Ok(()));
}

#[test]
fn fail_invalid_program() {
    let result = C1Parser::parse("  bool  ");
    println!("{:?}", result);
    assert!(result.is_err());

    let result = C1Parser::parse("x = 0;");
    println!("{:?}", result);
    assert!(result.is_err());

    let result = C1Parser::parse("// A valid comment\nInvalid line.");
    println!("{:?}", result);
    assert!(result.is_err());
}

#[test]
fn valid_function() {
    let result = C1Parser::parse("  void foo() {}  ");
    assert!(result.is_ok());

    let result = C1Parser::parse("int bar() {return 0;}");
    assert!(result.is_ok());

    let result = C1Parser::parse(
        "float calc() {\n\
        x = 1.0;
        y = 2.2;
        return x + y;
        \n\
        }",
    );
    assert!(result.is_ok());

    let result = C1Parser::parse(
        "int blub() {\n\
			blub1 = 23;\n\
			blub2 = 17;\n\
			blub3 = 42;\n\
			blub4 = blub1 * (blub2 + blub3);\n\
			if (blub1 < blub4) return blub2;\n\
			return blub3;\n\
		}",
    );
    assert!(result.is_ok());
}

#[test]
fn fail_invalid_function() {
    let result = C1Parser::parse("  void foo()) {}  ");
    println!("{:?}", result);
    assert!(result.is_err());

    let result = C1Parser::parse("const bar() {return 0;}");
    println!("{:?}", result);
    assert!(result.is_err());

    let result = C1Parser::parse(
        "int bar() {
                                                          return 0;
                                                     int foo() {}",
    );
    println!("{:?}", result);
    assert!(result.is_err());

    let result = C1Parser::parse(
        "float calc(int invalid) {\n\
        x = 1.0;
        y = 2.2;
        return x + y;
        \n\
        }",
    );
    println!("{:?}", result);
    assert!(result.is_err());
}

#[test]
fn valid_function_call() {
    assert!(call_method(C1Parser::function_call, "foo()").is_ok());
    assert!(call_method(C1Parser::function_call, "foo( )").is_ok());
    assert!(call_method(C1Parser::function_call, "bar23( )").is_ok());
}

#[test]
fn fail_invalid_function_call() {
    assert!(call_method(C1Parser::function_call, "foo)").is_err());
    assert!(call_method(C1Parser::function_call, "foo{ )").is_err());
    assert!(call_method(C1Parser::function_call, "bar _foo( )").is_err());
}

#[test]
fn valid_statement_list() {
    assert!(call_method(C1Parser::statement_list, "x = 4;").is_ok());
    assert!(call_method(
        C1Parser::statement_list,
        "x = 4;\n\
        y = 2.1;"
    )
    .is_ok());
    assert!(call_method(
        C1Parser::statement_list,
        "x = 4;\n\
        {\
        foo();\n\
        }"
    )
    .is_ok());
    assert!(call_method(C1Parser::statement_list, "{x = 4;}\ny = 1;\nfoo();\n{}").is_ok());
}

#[test]
fn fail_invalid_statement_list() {
    assert!(call_method(
        C1Parser::statement_list,
        "x = 4\n\
        y = 2.1;"
    )
    .is_err());
    assert!(call_method(
        C1Parser::statement_list,
        "x = 4;\n\
        {\
        foo();"
    )
    .is_err());
    assert!(call_method(C1Parser::statement_list, "{x = 4;\ny = 1;\nfoo;\n{}").is_err());
}

#[test]
fn valid_if_statement() {
    assert!(call_method(C1Parser::if_statement, "if(x == 1) {}").is_ok());
    assert!(call_method(C1Parser::if_statement, "if(x == y) {}").is_ok());
    assert!(call_method(C1Parser::if_statement, "if(z) {}").is_ok());
    assert!(call_method(C1Parser::if_statement, "if(true) {}").is_ok());
    assert!(call_method(C1Parser::if_statement, "if(false) {}").is_ok());
}

#[test]
fn fail_invalid_if_statement() {
    assert!(call_method(C1Parser::if_statement, "if(x == ) {}").is_err());
    assert!(call_method(C1Parser::if_statement, "if( == y) {}").is_err());
    assert!(call_method(C1Parser::if_statement, "if(> z) {}").is_err());
    assert!(call_method(C1Parser::if_statement, "if( {}").is_err());
    assert!(call_method(C1Parser::if_statement, "if(false) }").is_err());
}

#[test]
fn valid_return_statement() {
    assert!(call_method(C1Parser::return_statement, "return x").is_ok());
    assert!(call_method(C1Parser::return_statement, "return 1").is_ok());
    assert!(call_method(C1Parser::return_statement, "return").is_ok());
}

#[test]
fn fail_invalid_return_statement() {
    assert!(call_method(C1Parser::return_statement, "1").is_err());
}

#[test]
fn valid_printf_statement() {
    assert!(call_method(C1Parser::printf, " printf(a+b)").is_ok());
    assert!(call_method(C1Parser::printf, "printf( 1)").is_ok());
    assert!(call_method(C1Parser::printf, "printf(a - c)").is_ok());
}

#[test]
fn fail_invalid_printf_statement() {
    assert!(call_method(C1Parser::printf, "printf( ").is_err());
    assert!(call_method(C1Parser::printf, "printf(printf)").is_err());
    assert!(call_method(C1Parser::printf, "Printf()").is_err());
}

#[test]
fn valid_return_type() {
    assert!(call_method(C1Parser::return_type, "void").is_ok());
    assert!(call_method(C1Parser::return_type, "bool").is_ok());
    assert!(call_method(C1Parser::return_type, "int").is_ok());
    assert!(call_method(C1Parser::return_type, "float").is_ok());
}

#[test]
fn valid_assignment() {
    assert!(call_method(C1Parser::assignment, "x = y").is_ok());
    assert!(call_method(C1Parser::assignment, "x =y").is_ok());
    assert!(call_method(C1Parser::assignment, "1 + 2").is_ok());
}

#[test]
fn valid_stat_assignment() {
    assert!(call_method(C1Parser::stat_assignment, "x = y").is_ok());
    assert!(call_method(C1Parser::stat_assignment, "x =y").is_ok());
    assert!(call_method(C1Parser::stat_assignment, "x =y + t").is_ok());
}

#[test]
fn valid_factor() {
    assert!(call_method(C1Parser::factor, "4").is_ok());
    assert!(call_method(C1Parser::factor, "1.2").is_ok());
    assert!(call_method(C1Parser::factor, "true").is_ok());
    assert!(call_method(C1Parser::factor, "foo()").is_ok());
    assert!(call_method(C1Parser::factor, "x").is_ok());
    assert!(call_method(C1Parser::factor, "(x + y)").is_ok());
}

#[test]
fn fail_invalid_factor() {
    assert!(call_method(C1Parser::factor, "if").is_err());
    assert!(call_method(C1Parser::factor, "(4").is_err());
    assert!(call_method(C1Parser::factor, "bool").is_err());
}

#[test]
fn multiple_functions() {
    assert!(call_method(
        C1Parser::program,
        "void main() { hello();}\nfloat bar() {return 1.0;}"
    )
    .is_ok());
}
