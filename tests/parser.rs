use monkey::ast::{Expression, Program, Statement};
use monkey::grammar::{InfixHandler, PrefixHandler, LOWEST};
use monkey::lexer::Lexer;
use monkey::parser::{parse, parse_decimal, Parser};
use monkey::token::TokenKind;

fn check_parser_errors(p: &Parser) {
    let errors = p.errors();
    if errors.is_empty() {
        return;
    }
    println!("parser has {:?} errors", errors.len());
    for msg in errors {
        println!("parser error: {:?}", String::from_utf8_lossy(&msg));
    }
    panic!("errors");
}

fn parse_ok(input: &str) -> Program {
    let l = Lexer::new(input.as_bytes().to_vec());
    let mut p = Parser::new(l);
    let program = p.parse_program();
    check_parser_errors(&p);
    program
}

fn messages(errors: Vec<Vec<u8>>) -> Vec<String> {
    errors.into_iter().map(|m| String::from_utf8(m).unwrap()).collect()
}

fn expression_text(input: &str) -> String {
    let program = parse_ok(input);
    assert_eq!(program.statements.len(), 1);
    String::from_utf8(program.statements[0].string()).unwrap()
}

#[test]
fn main_test_identifier_expression() {
    let input = "foobar;";
    let l = Lexer::new(input.as_bytes().to_vec());
    let mut p = Parser::new(l);
    p.parse_program();
    check_parser_errors(&p);
}

#[test]
fn main_test_integer_literal_expression() {
    let input = "5;";
    let l = Lexer::new(input.as_bytes().to_vec());
    let mut p = Parser::new(l);
    let program = p.parse_program();
    check_parser_errors(&p);
    if program.statements.len() != 1 {
        panic!("program has not enough statements. got={:?}", program.statements.len());
    }
    let stmt = match &program.statements[0] {
        Statement::Expression(x) => x,
        other => panic!("program.statements[0] is not ast::ExpressionStatement. got {:?}", other),
    };
    let literal = match &stmt.expression {
        Expression::IntegerLiteral(x) => x,
        other => panic!("program.statements[0] is not ast::ExpressionStatement. got {:?}", other),
    };
    if literal.value != 5 {
        panic!("literal.value not {:?}. got={:?}", 5, literal.value);
    }
    if literal.token_literal() != b"5".to_vec() {
        panic!("literal.token_literal() not {:?}. got={:?}", "5", literal.token_literal());
    }
}

#[test]
fn test_expression_test_identifier_expression() {
    let input = "foobar;";
    let l = Lexer::new(input.as_bytes().to_vec());
    let mut p = Parser::new(l);
    let program = p.parse_program();
    check_parser_errors(&p);
    assert_eq!(program.statements.len(), 1);
    match &program.statements[0] {
        Statement::Expression(s) => match &s.expression {
            Expression::Identifier(id) => {
                assert_eq!(id.value, b"foobar".to_vec());
                assert_eq!(id.token_literal(), b"foobar".to_vec());
            }
            other => panic!("expression is not an identifier: {:?}", other),
        },
        other => panic!("statement is not an expression statement: {:?}", other),
    }
}

#[test]
fn test_expression_test_integer_literal_expression() {
    let input = "5;";
    let l = Lexer::new(input.as_bytes().to_vec());
    let mut p = Parser::new(l);
    let program = p.parse_program();
    check_parser_errors(&p);
    if program.statements.len() != 1 {
        panic!("program has not enough statements. got={:?}", program.statements.len());
    }
    let stmt = match &program.statements[0] {
        Statement::Expression(x) => {
            println!("{:?}", x.token_literal());
            x
        }
        other => panic!("program.statements[0] is not ast::ExpressionStatement. got {:?}", other),
    };
    let literal = match &stmt.expression {
        Expression::IntegerLiteral(x) => x,
        other => panic!("Expression is not ast::IntegerLiteral. got {:?}", other),
    };
    if literal.value != 5 {
        panic!("literal.value not {:?}. got={:?}", 5, literal.value);
    }
    if literal.token_literal() != b"5".to_vec() {
        panic!("literal.token_literal() not {:?}. got={:?}", "5", literal.token_literal());
    }
}

#[test]
fn test_let_statements() {
    let input = "let x = 5;
        let y = 10;
        let foobar = 838383;
        return ;
        ";
    let l = Lexer::new(input.as_bytes().to_vec());
    let mut p = Parser::new(l);
    let program = p.parse_program();
    check_parser_errors(&p);
    assert_eq!(program.statements.len(), 4);
    let names = ["x", "y", "foobar"];
    for (stmt, name) in program.statements.iter().zip(names.iter()) {
        match stmt {
            Statement::Let(s) => {
                assert_eq!(s.token_literal(), b"let".to_vec());
                assert_eq!(s.name.value, name.as_bytes().to_vec());
            }
            other => panic!("not a let statement: {:?}", other),
        }
    }
    match &program.statements[3] {
        Statement::Return(s) => assert!(s.return_value.is_none()),
        other => panic!("not a return statement: {:?}", other),
    }
}

#[test]
fn let_statement_has_name_and_value() {
    let program = parse_ok("let x = 5;");
    assert_eq!(program.statements.len(), 1);
    match &program.statements[0] {
        Statement::Let(s) => {
            assert_eq!(s.name.value, b"x".to_vec());
            assert_eq!(s.name.token.kind, TokenKind::Ident);
            match &s.value {
                Expression::IntegerLiteral(lit) => assert_eq!(lit.value, 5),
                other => panic!("value is not an integer: {:?}", other),
            }
        }
        other => panic!("not a let statement: {:?}", other),
    }
}

#[test]
fn missing_assign_is_one_diagnostic() {
    let l = Lexer::new(b"let x 5;".to_vec());
    let mut p = Parser::new(l);
    let program = p.parse_program();
    assert_eq!(program.statements.len(), 0);
    assert_eq!(
        messages(p.errors()),
        vec!["expected next token to be =, got INT instead".to_string()]
    );
}

#[test]
fn return_statement_with_value() {
    let program = parse_ok("return 5;");
    assert_eq!(program.statements.len(), 1);
    match &program.statements[0] {
        Statement::Return(s) => {
            assert_eq!(s.token_literal(), b"return".to_vec());
            match &s.return_value {
                Some(Expression::IntegerLiteral(lit)) => assert_eq!(lit.value, 5),
                other => panic!("unexpected return value: {:?}", other),
            }
        }
        other => panic!("not a return statement: {:?}", other),
    }
}

#[test]
fn operator_precedence_and_associativity() {
    assert_eq!(expression_text("a + b * c;"), "a + b * c");
    let program = parse_ok("a - b - c");
    match &program.statements[0] {
        Statement::Expression(s) => match &s.expression {
            Expression::Infix(x) => {
                assert_eq!(x.token.literal, b"-".to_vec());
                assert!(matches!(*x.left, Expression::Infix(_)));
                assert!(matches!(*x.right, Expression::Identifier(_)));
            }
            other => panic!("not an infix expression: {:?}", other),
        },
        other => panic!("not an expression statement: {:?}", other),
    }
    let program = parse_ok("a + b * c");
    match &program.statements[0] {
        Statement::Expression(s) => match &s.expression {
            Expression::Infix(x) => {
                assert_eq!(x.token.literal, b"+".to_vec());
                assert!(matches!(*x.left, Expression::Identifier(_)));
                assert!(matches!(*x.right, Expression::Infix(_)));
            }
            other => panic!("not an infix expression: {:?}", other),
        },
        other => panic!("not an expression statement: {:?}", other),
    }
}

#[test]
fn prefix_binds_tighter_than_product() {
    let program = parse_ok("-a * b;");
    match &program.statements[0] {
        Statement::Expression(s) => match &s.expression {
            Expression::Infix(x) => {
                assert_eq!(x.token.literal, b"*".to_vec());
                assert!(matches!(*x.left, Expression::Prefix(_)));
            }
            other => panic!("not an infix expression: {:?}", other),
        },
        other => panic!("not an expression statement: {:?}", other),
    }
    assert_eq!(expression_text("!-5"), "!-5");
}

#[test]
fn comparison_operators() {
    assert_eq!(expression_text("1 < 2 == 3 > 4 != x"), "1 < 2 == 3 > 4 != x");
    let program = parse_ok("1 < 2 == true_ish");
    match &program.statements[0] {
        Statement::Expression(s) => match &s.expression {
            Expression::Infix(x) => assert_eq!(x.token.kind, TokenKind::Eq),
            other => panic!("not an infix expression: {:?}", other),
        },
        other => panic!("not an expression statement: {:?}", other),
    }
}

#[test]
fn missing_prefix_handler_is_a_diagnostic() {
    let (program, errors) = parse(b"+5; x;".to_vec());
    assert_eq!(program.statements.len(), 1);
    assert_eq!(messages(errors), vec!["no prefix parse function for +".to_string()]);
}

#[test]
fn integer_too_large_is_a_diagnostic() {
    let (program, errors) = parse(b"99999999999999999999;".to_vec());
    assert_eq!(program.statements.len(), 0);
    assert_eq!(
        messages(errors),
        vec!["could not parse integer 99999999999999999999".to_string()]
    );
    let (program, errors) = parse(b"9223372036854775807;".to_vec());
    assert!(errors.is_empty());
    match &program.statements[0] {
        Statement::Expression(s) => match &s.expression {
            Expression::IntegerLiteral(lit) => assert_eq!(lit.value, i64::MAX),
            other => panic!("not an integer: {:?}", other),
        },
        other => panic!("not an expression statement: {:?}", other),
    }
}

#[test]
fn let_needs_identifier_and_semicolon() {
    let (program, errors) = parse(b"let 5 = 3; let y = 2".to_vec());
    assert_eq!(program.statements.len(), 0);
    assert_eq!(
        messages(errors),
        vec![
            "expected next token to be IDENT, got INT instead".to_string(),
            "expected next token to be ;, got EOF instead".to_string(),
        ]
    );
}

#[test]
fn recovery_resumes_after_semicolon() {
    let (program, errors) = parse(b"let = 1 2; return 3; let z = ;".to_vec());
    assert_eq!(errors.len(), 2);
    assert_eq!(program.statements.len(), 1);
    assert!(matches!(program.statements[0], Statement::Return(_)));
    assert_eq!(
        messages(errors),
        vec![
            "expected next token to be IDENT, got = instead".to_string(),
            "no prefix parse function for ;".to_string(),
        ]
    );
}

#[test]
fn bare_expression_statements_without_semicolons() {
    let program = parse_ok("a b\nc");
    assert_eq!(program.statements.len(), 3);
}

#[test]
fn statement_rendering() {
    assert_eq!(expression_text("let x = a + 1;"), "let x = a + 1;");
    assert_eq!(expression_text("return;"), "return;");
    assert_eq!(expression_text("return  -x ;"), "return -x;");
    assert_eq!(expression_text("a*b"), "a * b");
}

#[test]
fn program_rendering_and_token_literal() {
    let program = parse_ok("let x = 1; x + 2 return x;");
    assert_eq!(String::from_utf8(program.string()).unwrap(), "let x = 1;x + 2;return x;");
    assert_eq!(program.token_literal(), b"let".to_vec());
    assert_eq!(parse_ok("").token_literal(), Vec::<u8>::new());
    assert_eq!(program.statements[1].token_literal(), b"x".to_vec());
}

#[test]
fn rendered_statements_parse_back_to_the_same_tree() {
    let inputs = [
        "let x = -a + b * c - d / e;",
        "return !(x);",
        "a < b == c > d != - - e",
        "return;",
        "x - y - z * 007",
    ];
    for input in inputs {
        let (program, _) = parse(input.as_bytes().to_vec());
        for stmt in &program.statements {
            let text = stmt.string();
            let (again, errors) = parse(text);
            assert!(errors.is_empty());
            assert_eq!(again.statements.len(), 1);
            assert_eq!(&again.statements[0], stmt);
        }
    }
}

#[test]
fn program_text_parses_back_to_the_same_program() {
    let (program, _) = parse(b"let x = 1; x + 2 -y return x; a".to_vec());
    let (again, errors) = parse(program.string());
    assert!(errors.is_empty());
    assert_eq!(again, program);
}

#[test]
fn registered_handlers_change_the_grammar() {
    let mut p = Parser::new(Lexer::new(b"abc;".to_vec()));
    p.register_prefix(TokenKind::Ident, PrefixHandler::IntegerLiteral);
    let program = p.parse_program();
    assert_eq!(program.statements.len(), 0);
    assert_eq!(messages(p.errors()), vec!["could not parse integer abc".to_string()]);

    let mut p = Parser::new(Lexer::new(b"a , b".to_vec()));
    p.register_infix(TokenKind::Comma, InfixHandler::Binary);
    let e = p.parse_expression(0).unwrap();
    assert_eq!(e.string(), b"a , b".to_vec());
}

#[test]
fn cursor_helpers() {
    let mut p = Parser::new(Lexer::new(b"let x".to_vec()));
    assert!(p.is_cur_token(TokenKind::Let));
    assert!(p.is_peek_token(TokenKind::Ident));
    assert_eq!(p.peek_precedence(), LOWEST);
    assert!(!p.expect_peek(TokenKind::Int));
    assert!(p.expect_peek(TokenKind::Ident));
    p.peek_error(TokenKind::Semicolon);
    p.next_token();
    assert!(p.is_cur_token(TokenKind::Eof));
    assert_eq!(
        messages(p.errors()),
        vec![
            "expected next token to be INT, got IDENT instead".to_string(),
            "expected next token to be ;, got EOF instead".to_string(),
        ]
    );
    let id = p.parse_identifier();
    assert_eq!(id.token_literal(), Vec::<u8>::new());
}

#[test]
fn deep_copies_are_equal() {
    let (program, _) = parse(b"let x = -a * b; return; c".to_vec());
    let copy = program.duplicate();
    assert_eq!(copy, program);
    assert_eq!(program.statements[0].duplicate(), program.statements[0]);
}

#[test]
fn decimal_parsing() {
    assert_eq!(parse_decimal(&b"0".to_vec()), Some(0));
    assert_eq!(parse_decimal(&b"007".to_vec()), Some(7));
    assert_eq!(parse_decimal(&b"838383".to_vec()), Some(838383));
    assert_eq!(parse_decimal(&b"".to_vec()), None);
    assert_eq!(parse_decimal(&b"12a".to_vec()), None);
    assert_eq!(parse_decimal(&b"9223372036854775808".to_vec()), None);
}
