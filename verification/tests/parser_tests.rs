use jlox::expr::{Expr, Literal};
use jlox::parser::{ParseError, Parser};
use jlox::scanner::Scanner;
use jlox::stmt::Stmt;
use jlox::tokentype::{Token, TokenType};

fn tokens_of(src: &str) -> Vec<Token> {
    let mut s = Scanner::new(src.to_string());
    s.scan_tokens().unwrap();
    s.tokens
}

fn parse(src: &str) -> Result<Vec<Stmt>, ParseError> {
    let mut p = Parser::new(tokens_of(src));
    assert!(p.is_ready());
    p.parse_stmt()
}

fn t(kind: TokenType, line: usize) -> Token {
    Token { token_type: kind, lexeme: None, line }
}

fn ident(name: &str, line: usize) -> Token {
    Token { token_type: TokenType::Identifier, lexeme: Some(name.to_string()), line }
}

fn num(n: &str) -> Expr {
    Expr::Literal { value: Literal::Number(n.to_string()) }
}

fn var(name: &str, id: usize) -> Expr {
    Expr::Variable { token: ident(name, 1), id }
}

fn bin(left: Expr, op: TokenType, right: Expr) -> Expr {
    Expr::Binary { left: Box::new(left), op: t(op, 1), right: Box::new(right) }
}

fn print(e: Expr) -> Stmt {
    Stmt::Print { expr: e }
}

/// The ids of the variables and assignments of an expression.
fn expr_ids(e: &Expr, out: &mut Vec<usize>) {
    match e {
        Expr::Variable { id, .. } => out.push(*id),
        Expr::Assign { value, id, .. } => {
            expr_ids(value, out);
            out.push(*id);
        }
        Expr::Binary { left, right, .. } | Expr::Logical { left, right, .. } => {
            expr_ids(left, out);
            expr_ids(right, out);
        }
        Expr::Call { callie, args, .. } => {
            expr_ids(callie, out);
            for a in args {
                expr_ids(a, out);
            }
        }
        Expr::Group { value } => expr_ids(value, out),
        Expr::Unary { expr, .. } => expr_ids(expr, out),
        _ => {}
    }
}

fn stmt_ids(s: &Stmt, out: &mut Vec<usize>) {
    match s {
        Stmt::Expr { expr } | Stmt::Print { expr } => expr_ids(expr, out),
        Stmt::Return { value, .. } => expr_ids(value, out),
        Stmt::Variable { expr, .. } => {
            if let Some(e) = expr {
                expr_ids(e, out)
            }
        }
        Stmt::Block { stmts } => stmts.iter().for_each(|x| stmt_ids(x, out)),
        Stmt::If { condition, then_branch, else_branch } => {
            expr_ids(condition, out);
            stmt_ids(then_branch, out);
            if let Some(b) = else_branch {
                stmt_ids(b, out);
            }
        }
        Stmt::While { condition, stmts, finally } => {
            expr_ids(condition, out);
            if let Some(f) = finally {
                expr_ids(f, out);
            }
            stmt_ids(stmts, out);
        }
        Stmt::Function_Decl { body, .. } => body.iter().for_each(|x| stmt_ids(x, out)),
        Stmt::Break | Stmt::Continue => {}
    }
}

#[test]
fn parse_print_statement() {
    assert_eq!(parse("print(1);"), Ok(vec![print(num("1"))]));
}

#[test]
fn parse_empty_program() {
    assert_eq!(parse(""), Ok(vec![]));
}

#[test]
fn parse_variable_declarations() {
    assert_eq!(
        parse("var a = \"s\"; var b;"),
        Ok(vec![
            Stmt::Variable {
                op: ident("a", 1),
                expr: Some(Expr::Literal { value: Literal::String("s".to_string()) }),
            },
            Stmt::Variable { op: ident("b", 1), expr: None },
        ])
    );
}

#[test]
fn parse_precedence_and_grouping() {
    assert_eq!(
        parse("1 + 2 * 3;"),
        Ok(vec![Stmt::Expr { expr: bin(num("1"), TokenType::Plus, bin(num("2"), TokenType::Star, num("3"))) }])
    );
    assert_eq!(
        parse("(1 + 2) * 3;"),
        Ok(vec![Stmt::Expr {
            expr: bin(
                Expr::Group { value: Box::new(bin(num("1"), TokenType::Plus, num("2"))) },
                TokenType::Star,
                num("3"),
            ),
        }])
    );
}

#[test]
fn parse_binary_operators_group_to_the_left() {
    assert_eq!(
        parse("1 - 2 - 3;"),
        Ok(vec![Stmt::Expr { expr: bin(bin(num("1"), TokenType::Minus, num("2")), TokenType::Minus, num("3")) }])
    );
}

#[test]
fn parse_comparison_and_equality() {
    assert_eq!(
        parse("1 < 2 == true;"),
        Ok(vec![Stmt::Expr {
            expr: bin(
                bin(num("1"), TokenType::Less, num("2")),
                TokenType::EqualEqual,
                Expr::Literal { value: Literal::True },
            ),
        }])
    );
}

#[test]
fn parse_unary_operators_nest() {
    assert_eq!(
        parse("!-1;"),
        Ok(vec![Stmt::Expr {
            expr: Expr::Unary {
                op: t(TokenType::Bang, 1),
                expr: Box::new(Expr::Unary { op: t(TokenType::Minus, 1), expr: Box::new(num("1")) }),
            },
        }])
    );
}

#[test]
fn parse_logical_or_binds_looser_than_and() {
    assert_eq!(
        parse("a or b and c;"),
        Ok(vec![Stmt::Expr {
            expr: Expr::Logical {
                left: Box::new(var("a", 1)),
                op: t(TokenType::Or, 1),
                right: Box::new(Expr::Logical {
                    left: Box::new(var("b", 2)),
                    op: t(TokenType::And, 1),
                    right: Box::new(var("c", 3)),
                }),
            },
        }])
    );
}

#[test]
fn parse_assignment_gets_the_id_after_its_value() {
    assert_eq!(
        parse("a = b;"),
        Ok(vec![Stmt::Expr {
            expr: Expr::Assign { token: ident("a", 1), value: Box::new(var("b", 2)), id: 3 },
        }])
    );
}

#[test]
fn parse_assignment_is_right_associative() {
    assert_eq!(
        parse("a = b = 1;"),
        Ok(vec![Stmt::Expr {
            expr: Expr::Assign {
                token: ident("a", 1),
                value: Box::new(Expr::Assign { token: ident("b", 1), value: Box::new(num("1")), id: 3 }),
                id: 4,
            },
        }])
    );
}

#[test]
fn parse_invalid_assignment_target() {
    assert_eq!(parse("1 = 2;"), Err(ParseError::InvalidAssignmentTarget));
}

#[test]
fn parse_call_with_arguments() {
    assert_eq!(
        parse("f(1, x)();"),
        Ok(vec![Stmt::Expr {
            expr: Expr::Call {
                callie: Box::new(Expr::Call {
                    callie: Box::new(var("f", 1)),
                    paren: t(TokenType::RightParen, 1),
                    args: vec![num("1"), var("x", 2)],
                }),
                paren: t(TokenType::RightParen, 1),
                args: vec![],
            },
        }])
    );
}

#[test]
fn parse_many_call_arguments_are_accepted() {
    let args: Vec<String> = (0..300).map(|i| i.to_string()).collect();
    let src = format!("f({});", args.join(", "));
    let stmts = parse(&src).unwrap();
    match &stmts[0] {
        Stmt::Expr { expr: Expr::Call { args, .. } } => assert_eq!(args.len(), 300),
        other => panic!("unexpected {:?}", other),
    }
}

#[test]
fn parse_missing_semicolon_names_line_of_previous_token() {
    assert_eq!(
        parse("var a = 1\n\nprint(a);"),
        Err(ParseError::Expected { line: 1, msg: "Expected ; after expression".to_string() })
    );
}

#[test]
fn parse_unclosed_block() {
    assert_eq!(
        parse("{ print(1);"),
        Err(ParseError::Expected { line: 1, msg: "Expected } after the block".to_string() })
    );
}

#[test]
fn parse_cant_parse_token() {
    assert_eq!(parse(");"), Err(ParseError::CantParse { token_type: TokenType::RightParen }));
}

#[test]
fn parse_return_without_value_returns_nil() {
    assert_eq!(
        parse("return;"),
        Ok(vec![Stmt::Return { token: t(TokenType::Return, 1), value: Expr::Literal { value: Literal::Nil } }])
    );
}

#[test]
fn parse_function_declaration() {
    assert_eq!(
        parse("fun add(a, b) { return a + b; }"),
        Ok(vec![Stmt::Function_Decl {
            name: ident("add", 1),
            params: vec![ident("a", 1), ident("b", 1)],
            body: vec![Stmt::Return {
                token: t(TokenType::Return, 1),
                value: bin(var("a", 1), TokenType::Plus, var("b", 2)),
            }],
        }])
    );
}

#[test]
fn parse_function_errors() {
    assert_eq!(
        parse("fun (a) {}"),
        Err(ParseError::Expected { line: 1, msg: "Expected kind function name".to_string() })
    );
    assert_eq!(
        parse("fun f a) {}"),
        Err(ParseError::Expected { line: 1, msg: "Expected ( after function name ".to_string() })
    );
    assert_eq!(
        parse("fun f(a b) {}"),
        Err(ParseError::Expected { line: 1, msg: "Expected ) after parameters".to_string() })
    );
    assert_eq!(
        parse("fun f(a) print(a);"),
        Err(ParseError::Expected { line: 1, msg: "Expected { before a block".to_string() })
    );
}

#[test]
fn parse_255_parameters_but_not_256() {
    let params = |n: usize| (0..n).map(|i| format!("p{}", i)).collect::<Vec<_>>().join(", ");
    let ok = parse(&format!("fun f({}) {{}}", params(255))).unwrap();
    match &ok[0] {
        Stmt::Function_Decl { params, .. } => assert_eq!(params.len(), 255),
        other => panic!("unexpected {:?}", other),
    }
    assert_eq!(parse(&format!("fun f({}) {{}}", params(256))), Err(ParseError::TooManyArgs));
}

#[test]
fn parse_if_else() {
    assert_eq!(
        parse("if (a) print(1); else print(2);"),
        Ok(vec![Stmt::If {
            condition: var("a", 1),
            then_branch: Box::new(print(num("1"))),
            else_branch: Some(Box::new(print(num("2")))),
        }])
    );
    assert_eq!(
        parse("if (a) { }"),
        Ok(vec![Stmt::If {
            condition: var("a", 1),
            then_branch: Box::new(Stmt::Block { stmts: vec![] }),
            else_branch: None,
        }])
    );
}

#[test]
fn parse_while_needs_a_block_body() {
    assert_eq!(
        parse("while (x) { print(x); }"),
        Ok(vec![Stmt::While {
            condition: var("x", 1),
            stmts: Box::new(Stmt::Block { stmts: vec![print(var("x", 2))] }),
            finally: None,
        }])
    );
    assert_eq!(
        parse("while (x) print(x);"),
        Err(ParseError::ExpectedBlockFound { found: Box::new(print(var("x", 2))) })
    );
}

#[test]
fn parse_for_desugars_to_while_in_a_block() {
    let inc = Expr::Assign {
        token: ident("i", 1),
        value: Box::new(bin(var("i", 3), TokenType::Plus, num("1"))),
        id: 4,
    };
    assert_eq!(
        parse("for (var i = 0; i < 3; i = i + 1) { print(i); }"),
        Ok(vec![Stmt::Block {
            stmts: vec![
                Stmt::Variable { op: ident("i", 1), expr: Some(num("0")) },
                Stmt::While {
                    condition: bin(var("i", 1), TokenType::Less, num("3")),
                    stmts: Box::new(Stmt::Block { stmts: vec![print(var("i", 5))] }),
                    finally: Some(inc),
                },
            ],
        }])
    );
}

#[test]
fn parse_for_without_clauses_loops_on_true() {
    assert_eq!(
        parse("for (;;) {}"),
        Ok(vec![Stmt::While {
            condition: Expr::Literal { value: Literal::True },
            stmts: Box::new(Stmt::Block { stmts: vec![] }),
            finally: None,
        }])
    );
}

#[test]
fn parse_for_with_expression_initializer() {
    assert_eq!(
        parse("for (i = 0; ; ) {}"),
        Ok(vec![Stmt::Block {
            stmts: vec![
                Stmt::Expr { expr: Expr::Assign { token: ident("i", 1), value: Box::new(num("0")), id: 2 } },
                Stmt::While {
                    condition: Expr::Literal { value: Literal::True },
                    stmts: Box::new(Stmt::Block { stmts: vec![] }),
                    finally: None,
                },
            ],
        }])
    );
}

#[test]
fn parse_for_needs_a_block_body() {
    assert_eq!(parse("for (;;) print(1);"), Err(ParseError::ExpectedBlock));
}

fn with_eof(mut tokens: Vec<Token>) -> Vec<Token> {
    tokens.push(t(TokenType::Eof, 1));
    tokens
}

#[test]
fn parse_break_outside_a_loop_is_refused() {
    let mut p = Parser::new(with_eof(vec![t(TokenType::Break, 3), t(TokenType::Semicolon, 3)]));
    assert_eq!(p.parse_stmt(), Err(ParseError::BreakOutsideLoop { line: 3 }));
    let mut p = Parser::new(with_eof(vec![t(TokenType::Continue, 2), t(TokenType::Semicolon, 2)]));
    assert_eq!(p.parse_stmt(), Err(ParseError::ContinueOutsideLoop { line: 2 }));
}

#[test]
fn parse_break_and_continue_inside_a_loop() {
    let toks = with_eof(vec![
        t(TokenType::While, 1),
        t(TokenType::LeftParen, 1),
        t(TokenType::True, 1),
        t(TokenType::RightParen, 1),
        t(TokenType::LeftBrace, 1),
        t(TokenType::Break, 1),
        t(TokenType::Semicolon, 1),
        t(TokenType::Continue, 1),
        t(TokenType::Semicolon, 1),
        t(TokenType::RightBrace, 1),
    ]);
    let mut p = Parser::new(toks);
    assert_eq!(
        p.parse_stmt(),
        Ok(vec![Stmt::While {
            condition: Expr::Literal { value: Literal::True },
            stmts: Box::new(Stmt::Block { stmts: vec![Stmt::Break, Stmt::Continue] }),
            finally: None,
        }])
    );
}

#[test]
fn parse_break_after_a_loop_is_refused_again() {
    // The loop depth is back to zero once the loop has been parsed.
    let toks = with_eof(vec![
        t(TokenType::While, 1),
        t(TokenType::LeftParen, 1),
        t(TokenType::True, 1),
        t(TokenType::RightParen, 1),
        t(TokenType::LeftBrace, 1),
        t(TokenType::RightBrace, 1),
        t(TokenType::Break, 2),
        t(TokenType::Semicolon, 2),
    ]);
    let mut p = Parser::new(toks);
    assert_eq!(p.parse_stmt(), Err(ParseError::BreakOutsideLoop { line: 2 }));
}

#[test]
fn parse_ids_are_distinct_and_increasing() {
    let src = "var a = b; a = c + d(e, f); fun g(x) { return x = y; } for (var i = 0; i < n; i = i + 1) { if (i) print(i); else print(-i); } while (w) { z = w; }";
    let stmts = parse(src).unwrap();
    let mut ids = vec![];
    stmts.iter().for_each(|s| stmt_ids(s, &mut ids));
    assert!(!ids.is_empty());
    let mut sorted = ids.clone();
    sorted.sort();
    sorted.dedup();
    assert_eq!(sorted.len(), ids.len());
    assert_eq!(ids.iter().min(), Some(&1));
    assert!(ids.iter().all(|&i| i >= 1));
}

#[test]
fn parser_not_ready_without_eof() {
    let p = Parser::new(vec![t(TokenType::Plus, 1)]);
    assert!(!p.is_ready());
    let p = Parser::new(with_eof(vec![ident("x", 1)]));
    assert!(p.is_ready());
    assert!(p.has_lexemes());
}

#[test]
fn parser_reports_tokens_without_lexemes() {
    let p = Parser::new(with_eof(vec![t(TokenType::Identifier, 1)]));
    assert!(p.is_ready());
    assert!(!p.has_lexemes());
}

#[test]
fn parse_error_before_a_token_without_lexeme() {
    // The parse stops at `)` and never reaches the number without its text.
    let mut p = Parser::new(with_eof(vec![t(TokenType::RightParen, 1), t(TokenType::Number, 1)]));
    assert!(p.is_ready());
    assert_eq!(p.parse_stmt(), Err(ParseError::CantParse { token_type: TokenType::RightParen }));
}

#[test]
fn parser_token_helpers() {
    let mut p = Parser::new(tokens_of("x + ;"));
    assert!(p.check(TokenType::Identifier));
    assert!(!p.check(TokenType::Plus));
    assert_eq!(p.peek(), &ident("x", 1));
    assert_eq!(p.advance(), ident("x", 1));
    assert_eq!(p.previous(), &ident("x", 1));
    assert!(!p.match_(&[TokenType::Minus, TokenType::Star]));
    assert!(p.match_(&[TokenType::Minus, TokenType::Plus]));
    assert_eq!(
        p.consume(TokenType::RightParen, "need )"),
        Err(ParseError::Expected { line: 1, msg: "need )".to_string() })
    );
    assert_eq!(p.consume(TokenType::Semicolon, "need ;"), Ok(t(TokenType::Semicolon, 1)));
    assert!(p.is_end());
    assert!(!p.check(TokenType::Eof));
}

#[test]
fn parser_entry_points_parse_their_construct() {
    let mut p = Parser::new(tokens_of("1 + 2"));
    assert_eq!(p.expression(), Ok(bin(num("1"), TokenType::Plus, num("2"))));
    let mut p = Parser::new(tokens_of("print(3);"));
    assert_eq!(p.declaration(), Ok(print(num("3"))));
    let mut p = Parser::new(tokens_of("3 * 4"));
    assert_eq!(p.term(), Ok(bin(num("3"), TokenType::Star, num("4"))));
    let mut p = Parser::new(tokens_of("3 / 4"));
    assert_eq!(p.factor(), Ok(bin(num("3"), TokenType::Slash, num("4"))));
    let mut p = Parser::new(tokens_of("nil"));
    assert_eq!(p.primary(), Ok(Expr::Literal { value: Literal::Nil }));
    let mut p = Parser::new(tokens_of("false"));
    assert_eq!(p.unary(), Ok(Expr::Literal { value: Literal::False }));
}

#[test]
fn scanned_tokens_are_ready_for_the_parser() {
    for src in ["", "var x = \"s\" + 1.5;", "fun f(a) { return a; }", "@ # $"] {
        let p = Parser::new(tokens_of(src));
        assert!(p.is_ready());
        assert!(p.has_lexemes());
    }
}

#[test]
fn token_helpers_work_without_an_end_of_file_token() {
    let mut p = Parser::new(vec![t(TokenType::Plus, 1), t(TokenType::Minus, 2)]);
    assert!(!p.is_end());
    assert!(p.check(TokenType::Plus));
    assert_eq!(p.peek(), &t(TokenType::Plus, 1));
    assert!(p.match_(&[TokenType::Plus]));
    assert_eq!(p.previous(), &t(TokenType::Plus, 1));
    assert_eq!(p.consume(TokenType::Minus, "need -"), Ok(t(TokenType::Minus, 2)));
}

#[test]
fn cloned_trees_are_equal() {
    let stmts = parse("fun f(a, b) { for (var i = 0; i < a; i = i + 1) { print(g(i, -b)); } if (a) return; else { a = b or !a; } }").unwrap();
    let copy = stmts.clone();
    assert_eq!(copy, stmts);
    match &stmts[0] {
        Stmt::Function_Decl { body, .. } => {
            if let Stmt::Block { stmts: inner } = &body[0] {
                if let Stmt::Variable { expr: Some(e), .. } = &inner[0] {
                    assert_eq!(e.clone(), num("0"));
                }
            }
        }
        other => panic!("unexpected {:?}", other),
    }
}
