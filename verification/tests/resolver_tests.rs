use std::collections::HashMap;

use jlox::parser::Parser;
use jlox::resolver::{ResolveError, Resolver};
use jlox::scanner::Scanner;
use jlox::stmt::Stmt;
use jlox::tokentype::{Token, TokenType};

fn parse_program(src: &str) -> Vec<Stmt> {
    let mut s = Scanner::new(src.to_string());
    s.scan_tokens().unwrap();
    let mut p = Parser::new(s.tokens);
    p.parse_stmt().unwrap()
}

fn resolve(src: &str) -> Resolver {
    let mut r = Resolver::new();
    r.resolve(parse_program(src));
    r
}

fn map(pairs: &[(usize, usize)]) -> HashMap<usize, usize> {
    pairs.iter().cloned().collect()
}

fn name_token(name: &str) -> Token {
    Token { token_type: TokenType::Identifier, lexeme: Some(name.to_string()), line: 1 }
}

#[test]
fn resolve_global_variable_at_distance_zero() {
    let r = resolve("var a = 1; print(a);");
    assert_eq!(r.locals, map(&[(1, 0)]));
    assert!(r.errors.is_empty());
}

#[test]
fn resolve_block_variables_by_distance() {
    let r = resolve("var a = 1; { var b = a; print(b); }");
    assert_eq!(r.locals, map(&[(1, 1), (2, 0)]));
}

#[test]
fn resolve_shadowing_picks_innermost() {
    let r = resolve("var a = 1; { var a = 2; { print(a); } }");
    assert_eq!(r.locals, map(&[(1, 1)]));
}

#[test]
fn resolve_read_in_own_initializer_is_reported() {
    let r = resolve("{ var a = a; }");
    assert_eq!(r.errors, vec![ResolveError::ReadInOwnInitializer]);
    assert!(r.locals.is_empty());
    let r = resolve("var b = b;");
    assert_eq!(r.errors, vec![ResolveError::ReadInOwnInitializer]);
}

#[test]
fn resolve_outer_variable_in_initializer_of_shadowing_one() {
    // The inner `a` is declared but not defined, so reading `a` there is
    // reported even though an outer `a` exists.
    let r = resolve("var a = 1; { var a = a + 1; }");
    assert_eq!(r.errors, vec![ResolveError::ReadInOwnInitializer]);
}

#[test]
fn resolve_unknown_name_records_nothing() {
    let r = resolve("print(x);");
    assert!(r.locals.is_empty());
    assert!(r.errors.is_empty());
}

#[test]
fn resolve_function_parameters_and_body() {
    let r = resolve("fun f(p) { return p + q; } f(1);");
    // `p` is the function's parameter; `q` is nowhere; `f` is global.
    assert_eq!(r.locals, map(&[(1, 0), (3, 0)]));
}

#[test]
fn resolve_recursive_function_sees_its_own_name() {
    let r = resolve("{ fun f() { f(); } }");
    assert_eq!(r.locals, map(&[(1, 1)]));
}

#[test]
fn resolve_assignment_uses_its_own_id() {
    let r = resolve("var a; { a = 2; }");
    assert_eq!(r.locals, map(&[(2, 1)]));
}

#[test]
fn resolve_loops_and_conditions() {
    let r = resolve("var x; while (x) { if (x) print(x); else print(-x); }");
    assert_eq!(r.locals, map(&[(1, 0), (2, 1), (3, 1), (4, 1)]));
    let r = resolve("for (var i = 0; i < 3; i = i + 1) { print(i); }");
    // The loop variable lives in the block around the loop; the increment
    // is not resolved.
    assert_eq!(r.locals, map(&[(1, 0), (5, 1)]));
}

#[test]
fn resolve_call_arguments() {
    let r = resolve("var f; var a; f(a, (a));");
    assert_eq!(r.locals, map(&[(1, 0), (2, 0), (3, 0)]));
}

#[test]
fn visit_block_leaves_scopes_as_they_were() {
    let mut stmts = parse_program("{ var inner = 1; }");
    let mut r = Resolver::new();
    r.define(&"outer".to_string());
    r.visit_block(stmts.remove(0));
    r.resolve_local(name_token("inner"), 10);
    r.resolve_local(name_token("outer"), 11);
    assert_eq!(r.locals, map(&[(11, 0)]));
}

#[test]
fn resolve_function_leaves_scopes_as_they_were() {
    let mut stmts = parse_program("fun g(p) { var q; print(p); }");
    let mut r = Resolver::new();
    r.resolve_function(stmts.remove(0));
    assert_eq!(r.locals, map(&[(1, 0)]));
    r.resolve_local(name_token("p"), 20);
    r.resolve_local(name_token("q"), 21);
    r.resolve_local(name_token("g"), 22);
    // `resolve_function` does not declare the function's own name.
    assert_eq!(r.locals, map(&[(1, 0)]));
}

#[test]
fn scope_operations_by_hand() {
    let mut r = Resolver::new();
    r.declare(&"a".to_string());
    r.begin_scope();
    r.begin_scope();
    r.define(&"b".to_string());
    r.resolve_local(name_token("a"), 1);
    r.resolve_local(name_token("b"), 2);
    r.resolve_local(name_token("c"), 3);
    r.end_scope();
    r.resolve_local(name_token("b"), 4);
    r.end_scope();
    r.end_scope();
    // With no scope left, declaring and looking up do nothing.
    r.declare(&"d".to_string());
    r.resolve_local(name_token("d"), 5);
    assert_eq!(r.locals, map(&[(1, 2), (2, 0)]));
}

#[test]
fn resolve_expr_directly() {
    let mut stmts = parse_program("a + b;");
    let mut r = Resolver::new();
    r.define(&"b".to_string());
    match stmts.remove(0) {
        Stmt::Expr { expr } => r.resolve_expr(expr),
        other => panic!("unexpected {:?}", other),
    }
    assert_eq!(r.locals, map(&[(2, 0)]));
}

#[test]
fn resolving_records_only_the_ids_of_the_program() {
    let mut r = Resolver::new();
    r.define(&"a".to_string());
    r.resolve_local(name_token("a"), 50);
    r.begin_scope();
    r.resolve(parse_program("var b; print(a); print(b);"));
    // Ids 1 and 2 are the program's; the entry for 50 is left as it was.
    assert_eq!(r.locals, map(&[(50, 0), (1, 1), (2, 0)]));
}

#[test]
fn statements_declare_their_names_in_the_current_scope() {
    let mut r = Resolver::new();
    r.resolve(parse_program("var a; if (x) fun b() {} else fun c() {} while (y) { var d; } { var e; }"));
    r.resolve_local(name_token("a"), 101);
    r.resolve_local(name_token("b"), 102);
    r.resolve_local(name_token("c"), 103);
    r.resolve_local(name_token("d"), 104);
    r.resolve_local(name_token("e"), 105);
    let mut expected = map(&[(101, 0), (102, 0), (103, 0)]);
    for (k, v) in r.locals.iter() {
        if *k < 100 {
            expected.insert(*k, *v);
        }
    }
    assert_eq!(r.locals, expected);
}
