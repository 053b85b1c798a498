use jlox::environment::{Environment, Environments};
use jlox::expr::Literal;

fn key(x: &str) -> String {
    x.to_string()
}

#[test]
fn define_then_get_reads_the_value() {
    let mut store: Environments<i64> = Environments::empty();
    let g = Environment::new(&mut store);
    assert_eq!(g, 0);
    Environment::define(&mut store, g, key("a"), 1);
    assert_eq!(Environment::get(&store, g, &key("a")), Ok(&1));
    Environment::define(&mut store, g, key("a"), 2);
    assert_eq!(Environment::get(&store, g, &key("a")), Ok(&2));
}

#[test]
fn get_of_undefined_name_fails() {
    let mut store: Environments<i64> = Environments::empty();
    let g = Environment::new(&mut store);
    assert_eq!(Environment::get(&store, g, &key("nope")), Err(key("no such variable")));
}

#[test]
fn define_keeps_other_names() {
    let mut store: Environments<i64> = Environments::empty();
    let g = Environment::new(&mut store);
    Environment::define(&mut store, g, key("a"), 1);
    Environment::define(&mut store, g, key("b"), 2);
    assert_eq!(Environment::get(&store, g, &key("a")), Ok(&1));
    assert_eq!(Environment::get(&store, g, &key("b")), Ok(&2));
}

#[test]
fn inner_environment_reads_outer_and_shadows() {
    let mut store: Environments<i64> = Environments::empty();
    let g = Environment::new(&mut store);
    Environment::define(&mut store, g, key("a"), 1);
    let inner = Environment::enclose(&mut store, g);
    assert_eq!(inner, 1);
    assert_eq!(Environment::get(&store, inner, &key("a")), Ok(&1));
    Environment::define(&mut store, inner, key("a"), 5);
    assert_eq!(Environment::get(&store, inner, &key("a")), Ok(&5));
    assert_eq!(Environment::get(&store, g, &key("a")), Ok(&1));
}

#[test]
fn assign_rebinds_innermost_definition() {
    let mut store: Environments<i64> = Environments::empty();
    let g = Environment::new(&mut store);
    Environment::define(&mut store, g, key("a"), 1);
    let inner = Environment::enclose(&mut store, g);
    assert_eq!(Environment::assign(&mut store, inner, &key("a"), 7), Ok(()));
    assert_eq!(Environment::get(&store, g, &key("a")), Ok(&7));
    assert_eq!(Environment::get(&store, inner, &key("a")), Ok(&7));
}

#[test]
fn assign_to_undefined_name_fails_and_changes_nothing() {
    let mut store: Environments<i64> = Environments::empty();
    let g = Environment::new(&mut store);
    let inner = Environment::enclose(&mut store, g);
    assert_eq!(Environment::assign(&mut store, inner, &key("x"), 3), Err(key("Undefined variable x")));
    assert_eq!(Environment::get(&store, inner, &key("x")), Err(key("no such variable")));
}

#[test]
fn new_main_makes_global_and_inner() {
    let mut store: Environments<i64> = Environments::empty();
    let e = Environment::new_main(&mut store);
    assert_eq!(e, 1);
    assert_eq!(store.len(), 2);
    assert_eq!(Environment::ancestor(&store, e, 1), 0);
    assert_eq!(Environment::ancestor(&store, e, 5), 0);
}

#[test]
fn ancestor_steps_out() {
    let mut store: Environments<i64> = Environments::empty();
    let g = Environment::new(&mut store);
    let a = Environment::enclose(&mut store, g);
    let b = Environment::enclose(&mut store, a);
    assert_eq!(Environment::ancestor(&store, b, 0), b);
    assert_eq!(Environment::ancestor(&store, b, 1), a);
    assert_eq!(Environment::ancestor(&store, b, 2), g);
    assert_eq!(Environment::ancestor(&store, b, 3), g);
}

#[test]
fn get_at_and_assign_at_use_the_distance() {
    let mut store: Environments<i64> = Environments::empty();
    let g = Environment::new(&mut store);
    Environment::define(&mut store, g, key("a"), 1);
    let a = Environment::enclose(&mut store, g);
    Environment::define(&mut store, a, key("a"), 2);
    let b = Environment::enclose(&mut store, a);
    assert_eq!(Environment::get_At(&store, b, 1, &key("a")), Ok(&2));
    assert_eq!(Environment::get_At(&store, b, 2, &key("a")), Ok(&1));
    assert_eq!(Environment::get_At(&store, b, 0, &key("a")), Ok(&2));
    Environment::ASSIGN_AT(&mut store, b, 2, &key("a"), 9);
    assert_eq!(Environment::get(&store, g, &key("a")), Ok(&9));
    assert_eq!(Environment::get(&store, a, &key("a")), Ok(&2));
    // Assigning at a distance defines the name there if it is missing.
    Environment::ASSIGN_AT(&mut store, b, 0, &key("c"), 4);
    assert_eq!(Environment::get_At(&store, b, 0, &key("c")), Ok(&4));
    assert_eq!(Environment::get(&store, a, &key("c")), Err(key("no such variable")));
}

#[test]
fn deep_clone_copies_the_chain() {
    let mut store: Environments<Literal> = Environments::empty();
    let g = Environment::new(&mut store);
    Environment::define(&mut store, g, key("a"), Literal::True);
    let inner = Environment::enclose(&mut store, g);
    Environment::define(&mut store, inner, key("b"), Literal::String(key("x")));
    let before = store.len();
    let c = Environment::deep_clone(&mut store, inner);
    assert_eq!(store.len(), before + 2);
    assert_eq!(c, store.len() - 1);
    assert_eq!(Environment::get(&store, c, &key("b")), Ok(&Literal::String(key("x"))));
    assert_eq!(Environment::get(&store, c, &key("a")), Ok(&Literal::True));
    // The copy is separate from the environments it was made from.
    assert_eq!(Environment::assign(&mut store, c, &key("a"), Literal::Nil), Ok(()));
    assert_eq!(Environment::get(&store, c, &key("a")), Ok(&Literal::Nil));
    assert_eq!(Environment::get(&store, inner, &key("a")), Ok(&Literal::True));
}

#[test]
fn literal_truthiness() {
    assert!(!Literal::Nil.is_truthly());
    assert!(!Literal::False.is_truthly());
    assert!(Literal::True.is_truthly());
    assert!(Literal::Number(key("0")).is_truthly());
    assert!(Literal::String(key("")).is_truthly());
    assert!(Literal::from(true).is_truthly());
    assert!(!Literal::from(false).is_truthly());
    assert_eq!(Literal::from(true), Literal::True);
}
