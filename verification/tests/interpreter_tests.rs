use jlox::interpreter::Interpreter;

fn name(x: &str) -> String {
    x.to_string()
}

#[test]
fn fresh_interpreter_has_one_global_environment() {
    let i: Interpreter<i64> = Interpreter::new();
    assert_eq!(i.environment(), 0);
    assert_eq!(i.env_count(), 1);
    assert!(i.locals.is_empty());
}

#[test]
fn unresolved_use_is_searched_from_the_current_environment() {
    let mut i: Interpreter<i64> = Interpreter::new();
    i.define_global(name("a"), 1);
    let inner = i.enclose(i.environment());
    i.set_environment(inner);
    assert_eq!(i.look_up_variable(&name("a"), 7), Ok(&1));
    assert_eq!(i.look_up_variable(&name("b"), 8), Err(name("no such variable")));
}

#[test]
fn resolved_use_is_read_at_its_distance() {
    let mut i: Interpreter<i64> = Interpreter::new();
    i.define(name("a"), 1);
    let inner = i.enclose(i.environment());
    i.set_environment(inner);
    i.define(name("a"), 2);
    i.resolve(7, 1);
    i.resolve(8, 0);
    assert_eq!(i.look_up_variable(&name("a"), 7), Ok(&1));
    assert_eq!(i.look_up_variable(&name("a"), 8), Ok(&2));
    assert_eq!(i.look_up_variable(&name("a"), 9), Ok(&2));
}

#[test]
fn resolved_assignment_writes_at_its_distance() {
    let mut i: Interpreter<i64> = Interpreter::new();
    i.define(name("a"), 1);
    let inner = i.enclose(i.environment());
    i.set_environment(inner);
    i.define(name("a"), 2);
    i.resolve(3, 1);
    assert_eq!(i.assign_variable(&name("a"), 3, 10), Ok(()));
    assert_eq!(i.look_up_variable(&name("a"), 3), Ok(&10));
    assert_eq!(i.look_up_variable(&name("a"), 4), Ok(&2));
}

#[test]
fn unresolved_assignment_rebinds_or_fails() {
    let mut i: Interpreter<i64> = Interpreter::new();
    i.define(name("a"), 1);
    let inner = i.enclose(i.environment());
    i.set_environment(inner);
    assert_eq!(i.assign_variable(&name("a"), 5, 4), Ok(()));
    assert_eq!(i.look_up_variable(&name("a"), 5), Ok(&4));
    assert_eq!(i.assign_variable(&name("zz"), 6, 4), Err(name("Undefined variable zz")));
}

#[test]
fn switching_environments_back_restores_reads() {
    let mut i: Interpreter<i64> = Interpreter::new();
    i.define(name("x"), 1);
    let previous = i.environment();
    let block = i.enclose(previous);
    i.set_environment(block);
    i.define(name("x"), 2);
    assert_eq!(i.look_up_variable(&name("x"), 1), Ok(&2));
    i.set_environment(previous);
    assert_eq!(i.look_up_variable(&name("x"), 1), Ok(&1));
    assert_eq!(i.env_count(), 2);
}
