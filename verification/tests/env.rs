use minilisp::env::Env;
use minilisp::expr::Expr;

#[test]
fn test_get_set() {
    let mut env = Env::new(None);
    assert!(env.get("foo").is_none());

    env.set("foo", Expr::new_symbol("bar"));
    assert_eq!(env.get("foo").unwrap(), Expr::new_symbol("bar"));
}

#[test]
fn test_nested() {
    let mut parent = Env::new(None);

    parent.set("shared", Expr::new_symbol("parent"));
    parent.set("parent-unique", Expr::new_symbol("123"));

    assert_eq!(parent.get("shared"), Some(Expr::new_symbol("parent")));
    assert_eq!(parent.get("parent-unique"), Some(Expr::new_symbol("123")));
    assert_eq!(parent.get("child-unique"), None);

    let mut child = Env::new(Some(parent));

    child.set("shared", Expr::new_symbol("child"));
    child.set("child-unique", Expr::new_symbol("456"));

    assert_eq!(child.get("shared"), Some(Expr::new_symbol("child")));
    assert_eq!(child.get("parent-unique"), Some(Expr::new_symbol("123")));
    assert_eq!(child.get("child-unique"), Some(Expr::new_symbol("456")));
}

#[test]
fn get_does_not_bind() {
    let env = Env::new(None);
    assert_eq!(env.get("foo"), None);
    assert_eq!(env.get("foo"), None);
}

#[test]
fn set_replaces_what_was_bound() {
    let mut env = Env::new(None);
    env.set("foo", Expr::new_integer(1));
    env.set("bar", Expr::new_integer(2));
    env.set("foo", Expr::new_integer(3));
    assert_eq!(env.get("foo"), Some(Expr::new_integer(3)));
    assert_eq!(env.get("bar"), Some(Expr::new_integer(2)));
    assert_eq!(env.get("Foo"), None);
}

#[test]
fn an_inner_environment_sees_and_shadows_the_outer() {
    let mut outer = Env::new(None);
    outer.set("a", Expr::new_integer(1));
    outer.set("b", Expr::new_integer(2));
    let mut middle = Env::new(Some(outer));
    middle.set("b", Expr::new_integer(20));
    let mut inner = Env::new(Some(middle));
    assert_eq!(inner.get("a"), Some(Expr::new_integer(1)));
    assert_eq!(inner.get("b"), Some(Expr::new_integer(20)));
    inner.set("a", Expr::new_integer(100));
    assert_eq!(inner.get("a"), Some(Expr::new_integer(100)));
    assert_eq!(inner.get("c"), None);
}
