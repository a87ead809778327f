use minilisp::expr::Builtin;
use minilisp::expr::Expr;

#[test]
fn test_display() {
    assert_eq!(Expr::new_symbol("a").to_string(), "a");
    assert_eq!(
        Expr::new_list(vec![Expr::new_symbol("a")]).to_string(),
        "(a)"
    );
    assert_eq!(
        Expr::new_list(vec![Expr::new_symbol("a"), Expr::new_symbol("b")]).to_string(),
        "(a b)"
    );
    assert_eq!(
        Expr::List(vec![
            Expr::new_symbol("values"),
            Expr::new_symbol("b"),
            Expr::new_list(vec![
                Expr::new_symbol("+"),
                Expr::new_integer(1),
                Expr::new_symbol("b")
            ],),
            Expr::new_symbol("c")
        ])
        .to_string(),
        "(values b (+ 1 b) c)"
    );
}

#[test]
fn to_string_writes_integers_lists_and_builtins() {
    assert_eq!(Expr::new_integer(0).to_string(), "0");
    assert_eq!(Expr::new_integer(-17).to_string(), "-17");
    assert_eq!(Expr::new_list(vec![]).to_string(), "()");
    assert_eq!(
        Expr::new_list(vec![Expr::new_list(vec![]), Expr::new_list(vec![Expr::new_integer(1)])])
            .to_string(),
        "(() (1))"
    );
    assert_eq!(Expr::Builtin(Builtin::Car).to_string(), "builtin:car");
    assert_eq!(Expr::Builtin(Builtin::Cdr).to_string(), "builtin:cdr");
    assert_eq!(Expr::Builtin(Builtin::Add).to_string(), "builtin:+");
    assert_eq!(Expr::Builtin(Builtin::Sub).to_string(), "builtin:-");
    assert_eq!(Expr::Builtin(Builtin::Mul).to_string(), "builtin:*");
    assert_eq!(Expr::Builtin(Builtin::Div).to_string(), "builtin:/");
}

#[test]
fn equality_is_structural() {
    assert_eq!(Expr::new_integer(1), Expr::new_integer(1));
    assert_ne!(Expr::new_integer(1), Expr::new_integer(2));
    assert_eq!(Expr::new_symbol("a"), Expr::new_symbol("a"));
    assert_ne!(Expr::new_symbol("a"), Expr::new_symbol("A"));
    assert_eq!(
        Expr::new_list(vec![Expr::new_symbol("a"), Expr::new_list(vec![Expr::new_integer(1)])]),
        Expr::new_list(vec![Expr::new_symbol("a"), Expr::new_list(vec![Expr::new_integer(1)])])
    );
    assert_ne!(
        Expr::new_list(vec![Expr::new_symbol("a"), Expr::new_list(vec![Expr::new_integer(1)])]),
        Expr::new_list(vec![Expr::new_symbol("a"), Expr::new_list(vec![Expr::new_integer(2)])])
    );
    assert_ne!(
        Expr::new_list(vec![Expr::new_symbol("a")]),
        Expr::new_list(vec![Expr::new_symbol("a"), Expr::new_symbol("a")])
    );
    assert_eq!(Expr::Builtin(Builtin::Add), Expr::Builtin(Builtin::Add));
    assert_ne!(Expr::Builtin(Builtin::Add), Expr::Builtin(Builtin::Sub));
}

#[test]
fn equality_across_kinds_is_false() {
    assert_ne!(Expr::new_integer(1), Expr::new_symbol("1"));
    assert_ne!(Expr::new_symbol("car"), Expr::Builtin(Builtin::Car));
    assert_ne!(Expr::new_list(vec![]), Expr::new_symbol("()"));
    assert_ne!(Expr::new_list(vec![Expr::new_integer(1)]), Expr::new_integer(1));
}

#[test]
fn clone_gives_an_equal_expression() {
    let e = Expr::new_list(vec![
        Expr::new_symbol("a"),
        Expr::new_integer(-3),
        Expr::new_list(vec![Expr::Builtin(Builtin::Mul), Expr::new_list(vec![])]),
    ]);
    assert_eq!(e.clone(), e);
}

#[test]
fn builtin_names() {
    assert_eq!(Builtin::Car.name(), "car");
    assert_eq!(Builtin::Cdr.name(), "cdr");
    assert_eq!(Builtin::Add.name(), "+");
    assert_eq!(Builtin::Sub.name(), "-");
    assert_eq!(Builtin::Mul.name(), "*");
    assert_eq!(Builtin::Div.name(), "/");
}
