use minilisp::create_toplevel;
use minilisp::env::EnvInner;
use minilisp::eval::eval_define;
use minilisp::eval::eval_list;
use minilisp::eval::eval_quote;
use minilisp::eval::eval_symbol;
use minilisp::eval::expect_args;
use minilisp::eval::expect_integer;
use minilisp::eval::expect_list;
use minilisp::eval::expect_symbol;
use minilisp::eval::same_text;
use minilisp::eval::EvalError;
use minilisp::expr::Expr;
use minilisp::read::Token;

#[test]
fn same_text_tells_texts_apart() {
    assert!(same_text("", ""));
    assert!(same_text("define", "define"));
    assert!(!same_text("define", "Define"));
    assert!(!same_text("define", "defin"));
    assert!(!same_text("quote", "quotes"));
    assert!(same_text("λx", "λx"));
    assert!(!same_text("λx", "λy"));
}

#[test]
fn expect_args_counts() {
    let args = [Expr::new_integer(1), Expr::new_integer(2)];
    assert_eq!(expect_args(&args, 2), Ok(()));
    assert_eq!(expect_args(&args, 1), Err(EvalError::ArgumentError));
    assert_eq!(expect_args(&args, 3), Err(EvalError::ArgumentError));
    assert_eq!(expect_args(&[], 0), Ok(()));
}

#[test]
fn expect_integer_list_and_symbol_look_at_the_kind() {
    let n = Expr::new_integer(4);
    let s = Expr::new_symbol("s");
    let l = Expr::new_list(vec![Expr::new_integer(1)]);
    assert_eq!(expect_integer(&n), Ok(4));
    assert_eq!(expect_integer(&s), Err(EvalError::TypeError));
    assert_eq!(expect_integer(&l), Err(EvalError::TypeError));
    assert_eq!(expect_list(&l), Ok(&vec![Expr::new_integer(1)]));
    assert_eq!(expect_list(&n), Err(EvalError::ArgumentError));
    assert_eq!(expect_list(&s), Err(EvalError::ArgumentError));
    assert_eq!(expect_symbol(&s), Ok(&"s".to_owned()));
    assert_eq!(expect_symbol(&n), Err(EvalError::TypeError));
    assert_eq!(expect_symbol(&l), Err(EvalError::TypeError));
}

#[test]
fn eval_symbol_looks_the_name_up() {
    let mut env = create_toplevel();
    env.set("x", Expr::new_integer(9));
    assert_eq!(eval_symbol("x", &mut env), Ok(Expr::new_integer(9)));
    assert_eq!(
        eval_symbol("X", &mut env),
        Err(EvalError::UndefinedSymbol("X".to_owned()))
    );
    assert_eq!(env.get("X"), None);
}

#[test]
fn eval_list_takes_the_items_of_a_list() {
    let mut env = create_toplevel();
    let items = [
        Expr::new_symbol("*"),
        Expr::new_integer(6),
        Expr::new_list(vec![
            Expr::new_symbol("-"),
            Expr::new_integer(10),
            Expr::new_integer(3),
        ]),
    ];
    assert_eq!(eval_list(&items, &mut env), Ok(Expr::new_integer(42)));
    assert_eq!(eval_list(&[], &mut env), Ok(Expr::new_list(vec![])));
}

#[test]
fn eval_define_and_eval_quote_take_the_operands() {
    let mut env = create_toplevel();
    let operands = [
        Expr::new_symbol("n"),
        Expr::new_list(vec![
            Expr::new_symbol("/"),
            Expr::new_integer(9),
            Expr::new_integer(2),
        ]),
    ];
    assert_eq!(eval_define(&operands, &mut env), Ok(Expr::new_symbol("n")));
    assert_eq!(env.get("n"), Some(Expr::new_integer(4)));
    assert_eq!(
        eval_define(&operands[..1], &mut env),
        Err(EvalError::ArgumentError)
    );
    assert_eq!(
        eval_quote(&operands[..1], &mut env),
        Ok(Expr::new_symbol("n"))
    );
    assert_eq!(eval_quote(&operands, &mut env), Err(EvalError::ArgumentError));
    assert_eq!(eval_quote(&[], &mut env), Err(EvalError::ArgumentError));
}

#[test]
fn define_with_a_failing_value_binds_nothing() {
    let mut env = create_toplevel();
    let operands = [Expr::new_symbol("n"), Expr::new_symbol("missing")];
    assert_eq!(
        eval_define(&operands, &mut env),
        Err(EvalError::UndefinedSymbol("missing".to_owned()))
    );
    assert_eq!(env.get("n"), None);
}

#[test]
fn frames_shadow_the_frames_around_them() {
    let mut outer = EnvInner::new(None);
    outer.set("a", Expr::new_integer(1));
    outer.set("b", Expr::new_integer(2));
    let mut inner = EnvInner::new(Some(Box::new(outer)));
    assert_eq!(inner.get("a"), Some(Expr::new_integer(1)));
    inner.set("a", Expr::new_integer(10));
    assert_eq!(inner.get("a"), Some(Expr::new_integer(10)));
    assert_eq!(inner.get("b"), Some(Expr::new_integer(2)));
    assert_eq!(inner.get("c"), None);
}

#[test]
fn a_token_can_be_copied() {
    let token = Token::Atom("abc".to_owned());
    assert_eq!(token.clone(), token);
    assert_eq!(Token::OpenParen.clone(), Token::OpenParen);
    assert_eq!(Token::CloseParen.clone(), Token::CloseParen);
    assert_ne!(Token::OpenParen, Token::CloseParen);
}
