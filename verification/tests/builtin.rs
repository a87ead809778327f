use minilisp::builtin::builtin_add;
use minilisp::builtin::builtin_car;
use minilisp::builtin::builtin_cdr;
use minilisp::builtin::builtin_div;
use minilisp::builtin::builtin_mul;
use minilisp::builtin::builtin_sub;
use minilisp::create_toplevel;
use minilisp::eval::apply;
use minilisp::eval::EvalError;
use minilisp::expr::Builtin;
use minilisp::expr::Expr;

fn n(value: isize) -> Expr {
    Expr::new_integer(value)
}

#[test]
fn car_and_cdr_take_a_list_apart() {
    let l = Expr::new_list(vec![n(1), n(2), n(3)]);
    assert_eq!(builtin_car(&[l.clone()]), Ok(n(1)));
    assert_eq!(builtin_cdr(&[l]), Ok(Expr::new_list(vec![n(2), n(3)])));
    let one = Expr::new_list(vec![n(1)]);
    assert_eq!(builtin_cdr(&[one]), Ok(Expr::new_list(vec![])));
    assert_eq!(builtin_cdr(&[Expr::new_list(vec![])]), Ok(Expr::new_list(vec![])));
}

#[test]
fn car_and_cdr_refuse_other_arguments() {
    assert_eq!(builtin_car(&[]), Err(EvalError::ArgumentError));
    assert_eq!(builtin_car(&[Expr::new_list(vec![])]), Err(EvalError::ArgumentError));
    assert_eq!(builtin_car(&[n(1)]), Err(EvalError::ArgumentError));
    assert_eq!(
        builtin_car(&[Expr::new_list(vec![n(1)]), Expr::new_list(vec![n(2)])]),
        Err(EvalError::ArgumentError)
    );
    assert_eq!(builtin_cdr(&[]), Err(EvalError::ArgumentError));
    assert_eq!(builtin_cdr(&[Expr::new_symbol("a")]), Err(EvalError::ArgumentError));
    assert_eq!(
        builtin_cdr(&[Expr::new_list(vec![]), Expr::new_list(vec![])]),
        Err(EvalError::ArgumentError)
    );
}

#[test]
fn arithmetic_is_exact() {
    assert_eq!(builtin_add(&[n(2), n(3)]), Ok(n(5)));
    assert_eq!(builtin_add(&[n(-2), n(2)]), Ok(n(0)));
    assert_eq!(builtin_sub(&[n(2), n(3)]), Ok(n(-1)));
    assert_eq!(builtin_mul(&[n(-4), n(6)]), Ok(n(-24)));
    assert_eq!(builtin_div(&[n(12), n(4)]), Ok(n(3)));
}

#[test]
fn division_rounds_towards_zero() {
    assert_eq!(builtin_div(&[n(7), n(2)]), Ok(n(3)));
    assert_eq!(builtin_div(&[n(-7), n(2)]), Ok(n(-3)));
    assert_eq!(builtin_div(&[n(7), n(-2)]), Ok(n(-3)));
    assert_eq!(builtin_div(&[n(-7), n(-2)]), Ok(n(3)));
    assert_eq!(builtin_div(&[n(0), n(-2)]), Ok(n(0)));
    assert_eq!(builtin_div(&[n(1), n(2)]), Ok(n(0)));
    assert_eq!(builtin_div(&[n(isize::MIN), n(1)]), Ok(n(isize::MIN)));
}

#[test]
fn division_by_zero_is_an_argument_error() {
    assert_eq!(builtin_div(&[n(7), n(0)]), Err(EvalError::ArgumentError));
    assert_eq!(builtin_div(&[n(0), n(0)]), Err(EvalError::ArgumentError));
}

#[test]
fn results_outside_the_machine_range_are_argument_errors() {
    assert_eq!(builtin_add(&[n(isize::MAX), n(1)]), Err(EvalError::ArgumentError));
    assert_eq!(builtin_add(&[n(isize::MIN), n(-1)]), Err(EvalError::ArgumentError));
    assert_eq!(builtin_sub(&[n(isize::MIN), n(1)]), Err(EvalError::ArgumentError));
    assert_eq!(builtin_sub(&[n(0), n(isize::MIN)]), Err(EvalError::ArgumentError));
    assert_eq!(builtin_mul(&[n(isize::MAX), n(2)]), Err(EvalError::ArgumentError));
    assert_eq!(builtin_mul(&[n(isize::MIN), n(-1)]), Err(EvalError::ArgumentError));
    assert_eq!(builtin_div(&[n(isize::MIN), n(-1)]), Err(EvalError::ArgumentError));
    assert_eq!(builtin_add(&[n(isize::MAX), n(0)]), Ok(n(isize::MAX)));
    assert_eq!(builtin_sub(&[n(isize::MIN), n(0)]), Ok(n(isize::MIN)));
    assert_eq!(builtin_mul(&[n(isize::MAX), n(1)]), Ok(n(isize::MAX)));
}

#[test]
fn arithmetic_wants_two_integers() {
    let a = Expr::new_symbol("a");
    assert_eq!(builtin_add(&[a.clone(), n(1)]), Err(EvalError::TypeError));
    assert_eq!(builtin_add(&[n(1), a.clone()]), Err(EvalError::TypeError));
    assert_eq!(builtin_sub(&[n(1), Expr::new_list(vec![])]), Err(EvalError::TypeError));
    assert_eq!(builtin_mul(&[Expr::Builtin(Builtin::Add), n(1)]), Err(EvalError::TypeError));
    assert_eq!(builtin_div(&[a.clone(), n(0)]), Err(EvalError::TypeError));
    assert_eq!(builtin_add(&[n(1)]), Err(EvalError::ArgumentError));
    assert_eq!(builtin_add(&[n(1), n(2), n(3)]), Err(EvalError::ArgumentError));
    assert_eq!(builtin_add(&[a.clone()]), Err(EvalError::ArgumentError));
    assert_eq!(builtin_sub(&[]), Err(EvalError::ArgumentError));
    assert_eq!(builtin_mul(&[n(1)]), Err(EvalError::ArgumentError));
    assert_eq!(builtin_div(&[n(1), n(2), n(3)]), Err(EvalError::ArgumentError));
}

#[test]
fn call_and_apply_reach_each_builtin() {
    let l = Expr::new_list(vec![n(1), n(2)]);
    assert_eq!(Builtin::Car.call(&[l.clone()]), Ok(n(1)));
    assert_eq!(Builtin::Cdr.call(&[l]), Ok(Expr::new_list(vec![n(2)])));
    assert_eq!(Builtin::Add.call(&[n(6), n(3)]), Ok(n(9)));
    assert_eq!(Builtin::Sub.call(&[n(6), n(3)]), Ok(n(3)));
    assert_eq!(Builtin::Mul.call(&[n(6), n(3)]), Ok(n(18)));
    assert_eq!(Builtin::Div.call(&[n(6), n(3)]), Ok(n(2)));
    assert_eq!(apply(&Expr::Builtin(Builtin::Sub), &[n(6), n(3)]), Ok(n(3)));
    assert_eq!(apply(&Expr::new_symbol("-"), &[n(6), n(3)]), Err(EvalError::TypeError));
    assert_eq!(apply(&n(1), &[]), Err(EvalError::TypeError));
}

#[test]
fn the_toplevel_binds_each_builtin_under_its_name() {
    let env = create_toplevel();
    assert_eq!(env.get("car"), Some(Expr::Builtin(Builtin::Car)));
    assert_eq!(env.get("cdr"), Some(Expr::Builtin(Builtin::Cdr)));
    assert_eq!(env.get("+"), Some(Expr::Builtin(Builtin::Add)));
    assert_eq!(env.get("-"), Some(Expr::Builtin(Builtin::Sub)));
    assert_eq!(env.get("*"), Some(Expr::Builtin(Builtin::Mul)));
    assert_eq!(env.get("/"), Some(Expr::Builtin(Builtin::Div)));
    assert_eq!(env.get("quote"), None);
    assert_eq!(env.get("define"), None);
    assert_eq!(env.get("CAR"), None);
}
