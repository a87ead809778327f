//! The builtin procedures.

use vstd::prelude::*;

use crate::eval::expect_args;
use crate::eval::expect_integer;
use crate::eval::expect_list;
use crate::eval::outcome;
use crate::eval::EvalError;
use crate::eval::EvalErrorView;
use crate::eval::Outcome;
use crate::expr::views;
use crate::expr::Builtin;
use crate::expr::Expr;
use crate::expr::Sexp;

verus! {

/// The first item of the one argument, which must be a list that is not
/// empty; an argument error on anything else.
pub open spec fn car(args: Seq<Sexp>) -> Outcome {
    if args.len() == 1 && args[0] is List && args[0]->List_0.len() > 0 {
        Ok(args[0]->List_0[0])
    } else {
        Err(EvalErrorView::ArgumentError)
    }
}

/// The one argument, which must be a list, without its first item, and the
/// empty list where it is empty; an argument error on anything else.
pub open spec fn cdr(args: Seq<Sexp>) -> Outcome {
    if args.len() == 1 && args[0] is List {
        let items = args[0]->List_0;
        if items.len() == 0 {
            Ok(Sexp::List(Seq::empty()))
        } else {
            Ok(Sexp::List(items.drop_first()))
        }
    } else {
        Err(EvalErrorView::ArgumentError)
    }
}

/// The quotient of `x` by `y`, rounded towards zero.
pub open spec fn quotient(x: int, y: int) -> int
    recommends
        y != 0,
{
    if x >= 0 && y > 0 {
        x / y
    } else if x < 0 && y < 0 {
        (-x) / (-y)
    } else if x < 0 {
        -((-x) / y)
    } else {
        -(x / (-y))
    }
}

/// The integer `n` as a result, where the machine can hold it; an argument
/// error where it cannot.
pub open spec fn integer(n: int) -> Outcome {
    if isize::MIN <= n <= isize::MAX {
        Ok(Sexp::Integer(n))
    } else {
        Err(EvalErrorView::ArgumentError)
    }
}

/// The two integers that `args` are: an argument error unless there are two
/// arguments, a type error unless both are integers.
pub open spec fn operands(args: Seq<Sexp>) -> Result<(int, int), EvalErrorView> {
    if args.len() != 2 {
        Err(EvalErrorView::ArgumentError)
    } else if args[0] is Integer && args[1] is Integer {
        Ok((args[0]->Integer_0, args[1]->Integer_0))
    } else {
        Err(EvalErrorView::TypeError)
    }
}

/// The exact sum of two integers; an argument error where the machine
/// cannot hold it.
pub open spec fn sum(args: Seq<Sexp>) -> Outcome {
    match operands(args) {
        Ok((x, y)) => integer(x + y),
        Err(e) => Err(e),
    }
}

/// The exact difference of two integers; an argument error where the
/// machine cannot hold it.
pub open spec fn difference(args: Seq<Sexp>) -> Outcome {
    match operands(args) {
        Ok((x, y)) => integer(x - y),
        Err(e) => Err(e),
    }
}

/// The exact product of two integers; an argument error where the machine
/// cannot hold it.
pub open spec fn product(args: Seq<Sexp>) -> Outcome {
    match operands(args) {
        Ok((x, y)) => integer(x * y),
        Err(e) => Err(e),
    }
}

/// The quotient of two integers, rounded towards zero; an argument error
/// where the divisor is zero or the machine cannot hold the quotient.
pub open spec fn division(args: Seq<Sexp>) -> Outcome {
    match operands(args) {
        Ok((x, y)) => if y == 0 {
            Err(EvalErrorView::ArgumentError)
        } else {
            integer(quotient(x, y))
        },
        Err(e) => Err(e),
    }
}

/// The outcome of the builtin `b` on `args`.
pub open spec fn apply_builtin(b: Builtin, args: Seq<Sexp>) -> Outcome {
    match b {
        Builtin::Car => car(args),
        Builtin::Cdr => cdr(args),
        Builtin::Add => sum(args),
        Builtin::Sub => difference(args),
        Builtin::Mul => product(args),
        Builtin::Div => division(args),
    }
}

/// `car`: the first item of a list.
pub fn builtin_car(args: &[Expr]) -> (r: Result<Expr, EvalError>)
    ensures
        outcome(r) == car(views(args@)),
{
    expect_args(args, 1)?;
    let list = expect_list(&args[0])?;
    if list.len() == 0 {
        return Err(EvalError::ArgumentError);
    }
    Ok(list[0].clone())
}

/// `cdr`: a list without its first item.
pub fn builtin_cdr(args: &[Expr]) -> (r: Result<Expr, EvalError>)
    ensures
        outcome(r) == cdr(views(args@)),
{
    expect_args(args, 1)?;
    let list = expect_list(&args[0])?;
    let mut rest: Vec<Expr> = Vec::new();
    if list.len() == 0 {
        assert(views(rest@) =~= Seq::<Sexp>::empty());
        return Ok(Expr::new_list(rest));
    }
    let mut i: usize = 1;
    while i < list.len()
        invariant
            1 <= i <= list.len(),
            rest.len() == i - 1,
            forall|j: int| 0 <= j < rest.len() ==> rest@[j]@ == list@[j + 1]@,
        decreases list.len() - i,
    {
        rest.push(list[i].clone());
        i = i + 1;
    }
    assert(views(rest@) =~= views(list@).drop_first());
    Ok(Expr::new_list(rest))
}

/// `+`: the sum of two integers.
pub fn builtin_add(args: &[Expr]) -> (r: Result<Expr, EvalError>)
    ensures
        outcome(r) == sum(views(args@)),
{
    expect_args(args, 2)?;
    let x = expect_integer(&args[0])?;
    let y = expect_integer(&args[1])?;
    match x.checked_add(y) {
        Some(n) => Ok(Expr::new_integer(n)),
        None => Err(EvalError::ArgumentError),
    }
}

/// `-`: the difference of two integers.
pub fn builtin_sub(args: &[Expr]) -> (r: Result<Expr, EvalError>)
    ensures
        outcome(r) == difference(views(args@)),
{
    expect_args(args, 2)?;
    let x = expect_integer(&args[0])?;
    let y = expect_integer(&args[1])?;
    match x.checked_sub(y) {
        Some(n) => Ok(Expr::new_integer(n)),
        None => Err(EvalError::ArgumentError),
    }
}

/// `*`: the product of two integers.
pub fn builtin_mul(args: &[Expr]) -> (r: Result<Expr, EvalError>)
    ensures
        outcome(r) == product(views(args@)),
{
    expect_args(args, 2)?;
    let x = expect_integer(&args[0])?;
    let y = expect_integer(&args[1])?;
    match x.checked_mul(y) {
        Some(n) => Ok(Expr::new_integer(n)),
        None => Err(EvalError::ArgumentError),
    }
}

/// `/`: the quotient of two integers, rounded towards zero.
pub fn builtin_div(args: &[Expr]) -> (r: Result<Expr, EvalError>)
    ensures
        outcome(r) == division(views(args@)),
{
    expect_args(args, 2)?;
    let x = expect_integer(&args[0])?;
    let y = expect_integer(&args[1])?;
    match x.checked_div(y) {
        Some(n) => Ok(Expr::new_integer(n)),
        None => Err(EvalError::ArgumentError),
    }
}

impl Builtin {
    /// Calls the procedure on `args`.
    pub fn call(&self, args: &[Expr]) -> (r: Result<Expr, EvalError>)
        ensures
            outcome(r) == apply_builtin(*self, views(args@)),
    {
        match self {
            Builtin::Car => builtin_car(args),
            Builtin::Cdr => builtin_cdr(args),
            Builtin::Add => builtin_add(args),
            Builtin::Sub => builtin_sub(args),
            Builtin::Mul => builtin_mul(args),
            Builtin::Div => builtin_div(args),
        }
    }
}

} // verus!
