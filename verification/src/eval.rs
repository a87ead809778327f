//! The evaluator.

use vstd::prelude::*;
use vstd::slice::*;
use vstd::string::*;
use vstd::utf8::*;

use crate::builtin::apply_builtin;
use crate::env::Bindings;
use crate::env::Env;
use crate::expr::views;
use crate::expr::Expr;
use crate::expr::Sexp;

verus! {

broadcast use {vstd::seq::axiom_seq_index_decreases, vstd::seq::axiom_seq_subrange_decreases};

/// Why an expression has no value.
#[derive(Debug, PartialEq, Eq)]
pub enum EvalError {
    /// A symbol that the environment does not bind, with its name.
    UndefinedSymbol(String),
    /// A wrong number of arguments, or an argument that the procedure has no
    /// result for.
    ArgumentError,
    /// A value of the wrong kind.
    TypeError,
}

/// An evaluation error as a mathematical value.
pub enum EvalErrorView {
    UndefinedSymbol(Seq<char>),
    ArgumentError,
    TypeError,
}

impl View for EvalError {
    type V = EvalErrorView;

    open spec fn view(&self) -> EvalErrorView {
        match self {
            EvalError::UndefinedSymbol(name) => EvalErrorView::UndefinedSymbol(name@),
            EvalError::ArgumentError => EvalErrorView::ArgumentError,
            EvalError::TypeError => EvalErrorView::TypeError,
        }
    }
}

/// The outcome of an evaluation as a mathematical value.
pub type Outcome = Result<Sexp, EvalErrorView>;

/// What the result of an evaluation stands for.
pub open spec fn outcome(r: Result<Expr, EvalError>) -> Outcome {
    match r {
        Ok(e) => Ok(e@),
        Err(e) => Err(e@),
    }
}

/// The value of the symbol `name` in `env`.
pub open spec fn lookup(name: Seq<char>, env: Bindings) -> Outcome {
    if env.contains_key(name) {
        Ok(env[name])
    } else {
        Err(EvalErrorView::UndefinedSymbol(name))
    }
}

/// The outcome of applying `op` to `args`: that of the builtin where `op` is
/// one, else a type error.
pub open spec fn apply_value(op: Sexp, args: Seq<Sexp>) -> Outcome {
    match op {
        Sexp::Builtin(b) => apply_builtin(b, args),
        _ => Err(EvalErrorView::TypeError),
    }
}

/// The outcome of `(quote ..)` with the operands `args`: the one operand as
/// it stands.
pub open spec fn quote(args: Seq<Sexp>) -> Outcome {
    if args.len() == 1 {
        Ok(args[0])
    } else {
        Err(EvalErrorView::ArgumentError)
    }
}

/// The outcome of evaluating `e` in `env`, and the environment after it.
///
/// An integer and a builtin are their own value, and so is the empty list.
/// A symbol has the value that `env` binds it to. A list that starts with
/// the symbol `define` or `quote` is that special form. Any other list is an
/// application: its first item is evaluated, then the others from left to
/// right, up to the first that fails, and the first value is applied to the
/// others.
pub open spec fn evaluate(e: Sexp, env: Bindings) -> (Outcome, Bindings)
    decreases e,
{
    match e {
        Sexp::Symbol(name) => (lookup(name, env), env),
        Sexp::List(items) => {
            if items.len() == 0 {
                (Ok(e), env)
            } else if items[0] == Sexp::Symbol("define"@) {
                define(items.drop_first(), env)
            } else if items[0] == Sexp::Symbol("quote"@) {
                (quote(items.drop_first()), env)
            } else {
                let (op, env) = evaluate(items[0], env);
                match op {
                    Err(e) => (Err(e), env),
                    Ok(op) => {
                        let (args, env) = evaluate_all(items.drop_first(), env);
                        match args {
                            Err(e) => (Err(e), env),
                            Ok(args) => (apply_value(op, args), env),
                        }
                    },
                }
            }
        },
        _ => (Ok(e), env),
    }
}

/// The outcome of `(define ..)` with the operands `args` in `env`: the
/// second operand is evaluated, the first, which must be a symbol, is bound
/// to its value, and is itself the result.
pub open spec fn define(args: Seq<Sexp>, env: Bindings) -> (Outcome, Bindings)
    decreases args,
{
    if args.len() != 2 {
        (Err(EvalErrorView::ArgumentError), env)
    } else {
        let (value, env) = evaluate(args[1], env);
        match value {
            Err(e) => (Err(e), env),
            Ok(value) => match args[0] {
                Sexp::Symbol(name) => (Ok(args[0]), env.insert(name, value)),
                _ => (Err(EvalErrorView::TypeError), env),
            },
        }
    }
}

/// The values of `items`, evaluated from left to right in `env`, or the
/// error of the first that fails, and the environment after it.
pub open spec fn evaluate_all(items: Seq<Sexp>, env: Bindings) -> (
    Result<Seq<Sexp>, EvalErrorView>,
    Bindings,
)
    decreases items,
{
    if items.len() == 0 {
        (Ok(Seq::empty()), env)
    } else {
        let (value, env) = evaluate(items[0], env);
        match value {
            Err(e) => (Err(e), env),
            Ok(value) => {
                let (rest, env) = evaluate_all(items.drop_first(), env);
                match rest {
                    Err(e) => (Err(e), env),
                    Ok(rest) => (Ok(seq![value] + rest), env),
                }
            },
        }
    }
}

/// `(quote x)` has the value `x` as it stands, whatever `x` is, and leaves
/// the environment as it is.
pub proof fn lemma_quote(x: Sexp, env: Bindings)
    ensures
        evaluate(Sexp::List(seq![Sexp::Symbol("quote"@), x]), env) == (
            Ok::<Sexp, EvalErrorView>(x),
            env,
        ),
{
    reveal_strlit("quote");
    reveal_strlit("define");
    let items = seq![Sexp::Symbol("quote"@), x];
    assert("quote"@[0] != "define"@[0]);
    assert(items[0] == Sexp::Symbol("quote"@));
    assert(items.drop_first() =~= seq![x]);
}

/// `(define name value)` binds the symbol `name` to the value of `value`
/// and has `name` as its own value; after it `name` has that value.
pub proof fn lemma_define(name: Seq<char>, value: Sexp, env: Bindings)
    requires
        evaluate(value, env).0 is Ok,
    ensures
        ({
            let form = Sexp::List(seq![Sexp::Symbol("define"@), Sexp::Symbol(name), value]);
            let (v, bound) = evaluate(value, env);
            &&& evaluate(form, env) == (
                Ok::<Sexp, EvalErrorView>(Sexp::Symbol(name)),
                bound.insert(name, v->Ok_0),
            )
            &&& evaluate(Sexp::Symbol(name), evaluate(form, env).1).0 == v
        }),
{
    reveal_with_fuel(evaluate, 2);
    reveal_with_fuel(define, 2);
    let items = seq![Sexp::Symbol("define"@), Sexp::Symbol(name), value];
    assert(items[0] == Sexp::Symbol("define"@));
    let args = items.drop_first();
    assert(args =~= seq![Sexp::Symbol(name), value]);
    assert(args[1] == value);
    assert(args[0] == Sexp::Symbol(name));
}

/// Evaluation never unbinds a name: what is bound before it is bound after
/// it, on an error too.
pub proof fn lemma_evaluate_keeps_names(e: Sexp, env: Bindings, name: Seq<char>)
    requires
        env.contains_key(name),
    ensures
        evaluate(e, env).1.contains_key(name),
    decreases e, 0nat,
{
    match e {
        Sexp::List(items) => {
            if items.len() == 0 {
            } else if items[0] == Sexp::Symbol("define"@) {
                lemma_define_keeps_names(items.drop_first(), env, name);
            } else if items[0] == Sexp::Symbol("quote"@) {
            } else {
                lemma_evaluate_keeps_names(items[0], env, name);
                let (op, env) = evaluate(items[0], env);
                if op is Ok {
                    lemma_evaluate_all_keeps_names(items.drop_first(), env, name);
                }
            }
        },
        _ => {},
    }
}

/// `define` never unbinds a name.
proof fn lemma_define_keeps_names(args: Seq<Sexp>, env: Bindings, name: Seq<char>)
    requires
        env.contains_key(name),
    ensures
        define(args, env).1.contains_key(name),
    decreases args, 0nat,
{
    if args.len() == 2 {
        lemma_evaluate_keeps_names(args[1], env, name);
    }
}

/// Evaluating one item after the other never unbinds a name.
proof fn lemma_evaluate_all_keeps_names(items: Seq<Sexp>, env: Bindings, name: Seq<char>)
    requires
        env.contains_key(name),
    ensures
        evaluate_all(items, env).1.contains_key(name),
    decreases items, 0nat,
{
    if items.len() > 0 {
        lemma_evaluate_keeps_names(items[0], env, name);
        let (value, env) = evaluate(items[0], env);
        if value is Ok {
            lemma_evaluate_all_keeps_names(items.drop_first(), env, name);
        }
    }
}

/// Checks that there are `n` arguments.
pub fn expect_args(args: &[Expr], n: usize) -> (r: Result<(), EvalError>)
    ensures
        match r {
            Ok(_) => args@.len() == n,
            Err(e) => args@.len() != n && e@ == EvalErrorView::ArgumentError,
        },
{
    if args.len() == n {
        Ok(())
    } else {
        Err(EvalError::ArgumentError)
    }
}

/// The integer that `e` is, or a type error.
pub fn expect_integer(e: &Expr) -> (r: Result<isize, EvalError>)
    ensures
        match r {
            Ok(n) => e@ == Sexp::Integer(n as int),
            Err(err) => !(e@ is Integer) && err@ == EvalErrorView::TypeError,
        },
{
    if let Expr::Integer(n) = e {
        Ok(*n)
    } else {
        Err(EvalError::TypeError)
    }
}

/// The items of the list that `e` is, or an argument error.
pub fn expect_list(e: &Expr) -> (r: Result<&Vec<Expr>, EvalError>)
    ensures
        match r {
            Ok(items) => e@ == Sexp::List(views(items@)),
            Err(err) => !(e@ is List) && err@ == EvalErrorView::ArgumentError,
        },
{
    if let Expr::List(items) = e {
        Ok(items)
    } else {
        Err(EvalError::ArgumentError)
    }
}

/// The name of the symbol that `e` is, or a type error.
pub fn expect_symbol(e: &Expr) -> (r: Result<&String, EvalError>)
    ensures
        match r {
            Ok(name) => e@ == Sexp::Symbol(name@),
            Err(err) => !(e@ is Symbol) && err@ == EvalErrorView::TypeError,
        },
{
    if let Expr::Symbol(name) = e {
        Ok(name)
    } else {
        Err(EvalError::TypeError)
    }
}

/// Tells whether two texts are the same.
pub fn same_text(a: &str, b: &str) -> (r: bool)
    ensures
        r == (a@ == b@),
{
    broadcast use vstd::utf8::encode_utf8_decode_utf8;

    let x = a.as_bytes();
    let y = b.as_bytes();
    if x.len() != y.len() {
        return false;
    }
    let mut i: usize = 0;
    while i < x.len()
        invariant
            i <= x.len(),
            x.len() == y.len(),
            x@ == encode_utf8(a@),
            y@ == encode_utf8(b@),
            forall|j: int| 0 <= j < i ==> x@[j] == y@[j],
        decreases x.len() - i,
    {
        if x[i] != y[i] {
            return false;
        }
        i = i + 1;
    }
    proof {
        assert(x@ =~= y@);
        assert(decode_utf8(encode_utf8(a@)) == a@);
        assert(decode_utf8(encode_utf8(b@)) == b@);
    }
    true
}

/// The values found so far, put before those that are still to come.
spec fn following(
    done: Seq<Sexp>,
    r: (Result<Seq<Sexp>, EvalErrorView>, Bindings),
) -> (Result<Seq<Sexp>, EvalErrorView>, Bindings) {
    match r.0 {
        Ok(values) => (Ok(done + values), r.1),
        Err(e) => (Err(e), r.1),
    }
}

/// Evaluates `expr` in `env`.
///
/// The result and the environment that is left are those of `evaluate`: on
/// an error too the bindings made before it stay.
pub fn eval(expr: &Expr, env: &mut Env) -> (r: Result<Expr, EvalError>)
    ensures
        (outcome(r), final(env)@) == evaluate(expr@, old(env)@),
    decreases expr@,
{
    match expr {
        Expr::Symbol(s) => eval_symbol(s.as_str(), env),
        Expr::List(exprs) => {
            proof {
                assert(decreases_to!(expr@ => expr@->List_0));
            }
            eval_list(exprs.as_slice(), env)
        },
        _ => Ok(expr.clone()),
    }
}

/// The value that `env` binds the symbol `s` to.
pub fn eval_symbol(s: &str, env: &mut Env) -> (r: Result<Expr, EvalError>)
    ensures
        outcome(r) == lookup(s@, old(env)@),
        final(env)@ == old(env)@,
{
    match env.get(s) {
        Some(value) => Ok(value),
        None => Err(EvalError::UndefinedSymbol(s.to_owned())),
    }
}

/// Evaluates the list of `args`: a special form, an application, or the
/// empty list.
pub fn eval_list(args: &[Expr], env: &mut Env) -> (r: Result<Expr, EvalError>)
    ensures
        (outcome(r), final(env)@) == evaluate(Sexp::List(views(args@)), old(env)@),
    decreases views(args@),
{
    let ghost items = views(args@);
    if args.len() == 0 {
        let empty: Vec<Expr> = Vec::new();
        assert(views(empty@) =~= items);
        return Ok(Expr::new_list(empty));
    }
    let op = &args[0];
    let rest = slice_subrange(args, 1, args.len());
    proof {
        assert(views(rest@) =~= items.drop_first());
        vstd::seq::axiom_seq_subrange_decreases(items, 1, items.len() as int);
        assert(decreases_to!(items => items[0]));
    }
    if let Expr::Symbol(sym) = op {
        if same_text(sym.as_str(), "define") {
            return eval_define(rest, env);
        }
        if same_text(sym.as_str(), "quote") {
            return eval_quote(rest, env);
        }
    }
    assert(items[0] != Sexp::Symbol("define"@) && items[0] != Sexp::Symbol("quote"@));

    let op = eval(op, env)?;
    let ghost first = old(env)@;
    let ghost start = env@;
    let ghost operands = views(rest@);
    let mut values: Vec<Expr> = Vec::new();
    let mut i: usize = 0;
    proof {
        assert(operands.skip(0) =~= operands);
        assert(views(values@) =~= Seq::<Sexp>::empty());
        let r = evaluate_all(operands, start);
        assert(following(Seq::empty(), r) == r) by {
            if r.0 is Ok {
                assert(Seq::<Sexp>::empty() + r.0->Ok_0 =~= r.0->Ok_0);
            }
        }
    }
    while i < rest.len()
        invariant
            i <= rest.len(),
            items == views(args@),
            operands == views(rest@),
            operands == items.drop_first(),
            items.len() > 0,
            first == old(env)@,
            items[0] != Sexp::Symbol("define"@),
            items[0] != Sexp::Symbol("quote"@),
            evaluate(items[0], first) == (Ok::<Sexp, EvalErrorView>(op@), start),
            evaluate_all(operands, start) == following(
                views(values@),
                evaluate_all(operands.skip(i as int), env@),
            ),
        decreases rest.len() - i,
    {
        let ghost before = env@;
        let ghost done = views(values@);
        let ghost left = operands.skip(i as int);
        proof {
            assert(left[0] == operands[i as int]);
            assert(left.drop_first() =~= operands.skip(i + 1));
            assert(operands[i as int] == items[i + 1]);
            assert(decreases_to!(items => items[i + 1]));
        }
        let value = match eval(&rest[i], env) {
            Ok(value) => value,
            Err(e) => {
                proof {
                    assert(evaluate_all(left, before) == (
                        Err::<Seq<Sexp>, EvalErrorView>(e@),
                        env@,
                    ));
                    assert(evaluate_all(operands, start).0 == Err::<Seq<Sexp>, EvalErrorView>(e@));
                }
                return Err(e);
            },
        };
        proof {
            let next = evaluate_all(operands.skip(i + 1), env@);
            if next.0 is Ok {
                assert(done + (seq![value@] + next.0->Ok_0) =~= done.push(value@) + next.0->Ok_0);
            }
        }
        values.push(value);
        assert(views(values@) =~= done.push(value@));
        i = i + 1;
    }
    proof {
        assert(operands.skip(rest.len() as int) =~= Seq::<Sexp>::empty());
        assert(views(values@) + Seq::<Sexp>::empty() =~= views(values@));
    }
    apply(&op, values.as_slice())
}

/// Evaluates `(define ..)` with the operands `args`.
pub fn eval_define(args: &[Expr], env: &mut Env) -> (r: Result<Expr, EvalError>)
    ensures
        (outcome(r), final(env)@) == define(views(args@), old(env)@),
    decreases views(args@),
{
    if args.len() == 2 {
        let name = &args[0];
        let binding = &args[1];
        let val = eval(binding, env)?;
        let symbol = expect_symbol(name)?;
        env.set(symbol.as_str(), val);
        Ok(name.clone())
    } else {
        Err(EvalError::ArgumentError)
    }
}

/// Evaluates `(quote ..)` with the operands `args`.
pub fn eval_quote(args: &[Expr], _env: &mut Env) -> (r: Result<Expr, EvalError>)
    ensures
        outcome(r) == quote(views(args@)),
        final(_env)@ == old(_env)@,
{
    if args.len() == 1 {
        Ok(args[0].clone())
    } else {
        Err(EvalError::ArgumentError)
    }
}

/// Applies `op` to `args`.
pub fn apply(op: &Expr, args: &[Expr]) -> (r: Result<Expr, EvalError>)
    ensures
        outcome(r) == apply_value(op@, views(args@)),
{
    if let Expr::Builtin(b) = op {
        b.call(args)
    } else {
        Err(EvalError::TypeError)
    }
}

} // verus!
