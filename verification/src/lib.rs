//! A minimal Lisp: a reader that turns text into expressions, an environment
//! that binds names to values, and an evaluator with a fixed set of builtins.

use vstd::prelude::*;

use crate::env::Bindings;
use crate::env::Env;
use crate::expr::builtin_name;
use crate::expr::Builtin;
use crate::expr::Expr;
use crate::expr::Sexp;

pub mod builtin;
pub mod env;
pub mod eval;
pub mod expr;
pub mod number;
pub mod read;
pub mod roundtrip;

verus! {

/// The bindings that a session starts with: each builtin under its name.
pub open spec fn toplevel() -> Bindings {
    Map::<Seq<char>, Sexp>::empty().insert("car"@, Sexp::Builtin(Builtin::Car)).insert(
        "cdr"@,
        Sexp::Builtin(Builtin::Cdr),
    ).insert("+"@, Sexp::Builtin(Builtin::Add)).insert("-"@, Sexp::Builtin(Builtin::Sub)).insert(
        "/"@,
        Sexp::Builtin(Builtin::Div),
    ).insert("*"@, Sexp::Builtin(Builtin::Mul))
}

/// The starting bindings hold each builtin under its name, and nothing
/// else.
pub proof fn lemma_toplevel()
    ensures
        forall|b: Builtin|
            toplevel().contains_key(#[trigger] builtin_name(b)) && toplevel()[builtin_name(b)]
                == Sexp::Builtin(b),
        forall|name: Seq<char>| #[trigger]
            toplevel().contains_key(name) ==> exists|b: Builtin| name == builtin_name(b),
{
    reveal_strlit("car");
    reveal_strlit("cdr");
    reveal_strlit("+");
    reveal_strlit("-");
    reveal_strlit("/");
    reveal_strlit("*");
    assert("car"@[1] != "cdr"@[1]);
    assert("+"@[0] != "-"@[0] && "+"@[0] != "/"@[0] && "+"@[0] != "*"@[0]);
    assert("-"@[0] != "/"@[0] && "-"@[0] != "*"@[0] && "/"@[0] != "*"@[0]);
    assert("car"@.len() == 3 && "cdr"@.len() == 3);
    assert("+"@.len() == 1 && "-"@.len() == 1 && "/"@.len() == 1 && "*"@.len() == 1);
    assert forall|b: Builtin|
        toplevel().contains_key(#[trigger] builtin_name(b)) && toplevel()[builtin_name(b)]
            == Sexp::Builtin(b) by {
        match b {
            Builtin::Car => {},
            Builtin::Cdr => {},
            Builtin::Add => {},
            Builtin::Sub => {},
            Builtin::Mul => {},
            Builtin::Div => {},
        }
    }
    assert forall|name: Seq<char>| #[trigger] toplevel().contains_key(name) implies exists|
        b: Builtin,
    |
        name == builtin_name(b) by {
        if name == "car"@ {
            assert(name == builtin_name(Builtin::Car));
        } else if name == "cdr"@ {
            assert(name == builtin_name(Builtin::Cdr));
        } else if name == "+"@ {
            assert(name == builtin_name(Builtin::Add));
        } else if name == "-"@ {
            assert(name == builtin_name(Builtin::Sub));
        } else if name == "/"@ {
            assert(name == builtin_name(Builtin::Div));
        } else {
            assert(name == builtin_name(Builtin::Mul));
        }
    }
}

/// A fresh environment that binds each builtin under its name.
pub fn create_toplevel() -> (env: Env)
    ensures
        env@ == toplevel(),
{
    let mut env = Env::new(None);

    env.set("car", Expr::Builtin(Builtin::Car));
    env.set("cdr", Expr::Builtin(Builtin::Cdr));

    env.set("+", Expr::Builtin(Builtin::Add));
    env.set("-", Expr::Builtin(Builtin::Sub));
    env.set("/", Expr::Builtin(Builtin::Div));
    env.set("*", Expr::Builtin(Builtin::Mul));

    env
}

} // verus!
