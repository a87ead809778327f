//! Expressions: what they are, what they stand for, and how they are
//! written.

use vstd::prelude::*;
use vstd::string::*;

use crate::number::render_integer;
use crate::number::write_integer;

verus! {

broadcast use {
    vstd::std_specs::vec::axiom_vec_index_decreases,
    vstd::seq::axiom_seq_index_decreases,
    vstd::seq::axiom_seq_subrange_decreases,
};

/// The native procedures of the language. Two builtins are the same where
/// they are the same procedure.
#[derive(Clone, Copy, Debug, PartialEq, Eq, Structural)]
pub enum Builtin {
    /// The first item of a list.
    Car,
    /// A list without its first item.
    Cdr,
    /// The sum of two integers.
    Add,
    /// The difference of two integers.
    Sub,
    /// The product of two integers.
    Mul,
    /// The quotient of two integers.
    Div,
}

/// An expression as a mathematical value: what an `Expr` stands for.
pub enum Sexp {
    Builtin(Builtin),
    Integer(int),
    Symbol(Seq<char>),
    List(Seq<Sexp>),
}

/// An expression: code and data alike.
#[derive(Debug)]
pub enum Expr {
    /// A native procedure.
    Builtin(Builtin),
    /// A whole number.
    Integer(isize),
    /// A name.
    Symbol(String),
    /// A sequence of expressions.
    List(Vec<Expr>),
}

/// The value that an expression stands for.
pub open spec fn sexp(e: Expr) -> Sexp
    decreases e,
{
    match e {
        Expr::Builtin(b) => Sexp::Builtin(b),
        Expr::Integer(n) => Sexp::Integer(n as int),
        Expr::Symbol(name) => Sexp::Symbol(name@),
        Expr::List(items) => Sexp::List(views(items@)),
    }
}

/// The values that a sequence of expressions stands for.
pub open spec fn views(items: Seq<Expr>) -> Seq<Sexp>
    decreases items,
{
    Seq::new(
        items.len(),
        |i: int|
            if 0 <= i < items.len() {
                sexp(items[i])
            } else {
                arbitrary()
            },
    )
}

impl View for Expr {
    type V = Sexp;

    open spec fn view(&self) -> Sexp {
        sexp(*self)
    }
}

impl Clone for Expr {
    /// A copy that stands for the same value.
    fn clone(&self) -> (copy: Expr)
        ensures
            copy@ == self@,
        decreases self,
    {
        match self {
            Expr::Builtin(b) => Expr::Builtin(*b),
            Expr::Integer(n) => Expr::Integer(*n),
            Expr::Symbol(name) => Expr::Symbol(name.clone()),
            Expr::List(items) => {
                let mut copies: Vec<Expr> = Vec::new();
                let mut i: usize = 0;
                while i < items.len()
                    invariant
                        i <= items.len(),
                        copies.len() == i,
                        self is List,
                        self->List_0 == *items,
                        forall|j: int| 0 <= j < i ==> copies@[j]@ == items@[j]@,
                    decreases items.len() - i,
                {
                    copies.push(items[i].clone());
                    i += 1;
                }
                assert(views(copies@) =~= views(items@));
                Expr::List(copies)
            },
        }
    }
}

/// The name under which a builtin is known.
pub open spec fn builtin_name(b: Builtin) -> Seq<char> {
    match b {
        Builtin::Car => "car"@,
        Builtin::Cdr => "cdr"@,
        Builtin::Add => "+"@,
        Builtin::Sub => "-"@,
        Builtin::Mul => "*"@,
        Builtin::Div => "/"@,
    }
}

/// The text of an expression: an integer in decimal, a symbol as its name,
/// a list as the texts of its items between parentheses, one space between
/// two items, and a builtin as `builtin:` and its name.
pub open spec fn render(e: Sexp) -> Seq<char>
    decreases e,
{
    match e {
        Sexp::Builtin(b) => "builtin:"@ + builtin_name(b),
        Sexp::Integer(n) => render_integer(n),
        Sexp::Symbol(name) => name,
        Sexp::List(items) => seq!['('] + render_items(items) + seq![')'],
    }
}

/// The texts of `items`, one space between two of them.
pub open spec fn render_items(items: Seq<Sexp>) -> Seq<char>
    decreases items,
{
    if items.len() == 0 {
        Seq::empty()
    } else if items.len() == 1 {
        render(items[0])
    } else {
        render(items[0]) + seq![' '] + render_items(items.drop_first())
    }
}

/// Adding an item at the end adds its text at the end, after a space where
/// it is not the first.
pub proof fn lemma_render_items_push(items: Seq<Sexp>, item: Sexp)
    ensures
        render_items(items.push(item)) == if items.len() == 0 {
            render(item)
        } else {
            render_items(items) + seq![' '] + render(item)
        },
    decreases items.len(),
{
    let all = items.push(item);
    if items.len() == 0 {
    } else {
        let rest = items.drop_first();
        lemma_render_items_push(rest, item);
        assert(all.drop_first() =~= rest.push(item));
        assert(all[0] == items[0]);
        if items.len() == 1 {
            assert(rest.len() == 0);
            assert(render_items(all) =~= render_items(items) + seq![' '] + render(item));
        } else {
            assert(render_items(all) =~= render_items(items) + seq![' '] + render(item));
        }
    }
}

impl Builtin {
    /// The name under which the builtin is known.
    pub fn name(&self) -> (name: &'static str)
        ensures
            name@ == builtin_name(*self),
    {
        match self {
            Builtin::Car => "car",
            Builtin::Cdr => "cdr",
            Builtin::Add => "+",
            Builtin::Sub => "-",
            Builtin::Mul => "*",
            Builtin::Div => "/",
        }
    }
}

impl Expr {
    /// The symbol named `name`.
    pub fn new_symbol(name: &str) -> (e: Expr)
        ensures
            e@ == Sexp::Symbol(name@),
    {
        Expr::Symbol(name.to_owned())
    }

    /// The list of `items`.
    pub fn new_list(items: Vec<Expr>) -> (e: Expr)
        ensures
            e@ == Sexp::List(views(items@)),
    {
        Expr::List(items)
    }

    /// The integer `n`.
    pub fn new_integer(n: isize) -> (e: Expr)
        ensures
            e@ == Sexp::Integer(n as int),
    {
        Expr::Integer(n)
    }

    /// Appends the text of the expression to `out`.
    fn write(&self, out: &mut String)
        ensures
            final(out)@ == old(out)@ + render(self@),
        decreases self,
    {
        match self {
            Expr::Builtin(b) => {
                out.append("builtin:");
                out.append(b.name());
                assert(out@ =~= old(out)@ + render(self@));
            },
            Expr::Integer(n) => {
                let digits = write_integer(*n);
                out.append(digits.as_str());
            },
            Expr::Symbol(name) => {
                out.append(name.as_str());
            },
            Expr::List(items) => {
                proof {
                    reveal_strlit("(");
                    reveal_strlit(")");
                    reveal_strlit(" ");
                }
                let ghost all = views(items@);
                out.append("(");
                let mut i: usize = 0;
                assert(all.take(0) =~= Seq::<Sexp>::empty());
                while i < items.len()
                    invariant
                        i <= items.len(),
                        self is List,
                        self->List_0 == *items,
                        all == views(items@),
                        " "@ == seq![' '],
                        out@ == old(out)@ + seq!['('] + render_items(all.take(i as int)),
                    decreases items.len() - i,
                {
                    if i > 0 {
                        out.append(" ");
                    }
                    items[i].write(out);
                    proof {
                        let done = all.take(i as int);
                        lemma_render_items_push(done, all[i as int]);
                        assert(all.take(i + 1) =~= done.push(all[i as int]));
                        assert(out@ =~= old(out)@ + seq!['('] + render_items(all.take(i + 1)));
                    }
                    i = i + 1;
                }
                out.append(")");
                proof {
                    assert(all.take(items.len() as int) =~= all);
                    assert(out@ =~= old(out)@ + render(self@));
                }
            },
        }
    }

    /// The text of the expression.
    pub fn to_string(&self) -> (text: String)
        ensures
            text@ == render(self@),
    {
        let mut out = String::new();
        self.write(&mut out);
        assert(out@ =~= render(self@));
        out
    }

    /// Tells whether two expressions stand for the same value.
    pub fn same(&self, other: &Expr) -> (r: bool)
        ensures
            r == (self@ == other@),
        decreases self,
    {
        match (self, other) {
            (Expr::Builtin(a), Expr::Builtin(b)) => *a == *b,
            (Expr::Integer(a), Expr::Integer(b)) => *a == *b,
            (Expr::Symbol(a), Expr::Symbol(b)) => *a == *b,
            (Expr::List(a), Expr::List(b)) => {
                if a.len() != b.len() {
                    assert(views(a@).len() != views(b@).len());
                    return false;
                }
                let mut i: usize = 0;
                while i < a.len()
                    invariant
                        i <= a.len(),
                        a.len() == b.len(),
                        self is List,
                        self->List_0 == *a,
                        self@ == Sexp::List(views(a@)),
                        other@ == Sexp::List(views(b@)),
                        forall|j: int| 0 <= j < i ==> a@[j]@ == b@[j]@,
                    decreases a.len() - i,
                {
                    if !a[i].same(&b[i]) {
                        proof {
                            assert(views(a@)[i as int] != views(b@)[i as int]);
                        }
                        return false;
                    }
                    i = i + 1;
                }
                assert(views(a@) =~= views(b@));
                true
            },
            _ => false,
        }
    }
}

impl PartialEq for Expr {
    fn eq(&self, other: &Expr) -> (r: bool) {
        self.same(other)
    }
}

impl vstd::std_specs::cmp::PartialEqSpecImpl for Expr {
    open spec fn obeys_eq_spec() -> bool {
        true
    }

    open spec fn eq_spec(&self, other: &Expr) -> bool {
        self@ == other@
    }
}

} // verus!
