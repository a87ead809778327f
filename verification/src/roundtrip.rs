//! Reading back what was written.

use vstd::prelude::*;

use crate::expr::render;
use crate::expr::render_items;
use crate::expr::Sexp;
use crate::number::decimal;
use crate::number::is_digit;
use crate::number::lemma_decimal;
use crate::number::lemma_parse_render_integer;
use crate::number::parse_integer;
use crate::number::render_integer;
use crate::read::after;
use crate::read::atom_length;
use crate::read::atom_value;
use crate::read::first_token;
use crate::read::is_delimiter;
use crate::read::is_whitespace;
use crate::read::leading_whitespace;
use crate::read::lemma_atom_length;
use crate::read::lemma_first_token_atom;
use crate::read::lemma_first_token_bounds;
use crate::read::lemma_leading_whitespace;
use crate::read::lemma_read_items_bounds;
use crate::read::read_form;
use crate::read::read_items;
use crate::read::ReadError;
use crate::read::TokenView;

verus! {

broadcast use {vstd::seq::axiom_seq_index_decreases, vstd::seq::axiom_seq_subrange_decreases};

/// A name that is read back as the symbol of that name: it is not empty, it
/// holds no whitespace and no parenthesis, and it is no integer literal.
pub open spec fn is_symbol_name(name: Seq<char>) -> bool {
    &&& name.len() > 0
    &&& forall|i: int| 0 <= i < name.len() ==> !is_delimiter(#[trigger] name[i])
    &&& parse_integer(name) is None
}

/// An expression whose text is read back as the expression itself: it is
/// made of lists, of integers that the machine holds, and of symbols with a
/// name that is read back as a symbol.
pub open spec fn readable(e: Sexp) -> bool
    decreases e,
{
    match e {
        Sexp::Builtin(_) => false,
        Sexp::Integer(n) => isize::MIN <= n <= isize::MAX,
        Sexp::Symbol(name) => is_symbol_name(name),
        Sexp::List(items) => forall|i: int| 0 <= i < items.len() ==> readable(#[trigger] items[i]),
    }
}

/// The text that follows the first of the items of a list up to and with the
/// list's `)`.
spec fn closing(rest: Seq<Sexp>) -> Seq<char> {
    if rest.len() == 0 {
        seq![')']
    } else {
        seq![' '] + render_items(rest) + seq![')']
    }
}

/// The text of an integer holds no delimiter, and is not empty.
proof fn lemma_integer_text(n: int)
    ensures
        render_integer(n).len() > 0,
        forall|i: int|
            0 <= i < render_integer(n).len() ==> !is_delimiter(#[trigger] render_integer(n)[i]),
{
    let text = render_integer(n);
    if n < 0 {
        let digits = decimal((-n) as nat);
        lemma_decimal((-n) as nat);
        assert forall|i: int| 0 <= i < text.len() implies !is_delimiter(#[trigger] text[i]) by {
            if i > 0 {
                assert(text[i] == digits[i - 1]);
                assert(is_digit(digits[i - 1]));
            }
        }
    } else {
        let digits = decimal(n as nat);
        lemma_decimal(n as nat);
        assert forall|i: int| 0 <= i < text.len() implies !is_delimiter(#[trigger] text[i]) by {
            assert(is_digit(digits[i]));
        }
    }
}

/// A space before a text is taken with the first token of the text.
proof fn lemma_first_token_space(s: Seq<char>)
    ensures
        first_token(seq![' '] + s) == (first_token(s).0, first_token(s).1 + 1),
{
    let t = seq![' '] + s;
    assert(is_whitespace(' '));
    assert(t.drop_first() =~= s);
    assert(leading_whitespace(t) == 1 + leading_whitespace(s));
    lemma_leading_whitespace(s);
    let start = leading_whitespace(s) as int;
    if start < s.len() {
        assert(t[start + 1] == s[start]);
        assert(t.skip(start + 1) =~= s.skip(start));
        lemma_atom_length(s.skip(start));
        let end = start + atom_length(s.skip(start));
        assert(t.subrange(start + 1, end + 1) =~= s.subrange(start, end));
    }
}

/// A space before the items of a list is taken with the first of them.
proof fn lemma_read_items_space(s: Seq<char>)
    ensures
        read_items(seq![' '] + s) == (read_items(s).0, read_items(s).1 + 1),
{
    let t = seq![' '] + s;
    lemma_first_token_space(s);
    lemma_first_token_bounds(s);
    let (token, n) = first_token(s);
    assert(after(t, n + 1) =~= after(s, n));
    match token {
        None => {},
        Some(TokenView::CloseParen) => {},
        Some(TokenView::Atom(text)) => {},
        Some(TokenView::OpenParen) => {
            let (inner, m) = read_items(after(s, n));
            lemma_read_items_bounds(after(s, n));
            assert(after(t, n + 1 + m) =~= after(s, n + m));
        },
    }
}

/// What follows the first item of a list is read as the other items.
proof fn lemma_read_items_closing(rest: Seq<Sexp>, tail: Seq<char>)
    requires
        forall|i: int| 0 <= i < rest.len() ==> readable(#[trigger] rest[i]),
    ensures
        read_items(closing(rest) + tail) == (
            Ok::<Seq<Sexp>, ReadError>(rest),
            closing(rest).len(),
        ),
        is_delimiter(closing(rest)[0]),
    decreases rest, 1nat,
{
    if rest.len() == 0 {
        lemma_read_items_render(rest, tail);
        assert(render_items(rest) + seq![')'] + tail =~= closing(rest) + tail);
    } else {
        let v = render_items(rest) + seq![')'] + tail;
        lemma_read_items_render(rest, tail);
        lemma_read_items_space(v);
        assert(closing(rest) + tail =~= seq![' '] + v);
        assert(is_whitespace(' '));
    }
}

/// The text of the items of a list, up to and with the list's `)`, is read
/// as the items.
proof fn lemma_read_items_render(items: Seq<Sexp>, tail: Seq<char>)
    requires
        forall|i: int| 0 <= i < items.len() ==> readable(#[trigger] items[i]),
    ensures
        read_items(render_items(items) + seq![')'] + tail) == (
            Ok::<Seq<Sexp>, ReadError>(items),
            render_items(items).len() + 1,
        ),
    decreases items, 0nat,
{
    let s = render_items(items) + seq![')'] + tail;
    if items.len() == 0 {
        assert(s[0] == ')');
        assert(!is_whitespace(')'));
        assert(leading_whitespace(s) == 0);
        assert(items =~= Seq::<Sexp>::empty());
    } else {
        let x = items[0];
        let rest = items.drop_first();
        let u = closing(rest) + tail;
        assert(readable(x));
        assert forall|i: int| 0 <= i < rest.len() implies readable(#[trigger] rest[i]) by {
            assert(rest[i] == items[i + 1]);
        }
        assert(render_items(items) + seq![')'] =~= render(x) + closing(rest));
        assert(s =~= render(x) + u);
        assert(seq![x] + rest =~= items);
        match x {
            Sexp::List(inner) => {
                let w = render_items(inner) + seq![')'] + u;
                assert(s =~= seq!['('] + w);
                assert(!is_whitespace('('));
                assert(leading_whitespace(s) == 0);
                assert(first_token(s) == (Some(TokenView::OpenParen), 1nat));
                assert(after(s, 1) =~= w);
                lemma_read_items_render(inner, u);
                let m = render_items(inner).len() + 1;
                assert(after(s, 1 + m) =~= u);
                lemma_read_items_closing(rest, tail);
                assert(render(x).len() == 1 + m);
                assert(render_items(items).len() + 1 == render(x).len() + closing(rest).len());
            },
            _ => {
                let text = render(x);
                lemma_read_items_closing(rest, tail);
                assert(u[0] == closing(rest)[0]);
                lemma_atom_text(x);
                lemma_first_token_atom(text, u);
                assert(after(s, text.len()) =~= u);
                assert(render_items(items).len() + 1 == render(x).len() + closing(rest).len());
            },
        }
    }
}

/// The text of a readable integer or symbol is one atom that stands for it.
proof fn lemma_atom_text(e: Sexp)
    requires
        readable(e),
        !(e is List),
    ensures
        render(e).len() > 0,
        forall|i: int| 0 <= i < render(e).len() ==> !is_delimiter(#[trigger] render(e)[i]),
        atom_value(render(e)) == e,
{
    match e {
        Sexp::Integer(n) => {
            lemma_integer_text(n);
            lemma_parse_render_integer(n);
        },
        _ => {},
    }
}

/// Reading the text of a readable expression, with `tail` after it, gives
/// the expression and takes its text and no more. After a list anything may
/// follow; after an integer or a symbol, a delimiter or nothing.
pub proof fn lemma_read_render_before(e: Sexp, tail: Seq<char>)
    requires
        readable(e),
        e is List || tail.len() == 0 || is_delimiter(tail[0]),
    ensures
        read_form(render(e) + tail) == (Ok::<Sexp, ReadError>(e), render(e).len()),
{
    let s = render(e) + tail;
    match e {
        Sexp::List(items) => {
            let w = render_items(items) + seq![')'] + tail;
            assert(s =~= seq!['('] + w);
            assert(!is_whitespace('('));
            assert(leading_whitespace(s) == 0);
            assert(first_token(s) == (Some(TokenView::OpenParen), 1nat));
            assert(after(s, 1) =~= w);
            lemma_read_items_render(items, tail);
        },
        _ => {
            lemma_atom_text(e);
            lemma_first_token_atom(render(e), tail);
        },
    }
}

/// Reading the text of a readable expression gives the expression, and
/// takes all of the text.
pub proof fn lemma_read_render(e: Sexp)
    requires
        readable(e),
    ensures
        read_form(render(e)) == (Ok::<Sexp, ReadError>(e), render(e).len()),
{
    lemma_read_render_before(e, Seq::empty());
    assert(render(e) + Seq::<char>::empty() =~= render(e));
}

} // verus!
