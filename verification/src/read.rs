//! The reader: from bytes to tokens, and from tokens to one expression at a
//! time.

use vstd::prelude::*;
use vstd::slice::*;
use vstd::string::*;
use vstd::utf8::*;

use crate::expr::Expr;
use crate::expr::Sexp;
use crate::expr::views;
use crate::number::parse_integer;
use crate::number::read_integer;

verus! {

broadcast use {
    vstd::utf8::encode_utf8_valid_utf8,
    vstd::utf8::encode_utf8_decode_utf8,
    vstd::utf8::decode_utf8_encode_utf8,
};

/// Why no expression was read.
#[derive(Clone, Copy, Debug, PartialEq, Eq, Structural)]
pub enum ReadError {
    /// The input is not valid UTF-8.
    InvalidUTF8,
    /// A `)` closes a list that was never opened.
    UnbalancedParen,
    /// The input ends inside a list: more text may complete it.
    UnexpectedEOF,
    /// The input holds no token at all.
    Empty,
}

/// A lexical unit of the input.
#[derive(Debug, PartialEq, Eq)]
pub enum Token {
    OpenParen,
    CloseParen,
    Atom(String),
}

/// A token as a mathematical value.
pub enum TokenView {
    OpenParen,
    CloseParen,
    Atom(Seq<char>),
}

impl View for Token {
    type V = TokenView;

    open spec fn view(&self) -> TokenView {
        match self {
            Token::OpenParen => TokenView::OpenParen,
            Token::CloseParen => TokenView::CloseParen,
            Token::Atom(text) => TokenView::Atom(text@),
        }
    }
}

impl Clone for Token {
    fn clone(&self) -> (token: Token)
        ensures
            token@ == self@,
    {
        match self {
            Token::OpenParen => Token::OpenParen,
            Token::CloseParen => Token::CloseParen,
            Token::Atom(text) => Token::Atom(text.clone()),
        }
    }
}

/// A character with the Unicode property White_Space.
pub open spec fn is_whitespace(c: char) -> bool {
    let u = c as u32;
    ||| 0x0009 <= u <= 0x000D
    ||| u == 0x0020
    ||| u == 0x0085
    ||| u == 0x00A0
    ||| u == 0x1680
    ||| 0x2000 <= u <= 0x200A
    ||| u == 0x2028
    ||| u == 0x2029
    ||| u == 0x202F
    ||| u == 0x205F
    ||| u == 0x3000
}

/// A character that ends an atom: whitespace or a parenthesis.
pub open spec fn is_delimiter(c: char) -> bool {
    is_whitespace(c) || c == '(' || c == ')'
}

/// How many whitespace characters `s` starts with.
pub open spec fn leading_whitespace(s: Seq<char>) -> nat
    decreases s.len(),
{
    if s.len() > 0 && is_whitespace(s[0]) {
        1 + leading_whitespace(s.drop_first())
    } else {
        0
    }
}

/// How many characters `s` starts with that are no delimiters.
pub open spec fn atom_length(s: Seq<char>) -> nat
    decreases s.len(),
{
    if s.len() > 0 && !is_delimiter(s[0]) {
        1 + atom_length(s.drop_first())
    } else {
        0
    }
}

/// The first token of `s` and the number of characters that reading it
/// takes from `s`.
///
/// Whitespace before the token is taken with it. A parenthesis is a token by
/// itself. An atom runs up to the next delimiter or the end of `s`, and the
/// delimiter is left in place. Where `s` holds nothing but whitespace there
/// is no token, and all of `s` is taken.
pub open spec fn first_token(s: Seq<char>) -> (Option<TokenView>, nat) {
    let start = leading_whitespace(s);
    if start >= s.len() {
        (None, s.len())
    } else if s[start as int] == '(' {
        (Some(TokenView::OpenParen), start + 1)
    } else if s[start as int] == ')' {
        (Some(TokenView::CloseParen), start + 1)
    } else {
        let end = start + atom_length(s.skip(start as int));
        (Some(TokenView::Atom(s.subrange(start as int, end as int))), end)
    }
}

/// A parenthesis at the start of a text is a token by itself, whatever
/// follows it.
pub proof fn lemma_first_token_paren(s: Seq<char>)
    requires
        s.len() > 0,
        s[0] == '(' || s[0] == ')',
    ensures
        first_token(s) == (
            Some(if s[0] == '(' { TokenView::OpenParen } else { TokenView::CloseParen }),
            1nat,
        ),
{
    assert(!is_whitespace(s[0]));
    assert(leading_whitespace(s) == 0);
}

/// A run of characters that are no delimiters is one atom where a delimiter
/// or nothing follows it, and what follows is left in place.
pub proof fn lemma_first_token_atom(text: Seq<char>, tail: Seq<char>)
    requires
        text.len() > 0,
        forall|i: int| 0 <= i < text.len() ==> !is_delimiter(#[trigger] text[i]),
        tail.len() == 0 || is_delimiter(tail[0]),
    ensures
        first_token(text + tail) == (Some(TokenView::Atom(text)), text.len()),
{
    let s = text + tail;
    assert(s[0] == text[0]);
    assert(!is_delimiter(text[0]));
    assert(leading_whitespace(s) == 0);
    assert(s.skip(0) =~= s);
    lemma_atom_length(s);
    let k = atom_length(s);
    if k < text.len() {
        assert(s[k as int] == text[k as int]);
    }
    if k > text.len() {
        assert(s[text.len() as int] == tail[0]);
    }
    assert(s.subrange(0, text.len() as int) =~= text);
}

/// The expression that an atom stands for: an integer where its text is an
/// integer literal, else a symbol of that text.
pub open spec fn atom_value(text: Seq<char>) -> Sexp {
    match parse_integer(text) {
        Some(n) => Sexp::Integer(n),
        None => Sexp::Symbol(text),
    }
}

/// What is left of `s` once its first `n` characters are taken; nothing,
/// where it holds fewer.
pub open spec fn after(s: Seq<char>, n: nat) -> Seq<char> {
    if n <= s.len() {
        s.skip(n as int)
    } else {
        Seq::empty()
    }
}

/// Up to its first non-whitespace character `s` holds whitespace only.
pub proof fn lemma_leading_whitespace(s: Seq<char>)
    ensures
        leading_whitespace(s) <= s.len(),
        forall|i: int| 0 <= i < leading_whitespace(s) ==> is_whitespace(#[trigger] s[i]),
        leading_whitespace(s) < s.len() ==> !is_whitespace(s[leading_whitespace(s) as int]),
    decreases s.len(),
{
    if s.len() > 0 && is_whitespace(s[0]) {
        let t = s.drop_first();
        lemma_leading_whitespace(t);
        assert forall|i: int| 0 <= i < leading_whitespace(s) implies is_whitespace(
            #[trigger] s[i],
        ) by {
            if i > 0 {
                assert(s[i] == t[i - 1]);
            }
        }
    }
}

/// An atom runs up to the first delimiter.
pub proof fn lemma_atom_length(s: Seq<char>)
    ensures
        atom_length(s) <= s.len(),
        forall|i: int| 0 <= i < atom_length(s) ==> !is_delimiter(#[trigger] s[i]),
        atom_length(s) < s.len() ==> is_delimiter(s[atom_length(s) as int]),
    decreases s.len(),
{
    if s.len() > 0 && !is_delimiter(s[0]) {
        let t = s.drop_first();
        lemma_atom_length(t);
        assert forall|i: int| 0 <= i < atom_length(s) implies !is_delimiter(#[trigger] s[i]) by {
            if i > 0 {
                assert(s[i] == t[i - 1]);
            }
        }
    }
}

/// Reading a token takes at least one character and no more than there are.
pub proof fn lemma_first_token_bounds(s: Seq<char>)
    ensures
        first_token(s).1 <= s.len(),
        first_token(s).0 is Some ==> first_token(s).1 > 0,
{
    lemma_leading_whitespace(s);
    let start = leading_whitespace(s);
    if start < s.len() {
        lemma_atom_length(s.skip(start as int));
    }
}

/// The items of a list whose `(` has been read, up to and with its `)`, and
/// the number of characters taken. Where the input ends first, the error is
/// `UnexpectedEOF`.
pub open spec fn read_items(s: Seq<char>) -> (Result<Seq<Sexp>, ReadError>, nat)
    decreases s.len(),
{
    let (token, n) = first_token(s);
    proof {
        lemma_first_token_bounds(s);
    }
    match token {
        None => (Err(ReadError::UnexpectedEOF), n),
        Some(TokenView::CloseParen) => (Ok(Seq::empty()), n),
        Some(TokenView::Atom(text)) => {
            let (rest, m) = read_items(after(s, n));
            match rest {
                Ok(items) => (Ok(seq![atom_value(text)] + items), n + m),
                Err(e) => (Err(e), n + m),
            }
        },
        Some(TokenView::OpenParen) => {
            let (inner, m) = read_items(after(s, n));
            match inner {
                Ok(inner_items) => {
                    let (rest, k) = read_items(after(s, n + m));
                    match rest {
                        Ok(items) => (Ok(seq![Sexp::List(inner_items)] + items), n + m + k),
                        Err(e) => (Err(e), n + m + k),
                    }
                },
                Err(e) => (Err(e), n + m),
            }
        },
    }
}

/// The first complete expression of `s`, or why there is none, and the
/// number of characters taken.
///
/// An atom outside any list is an expression by itself, and what follows it
/// is left in place. A `(` opens a list that runs to its matching `)`. A `)`
/// outside any list is `UnbalancedParen`; input that ends inside a list is
/// `UnexpectedEOF`; input without a token is `Empty`.
pub open spec fn read_form(s: Seq<char>) -> (Result<Sexp, ReadError>, nat) {
    let (token, n) = first_token(s);
    match token {
        None => (Err(ReadError::Empty), n),
        Some(TokenView::CloseParen) => (Err(ReadError::UnbalancedParen), n),
        Some(TokenView::Atom(text)) => (Ok(atom_value(text)), n),
        Some(TokenView::OpenParen) => {
            let (items, m) = read_items(after(s, n));
            match items {
                Ok(items) => (Ok(Sexp::List(items)), n + m),
                Err(e) => (Err(e), n + m),
            }
        },
    }
}

/// A text takes at least one byte for each of its characters.
pub proof fn lemma_encode_utf8_len(chars: Seq<char>)
    ensures
        chars.len() <= encode_utf8(chars).len(),
    decreases chars.len(),
{
    if chars.len() > 0 {
        lemma_encode_utf8_len(chars.drop_first());
    }
}

/// The encoding of two texts, one after the other, is the encoding of the
/// first followed by that of the second.
pub proof fn lemma_encode_utf8_concat(a: Seq<char>, b: Seq<char>)
    ensures
        encode_utf8(a + b) == encode_utf8(a) + encode_utf8(b),
    decreases a.len(),
{
    if a.len() == 0 {
        assert(a + b =~= b);
        assert(encode_utf8(a) + encode_utf8(b) =~= encode_utf8(b));
    } else {
        lemma_encode_utf8_concat(a.drop_first(), b);
        assert((a + b).drop_first() =~= a.drop_first() + b);
        assert(encode_utf8(a + b) =~= encode_utf8(a) + encode_utf8(b));
    }
}

/// Dropping the bytes of the first `k` characters of a text leaves the bytes
/// of the other characters.
pub proof fn lemma_encode_utf8_skip(chars: Seq<char>, k: int)
    requires
        0 <= k <= chars.len(),
    ensures
        encode_utf8(chars.take(k)).len() <= encode_utf8(chars).len(),
        encode_utf8(chars).skip(encode_utf8(chars.take(k)).len() as int) == encode_utf8(
            chars.skip(k),
        ),
{
    lemma_encode_utf8_concat(chars.take(k), chars.skip(k));
    assert(chars.take(k) + chars.skip(k) =~= chars);
    assert((encode_utf8(chars.take(k)) + encode_utf8(chars.skip(k))).skip(
        encode_utf8(chars.take(k)).len() as int,
    ) =~= encode_utf8(chars.skip(k)));
}

/// A source of bytes that is read from front to back.
pub struct Reader {
    buf: Vec<u8>,
    pos: usize,
}

impl View for Reader {
    type V = Seq<u8>;

    /// The bytes that have not been read yet.
    closed spec fn view(&self) -> Seq<u8> {
        self.buf@.skip(self.pos as int)
    }
}

impl Reader {
    #[verifier::type_invariant]
    spec fn in_bounds(self) -> bool {
        self.pos <= self.buf.len()
    }

    /// The text that has not been read yet, where the bytes are valid UTF-8.
    pub open spec fn text(&self) -> Seq<char> {
        decode_utf8(self@)
    }

    /// A reader over a copy of `bytes`.
    pub fn new(bytes: &[u8]) -> (reader: Reader)
        ensures
            reader@ == bytes@,
    {
        let reader = Reader { buf: slice_to_vec(bytes), pos: 0 };
        assert(reader.buf@.skip(0) =~= bytes@);
        reader
    }

    /// The bytes that have not been read yet.
    pub fn fill_buf(&self) -> (bytes: &[u8])
        ensures
            bytes@ == self@,
    {
        proof {
            use_type_invariant(self);
        }
        let bytes = slice_subrange(self.buf.as_slice(), self.pos, self.buf.len());
        assert(bytes@ =~= self@);
        bytes
    }

    /// Marks the next `n` bytes as read; all of them, where fewer are left.
    pub fn consume(&mut self, n: usize)
        ensures
            n <= old(self)@.len() ==> final(self)@ == old(self)@.skip(n as int),
            n > old(self)@.len() ==> final(self)@ == Seq::<u8>::empty(),
    {
        proof {
            use_type_invariant(&*self);
        }
        if n <= self.buf.len() - self.pos {
            self.pos = self.pos + n;
            assert(self@ =~= old(self)@.skip(n as int));
        } else {
            self.pos = self.buf.len();
            assert(self@ =~= Seq::<u8>::empty());
        }
    }
}

/// Decodes `bytes` by a call of `std::str::from_utf8`.
///
/// The contract is taken on trust from the documentation of that function:
/// the call succeeds on valid UTF-8 and on nothing else, and the text that
/// it then gives is the one that `bytes` encodes.
#[verifier::external_body]
fn decode(bytes: &[u8]) -> (text: Option<&str>)
    ensures
        text is Some <==> valid_utf8(bytes@),
        text matches Some(t) ==> t.spec_bytes() == bytes@,
{
    std::str::from_utf8(bytes).ok()
}

/// Tells whether `c` is whitespace.
pub fn whitespace(c: char) -> (r: bool)
    ensures
        r == is_whitespace(c),
{
    let u = c as u32;
    (0x0009 <= u && u <= 0x000D) || u == 0x0020 || u == 0x0085 || u == 0x00A0 || u == 0x1680 || (
    0x2000 <= u && u <= 0x200A) || u == 0x2028 || u == 0x2029 || u == 0x202F || u == 0x205F || u
        == 0x3000
}

/// The whitespace that `s` starts with ends at `k`.
proof fn lemma_leading_whitespace_at(s: Seq<char>, k: int)
    requires
        0 <= k <= s.len(),
        forall|i: int| 0 <= i < k ==> is_whitespace(#[trigger] s[i]),
        k < s.len() ==> !is_whitespace(s[k]),
    ensures
        leading_whitespace(s) == k,
{
    lemma_leading_whitespace(s);
}

/// The atom that `s` starts with ends at `k`.
proof fn lemma_atom_length_at(s: Seq<char>, k: int)
    requires
        0 <= k <= s.len(),
        forall|i: int| 0 <= i < k ==> !is_delimiter(#[trigger] s[i]),
        k < s.len() ==> is_delimiter(s[k]),
    ensures
        atom_length(s) == k,
{
    lemma_atom_length(s);
}

/// The atom of `text` from `start` up to `end`, as a token.
fn atom_token(text: &str, start: usize, end: usize) -> (token: Token)
    requires
        start <= end <= text@.len(),
    ensures
        token@ == TokenView::Atom(text@.subrange(start as int, end as int)),
{
    Token::Atom(text.substring_char(start, end).to_owned())
}

/// Finds the first token of `text`, and how many characters reading it
/// takes.
fn scan_token(text: &str) -> (r: (Option<Token>, usize))
    requires
        text@.len() <= usize::MAX,
    ensures
        match r.0 {
            Some(token) => first_token(text@).0 == Some(token@),
            None => first_token(text@).0 is None,
        },
        r.1 == first_token(text@).1,
{
    broadcast use vstd::string::group_string_axioms;

    let ghost s = text@;
    let mut start: Option<usize> = None;
    let mut n: usize = 0;
    for c in it: text.chars()
        invariant
            it.seq() == s,
            s == text@,
            s.len() <= usize::MAX,
            n == it.index(),
            match start {
                None => forall|i: int| 0 <= i < n ==> is_whitespace(#[trigger] s[i]),
                Some(a) => {
                    &&& a < n
                    &&& forall|i: int| 0 <= i < a ==> is_whitespace(#[trigger] s[i])
                    &&& !is_whitespace(s[a as int])
                    &&& s[a as int] != '('
                    &&& s[a as int] != ')'
                    &&& forall|i: int| a <= i < n ==> !is_delimiter(#[trigger] s[i])
                },
            },
    {
        let blank = whitespace(c);
        match start {
            Some(a) => {
                if blank || c == '(' || c == ')' {
                    proof {
                        lemma_leading_whitespace_at(s, a as int);
                        let t = s.skip(a as int);
                        assert forall|i: int| 0 <= i < n - a implies !is_delimiter(
                            #[trigger] t[i],
                        ) by {
                            assert(t[i] == s[a + i]);
                        }
                        lemma_atom_length_at(t, n - a);
                    }
                    return (Some(atom_token(text, a, n)), n);
                }
                n = n + 1;
            },
            None => {
                if blank {
                    n = n + 1;
                } else if c == '(' {
                    proof {
                        lemma_leading_whitespace_at(s, n as int);
                    }
                    return (Some(Token::OpenParen), n + 1);
                } else if c == ')' {
                    proof {
                        lemma_leading_whitespace_at(s, n as int);
                    }
                    return (Some(Token::CloseParen), n + 1);
                } else {
                    start = Some(n);
                    n = n + 1;
                }
            },
        }
    }
    match start {
        Some(a) => {
            proof {
                lemma_leading_whitespace_at(s, a as int);
                let t = s.skip(a as int);
                assert forall|i: int| 0 <= i < n - a implies !is_delimiter(#[trigger] t[i]) by {
                    assert(t[i] == s[a + i]);
                }
                lemma_atom_length_at(t, n - a);
            }
            (Some(atom_token(text, a, n)), n)
        },
        None => {
            proof {
                lemma_leading_whitespace_at(s, n as int);
            }
            (None, n)
        },
    }
}

/// Reads the next token from `reader`.
///
/// The bytes not yet read are decoded as UTF-8. Where they are no valid
/// UTF-8, the error is `InvalidUTF8` and nothing is read. Else the result is
/// the first token of that text, `None` where it holds none, and exactly the
/// bytes of the characters that the token takes are marked as read.
pub fn next_token(reader: &mut Reader) -> (r: Result<Option<Token>, ReadError>)
    ensures
        match r {
            Ok(token) => {
                &&& valid_utf8(old(reader)@)
                &&& match token {
                    Some(t) => first_token(old(reader).text()).0 == Some(t@),
                    None => first_token(old(reader).text()).0 is None,
                }
                &&& final(reader)@ == encode_utf8(
                    after(old(reader).text(), first_token(old(reader).text()).1),
                )
            },
            Err(e) => {
                &&& e == ReadError::InvalidUTF8
                &&& !valid_utf8(old(reader)@)
                &&& final(reader)@ == old(reader)@
            },
        },
{
    let bytes = reader.fill_buf();
    let text = match decode(bytes) {
        Some(text) => text,
        None => {
            return Err(ReadError::InvalidUTF8);
        },
    };
    proof {
        assert(encode_utf8(text@) == old(reader)@);
        assert(text@ == old(reader).text());
        assert(bytes.len() == bytes@.len());
        lemma_encode_utf8_len(text@);
    }
    let (token, taken) = scan_token(text);
    proof {
        lemma_first_token_bounds(text@);
        lemma_encode_utf8_skip(text@, taken as int);
        assert(text@.subrange(0, taken as int) =~= text@.take(taken as int));
    }
    let taken_bytes = text.substring_char(0, taken).len();
    reader.consume(taken_bytes);
    Ok(token)
}

/// The expression that an atom stands for.
pub fn parse_atom(atom: &str) -> (r: Result<Expr, ReadError>)
    ensures
        r matches Ok(e) && e@ == atom_value(atom@),
{
    match read_integer(atom) {
        Some(n) => Ok(Expr::Integer(n)),
        None => Ok(Expr::Symbol(atom.to_owned())),
    }
}

/// A reading that took `n` characters before it took its own.
spec fn advance<T>(r: (Result<T, ReadError>, nat), n: nat) -> (Result<T, ReadError>, nat) {
    (r.0, n + r.1)
}

/// What reading `s` gives once the lists of `frames` are open, each frame
/// holding the items read so far of one list, the innermost last.
spec fn pending(frames: Seq<Seq<Sexp>>, s: Seq<char>) -> (Result<Sexp, ReadError>, nat)
    decreases frames.len(),
{
    if frames.len() == 0 {
        read_form(s)
    } else {
        let (items, n) = read_items(s);
        match items {
            Err(e) => (Err(e), n),
            Ok(items) => {
                let list = Sexp::List(frames.last() + items);
                if frames.len() == 1 {
                    (Ok(list), n)
                } else {
                    advance(pending(with_item(frames.drop_last(), list), after(s, n)), n)
                }
            },
        }
    }
}

/// `frames` with `item` added to the innermost list.
spec fn with_item(frames: Seq<Seq<Sexp>>, item: Sexp) -> Seq<Seq<Sexp>> {
    frames.drop_last().push(frames.last().push(item))
}

/// The values that the lists under construction hold.
spec fn frames_view(frames: Seq<Vec<Expr>>) -> Seq<Seq<Sexp>> {
    Seq::new(frames.len(), |i: int| views(frames[i]@))
}

/// Reading the items of a list takes no more characters than there are.
pub proof fn lemma_read_items_bounds(s: Seq<char>)
    ensures
        read_items(s).1 <= s.len(),
    decreases s.len(),
{
    lemma_first_token_bounds(s);
    let (token, n) = first_token(s);
    match token {
        None => {},
        Some(TokenView::CloseParen) => {},
        Some(TokenView::Atom(text)) => {
            lemma_read_items_bounds(after(s, n));
        },
        Some(TokenView::OpenParen) => {
            lemma_read_items_bounds(after(s, n));
            let (inner, m) = read_items(after(s, n));
            if inner is Ok {
                lemma_read_items_bounds(after(s, n + m));
            }
        },
    }
}

/// Taking `n` characters and then `m` is taking `n + m`.
pub proof fn lemma_after_after(s: Seq<char>, n: nat, m: nat)
    requires
        n <= s.len(),
        m <= s.len() - n,
    ensures
        after(after(s, n), m) == after(s, n + m),
{
    assert(s.skip(n as int).skip(m as int) =~= s.skip((n + m) as int));
}

/// After an atom inside a list, reading goes on with the atom added to the
/// innermost list.
proof fn lemma_pending_atom(frames: Seq<Seq<Sexp>>, s: Seq<char>)
    requires
        frames.len() > 0,
        first_token(s).0 matches Some(TokenView::Atom(_)),
    ensures
        pending(frames, s) == advance(
            pending(
                with_item(frames, atom_value(first_token(s).0->Some_0->Atom_0)),
                after(s, first_token(s).1),
            ),
            first_token(s).1,
        ),
{
    let n = first_token(s).1;
    let item = atom_value(first_token(s).0->Some_0->Atom_0);
    let t = after(s, n);
    let next = with_item(frames, item);
    lemma_first_token_bounds(s);
    lemma_read_items_bounds(t);
    let (rest, m) = read_items(t);
    assert(next.drop_last() =~= frames.drop_last());
    match rest {
        Err(e) => {},
        Ok(items) => {
            assert(frames.last() + (seq![item] + items) =~= next.last() + items);
            lemma_after_after(s, n, m);
        },
    }
}

/// After a `(`, reading goes on with one more list open.
proof fn lemma_pending_open(frames: Seq<Seq<Sexp>>, s: Seq<char>)
    requires
        first_token(s).0 == Some(TokenView::OpenParen),
    ensures
        pending(frames, s) == advance(
            pending(frames.push(Seq::empty()), after(s, first_token(s).1)),
            first_token(s).1,
        ),
{
    let n = first_token(s).1;
    let t = after(s, n);
    let next = frames.push(Seq::<Sexp>::empty());
    lemma_first_token_bounds(s);
    lemma_read_items_bounds(t);
    let (inner, m) = read_items(t);
    assert(next.drop_last() =~= frames);
    assert(next.last() =~= Seq::<Sexp>::empty());
    match inner {
        Err(e) => {},
        Ok(inner_items) => {
            assert(Seq::<Sexp>::empty() + inner_items =~= inner_items);
            let list = Sexp::List(inner_items);
            if frames.len() == 0 {
            } else {
                let u = after(t, m);
                lemma_after_after(s, n, m);
                lemma_read_items_bounds(u);
                let (rest, k) = read_items(u);
                let filled = with_item(frames, list);
                assert(filled.drop_last() =~= frames.drop_last());
                assert(pending(next, t) == advance(pending(filled, u), m));
                match rest {
                    Err(e) => {},
                    Ok(items) => {
                        assert(frames.last() + (seq![list] + items) =~= filled.last() + items);
                        lemma_after_after(s, n + m, k);
                        lemma_after_after(t, m, k);
                    },
                }
            }
        },
    }
}

/// After a `)` that closes an inner list, reading goes on with that list
/// added to the list around it.
proof fn lemma_pending_close(frames: Seq<Seq<Sexp>>, s: Seq<char>)
    requires
        frames.len() > 1,
        first_token(s).0 == Some(TokenView::CloseParen),
    ensures
        pending(frames, s) == advance(
            pending(
                with_item(frames.drop_last(), Sexp::List(frames.last())),
                after(s, first_token(s).1),
            ),
            first_token(s).1,
        ),
{
    assert(frames.last() + Seq::<Sexp>::empty() =~= frames.last());
}

/// Reads one expression from `reader`.
///
/// The bytes not yet read are decoded as UTF-8. Where they are no valid
/// UTF-8, the error is `InvalidUTF8` and nothing is read. Else the result is
/// the first complete expression of that text, or the reason why there is
/// none, and exactly the bytes of the characters that reading it takes are
/// marked as read: what follows the expression is left for the next call.
pub fn read_buffer(reader: &mut Reader) -> (r: Result<Expr, ReadError>)
    ensures
        valid_utf8(old(reader)@) ==> {
            &&& match r {
                Ok(e) => read_form(old(reader).text()).0 == Ok::<Sexp, ReadError>(e@),
                Err(e) => read_form(old(reader).text()).0 == Err::<Sexp, ReadError>(e),
            }
            &&& final(reader)@ == encode_utf8(
                after(old(reader).text(), read_form(old(reader).text()).1),
            )
        },
        !valid_utf8(old(reader)@) ==> {
            &&& r matches Err(e)
            &&& e == ReadError::InvalidUTF8
            &&& final(reader)@ == old(reader)@
        },
{
    let ghost source = reader.text();
    let ghost valid = valid_utf8(reader@);
    let ghost mut used: nat = 0;
    let mut stack: Vec<Vec<Expr>> = Vec::new();
    proof {
        assert(frames_view(stack@) =~= Seq::<Seq<Sexp>>::empty());
        assert(after(source, 0) =~= source);
    }
    loop
        invariant
            source == old(reader).text(),
            valid == valid_utf8(old(reader)@),
            !valid ==> reader@ == old(reader)@,
            used <= source.len(),
            valid ==> reader@ == encode_utf8(after(source, used)),
            valid ==> read_form(source) == advance(
                pending(frames_view(stack@), after(source, used)),
                used,
            ),
        decreases source.len() - used,
    {
        let ghost rest = after(source, used);
        let ghost frames = frames_view(stack@);
        let token = match next_token(reader) {
            Ok(token) => token,
            Err(e) => {
                return Err(e);
            },
        };
        let ghost n = first_token(rest).1;
        proof {
            assert(rest == decode_utf8(encode_utf8(rest)));
            lemma_first_token_bounds(rest);
            lemma_after_after(source, used, n);
        }
        match token {
            None => {
                if stack.len() == 0 {
                    return Err(ReadError::Empty);
                } else {
                    return Err(ReadError::UnexpectedEOF);
                }
            },
            Some(Token::OpenParen) => {
                proof {
                    lemma_pending_open(frames, rest);
                }
                stack.push(Vec::new());
                proof {
                    assert(views(stack@.last()@) =~= Seq::<Sexp>::empty());
                    assert(frames_view(stack@) =~= frames.push(Seq::<Sexp>::empty()));
                }
            },
            Some(Token::CloseParen) => {
                let items = match stack.pop() {
                    Some(items) => items,
                    None => {
                        return Err(ReadError::UnbalancedParen);
                    },
                };
                let ghost inner = frames.last();
                let expr = Expr::List(items);
                assert(expr@ == Sexp::List(inner));
                assert(inner + Seq::<Sexp>::empty() =~= inner);
                match stack.pop() {
                    None => {
                        return Ok(expr);
                    },
                    Some(mut outer) => {
                        proof {
                            lemma_pending_close(frames, rest);
                        }
                        let ghost below = views(outer@);
                        outer.push(expr);
                        stack.push(outer);
                        proof {
                            assert(views(stack@.last()@) =~= below.push(Sexp::List(inner)));
                            assert(frames_view(stack@) =~= with_item(
                                frames.drop_last(),
                                Sexp::List(inner),
                            ));
                        }
                    },
                }
            },
            Some(Token::Atom(text)) => {
                let expr = match parse_atom(text.as_str()) {
                    Ok(expr) => expr,
                    Err(e) => {
                        return Err(e);
                    },
                };
                match stack.pop() {
                    None => {
                        return Ok(expr);
                    },
                    Some(mut top) => {
                        proof {
                            lemma_pending_atom(frames, rest);
                        }
                        let ghost below = views(top@);
                        top.push(expr);
                        stack.push(top);
                        proof {
                            assert(views(stack@.last()@) =~= below.push(expr@));
                            assert(frames_view(stack@) =~= with_item(frames, expr@));
                        }
                    },
                }
            },
        }
        proof {
            used = used + n;
        }
    }
}

/// Reads the first expression of `input`.
pub fn read_string(input: &str) -> (r: Result<Expr, ReadError>)
    ensures
        match r {
            Ok(e) => read_form(input@).0 == Ok::<Sexp, ReadError>(e@),
            Err(e) => read_form(input@).0 == Err::<Sexp, ReadError>(e),
        },
{
    let mut reader = Reader::new(input.as_bytes());
    read_buffer(&mut reader)
}

} // verus!
