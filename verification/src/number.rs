//! Decimal integer literals: what text denotes an integer, and how an integer
//! is written.

use vstd::prelude::*;
use vstd::string::*;

verus! {

/// An ASCII decimal digit.
pub open spec fn is_digit(c: char) -> bool {
    '0' <= c <= '9'
}

/// The number that a decimal digit stands for.
pub open spec fn digit_value(c: char) -> int {
    c as int - '0' as int
}

/// The character that writes the digit `d`.
pub open spec fn digit_char(d: int) -> char {
    (d + '0' as int) as char
}

/// Every character of `s` is a decimal digit.
pub open spec fn all_digits(s: Seq<char>) -> bool {
    forall|i: int| 0 <= i < s.len() ==> is_digit(#[trigger] s[i])
}

/// The natural number that a run of decimal digits denotes; the empty run
/// denotes zero.
pub open spec fn digits_value(s: Seq<char>) -> int
    decreases s.len(),
{
    if s.len() == 0 {
        0
    } else {
        digits_value(s.drop_last()) * 10 + digit_value(s.last())
    }
}

/// The integer that `s` denotes as a literal, if it is one: an optional `+`
/// or `-`, then one or more decimal digits, with a value that fits the
/// machine's signed word. Anything else is no literal.
pub open spec fn parse_integer(s: Seq<char>) -> Option<int> {
    if s.len() == 0 {
        None
    } else {
        let signed = s[0] == '-' || s[0] == '+';
        let digits = if signed { s.drop_first() } else { s };
        let value = if s[0] == '-' { -digits_value(digits) } else { digits_value(digits) };
        if digits.len() > 0 && all_digits(digits) && isize::MIN <= value <= isize::MAX {
            Some(value)
        } else {
            None
        }
    }
}

/// The decimal digits of a natural number, most significant first, without
/// leading zeros.
pub open spec fn decimal(n: nat) -> Seq<char>
    decreases n,
{
    if n < 10 {
        seq![digit_char(n as int)]
    } else {
        decimal(n / 10).push(digit_char((n % 10) as int))
    }
}

/// How an integer is written: its decimal digits, after a `-` if it is
/// negative.
pub open spec fn render_integer(n: int) -> Seq<char> {
    if n < 0 {
        seq!['-'] + decimal((-n) as nat)
    } else {
        decimal(n as nat)
    }
}

/// The digits of a number are digits, there is at least one, and they
/// denote the number.
pub proof fn lemma_decimal(n: nat)
    ensures
        decimal(n).len() > 0,
        all_digits(decimal(n)),
        digits_value(decimal(n)) == n,
    decreases n,
{
    if n < 10 {
        assert(decimal(n).drop_last() =~= Seq::<char>::empty());
        assert(digits_value(decimal(n).drop_last()) == 0);
    } else {
        lemma_decimal(n / 10);
        let d = decimal(n / 10);
        let c = digit_char((n % 10) as int);
        assert(d.push(c).drop_last() =~= d);
    }
}

/// Writing an integer of the machine's range and reading the text back
/// gives the integer.
pub proof fn lemma_parse_render_integer(n: int)
    requires
        isize::MIN <= n <= isize::MAX,
    ensures
        parse_integer(render_integer(n)) == Some(n),
{
    let s = render_integer(n);
    if n < 0 {
        let m = (-n) as nat;
        lemma_decimal(m);
        assert(s.drop_first() =~= decimal(m));
    } else {
        lemma_decimal(n as nat);
        assert(is_digit(decimal(n as nat)[0]));
    }
}

/// A run of digits denotes a natural number.
pub proof fn lemma_digits_value_nonnegative(s: Seq<char>)
    requires
        all_digits(s),
    ensures
        digits_value(s) >= 0,
    decreases s.len(),
{
    if s.len() > 0 {
        lemma_digits_value_nonnegative(s.drop_last());
    }
}

/// A run of digits denotes at least what any of its prefixes denotes.
pub proof fn lemma_digits_value_prefix(s: Seq<char>, k: int)
    requires
        all_digits(s),
        0 <= k <= s.len(),
    ensures
        0 <= digits_value(s.take(k)) <= digits_value(s),
    decreases s.len() - k,
{
    lemma_digits_value_nonnegative(s.take(k));
    if k < s.len() {
        lemma_digits_value_prefix(s, k + 1);
        assert(s.take(k + 1).drop_last() =~= s.take(k));
    } else {
        assert(s.take(k) =~= s);
    }
}

/// The text of one decimal digit.
fn digit_text(d: u8) -> (r: &'static str)
    requires
        d < 10,
    ensures
        r@ == seq![digit_char(d as int)],
{
    proof {
        reveal_strlit("0");
        reveal_strlit("1");
        reveal_strlit("2");
        reveal_strlit("3");
        reveal_strlit("4");
        reveal_strlit("5");
        reveal_strlit("6");
        reveal_strlit("7");
        reveal_strlit("8");
        reveal_strlit("9");
    }
    let r = if d == 0 {
        "0"
    } else if d == 1 {
        "1"
    } else if d == 2 {
        "2"
    } else if d == 3 {
        "3"
    } else if d == 4 {
        "4"
    } else if d == 5 {
        "5"
    } else if d == 6 {
        "6"
    } else if d == 7 {
        "7"
    } else if d == 8 {
        "8"
    } else {
        "9"
    };
    assert(r@ =~= seq![digit_char(d as int)]);
    r
}

/// Appends the decimal digits of `n` to `out`.
fn push_decimal(out: &mut String, n: u128)
    ensures
        final(out)@ == old(out)@ + decimal(n as nat),
    decreases n,
{
    if n >= 10 {
        push_decimal(out, n / 10);
    }
    out.append(digit_text((n % 10) as u8));
}

/// Writes an integer in decimal.
pub fn write_integer(n: isize) -> (text: String)
    ensures
        text@ == render_integer(n as int),
{
    let mut out = String::new();
    if n < 0 {
        proof {
            reveal_strlit("-");
        }
        out.append("-");
        push_decimal(&mut out, (-(n as i128)) as u128);
        assert(out@ =~= render_integer(n as int));
    } else {
        push_decimal(&mut out, n as u128);
        assert(out@ =~= render_integer(n as int));
    }
    out
}

/// Reads `text` as an integer literal: `Some` with its value where it is
/// one, `None` where it is not (no digits, a character that is no digit, or
/// a value outside the machine's range).
pub fn read_integer(text: &str) -> (r: Option<isize>)
    ensures
        match r {
            Some(n) => parse_integer(text@) == Some(n as int),
            None => parse_integer(text@) is None,
        },
{
    broadcast use vstd::string::group_string_axioms;

    let limit: u128 = isize::MAX as u128 + 1;
    let mut first = true;
    let mut signed = false;
    let mut negative = false;
    let mut any = false;
    let mut acc: u128 = 0;
    for c in it: text.chars()
        invariant
            it.seq() == text@,
            limit == isize::MAX + 1,
            first == (it.index() == 0),
            first ==> !signed && !any && acc == 0,
            signed ==> it.index() >= 1 && (text@[0] == '-' || text@[0] == '+'),
            !signed && !first ==> text@[0] != '-' && text@[0] != '+',
            negative == (signed && text@[0] == '-'),
            any == (it.index() > (if signed { 1int } else { 0int })),
            all_digits(text@.subrange(if signed { 1int } else { 0int }, it.index())),
            acc == digits_value(text@.subrange(if signed { 1int } else { 0int }, it.index())),
            acc <= limit,
    {
        let ghost k = it.index();
        let ghost start = if signed { 1int } else { 0int };
        if first && (c == '-' || c == '+') {
            signed = true;
            negative = c == '-';
            first = false;
            assert(text@.subrange(1, 1) =~= Seq::<char>::empty());
        } else if !('0' <= c && c <= '9') {
            proof {
                let digits = if signed { text@.drop_first() } else { text@ };
                assert(digits[k - start] == c);
            }
            return None;
        } else {
            let d: u128 = (c as u32 - '0' as u32) as u128;
            let next = acc * 10 + d;
            proof {
                let before = text@.subrange(start, k);
                let after = text@.subrange(start, k + 1);
                assert(after.drop_last() =~= before);
                assert(after.last() == c);
                assert(next == digits_value(after));
                assert forall|i: int| 0 <= i < after.len() implies is_digit(
                    #[trigger] after[i],
                ) by {
                    if i < before.len() {
                        assert(after[i] == before[i]);
                    }
                }
            }
            if next > limit {
                proof {
                    let digits = if signed { text@.drop_first() } else { text@ };
                    if all_digits(digits) {
                        lemma_digits_value_prefix(digits, k + 1 - start);
                        assert(digits.take(k + 1 - start) =~= text@.subrange(start, k + 1));
                    }
                }
                return None;
            }
            acc = next;
            first = false;
            any = true;
        }
    }
    proof {
        let start = if signed { 1int } else { 0int };
        let digits = if signed { text@.drop_first() } else { text@ };
        if text@.len() > 0 {
            assert(digits =~= text@.subrange(start, text@.len() as int));
        }
    }
    if !any {
        None
    } else if negative {
        if acc == limit {
            Some(isize::MIN)
        } else {
            Some(-(acc as isize))
        }
    } else if acc == limit {
        None
    } else {
        Some(acc as isize)
    }
}

} // verus!
