//! Strings and numbers as text.
use vstd::prelude::*;

verus! {

/// `String::push` appends the character to the end of the string.
pub assume_specification[ String::push ](s: &mut String, c: char)
    ensures
        final(s)@ == old(s)@.push(c),
;

/// `String::push_str` appends the text to the end of the string.
pub assume_specification[ String::push_str ](s: &mut String, text: &str)
    ensures
        final(s)@ == old(s)@ + text@,
;

/// `==` on two `str` holds if they have the same characters in the same
/// order.
pub assume_specification[ <str as PartialEq>::eq ](a: &str, b: &str) -> (res: bool)
    ensures
        res == (a@ == b@),
;

/// The decimal digit for `d`, a number below ten.
pub open spec fn digit(d: nat) -> char {
    (48 + d) as char
}

/// The decimal digits of `n`, without leading zeros.
pub open spec fn digits(n: nat) -> Seq<char>
    decreases n,
{
    if n < 10 {
        seq![digit(n)]
    } else {
        digits(n / 10).push(digit(n % 10))
    }
}

/// The number `n` in decimal, with a minus sign if it is negative.
pub open spec fn decimal(n: int) -> Seq<char> {
    if n < 0 {
        seq!['-'] + digits((-n) as nat)
    } else {
        digits(n as nat)
    }
}

/// Appends the digits of `n`.
pub(crate) fn push_digits(out: &mut String, n: u64)
    ensures
        final(out)@ == old(out)@ + digits(n as nat),
    decreases n,
{
    let ghost before = out@;
    if n >= 10 {
        push_digits(out, n / 10);
    }
    let d: u8 = (n % 10) as u8;
    out.push((48 + d) as char);
    assert(out@ =~= before + digits(n as nat));
}

/// Appends `n` in decimal.
pub(crate) fn push_decimal(out: &mut String, n: i64)
    ensures
        final(out)@ == old(out)@ + decimal(n as int),
{
    let ghost before = out@;
    if n < 0 {
        out.push('-');
        let magnitude: u64 = (-(n + 1)) as u64 + 1;
        push_digits(out, magnitude);
    } else {
        push_digits(out, n as u64);
    }
    assert(out@ =~= before + decimal(n as int));
}

proof fn lemma_digits(n: nat)
    ensures
        digits(n).len() > 0,
        digits(n)[0] != '-',
    decreases n,
{
    if n >= 10 {
        lemma_digits(n / 10);
    }
}

proof fn lemma_digits_differ(a: nat, b: nat)
    requires
        digits(a) == digits(b),
    ensures
        a == b,
    decreases a,
{
    lemma_digits(a / 10);
    lemma_digits(b / 10);
    assert(digits(a).last() == digit(a % 10));
    assert(digits(b).last() == digit(b % 10));
    assert(digit(a % 10) as int == 48 + a % 10);
    assert(digit(b % 10) as int == 48 + b % 10);
    if a >= 10 && b >= 10 {
        assert(digits(a).drop_last() =~= digits(a / 10));
        assert(digits(b).drop_last() =~= digits(b / 10));
        lemma_digits_differ(a / 10, b / 10);
    }
}

/// Different numbers look different in decimal.
pub proof fn law_decimals_differ(a: int, b: int)
    requires
        decimal(a) == decimal(b),
    ensures
        a == b,
{
    if a < 0 {
        lemma_digits((-a) as nat);
        assert(decimal(a)[0] == '-');
    } else {
        lemma_digits(a as nat);
    }
    if b < 0 {
        lemma_digits((-b) as nat);
        assert(decimal(b)[0] == '-');
    } else {
        lemma_digits(b as nat);
    }
    if a < 0 {
        assert(decimal(a).drop_first() =~= digits((-a) as nat));
        assert(decimal(b).drop_first() =~= digits((-b) as nat));
        lemma_digits_differ((-a) as nat, (-b) as nat);
    } else {
        lemma_digits_differ(a as nat, b as nat);
    }
}

/// The number that decimal digits stand for.
pub open spec fn number(t: Seq<char>) -> int
    decreases t.len(),
{
    if t.len() == 0 {
        0
    } else {
        10 * number(t.drop_last()) + (t.last() as int - '0' as int)
    }
}

/// Whether `t` is made of decimal digits, without a leading zero unless it is
/// the only one.
pub open spec fn is_number(t: Seq<char>) -> bool {
    &&& t.len() > 0
    &&& t.len() > 1 ==> t[0] != '0'
    &&& forall|i: int| 0 <= i < t.len() ==> '0' <= #[trigger] t[i] <= '9'
}

/// The digits of a number stand for it.
pub proof fn law_digits_are_read_back(n: nat)
    ensures
        is_number(digits(n)),
        number(digits(n)) == n,
        n > 0 ==> digits(n)[0] != '0',
    decreases n,
{
    let t = digits(n);
    if n < 10 {
        assert(t.drop_last() =~= seq![]);
        assert(number(t.drop_last()) == 0);
        assert(t[0] as int == 48 + n);
    } else {
        let init = digits(n / 10);
        law_digits_are_read_back(n / 10);
        assert(t.drop_last() =~= init);
        assert(t.last() as int == 48 + n % 10);
        assert forall|i: int| 0 <= i < t.len() implies '0' <= #[trigger] t[i] <= '9' by {
            if i < init.len() {
                assert(t[i] == init[i]);
            }
        }
    }
}

/// A number in decimal stands for it, behind a minus sign if it is negative.
pub proof fn law_decimals_are_read_back(n: int)
    ensures
        n >= 0 ==> is_number(decimal(n)) && number(decimal(n)) == n,
        n < 0 ==> decimal(n).len() > 0 && decimal(n)[0] == '-' && is_number(decimal(n).skip(1))
            && number(decimal(n).skip(1)) == -n,
{
    if n < 0 {
        law_digits_are_read_back((-n) as nat);
        assert(decimal(n).skip(1) =~= digits((-n) as nat));
    } else {
        law_digits_are_read_back(n as nat);
    }
}

} // verus!
