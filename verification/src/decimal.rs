//! The decimal model: which character sequences are valid decimal literals,
//! what cent count such a literal denotes, and how a cent count is written
//! back out as text.

use vstd::prelude::*;
use vstd::string::StringExecFns;

verus! {

/// A decimal-digit character.
pub open spec fn is_digit(c: char) -> bool {
    c == '0' || c == '1' || c == '2' || c == '3' || c == '4' || c == '5' || c == '6' || c == '7'
        || c == '8' || c == '9'
}

/// The numeric value of a digit character (0 for anything that is not a digit).
pub open spec fn digit_val(c: char) -> nat {
    if c == '1' {
        1
    } else if c == '2' {
        2
    } else if c == '3' {
        3
    } else if c == '4' {
        4
    } else if c == '5' {
        5
    } else if c == '6' {
        6
    } else if c == '7' {
        7
    } else if c == '8' {
        8
    } else if c == '9' {
        9
    } else {
        0
    }
}

/// The digit character for a value below ten ('0' for anything else).
pub open spec fn digit_char(d: nat) -> char {
    if d == 1 {
        '1'
    } else if d == 2 {
        '2'
    } else if d == 3 {
        '3'
    } else if d == 4 {
        '4'
    } else if d == 5 {
        '5'
    } else if d == 6 {
        '6'
    } else if d == 7 {
        '7'
    } else if d == 8 {
        '8'
    } else if d == 9 {
        '9'
    } else {
        '0'
    }
}

pub open spec fn all_digits(s: Seq<char>) -> bool {
    forall|i: int| 0 <= i < s.len() ==> is_digit(#[trigger] s[i])
}

/// The index of the first '.' in `s`, or `s.len()` if there is none.
pub open spec fn first_dot(s: Seq<char>) -> int
    decreases s.len(),
{
    if s.len() == 0 {
        0
    } else if s[0] == '.' {
        0
    } else {
        1 + first_dot(s.skip(1))
    }
}

pub proof fn lemma_first_dot_bounds(s: Seq<char>)
    ensures
        0 <= first_dot(s) <= s.len(),
    decreases s.len(),
{
    if s.len() != 0 && s[0] != '.' {
        lemma_first_dot_bounds(s.skip(1));
    }
}

/// `first_dot` is the unique split point: no '.' before it, and a '.' at it
/// unless there is none at all.
pub proof fn lemma_first_dot_at(s: Seq<char>, m: int)
    requires
        0 <= m <= s.len(),
        forall|i: int| 0 <= i < m ==> s[i] != '.',
        m < s.len() ==> s[m] == '.',
    ensures
        first_dot(s) == m,
    decreases s.len(),
{
    if m == 0 {
    } else {
        assert(s[0] != '.');
        let t = s.skip(1);
        assert(forall|i: int| 0 <= i < m - 1 ==> t[i] == s[i + 1] && s[i + 1] != '.');
        assert(m - 1 < t.len() ==> t[m - 1] == s[m]);
        lemma_first_dot_at(t, m - 1);
    }
}

/// No '.' among the first `m` characters puts the first dot at `m` or later.
pub proof fn lemma_first_dot_lower(s: Seq<char>, m: int)
    requires
        0 <= m <= s.len(),
        forall|i: int| 0 <= i < m ==> s[i] != '.',
    ensures
        first_dot(s) >= m,
    decreases s.len(),
{
    lemma_first_dot_bounds(s);
    if m > 0 {
        assert(s[0] != '.');
        let t = s.skip(1);
        assert(forall|i: int| 0 <= i < m - 1 ==> t[i] == s[i + 1] && s[i + 1] != '.');
        lemma_first_dot_lower(t, m - 1);
        lemma_first_dot_bounds(t);
    }
}

/// The digits before the decimal point.
pub open spec fn int_digits(s: Seq<char>) -> Seq<char> {
    s.take(first_dot(s))
}

/// The digits after the decimal point (empty if there is no point).
pub open spec fn frac_digits(s: Seq<char>) -> Seq<char> {
    if first_dot(s) < s.len() {
        s.skip(first_dot(s) + 1)
    } else {
        Seq::empty()
    }
}

/// A valid unsigned decimal literal: digits, at most one '.', and at least
/// one digit somewhere.
pub open spec fn valid_body(s: Seq<char>) -> bool {
    &&& all_digits(int_digits(s))
    &&& all_digits(frac_digits(s))
    &&& int_digits(s).len() + frac_digits(s).len() >= 1
}

/// Whether `s` starts with an explicit sign character.
pub open spec fn has_sign(s: Seq<char>) -> bool {
    s.len() > 0 && (s[0] == '+' || s[0] == '-')
}

/// Whether `s` starts with a minus sign.
pub open spec fn has_minus(s: Seq<char>) -> bool {
    s.len() > 0 && s[0] == '-'
}

/// `s` with any leading sign removed.
pub open spec fn body(s: Seq<char>) -> Seq<char> {
    if has_sign(s) {
        s.skip(1)
    } else {
        s
    }
}

/// A valid decimal literal: an optional sign followed by a valid body.
pub open spec fn valid_decimal(s: Seq<char>) -> bool {
    valid_body(body(s))
}

/// The value of a digit string read in base ten.
pub open spec fn digits_value(s: Seq<char>) -> nat
    decreases s.len(),
{
    if s.len() == 0 {
        0
    } else {
        digits_value(s.drop_last()) * 10 + digit_val(s.last())
    }
}

/// Reading one more digit multiplies the value so far by ten and adds it.
pub proof fn lemma_digits_value_step(s: Seq<char>, j: int)
    requires
        0 <= j < s.len(),
    ensures
        digits_value(s.take(j + 1)) == digits_value(s.take(j)) * 10 + digit_val(s[j]),
{
    assert(s.take(j + 1).drop_last() =~= s.take(j));
    assert(s.take(j + 1).last() == s[j]);
}

/// The cent count contributed by the first two fractional digits
/// (missing digits count as zero).
pub open spec fn frac_cents(fp: Seq<char>) -> nat {
    if fp.len() == 0 {
        0
    } else if fp.len() == 1 {
        digit_val(fp[0]) * 10
    } else {
        digit_val(fp[0]) * 10 + digit_val(fp[1])
    }
}

/// The carry from rounding the digits beyond the second fractional digit to
/// the nearest cent, half away from zero: the tail `0.d3 d4 ...` of a cent is
/// at least one half exactly when `d3 >= 5`.
pub open spec fn frac_round_up(fp: Seq<char>) -> nat {
    if fp.len() >= 3 && digit_val(fp[2]) >= 5 {
        1
    } else {
        0
    }
}

/// The cent count denoted by a valid unsigned body, rounded to the nearest
/// cent (half away from zero).
pub open spec fn body_cents(s: Seq<char>) -> nat {
    digits_value(int_digits(s)) * 100 + frac_cents(frac_digits(s)) + frac_round_up(frac_digits(s))
}

/// The cent count denoted by a valid decimal literal, ignoring its sign.
pub open spec fn decimal_cents(s: Seq<char>) -> nat {
    body_cents(body(s))
}

/// The decimal digit string of `n`, most significant digit first, with no
/// leading zero except for `n == 0` itself.
pub open spec fn dec_digits(n: nat) -> Seq<char>
    decreases n,
{
    if n < 10 {
        seq![digit_char(n)]
    } else {
        dec_digits(n / 10).push(digit_char(n % 10))
    }
}

/// The text form of a cent count: the whole units, a '.', and the cent
/// remainder zero-padded to two digits.
pub open spec fn rendered(cents: nat) -> Seq<char> {
    dec_digits(cents / 100) + seq!['.', digit_char((cents % 100) / 10), digit_char((cents % 100) % 10)]
}

/// Every character `dec_digits` produces is a digit, and there is always at
/// least one.
pub proof fn lemma_dec_digits_are_digits(n: nat)
    ensures
        all_digits(dec_digits(n)),
        dec_digits(n).len() >= 1,
    decreases n,
{
    if n < 10 {
        assert(is_digit(digit_char(n)));
    } else {
        lemma_dec_digits_are_digits(n / 10);
        let p = dec_digits(n / 10);
        let whole = p.push(digit_char(n % 10));
        assert forall|i: int| 0 <= i < whole.len() implies is_digit(#[trigger] whole[i]) by {
            if i < p.len() {
                assert(whole[i] == p[i]);
            } else {
                assert(whole[i] == digit_char(n % 10));
            }
        }
    }
}

/// `digit_char` and `digit_val` invert each other below ten.
pub proof fn lemma_digit_char_val(d: nat)
    requires
        d < 10,
    ensures
        digit_val(digit_char(d)) == d,
{
}

/// Reading the digit string of `n` back in base ten yields `n`.
pub proof fn lemma_dec_digits_value(n: nat)
    ensures
        digits_value(dec_digits(n)) == n,
    decreases n,
{
    if n < 10 {
        lemma_digit_char_val(n);
        assert(seq![digit_char(n)].drop_last() =~= Seq::<char>::empty());
        assert(digits_value(Seq::<char>::empty()) == 0);
        assert(dec_digits(n) == seq![digit_char(n)]);
        assert(digits_value(dec_digits(n)) == 0 * 10 + digit_val(digit_char(n)));
    } else {
        lemma_dec_digits_value(n / 10);
        lemma_digit_char_val(n % 10);
        vstd::arithmetic::div_mod::lemma_fundamental_div_mod(n as int, 10);
        let p = dec_digits(n / 10);
        assert(p.push(digit_char(n % 10)).drop_last() =~= p);
        assert(p.push(digit_char(n % 10)).last() == digit_char(n % 10));
    }
}

/// The text of a cent count is a valid unsigned decimal literal and denotes
/// exactly that cent count: rendering loses nothing.
pub proof fn lemma_rendered_parses_back(cents: nat)
    ensures
        valid_decimal(rendered(cents)),
        !has_minus(rendered(cents)),
        decimal_cents(rendered(cents)) == cents,
{
    let w = cents / 100;
    let rem = cents % 100;
    let ip = dec_digits(w);
    let s = rendered(cents);
    lemma_dec_digits_are_digits(w);
    lemma_dec_digits_value(w);
    lemma_digit_char_val(rem / 10);
    lemma_digit_char_val(rem % 10);
    assert(s.len() == ip.len() + 3);
    assert(s[0] == ip[0] && is_digit(ip[0]));
    assert(!has_sign(s));
    assert(forall|i: int| 0 <= i < ip.len() ==> s[i] == ip[i] && is_digit(#[trigger] ip[i]));
    assert(s[ip.len() as int] == '.');
    lemma_first_dot_at(s, ip.len() as int);
    assert(int_digits(s) =~= ip);
    assert(frac_digits(s) =~= seq![digit_char(rem / 10), digit_char(rem % 10)]);
    assert(frac_cents(frac_digits(s)) == (rem / 10) * 10 + rem % 10);
    assert(frac_round_up(frac_digits(s)) == 0);
    assert(decimal_cents(s) == w * 100 + rem);
}

/// Classifies a character as a digit and yields its value.
pub fn char_digit(c: char) -> (r: Option<u8>)
    ensures
        r is Some <==> is_digit(c),
        r is Some ==> r->Some_0 as nat == digit_val(c) && r->Some_0 < 10,
{
    match c {
        '0' => Some(0u8),
        '1' => Some(1u8),
        '2' => Some(2u8),
        '3' => Some(3u8),
        '4' => Some(4u8),
        '5' => Some(5u8),
        '6' => Some(6u8),
        '7' => Some(7u8),
        '8' => Some(8u8),
        '9' => Some(9u8),
        _ => None,
    }
}

/// The one-character text of a digit value.
pub fn digit_str(d: u8) -> (r: &'static str)
    requires
        d < 10,
    ensures
        r@ == seq![digit_char(d as nat)],
{
    let r: &'static str = match d {
        0 => "0",
        1 => "1",
        2 => "2",
        3 => "3",
        4 => "4",
        5 => "5",
        6 => "6",
        7 => "7",
        8 => "8",
        _ => "9",
    };
    proof {
        reveal_strlit("0");
        reveal_strlit("1");
        reveal_strlit("2");
        reveal_strlit("3");
        reveal_strlit("4");
        reveal_strlit("5");
        reveal_strlit("6");
        reveal_strlit("7");
        reveal_strlit("8");
        reveal_strlit("9");
        assert(r@ =~= seq![digit_char(d as nat)]);
    }
    r
}

/// Appends the decimal digit string of `n`, most significant digit first.
pub fn push_decimal(n: u32, out: &mut String)
    ensures
        final(out)@ == old(out)@ + dec_digits(n as nat),
    decreases n,
{
    if n >= 10 {
        push_decimal(n / 10, out);
    }
    out.append(digit_str((n % 10) as u8));
    proof {
        if n < 10 {
            assert(n % 10 == n);
        }
        assert(out@ =~= old(out)@ + dec_digits(n as nat));
    }
}

} // verus!
