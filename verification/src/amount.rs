//! The `Amount` value type: a non-negative monetary quantity counted in
//! cents, with construction from decimal text, exact accumulation and
//! scaling, and rendering back to text.

use vstd::prelude::*;
use vstd::string::StrSliceExecFns;
use vstd::string::StringExecFns;

use crate::decimal::{
    all_digits, body, char_digit, decimal_cents, digit_str, digits_value, frac_cents,
    frac_digits, frac_round_up, has_minus, int_digits, is_digit, lemma_digits_value_step,
    lemma_first_dot_at, lemma_first_dot_bounds, lemma_first_dot_lower, lemma_rendered_parses_back,
    push_decimal, rendered, valid_body, valid_decimal,
};

verus! {

/// A non-negative monetary amount with exactly two fractional digits,
/// stored as a count of cents. The decimal value represented is the cent
/// count divided by one hundred; no finer precision exists.
///
/// Equality and hashing are structural, on the cent count alone, so equal
/// amounts hash identically and the type can key an associative container.
#[derive(PartialEq, Eq, Hash, Clone, Copy, Debug, Structural)]
pub struct Amount {
    cents: u32,
}

/// Why an operation on an `Amount` failed.
#[derive(PartialEq, Eq, Clone, Copy, Debug, Structural)]
pub enum AmountError {
    /// The input text is not a decimal literal.
    NotDecimal,
    /// The input denotes a negative amount, which the type cannot hold.
    Negative,
    /// The cent count does not fit in the storage width.
    Overflow,
}

/// What parsing a decimal literal must return: the single error that the
/// input earns, in the order not-a-decimal, negative, overflow — or the
/// amount whose cent count the text denotes.
pub open spec fn parse_result_is(s: Seq<char>, r: Result<Amount, AmountError>) -> bool {
    if !valid_decimal(s) {
        r == Err::<Amount, AmountError>(AmountError::NotDecimal)
    } else if has_minus(s) && decimal_cents(s) > 0 {
        r == Err::<Amount, AmountError>(AmountError::Negative)
    } else if decimal_cents(s) > u32::MAX {
        r == Err::<Amount, AmountError>(AmountError::Overflow)
    } else {
        r matches Ok(a) && a@ == decimal_cents(s)
    }
}

impl View for Amount {
    type V = nat;

    closed spec fn view(&self) -> nat {
        self.cents as nat
    }
}

impl Amount {
    /// The zero amount.
    pub fn new() -> (r: Amount)
        ensures
            r@ == 0,
    {
        Amount { cents: 0 }
    }

    /// Parses a decimal literal — an optional sign, then digits with at most
    /// one '.' among them and at least one digit — into an amount, rounding
    /// any digits beyond the second fractional one to the nearest cent, half
    /// away from zero. Rejects text of any other shape, amounts that round to
    /// a negative cent count, and cent counts beyond the storage width.
    pub fn new_from_str(input: &str) -> (r: Result<Amount, AmountError>)
        ensures
            parse_result_is(input@, r),
    {
        let ghost s = input@;
        let n = input.unicode_len();
        let mut start: usize = 0;
        let mut minus: bool = false;
        if n > 0 {
            let c0 = input.get_char(0);
            if c0 == '-' {
                minus = true;
                start = 1;
            } else if c0 == '+' {
                start = 1;
            }
        }
        let ghost b = body(s);
        proof {
            assert(b =~= s.skip(start as int));
            assert(minus == has_minus(s));
        }

        // Integer part: digits up to the first '.', if any.
        let mut i: usize = start;
        let mut acc: u64 = 0;
        let mut big: bool = false;
        let mut saw_dot: bool = false;
        while i < n && !saw_dot
            invariant
                s == input@,
                n == s.len(),
                start <= i <= n,
                start <= 1,
                b == s.skip(start as int),
                b == body(s),
                b.len() == n - start,
                minus == has_minus(s),
                forall|k: int| start <= k < i ==> is_digit(#[trigger] s[k]) && s[k] != '.',
                saw_dot ==> i < n && s[i as int] == '.',
                !big ==> acc as nat == digits_value(b.take(i - start)) && acc <= u32::MAX as u64,
                big ==> digits_value(b.take(i - start)) > u32::MAX,
            decreases n - i + (if saw_dot { 0int } else { 1int }),
        {
            let c = input.get_char(i);
            if c == '.' {
                saw_dot = true;
            } else {
                match char_digit(c) {
                    None => {
                        proof {
                            let j = i - start;
                            assert(forall|k: int| 0 <= k <= j ==> b[k] == s[start + k]);
                            assert(forall|k: int| 0 <= k < j + 1 ==> b[k] != '.');
                            lemma_first_dot_lower(b, j + 1);
                            lemma_first_dot_bounds(b);
                            assert(int_digits(b)[j] == b[j]);
                            assert(!is_digit(int_digits(b)[j]));
                            assert(!valid_decimal(s));
                        }
                        return Err(AmountError::NotDecimal);
                    },
                    Some(d) => {
                        proof {
                            let j = i - start;
                            assert(b[j] == s[start + j]);
                            lemma_digits_value_step(b, j);
                        }
                        if !big {
                            acc = acc * 10 + d as u64;
                            if acc > u32::MAX as u64 {
                                big = true;
                            }
                        }
                        i = i + 1;
                    },
                }
            }
        }

        // Locate the split between integer and fractional digits.
        let int_len: usize = i - start;
        proof {
            assert(forall|k: int| 0 <= k < int_len ==> b[k] == s[start + k]);
            if saw_dot {
                assert(b[int_len as int] == s[start + int_len]);
                lemma_first_dot_at(b, int_len as int);
            } else {
                lemma_first_dot_at(b, b.len() as int);
            }
        }
        if saw_dot {
            i = i + 1;
        }
        let ghost fp = frac_digits(b);
        let ghost fs = i as int;
        proof {
            if saw_dot {
                assert(fp == b.skip(int_len + 1));
                assert(fp.len() == n - fs);
                assert(forall|k: int| 0 <= k < fp.len() ==> fp[k] == b[int_len + 1 + k]
                    && b[int_len + 1 + k] == s[fs + k]);
            } else {
                assert(fp.len() == 0);
            }
        }

        // Fractional part: digits only; the first two carry cents, the third
        // decides rounding.
        let mut f: u32 = 0;
        let mut r_up: u32 = 0;
        let mut j: usize = 0;
        while i < n
            invariant
                s == input@,
                n == s.len(),
                b == body(s),
                fp == frac_digits(b),
                fs + j == i,
                0 <= fs <= i <= n,
                fp.len() == n - fs,
                forall|k: int| 0 <= k < fp.len() ==> fp[k] == s[fs + k],
                forall|k: int| 0 <= k < j ==> is_digit(#[trigger] fp[k]),
                f as nat == frac_cents(fp.take(j as int)),
                r_up as nat == frac_round_up(fp.take(j as int)),
                f <= 99,
                r_up <= 1,
            decreases n - i,
        {
            let c = input.get_char(i);
            match char_digit(c) {
                None => {
                    proof {
                        assert(fp[j as int] == s[fs + j]);
                        assert(!all_digits(frac_digits(body(s))));
                        assert(!valid_decimal(s));
                    }
                    return Err(AmountError::NotDecimal);
                },
                Some(d) => {
                    proof {
                        assert(fp[j as int] == s[fs + j]);
                        assert(fp.take(j + 1).len() == j + 1);
                        assert(forall|k: int| 0 <= k < j + 1 ==> fp.take(j + 1)[k] == fp[k]);
                        assert(forall|k: int| 0 <= k < j ==> fp.take(j as int)[k] == fp[k]);
                    }
                    if j == 0 {
                        f = d as u32 * 10;
                    } else if j == 1 {
                        f = f + d as u32;
                    } else if j == 2 {
                        if d >= 5 {
                            r_up = 1;
                        }
                    }
                    i = i + 1;
                    j = j + 1;
                },
            }
        }
        proof {
            assert(fp.take(j as int) =~= fp);
        }

        // At least one digit is required overall.
        if int_len == 0 && j == 0 {
            proof {
                assert(int_digits(b).len() == 0);
                assert(!valid_body(b));
            }
            return Err(AmountError::NotDecimal);
        }
        proof {
            assert(forall|k: int| 0 <= k < int_digits(b).len()
                ==> int_digits(b)[k] == b[k] && b[k] == s[start + k]);
            assert(all_digits(int_digits(b)));
            assert(valid_decimal(s));
            assert(decimal_cents(s) == digits_value(int_digits(b)) * 100 + frac_cents(fp)
                + frac_round_up(fp));
            assert(int_digits(b) == b.take(int_len as int));
        }

        // A negative amount is representable only when it rounds to zero cents.
        if minus && (big || acc > 0 || f > 0 || r_up > 0) {
            proof {
                if big {
                    assert(digits_value(int_digits(b)) * 100 >= digits_value(int_digits(b)));
                }
                assert(decimal_cents(s) > 0);
            }
            return Err(AmountError::Negative);
        }

        // The cent count must fit the storage width.
        if big {
            proof {
                assert(digits_value(int_digits(b)) * 100 >= digits_value(int_digits(b)));
                assert(decimal_cents(s) > u32::MAX);
            }
            return Err(AmountError::Overflow);
        }
        let total: u64 = acc * 100 + f as u64 + r_up as u64;
        proof {
            assert(total as nat == decimal_cents(s));
        }
        if total > u32::MAX as u64 {
            return Err(AmountError::Overflow);
        }
        Ok(Amount { cents: total as u32 })
    }

    /// Adds the other amount's cents into this one, exactly. On overflow of
    /// the storage width nothing changes and the failure is reported: cent
    /// counts neither wrap nor saturate.
    pub fn accumulate(&mut self, other: Amount) -> (r: Result<(), AmountError>)
        ensures
            old(self)@ + other@ <= u32::MAX ==> r == Ok::<(), AmountError>(())
                && final(self)@ == old(self)@ + other@,
            old(self)@ + other@ > u32::MAX ==> r == Err::<(), AmountError>(AmountError::Overflow)
                && *final(self) == *old(self),
    {
        match self.cents.checked_add(other.cents) {
            Some(v) => {
                self.cents = v;
                Ok(())
            },
            None => Err(AmountError::Overflow),
        }
    }

    /// Multiplies this amount's cents by a whole-number count, exactly. On
    /// overflow of the storage width nothing changes and the failure is
    /// reported: cent counts neither wrap nor saturate.
    pub fn scale(&mut self, multiplier: u32) -> (r: Result<(), AmountError>)
        ensures
            old(self)@ * multiplier <= u32::MAX ==> r == Ok::<(), AmountError>(())
                && final(self)@ == old(self)@ * multiplier,
            old(self)@ * multiplier > u32::MAX ==> r == Err::<(), AmountError>(
                AmountError::Overflow,
            ) && *final(self) == *old(self),
    {
        match self.cents.checked_mul(multiplier) {
            Some(v) => {
                self.cents = v;
                Ok(())
            },
            None => Err(AmountError::Overflow),
        }
    }

    /// Writes the amount as "<units>.<cents>", with the cent remainder
    /// zero-padded to two digits, so that the text always denotes exactly
    /// this amount.
    pub fn render(&self) -> (r: String)
        ensures
            r@ == rendered(self@),
    {
        let whole = self.cents / 100;
        let frac = self.cents % 100;
        let mut out = String::new();
        push_decimal(whole, &mut out);
        out.append(".");
        out.append(digit_str((frac / 10) as u8));
        out.append(digit_str((frac % 10) as u8));
        proof {
            reveal_strlit(".");
            assert(out@ =~= rendered(self@));
        }
        out
    }

    /// The cent count backing this amount.
    pub fn cents(&self) -> (r: u32)
        ensures
            r as nat == self@,
    {
        self.cents
    }
}

/// Accumulation adds cent counts, so the order of the two operands does not
/// matter.
pub proof fn lemma_accumulate_commutative(a: Amount, b: Amount)
    ensures
        a@ + b@ == b@ + a@,
{
}

/// Accumulation adds cent counts, so grouping does not matter: accumulating
/// `b` then `c` into `a` equals accumulating `c` into `b` first.
pub proof fn lemma_accumulate_associative(a: Amount, b: Amount, c: Amount)
    ensures
        (a@ + b@) + c@ == a@ + (b@ + c@),
{
}

/// Scaling by zero yields the zero amount whatever the starting value.
pub proof fn lemma_scale_zero(a: Amount)
    ensures
        a@ * 0 == 0,
{
}

/// Scaling by one leaves the cent count unchanged.
pub proof fn lemma_scale_one(a: Amount)
    ensures
        a@ * 1 == a@,
{
}

/// Amounts are equal exactly when their cent counts are: equality is
/// structural on the one stored field.
pub proof fn lemma_equal_cents(a: Amount, b: Amount)
    ensures
        a == b <==> a@ == b@,
{
}

/// Round trip: the rendered text of any amount is a valid, unsigned decimal
/// literal, and any result that meets the parsing contract on that text is
/// the amount itself.
pub proof fn lemma_render_parse_round_trip(a: Amount, r: Result<Amount, AmountError>)
    requires
        parse_result_is(rendered(a@), r),
    ensures
        r matches Ok(b) && b == a,
{
    lemma_rendered_parses_back(a@);
    let b = r->Ok_0;
    lemma_equal_cents(a, b);
}

/// A valid decimal string with at most two fractional digits denotes its
/// cent count exactly — no rounding happens — and rendering that cent count
/// yields text that denotes the same cent count again.
pub proof fn lemma_parse_render_preserves_value(s: Seq<char>)
    requires
        valid_decimal(s),
        frac_digits(body(s)).len() <= 2,
    ensures
        decimal_cents(s) == digits_value(int_digits(body(s))) * 100 + frac_cents(
            frac_digits(body(s)),
        ),
        decimal_cents(rendered(decimal_cents(s))) == decimal_cents(s),
        valid_decimal(rendered(decimal_cents(s))),
{
    lemma_rendered_parses_back(decimal_cents(s));
}

} // verus!
