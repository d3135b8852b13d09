use vstd::prelude::*;
use crate::date::digit_char;
use crate::text::push_char;

verus! {

// All monetary values are held in cents, so two display decimals are exact
// and accumulation never rounds.

/// The decimal digits of a non-negative number, most significant first.
pub open spec fn nat_digits(n: int) -> Seq<char>
    recommends
        n >= 0,
    decreases n,
{
    if n < 10 {
        seq![digit_char(n)]
    } else {
        nat_digits(n / 10).push(digit_char(n % 10))
    }
}

pub open spec fn abs_cents(c: int) -> int {
    if c >= 0 {
        c
    } else {
        -c
    }
}

pub open spec fn sign_seq(c: int) -> Seq<char> {
    if c < 0 {
        seq!['-']
    } else {
        Seq::<char>::empty()
    }
}

/// Cents rendered as a JSON number with the shortest fraction that loses
/// nothing, but always at least one fractional digit: 10050 is "100.5",
/// 10000 is "100.0", 10025 is "100.25".
pub open spec fn cents_json(c: int) -> Seq<char> {
    let a = abs_cents(c);
    sign_seq(c) + nat_digits(a / 100) + seq!['.'] + frac_digits(a)
}

pub open spec fn frac_digits(a: int) -> Seq<char> {
    if a % 100 == 0 {
        seq!['0']
    } else if a % 10 == 0 {
        seq![digit_char((a / 10) % 10)]
    } else {
        seq![digit_char((a % 100) / 10), digit_char(a % 10)]
    }
}

/// Cents rendered as a bare decimal amount: whole numbers carry no
/// fraction at all (10000 is "100").
pub open spec fn cents_display(c: int) -> Seq<char> {
    let a = abs_cents(c);
    if a % 100 == 0 {
        sign_seq(c) + nat_digits(a / 100)
    } else {
        cents_json(c)
    }
}

/// Commas inserted from the right in groups of three, over whatever string
/// precedes the decimal point; a leading minus sign counts as a grouped
/// character.
pub open spec fn grouped_from(s: Seq<char>, i: int) -> Seq<char>
    decreases s.len() - i,
{
    if i < 0 || i >= s.len() {
        Seq::<char>::empty()
    } else {
        (if i > 0 && (s.len() - i) % 3 == 0 {
            seq![',']
        } else {
            Seq::<char>::empty()
        }) + seq![s[i]] + grouped_from(s, i + 1)
    }
}

/// The human-readable amount: thousands separators and always two decimals.
pub open spec fn format_amount_spec(c: int) -> Seq<char> {
    let a = abs_cents(c);
    grouped_from(sign_seq(c) + nat_digits(a / 100), 0) + seq!['.'] + seq![
        digit_char((a % 100) / 10),
        digit_char(a % 10),
    ]
}

fn push_digit(out: &mut String, v: u128)
    requires
        v < 10,
    ensures
        final(out)@ == old(out)@.push(digit_char(v as int)),
{
    let c = ((48 + (v as u8)) as u8) as char;
    push_char(out, c);
}

/// Appends the decimal digits of `n`.
pub fn push_digits(out: &mut String, n: u128)
    ensures
        final(out)@ == old(out)@ + nat_digits(n as int),
    decreases n,
{
    if n < 10 {
        push_digit(out, n);
        proof {
            assert(old(out)@.push(digit_char(n as int)) =~= old(out)@ + nat_digits(n as int));
        }
    } else {
        push_digits(out, n / 10);
        push_digit(out, n % 10);
        proof {
            assert((old(out)@ + nat_digits(n as int / 10)).push(digit_char(n as int % 10)) =~= old(
                out,
            )@ + nat_digits(n as int));
        }
    }
}

fn cents_abs_i128(c: i128) -> (r: u128)
    requires
        c != i128::MIN,
    ensures
        r == abs_cents(c as int),
{
    if c >= 0 {
        c as u128
    } else {
        (-c) as u128
    }
}

fn push_sign(out: &mut String, c: i128)
    ensures
        final(out)@ == old(out)@ + sign_seq(c as int),
{
    if c < 0 {
        push_char(out, '-');
        proof {
            assert(old(out)@.push('-') =~= old(out)@ + sign_seq(c as int));
        }
    } else {
        proof {
            assert(old(out)@ =~= old(out)@ + sign_seq(c as int));
        }
    }
}

/// Appends a cents value as a JSON number.
pub fn push_cents_json(out: &mut String, c: i64)
    ensures
        final(out)@ == old(out)@ + cents_json(c as int),
{
    let wide: i128 = c as i128;
    push_sign(out, wide);
    let a = cents_abs_i128(wide);
    push_digits(out, a / 100);
    push_char(out, '.');
    let f = (a % 100) as u32;
    if f == 0 {
        push_digit(out, 0);
    } else if f % 10 == 0 {
        push_digit(out, (f / 10) as u128);
    } else {
        push_digit(out, (f / 10) as u128);
        push_digit(out, (f % 10) as u128);
    }
    proof {
        let ai = abs_cents(c as int);
        assert((a / 100) as int == ai / 100);
        assert((a % 100) as int == ai % 100);
        assert((ai % 100) / 10 == (ai / 10) % 10) by {
            assert(ai % 100 == (ai / 10) % 10 * 10 + ai % 10) by (nonlinear_arith);
        }
        assert(final(out)@ =~= old(out)@ + cents_json(c as int));
    }
}

/// Renders a cents value as a bare decimal amount.
pub fn render_cents_display(c: i64) -> (r: String)
    ensures
        r@ == cents_display(c as int),
{
    let mut out = String::new();
    let wide: i128 = c as i128;
    let a = cents_abs_i128(wide);
    if a % 100 == 0 {
        push_sign(&mut out, wide);
        push_digits(&mut out, a / 100);
        proof {
            assert(out@ =~= cents_display(c as int));
        }
    } else {
        push_cents_json(&mut out, c);
        proof {
            assert(out@ =~= cents_display(c as int));
        }
    }
    out
}

/// Formats an amount with thousand separators and two decimal places.
pub fn format_amount(c: i128) -> (r: String)
    requires
        c != i128::MIN,
    ensures
        r@ == format_amount_spec(c as int),
{
    let mut intpart = String::new();
    push_sign(&mut intpart, c);
    let a = cents_abs_i128(c);
    push_digits(&mut intpart, a / 100);
    proof {
        assert(intpart@ =~= sign_seq(c as int) + nat_digits(abs_cents(c as int) / 100));
    }
    let n: usize = intpart.as_str().unicode_len();
    let mut out = String::new();
    let mut i: usize = 0;
    while i < n
        invariant
            n == intpart@.len(),
            0 <= i <= n,
            grouped_from(intpart@, 0) == out@ + grouped_from(intpart@, i as int),
        decreases n - i,
    {
        let ghost prev = out@;
        if i > 0 && (n - i) % 3 == 0 {
            push_char(&mut out, ',');
        }
        let ch = intpart.as_str().get_char(i);
        push_char(&mut out, ch);
        proof {
            let s = intpart@;
            let sep: Seq<char> = if i > 0 && (s.len() - i) % 3 == 0 {
                seq![',']
            } else {
                Seq::<char>::empty()
            };
            assert(out@ =~= prev + sep + seq![s[i as int]]);
            assert(grouped_from(s, i as int) == sep + seq![s[i as int]] + grouped_from(
                s,
                i + 1 as int,
            ));
            assert(prev + grouped_from(s, i as int) =~= out@ + grouped_from(s, i + 1 as int));
        }
        i = i + 1;
    }
    proof {
        assert(grouped_from(intpart@, n as int) =~= Seq::<char>::empty());
        assert(out@ + grouped_from(intpart@, n as int) =~= out@);
    }
    push_char(&mut out, '.');
    let f = (a % 100) as u32;
    push_digit(&mut out, (f / 10) as u128);
    push_digit(&mut out, (f % 10) as u128);
    proof {
        let ai = abs_cents(c as int);
        assert((a % 100) as int == ai % 100);
        assert(out@ =~= format_amount_spec(c as int));
    }
    out
}

} // verus!
