use vstd::prelude::*;
use crate::text::{is_digit_char, push_char};

verus! {

/// A calendar date, held as plain day / month / year numbers. Dates are
/// formatted `DD-MM-YYYY` everywhere at rest and in filters.
#[derive(Clone, Copy, Debug, PartialEq, Eq, Structural)]
pub struct Date {
    pub day: u32,
    pub month: u32,
    pub year: u32,
}

pub open spec fn is_leap_year(y: int) -> bool {
    y % 4 == 0 && (y % 100 != 0 || y % 400 == 0)
}

pub open spec fn days_in_month(y: int, m: int) -> int {
    if m == 1 || m == 3 || m == 5 || m == 7 || m == 8 || m == 10 || m == 12 {
        31
    } else if m == 4 || m == 6 || m == 9 || m == 11 {
        30
    } else if is_leap_year(y) {
        29
    } else {
        28
    }
}

/// A proleptic Gregorian calendar date that the four-digit year format
/// can carry.
pub open spec fn valid_ymd(y: int, m: int, d: int) -> bool {
    &&& 1 <= y <= 9999
    &&& 1 <= m <= 12
    &&& 1 <= d <= days_in_month(y, m)
}

impl Date {
    pub open spec fn wf(self) -> bool {
        valid_ymd(self.year as int, self.month as int, self.day as int)
    }

    /// Totally orders dates chronologically: year, then month, then day.
    pub open spec fn key(self) -> int {
        self.year * 10000 + self.month * 100 + self.day
    }
}

pub open spec fn char_val(c: char) -> int {
    c as int - 48
}

pub open spec fn digit_char(v: int) -> char
    recommends
        0 <= v < 10,
{
    ((48 + v) as u8) as char
}

pub open spec fn digits_val(s: Seq<char>) -> int
    decreases s.len(),
{
    if s.len() == 0 {
        0
    } else {
        digits_val(s.drop_last()) * 10 + char_val(s.last())
    }
}

pub open spec fn all_digits(s: Seq<char>) -> bool {
    forall|i: int| 0 <= i < s.len() ==> is_digit_char(#[trigger] s[i])
}

/// The `DD-MM-YYYY` grammar: one or two day digits, one or two month digits,
/// exactly four year digits, separated by dashes, followed by a calendar
/// validity check.
pub open spec fn date_parse(s: Seq<char>) -> Option<Date> {
    let n = s.len() as int;
    if n < 8 || !is_digit_char(s[0]) {
        None
    } else {
        let dl: int = if s[1] == '-' {
            1
        } else {
            2
        };
        if dl == 2 && !is_digit_char(s[1]) {
            None
        } else if s[dl] != '-' || !is_digit_char(s[dl + 1]) {
            None
        } else {
            let ml: int = if s[dl + 2] == '-' {
                1
            } else {
                2
            };
            if ml == 2 && !is_digit_char(s[dl + 2]) {
                None
            } else if n != dl + ml + 6 || s[dl + ml + 1] != '-' {
                None
            } else if !all_digits(s.subrange(dl + ml + 2, n)) {
                None
            } else {
                let day = digits_val(s.subrange(0, dl));
                let month = digits_val(s.subrange(dl + 1, dl + 1 + ml));
                let year = digits_val(s.subrange(dl + ml + 2, n));
                if valid_ymd(year, month, day) {
                    Some(Date { day: day as u32, month: month as u32, year: year as u32 })
                } else {
                    None
                }
            }
        }
    }
}

/// The zero-padded `DD-MM-YYYY` rendering of a date.
pub open spec fn date_render(d: Date) -> Seq<char> {
    seq![
        digit_char(d.day as int / 10),
        digit_char(d.day as int % 10),
        '-',
        digit_char(d.month as int / 10),
        digit_char(d.month as int % 10),
        '-',
        digit_char(d.year as int / 1000),
        digit_char((d.year as int / 100) % 10),
        digit_char((d.year as int / 10) % 10),
        digit_char(d.year as int % 10),
    ]
}

pub open spec fn pow10(k: nat) -> int
    decreases k,
{
    if k == 0 {
        1
    } else {
        10 * pow10((k - 1) as nat)
    }
}

pub proof fn lemma_digits_val_one(a: char)
    ensures
        digits_val(seq![a]) == char_val(a),
{
    reveal_with_fuel(digits_val, 2);
    assert(seq![a].drop_last() =~= Seq::<char>::empty());
    assert(seq![a].last() == a);
}

pub proof fn lemma_digits_val_two(a: char, b: char)
    ensures
        digits_val(seq![a, b]) == char_val(a) * 10 + char_val(b),
{
    assert(seq![a, b].drop_last() =~= seq![a]);
    assert(seq![a, b].last() == b);
    lemma_digits_val_one(a);
}

pub proof fn lemma_digits_val_four(a: char, b: char, c: char, d: char)
    ensures
        digits_val(seq![a, b, c, d]) == ((char_val(a) * 10 + char_val(b)) * 10 + char_val(c))
            * 10 + char_val(d),
{
    reveal_with_fuel(digits_val, 5);
    assert(seq![a, b, c, d].drop_last() =~= seq![a, b, c]);
    assert(seq![a, b, c].drop_last() =~= seq![a, b]);
    assert(seq![a, b, c, d].last() == d);
    assert(seq![a, b, c].last() == c);
    lemma_digits_val_two(a, b);
}

pub proof fn lemma_digits_val_bound(s: Seq<char>)
    requires
        all_digits(s),
    ensures
        0 <= digits_val(s) < pow10(s.len()),
    decreases s.len(),
{
    if s.len() > 0 {
        assert(all_digits(s.drop_last())) by {
            assert(forall|i: int|
                0 <= i < s.len() - 1 ==> s.drop_last()[i] == #[trigger] s[i]);
        }
        lemma_digits_val_bound(s.drop_last());
    }
}

fn digit_val_exec(c: char) -> (r: u32)
    requires
        is_digit_char(c),
    ensures
        r == char_val(c),
        r <= 9,
{
    (c as u32) - 48
}

fn days_in_month_exec(y: u32, m: u32) -> (r: u32)
    ensures
        r == days_in_month(y as int, m as int),
{
    if m == 1 || m == 3 || m == 5 || m == 7 || m == 8 || m == 10 || m == 12 {
        31
    } else if m == 4 || m == 6 || m == 9 || m == 11 {
        30
    } else if y % 4 == 0 && (y % 100 != 0 || y % 400 == 0) {
        29
    } else {
        28
    }
}

fn is_digit_exec(c: char) -> (r: bool)
    ensures
        r == is_digit_char(c),
{
    '0' <= c && c <= '9'
}

/// Parses a date string in `DD-MM-YYYY` format, rejecting anything that is
/// not a valid calendar date.
pub fn parse_date(s: &str) -> (r: Option<Date>)
    ensures
        r == date_parse(s@),
{
    let n: usize = s.unicode_len();
    if n < 8 {
        return None;
    }
    if !is_digit_exec(s.get_char(0)) {
        return None;
    }
    let dl: usize = if s.get_char(1) == '-' {
        1
    } else {
        2
    };
    if dl == 2 && !is_digit_exec(s.get_char(1)) {
        return None;
    }
    if s.get_char(dl) != '-' || !is_digit_exec(s.get_char(dl + 1)) {
        return None;
    }
    let ml: usize = if s.get_char(dl + 2) == '-' {
        1
    } else {
        2
    };
    if ml == 2 && !is_digit_exec(s.get_char(dl + 2)) {
        return None;
    }
    if n != dl + ml + 6 || s.get_char(dl + ml + 1) != '-' {
        return None;
    }
    // year: four digits at positions dl + ml + 2 .. n
    let y0 = dl + ml + 2;
    let mut year: u32 = 0;
    let mut i: usize = y0;
    while i < n
        invariant
            y0 == dl + ml + 2,
            y0 <= i <= n,
            n == s@.len(),
            n == y0 + 4,
            all_digits(s@.subrange(y0 as int, i as int)),
            year == digits_val(s@.subrange(y0 as int, i as int)),
            year <= 9999,
        decreases n - i,
    {
        let c = s.get_char(i);
        if !is_digit_exec(c) {
            proof {
                assert(s@.subrange(y0 as int, n as int)[i - y0] == s@[i as int]);
            }
            return None;
        }
        let v = digit_val_exec(c);
        proof {
            let pre = s@.subrange(y0 as int, i as int);
            let post = s@.subrange(y0 as int, i + 1 as int);
            assert(post.drop_last() =~= pre);
            assert(post.last() == s@[i as int]);
            lemma_digits_val_bound(pre);
            reveal_with_fuel(pow10, 5);
            assert(pow10(0) == 1 && pow10(1) == 10 && pow10(2) == 100 && pow10(3) == 1000);
            assert(pre.len() <= 3);
        }
        year = year * 10 + v;
        i = i + 1;
    }
    let day: u32 = if dl == 1 {
        proof {
            assert(s@.subrange(0, 1) =~= seq![s@[0]]);
            lemma_digits_val_one(s@[0]);
        }
        digit_val_exec(s.get_char(0))
    } else {
        proof {
            assert(s@.subrange(0, 2) =~= seq![s@[0], s@[1]]);
            lemma_digits_val_two(s@[0], s@[1]);
        }
        digit_val_exec(s.get_char(0)) * 10 + digit_val_exec(s.get_char(1))
    };
    let month: u32 = if ml == 1 {
        proof {
            assert(s@.subrange(dl + 1, dl + 2) =~= seq![s@[dl + 1]]);
            lemma_digits_val_one(s@[dl + 1]);
        }
        digit_val_exec(s.get_char(dl + 1))
    } else {
        proof {
            assert(s@.subrange(dl + 1, dl + 3) =~= seq![s@[dl + 1], s@[dl + 2]]);
            lemma_digits_val_two(s@[dl + 1], s@[dl + 2]);
        }
        digit_val_exec(s.get_char(dl + 1)) * 10 + digit_val_exec(s.get_char(dl + 2))
    };
    proof {
        assert(s@.subrange(y0 as int, n as int) =~= s@.subrange(y0 as int, i as int));
    }
    if 1 <= year && year <= 9999 && 1 <= month && month <= 12 && 1 <= day && day
        <= days_in_month_exec(year, month) {
        Some(Date { day, month, year })
    } else {
        None
    }
}

fn push_digit(out: &mut String, v: u32)
    requires
        v < 10,
    ensures
        final(out)@ == old(out)@.push(digit_char(v as int)),
{
    let c = ((48 + v) as u8) as char;
    push_char(out, c);
}

/// Renders a date in zero-padded `DD-MM-YYYY` form.
pub fn render_date(d: &Date) -> (r: String)
    requires
        d.wf(),
    ensures
        r@ == date_render(*d),
{
    let mut out = String::new();
    push_digit(&mut out, d.day / 10);
    push_digit(&mut out, d.day % 10);
    push_char(&mut out, '-');
    push_digit(&mut out, d.month / 10);
    push_digit(&mut out, d.month % 10);
    push_char(&mut out, '-');
    push_digit(&mut out, d.year / 1000);
    push_digit(&mut out, (d.year / 100) % 10);
    push_digit(&mut out, (d.year / 10) % 10);
    push_digit(&mut out, d.year % 10);
    proof {
        assert(out@ =~= date_render(*d));
    }
    out
}

/// The chronological comparison used for sorting and range filters.
pub fn date_le(a: &Date, b: &Date) -> (r: bool)
    ensures
        r == (a.key() <= b.key()),
{
    let ka: u64 = (a.year as u64) * 10000 + (a.month as u64) * 100 + (a.day as u64);
    let kb: u64 = (b.year as u64) * 10000 + (b.month as u64) * 100 + (b.day as u64);
    ka <= kb
}

/// Rendering a valid date and parsing it back yields the same date.
pub proof fn lemma_date_round_trip(d: Date)
    requires
        d.wf(),
    ensures
        date_parse(date_render(d)) == Some(d),
{
    let s = date_render(d);
    assert(s.len() == 10);
    let dv = d.day as int;
    let mv = d.month as int;
    let yv = d.year as int;
    assert(is_digit_char(s[0]) && is_digit_char(s[1]));
    assert(s[1] != '-');
    assert(s[2] == '-');
    assert(is_digit_char(s[3]) && is_digit_char(s[4]));
    assert(s[4] != '-');
    assert(s[5] == '-');
    assert(all_digits(s.subrange(6, 10))) by {
        assert(forall|i: int| 6 <= i < 10 ==> is_digit_char(#[trigger] s[i]));
        assert(forall|i: int|
            0 <= i < 4 ==> #[trigger] s.subrange(6, 10)[i] == s[i + 6]);
    }
    assert(digits_val(s.subrange(0, 2)) == dv) by {
        assert(s.subrange(0, 2) =~= seq![s[0], s[1]]);
        lemma_digits_val_two(s[0], s[1]);
        assert(char_val(digit_char(dv / 10)) == dv / 10);
        assert(char_val(digit_char(dv % 10)) == dv % 10);
    }
    assert(digits_val(s.subrange(3, 5)) == mv) by {
        assert(s.subrange(3, 5) =~= seq![s[3], s[4]]);
        lemma_digits_val_two(s[3], s[4]);
    }
    assert(digits_val(s.subrange(6, 10)) == yv) by {
        assert(s.subrange(6, 10) =~= seq![s[6], s[7], s[8], s[9]]);
        lemma_digits_val_four(s[6], s[7], s[8], s[9]);
        assert(char_val(digit_char(yv / 1000)) == yv / 1000);
        assert(((yv / 1000) * 10 + (yv / 100) % 10) * 10 + (yv / 10) % 10 == yv / 10);
        assert((yv / 10) * 10 + yv % 10 == yv);
    }
}

} // verus!
