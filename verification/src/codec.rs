use vstd::prelude::*;
use vstd::string::*;
use crate::amount::{cents_json, nat_digits, push_cents_json, push_digits};
use crate::date::{all_digits, digit_char};
use crate::error::CliError;
use crate::ledger::{TrackerData, misc_name};
use crate::model::{Record, Subcategory, currency_code_spec};
use crate::text::{is_digit_char, lower_seq, push_char, to_lowercase};

verus! {

// The tracker document at rest: one JSON object whose keys appear in fixed
// (alphabetical) order, rendered compactly. The two derived subcategory
// maps are written from the table: ids ascending in both, the name map
// keyed by the lowercased names.

pub open spec fn hex_char(v: int) -> char
    recommends
        0 <= v < 16,
{
    if v < 10 {
        digit_char(v)
    } else {
        ((87 + v) as u8) as char
    }
}

/// One string character as escaped in the document.
pub open spec fn esc_char(c: char) -> Seq<char> {
    if c == '"' {
        seq!['\\', '"']
    } else if c == '\\' {
        seq!['\\', '\\']
    } else if c == '\n' {
        seq!['\\', 'n']
    } else if c == '\r' {
        seq!['\\', 'r']
    } else if c == '\t' {
        seq!['\\', 't']
    } else if c == '\u{8}' {
        seq!['\\', 'b']
    } else if c == '\u{c}' {
        seq!['\\', 'f']
    } else if 0 <= (c as int) && (c as int) < 32 {
        seq!['\\', 'u', '0', '0', hex_char((c as int) / 16), hex_char((c as int) % 16)]
    } else {
        seq![c]
    }
}

pub open spec fn esc_str(s: Seq<char>) -> Seq<char>
    decreases s.len(),
{
    if s.len() == 0 {
        Seq::<char>::empty()
    } else {
        esc_str(s.drop_last()) + esc_char(s.last())
    }
}

/// A JSON string literal: quotes around the escaped content.
pub open spec fn json_string(s: Seq<char>) -> Seq<char> {
    seq!['"'] + esc_str(s) + seq!['"']
}

/// One record object, keys in alphabetical order.
pub open spec fn record_json(r: Record) -> Seq<char> {
    "{\"amount\":"@ + cents_json(r.amount as int) + ",\"category\":"@ + nat_digits(
        r.category as int,
    ) + ",\"date\":"@ + json_string(r.date@) + ",\"description\":"@ + json_string(
        r.description@,
    ) + ",\"id\":"@ + nat_digits(r.id as int) + ",\"subcategory\":"@ + nat_digits(
        r.subcategory as int,
    ) + "}"@
}

pub open spec fn records_json(rs: Seq<Record>) -> Seq<char>
    decreases rs.len(),
{
    if rs.len() == 0 {
        Seq::<char>::empty()
    } else if rs.len() == 1 {
        record_json(rs[0])
    } else {
        records_json(rs.drop_last()) + seq![','] + record_json(rs.last())
    }
}

/// One id-to-name entry: `"id":"name"`.
pub open spec fn by_id_entry(sub: Subcategory) -> Seq<char> {
    seq!['"'] + nat_digits(sub.id as int) + "\":"@ + json_string(sub.name@)
}

pub open spec fn by_id_json(subs: Seq<Subcategory>) -> Seq<char>
    decreases subs.len(),
{
    if subs.len() == 0 {
        Seq::<char>::empty()
    } else if subs.len() == 1 {
        by_id_entry(subs[0])
    } else {
        by_id_json(subs.drop_last()) + seq![','] + by_id_entry(subs.last())
    }
}

/// One name-to-id entry: `"lowered name":id`.
pub open spec fn by_name_entry(sub: Subcategory) -> Seq<char> {
    json_string(lower_seq(sub.name@)) + seq![':'] + nat_digits(sub.id as int)
}

pub open spec fn by_name_json(subs: Seq<Subcategory>) -> Seq<char>
    decreases subs.len(),
{
    if subs.len() == 0 {
        Seq::<char>::empty()
    } else if subs.len() == 1 {
        by_name_entry(subs[0])
    } else {
        by_name_json(subs.drop_last()) + seq![','] + by_name_entry(subs.last())
    }
}

/// The whole document.
pub open spec fn render_tracker_spec(l: TrackerData) -> Seq<char> {
    "{\"categories\":{\"expenses\":2,\"income\":1},\"created_at\":"@ + json_string(
        l.created_at@,
    ) + ",\"currency\":"@ + json_string(currency_code_spec(l.currency)) + ",\"last_modified\":"@
        + json_string(l.last_modified@) + ",\"next_record_id\":"@ + nat_digits(
        l.next_record_id as int,
    ) + ",\"next_subcategory_id\":"@ + nat_digits(l.next_subcategory_id as int)
        + ",\"opening_balance\":"@ + cents_json(l.opening_balance as int) + ",\"records\":["@
        + records_json(l.recs()) + "],\"subcategories_by_id\":{"@ + by_id_json(l.subs())
        + "},\"subcategories_by_name\":{"@ + by_name_json(l.subs()) + "},\"version\":"@
        + nat_digits(l.version as int) + "}"@
}

fn push_str(out: &mut String, s: &str)
    ensures
        final(out)@ == old(out)@ + s@,
{
    out.append(s);
}

fn push_hex(out: &mut String, v: u32)
    requires
        v < 16,
    ensures
        final(out)@ == old(out)@.push(hex_char(v as int)),
{
    if v < 10 {
        push_char(out, ((48 + v) as u8) as char);
    } else {
        push_char(out, ((87 + v) as u8) as char);
    }
}

/// Appends a string as a JSON string literal.
fn push_json_string(out: &mut String, s: &str)
    ensures
        final(out)@ == old(out)@ + json_string(s@),
{
    push_char(out, '"');
    let n: usize = s.unicode_len();
    let mut i: usize = 0;
    while i < n
        invariant
            n == s@.len(),
            0 <= i <= n,
            out@ == old(out)@ + seq!['"'] + esc_str(s@.subrange(0, i as int)),
        decreases n - i,
    {
        let ghost pre = out@;
        let c = s.get_char(i);
        if c == '"' {
            push_char(out, '\\');
            push_char(out, '"');
        } else if c == '\\' {
            push_char(out, '\\');
            push_char(out, '\\');
        } else if c == '\n' {
            push_char(out, '\\');
            push_char(out, 'n');
        } else if c == '\r' {
            push_char(out, '\\');
            push_char(out, 'r');
        } else if c == '\t' {
            push_char(out, '\\');
            push_char(out, 't');
        } else if (c as u32) == 8 {
            push_char(out, '\\');
            push_char(out, 'b');
        } else if (c as u32) == 12 {
            push_char(out, '\\');
            push_char(out, 'f');
        } else if (c as u32) < 32 {
            push_char(out, '\\');
            push_char(out, 'u');
            push_char(out, '0');
            push_char(out, '0');
            push_hex(out, (c as u32) / 16);
            push_hex(out, (c as u32) % 16);
        } else {
            push_char(out, c);
        }
        proof {
            assert(s@.subrange(0, i + 1 as int).drop_last() =~= s@.subrange(0, i as int));
            assert(s@.subrange(0, i + 1 as int).last() == s@[i as int]);
            assert(out@ =~= pre + esc_char(s@[i as int]));
            assert(pre + esc_char(s@[i as int]) =~= old(out)@ + seq!['"'] + esc_str(
                s@.subrange(0, i + 1 as int),
            ));
        }
        i = i + 1;
    }
    proof {
        assert(s@.subrange(0, n as int) =~= s@);
    }
    push_char(out, '"');
    proof {
        assert(final(out)@ =~= old(out)@ + json_string(s@));
    }
}

fn push_record_json(out: &mut String, r: &Record)
    ensures
        final(out)@ == old(out)@ + record_json(*r),
{
    push_str(out, "{\"amount\":");
    push_cents_json(out, r.amount);
    push_str(out, ",\"category\":");
    push_digits(out, r.category as u128);
    push_str(out, ",\"date\":");
    push_json_string(out, r.date.as_str());
    push_str(out, ",\"description\":");
    push_json_string(out, r.description.as_str());
    push_str(out, ",\"id\":");
    push_digits(out, r.id as u128);
    push_str(out, ",\"subcategory\":");
    push_digits(out, r.subcategory as u128);
    push_str(out, "}");
    proof {
        assert(final(out)@ =~= old(out)@ + record_json(*r));
    }
}

impl TrackerData {
    /// Renders the ledger as its at-rest JSON document.
    #[verifier::rlimit(60)]
    pub fn render_tracker(&self) -> (r: String)
        ensures
            r@ == render_tracker_spec(*self),
    {
        let mut out = String::new();
        push_str(&mut out, "{\"categories\":{\"expenses\":2,\"income\":1},\"created_at\":");
        push_json_string(&mut out, self.created_at.as_str());
        push_str(&mut out, ",\"currency\":");
        let code = self.currency.code();
        push_json_string(&mut out, code.as_str());
        push_str(&mut out, ",\"last_modified\":");
        push_json_string(&mut out, self.last_modified.as_str());
        push_str(&mut out, ",\"next_record_id\":");
        push_digits(&mut out, self.next_record_id as u128);
        push_str(&mut out, ",\"next_subcategory_id\":");
        push_digits(&mut out, self.next_subcategory_id as u128);
        push_str(&mut out, ",\"opening_balance\":");
        push_cents_json(&mut out, self.opening_balance);
        push_str(&mut out, ",\"records\":[");
        let ghost head = out@;
        let n = self.records.len();
        let mut i: usize = 0;
        while i < n
            invariant
                n == self.recs().len(),
                0 <= i <= n,
                out@ == head + records_json(self.recs().take(i as int)),
            decreases n - i,
        {
            proof {
                assert(self.recs().take(i + 1 as int).drop_last() =~= self.recs().take(i as int));
                assert(self.recs().take(i + 1 as int).last() == self.recs()[i as int]);
                assert(self.recs().take(i + 1 as int)[0] == self.recs()[0]);
            }
            let ghost pre = out@;
            if i > 0 {
                push_char(&mut out, ',');
            }
            push_record_json(&mut out, &self.records[i]);
            proof {
                if i == 0 {
                    assert(out@ =~= head + records_json(self.recs().take(1)));
                } else {
                    assert(out@ =~= head + records_json(self.recs().take(i + 1 as int)));
                }
            }
            i = i + 1;
        }
        proof {
            assert(self.recs().take(n as int) =~= self.recs());
        }
        push_str(&mut out, "],\"subcategories_by_id\":{");
        let ghost head2 = out@;
        let m = self.subcategories.len();
        let mut i: usize = 0;
        while i < m
            invariant
                m == self.subs().len(),
                0 <= i <= m,
                out@ == head2 + by_id_json(self.subs().take(i as int)),
            decreases m - i,
        {
            proof {
                assert(self.subs().take(i + 1 as int).drop_last() =~= self.subs().take(i as int));
                assert(self.subs().take(i + 1 as int).last() == self.subs()[i as int]);
                assert(self.subs().take(i + 1 as int)[0] == self.subs()[0]);
            }
            let ghost pre = out@;
            if i > 0 {
                push_char(&mut out, ',');
            }
            let sub = &self.subcategories[i];
            push_char(&mut out, '"');
            push_digits(&mut out, sub.id as u128);
            push_str(&mut out, "\":");
            push_json_string(&mut out, sub.name.as_str());
            proof {
                if i == 0 {
                    assert(out@ =~= head2 + by_id_json(self.subs().take(1)));
                } else {
                    assert(out@ =~= pre + seq![','] + by_id_entry(self.subs()[i as int]));
                    assert(out@ =~= head2 + by_id_json(self.subs().take(i + 1 as int)));
                }
            }
            i = i + 1;
        }
        proof {
            assert(self.subs().take(m as int) =~= self.subs());
        }
        push_str(&mut out, "},\"subcategories_by_name\":{");
        let ghost head3 = out@;
        let mut i: usize = 0;
        while i < m
            invariant
                m == self.subs().len(),
                0 <= i <= m,
                out@ == head3 + by_name_json(self.subs().take(i as int)),
            decreases m - i,
        {
            proof {
                assert(self.subs().take(i + 1 as int).drop_last() =~= self.subs().take(i as int));
                assert(self.subs().take(i + 1 as int).last() == self.subs()[i as int]);
                assert(self.subs().take(i + 1 as int)[0] == self.subs()[0]);
            }
            let ghost pre = out@;
            if i > 0 {
                push_char(&mut out, ',');
            }
            let sub = &self.subcategories[i];
            let low = to_lowercase(sub.name.as_str());
            push_json_string(&mut out, low.as_str());
            push_char(&mut out, ':');
            push_digits(&mut out, sub.id as u128);
            proof {
                if i == 0 {
                    assert(out@ =~= head3 + by_name_json(self.subs().take(1)));
                } else {
                    assert(out@ =~= pre + seq![','] + by_name_entry(self.subs()[i as int]));
                    assert(out@ =~= head3 + by_name_json(self.subs().take(i + 1 as int)));
                }
            }
            i = i + 1;
        }
        proof {
            assert(self.subs().take(m as int) =~= self.subs());
        }
        push_str(&mut out, "},\"version\":");
        push_digits(&mut out, self.version as u128);
        push_str(&mut out, "}");
        proof {
            assert(out@ =~= render_tracker_spec(*self));
        }
        out
    }
}

// ----- the grammar, as spec functions over the character sequence -----
// Each returns the parsed value and the position after it, or None when
// the input does not match.

pub open spec fn sp_lit(s: Seq<char>, i: int, lit: Seq<char>) -> Option<int> {
    if 0 <= i && i + lit.len() <= s.len() && s.subrange(i, i + lit.len() as int) == lit {
        Some(i + lit.len() as int)
    } else {
        None
    }
}

/// The end of the run of digits starting at `i`.
pub open spec fn sp_digits_end(s: Seq<char>, i: int) -> int
    decreases s.len() - i,
{
    if 0 <= i < s.len() && is_digit_char(s[i]) {
        sp_digits_end(s, i + 1)
    } else {
        i
    }
}

/// A non-negative integer of at most `bound`.
pub open spec fn sp_nat(s: Seq<char>, i: int, bound: int) -> Option<(int, int)> {
    let j = sp_digits_end(s, i);
    if j == i {
        None
    } else {
        let v = crate::date::digits_val(s.subrange(i, j));
        if v <= bound {
            Some((v, j))
        } else {
            None
        }
    }
}

/// The fractional part of an amount: `(cents 0..=99, end)`, or -1 cents
/// when it is malformed. No dot means no fraction.
pub open spec fn sp_frac(s: Seq<char>, j: int) -> (int, int) {
    if 0 <= j < s.len() && s[j] == '.' {
        let k = sp_digits_end(s, j + 1);
        if k == j + 2 {
            (crate::date::digits_val(s.subrange(j + 1, k)) * 10, k)
        } else if k == j + 3 {
            (crate::date::digits_val(s.subrange(j + 1, k)), k)
        } else {
            (-1, k)
        }
    } else {
        (0, j)
    }
}

/// A signed amount with at most two decimals, as cents, within the i64
/// range.
pub open spec fn sp_cents(s: Seq<char>, i: int) -> Option<(int, int)> {
    let neg = 0 <= i < s.len() && s[i] == '-';
    let i1: int = if neg {
        i + 1
    } else {
        i
    };
    let j = sp_digits_end(s, i1);
    if j == i1 {
        None
    } else {
        let units = crate::date::digits_val(s.subrange(i1, j));
        let frac = sp_frac(s, j).0;
        let end = sp_frac(s, j).1;
        if frac < 0 {
            None
        } else {
            let v: int = if neg {
                -(units * 100 + frac)
            } else {
                units * 100 + frac
            };
            if i64::MIN <= v <= i64::MAX {
                Some((v, end))
            } else {
                None
            }
        }
    }
}

pub open spec fn is_hex_char(c: char) -> bool {
    is_digit_char(c) || ('a' <= c && c <= 'f')
}

pub open spec fn hex_val(c: char) -> int {
    if is_digit_char(c) {
        c as int - 48
    } else {
        c as int - 87
    }
}

/// The character a single-letter escape stands for.
pub open spec fn unesc(e: char) -> Option<char> {
    if e == '"' {
        Some('"')
    } else if e == '\\' {
        Some('\\')
    } else if e == '/' {
        Some('/')
    } else if e == 'n' {
        Some('\n')
    } else if e == 'r' {
        Some('\r')
    } else if e == 't' {
        Some('\t')
    } else if e == 'b' {
        Some('\u{8}')
    } else if e == 'f' {
        Some('\u{c}')
    } else {
        None
    }
}

pub open spec fn sp_cons(c: char, rest: Option<(Seq<char>, int)>) -> Option<(Seq<char>, int)> {
    match rest {
        Some((t, j)) => Some((seq![c] + t, j)),
        None => None,
    }
}

/// A string body up to and including the closing quote; `\u` escapes are
/// accepted in the `\u00XX` form the renderer emits.
pub open spec fn sp_str_body(s: Seq<char>, i: int) -> Option<(Seq<char>, int)>
    decreases s.len() - i,
{
    if !(0 <= i < s.len()) {
        None
    } else if s[i] == '"' {
        Some((Seq::<char>::empty(), i + 1))
    } else if s[i] == '\\' {
        if i + 1 >= s.len() {
            None
        } else if s[i + 1] == 'u' {
            if i + 5 < s.len() && s[i + 2] == '0' && s[i + 3] == '0' && is_hex_char(s[i + 4])
                && is_hex_char(s[i + 5]) {
                let c = ((hex_val(s[i + 4]) * 16 + hex_val(s[i + 5])) as u8) as char;
                sp_cons(c, sp_str_body(s, i + 6))
            } else {
                None
            }
        } else {
            match unesc(s[i + 1]) {
                Some(c) => sp_cons(c, sp_str_body(s, i + 2)),
                None => None,
            }
        }
    } else {
        sp_cons(s[i], sp_str_body(s, i + 1))
    }
}

pub open spec fn sp_string(s: Seq<char>, i: int) -> Option<(Seq<char>, int)> {
    if 0 <= i < s.len() && s[i] == '"' {
        sp_str_body(s, i + 1)
    } else {
        None
    }
}

/// The plain values of one parsed record object.
pub ghost struct RecParts {
    pub amount: int,
    pub category: int,
    pub date: Seq<char>,
    pub description: Seq<char>,
    pub id: int,
    pub subcategory: int,
}

pub open spec fn sp_record(s: Seq<char>, i: int) -> Option<(RecParts, int)> {
    match sp_lit(s, i, "{\"amount\":"@) {
        None => None,
        Some(i1) => match sp_cents(s, i1) {
            None => None,
            Some((amount, i2)) => match sp_lit(s, i2, ",\"category\":"@) {
                None => None,
                Some(i3) => match sp_nat(s, i3, usize::MAX as int) {
                    None => None,
                    Some((category, i4)) => match sp_lit(s, i4, ",\"date\":"@) {
                        None => None,
                        Some(i5) => match sp_string(s, i5) {
                            None => None,
                            Some((date, i6)) => match sp_lit(s, i6, ",\"description\":"@) {
                                None => None,
                                Some(i7) => match sp_string(s, i7) {
                                    None => None,
                                    Some((description, i8)) => match sp_lit(s, i8, ",\"id\":"@) {
                                        None => None,
                                        Some(i9) => match sp_nat(s, i9, usize::MAX as int) {
                                            None => None,
                                            Some((id, i10)) => match sp_lit(
                                                s,
                                                i10,
                                                ",\"subcategory\":"@,
                                            ) {
                                                None => None,
                                                Some(i11) => match sp_nat(
                                                    s,
                                                    i11,
                                                    usize::MAX as int,
                                                ) {
                                                    None => None,
                                                    Some((subcategory, i12)) => match sp_lit(
                                                        s,
                                                        i12,
                                                        "}"@,
                                                    ) {
                                                        None => None,
                                                        Some(i13) => Some(
                                                            (
                                                                RecParts {
                                                                    amount,
                                                                    category,
                                                                    date,
                                                                    description,
                                                                    id,
                                                                    subcategory,
                                                                },
                                                                i13,
                                                            ),
                                                        ),
                                                    },
                                                },
                                            },
                                        },
                                    },
                                },
                            },
                        },
                    },
                },
            },
        },
    }
}

/// The record list after the opening bracket: empty, or records separated
/// by commas, up to and including the closing bracket.
pub open spec fn sp_records(s: Seq<char>, i: int) -> Option<(Seq<RecParts>, int)> {
    if sp_lit(s, i, "]"@) is Some {
        Some((Seq::<RecParts>::empty(), sp_lit(s, i, "]"@)->Some_0))
    } else {
        match sp_record(s, i) {
            None => None,
            Some((t, j)) => match sp_records_rest(s, j) {
                None => None,
                Some((ts, k)) => Some((seq![t] + ts, k)),
            },
        }
    }
}

pub open spec fn sp_records_rest(s: Seq<char>, i: int) -> Option<(Seq<RecParts>, int)>
    decreases s.len() - i,
{
    if !(0 <= i < s.len()) {
        None
    } else if s[i] == ']' {
        Some((Seq::<RecParts>::empty(), i + 1))
    } else if s[i] == ',' {
        match sp_record(s, i + 1) {
            None => None,
            Some((t, j)) => if j <= i || j > s.len() {
                None
            } else {
                match sp_records_rest(s, j) {
                    None => None,
                    Some((ts, k)) => Some((seq![t] + ts, k)),
                }
            },
        }
    } else {
        None
    }
}

/// One `"id":"name"` entry of the id map.
pub open spec fn sp_by_id_entry(s: Seq<char>, i: int) -> Option<((int, Seq<char>), int)> {
    if !(0 <= i < s.len() && s[i] == '"') {
        None
    } else {
        match sp_nat(s, i + 1, usize::MAX as int) {
            None => None,
            Some((id, j)) => match sp_lit(s, j, "\":"@) {
                None => None,
                Some(j2) => match sp_string(s, j2) {
                    None => None,
                    Some((name, j3)) => Some(((id, name), j3)),
                },
            },
        }
    }
}

pub open spec fn sp_by_id(s: Seq<char>, i: int) -> Option<(Seq<(int, Seq<char>)>, int)> {
    if sp_lit(s, i, "}"@) is Some {
        Some((Seq::<(int, Seq<char>)>::empty(), sp_lit(s, i, "}"@)->Some_0))
    } else {
        match sp_by_id_entry(s, i) {
            None => None,
            Some((t, j)) => match sp_by_id_rest(s, j) {
                None => None,
                Some((ts, k)) => Some((seq![t] + ts, k)),
            },
        }
    }
}

pub open spec fn sp_by_id_rest(s: Seq<char>, i: int) -> Option<(Seq<(int, Seq<char>)>, int)>
    decreases s.len() - i,
{
    if !(0 <= i < s.len()) {
        None
    } else if s[i] == '}' {
        Some((Seq::<(int, Seq<char>)>::empty(), i + 1))
    } else if s[i] == ',' {
        match sp_by_id_entry(s, i + 1) {
            None => None,
            Some((t, j)) => if j <= i || j > s.len() {
                None
            } else {
                match sp_by_id_rest(s, j) {
                    None => None,
                    Some((ts, k)) => Some((seq![t] + ts, k)),
                }
            },
        }
    } else {
        None
    }
}

/// One `"name":id` entry of the name map.
pub open spec fn sp_by_name_entry(s: Seq<char>, i: int) -> Option<((Seq<char>, int), int)> {
    match sp_string(s, i) {
        None => None,
        Some((name, j)) => match sp_lit(s, j, ":"@) {
            None => None,
            Some(j2) => match sp_nat(s, j2, usize::MAX as int) {
                None => None,
                Some((id, j3)) => Some(((name, id), j3)),
            },
        },
    }
}

pub open spec fn sp_by_name(s: Seq<char>, i: int) -> Option<(Seq<(Seq<char>, int)>, int)> {
    if sp_lit(s, i, "}"@) is Some {
        Some((Seq::<(Seq<char>, int)>::empty(), sp_lit(s, i, "}"@)->Some_0))
    } else {
        match sp_by_name_entry(s, i) {
            None => None,
            Some((t, j)) => match sp_by_name_rest(s, j) {
                None => None,
                Some((ts, k)) => Some((seq![t] + ts, k)),
            },
        }
    }
}

pub open spec fn sp_by_name_rest(s: Seq<char>, i: int) -> Option<(Seq<(Seq<char>, int)>, int)>
    decreases s.len() - i,
{
    if !(0 <= i < s.len()) {
        None
    } else if s[i] == '}' {
        Some((Seq::<(Seq<char>, int)>::empty(), i + 1))
    } else if s[i] == ',' {
        match sp_by_name_entry(s, i + 1) {
            None => None,
            Some((t, j)) => if j <= i || j > s.len() {
                None
            } else {
                match sp_by_name_rest(s, j) {
                    None => None,
                    Some((ts, k)) => Some((seq![t] + ts, k)),
                }
            },
        }
    } else {
        None
    }
}

/// The plain values of a whole parsed document.
pub ghost struct DocParts {
    pub created_at: Seq<char>,
    pub currency: Seq<char>,
    pub last_modified: Seq<char>,
    pub next_record_id: int,
    pub next_subcategory_id: int,
    pub opening_balance: int,
    pub records: Seq<RecParts>,
    pub by_id: Seq<(int, Seq<char>)>,
    pub by_name: Seq<(Seq<char>, int)>,
    pub version: int,
}

/// The whole document, which must be consumed to the end.
pub open spec fn sp_tracker(s: Seq<char>) -> Option<DocParts> {
    match sp_lit(s, 0, "{\"categories\":{\"expenses\":2,\"income\":1},\"created_at\":"@) {
        None => None,
        Some(i1) => match sp_string(s, i1) {
            None => None,
            Some((created_at, i2)) => match sp_lit(s, i2, ",\"currency\":"@) {
                None => None,
                Some(i3) => match sp_string(s, i3) {
                    None => None,
                    Some((currency, i4)) => match sp_lit(s, i4, ",\"last_modified\":"@) {
                        None => None,
                        Some(i5) => match sp_string(s, i5) {
                            None => None,
                            Some((last_modified, i6)) => match sp_lit(
                                s,
                                i6,
                                ",\"next_record_id\":"@,
                            ) {
                                None => None,
                                Some(i7) => match sp_nat(s, i7, usize::MAX as int) {
                                    None => None,
                                    Some((next_record_id, i8)) => match sp_lit(
                                        s,
                                        i8,
                                        ",\"next_subcategory_id\":"@,
                                    ) {
                                        None => None,
                                        Some(i9) => match sp_nat(s, i9, u32::MAX as int) {
                                            None => None,
                                            Some((next_subcategory_id, i10)) => match sp_lit(
                                                s,
                                                i10,
                                                ",\"opening_balance\":"@,
                                            ) {
                                                None => None,
                                                Some(i11) => match sp_cents(s, i11) {
                                                    None => None,
                                                    Some((opening_balance, i12)) => match sp_lit(
                                                        s,
                                                        i12,
                                                        ",\"records\":["@,
                                                    ) {
                                                        None => None,
                                                        Some(i13) => match sp_records(s, i13) {
                                                            None => None,
                                                            Some((records, i14)) => sp_tracker_tail(
                                                                s,
                                                                i14,
                                                                created_at,
                                                                currency,
                                                                last_modified,
                                                                next_record_id,
                                                                next_subcategory_id,
                                                                opening_balance,
                                                                records,
                                                            ),
                                                        },
                                                    },
                                                },
                                            },
                                        },
                                    },
                                },
                            },
                        },
                    },
                },
            },
        },
    }
}

pub open spec fn sp_tracker_tail(
    s: Seq<char>,
    i: int,
    created_at: Seq<char>,
    currency: Seq<char>,
    last_modified: Seq<char>,
    next_record_id: int,
    next_subcategory_id: int,
    opening_balance: int,
    records: Seq<RecParts>,
) -> Option<DocParts> {
    match sp_lit(s, i, ",\"subcategories_by_id\":{"@) {
        None => None,
        Some(i1) => match sp_by_id(s, i1) {
            None => None,
            Some((by_id, i2)) => match sp_lit(s, i2, ",\"subcategories_by_name\":{"@) {
                None => None,
                Some(i3) => match sp_by_name(s, i3) {
                    None => None,
                    Some((by_name, i4)) => match sp_lit(s, i4, ",\"version\":"@) {
                        None => None,
                        Some(i5) => match sp_nat(s, i5, u32::MAX as int) {
                            None => None,
                            Some((version, i6)) => match sp_lit(s, i6, "}"@) {
                                None => None,
                                Some(i7) => if i7 == s.len() {
                                    Some(
                                        DocParts {
                                            created_at,
                                            currency,
                                            last_modified,
                                            next_record_id,
                                            next_subcategory_id,
                                            opening_balance,
                                            records,
                                            by_id,
                                            by_name,
                                            version,
                                        },
                                    )
                                } else {
                                    None
                                },
                            },
                        },
                    },
                },
            },
        },
    }
}

// ----- the executable parser, pinned to the grammar above -----

/// The digit run: everything in it is a digit and it ends the run.
proof fn lemma_digits_end(s: Seq<char>, i: int)
    requires
        0 <= i <= s.len(),
    ensures
        i <= sp_digits_end(s, i) <= s.len(),
        forall|m: int| i <= m < sp_digits_end(s, i) ==> is_digit_char(#[trigger] s[m]),
        sp_digits_end(s, i) < s.len() ==> !is_digit_char(s[sp_digits_end(s, i)]),
    decreases s.len() - i,
{
    if 0 <= i < s.len() && is_digit_char(s[i]) {
        lemma_digits_end(s, i + 1);
    }
}

fn e_digits_end(s: &str, i: usize) -> (r: usize)
    requires
        i <= s@.len(),
    ensures
        r == sp_digits_end(s@, i as int),
        i <= r <= s@.len(),
{
    let n = s.unicode_len();
    let mut j = i;
    let mut done = false;
    while j < n && !done
        invariant
            n == s@.len(),
            i <= j <= n,
            sp_digits_end(s@, i as int) == sp_digits_end(s@, j as int),
            done ==> (j == n || !is_digit_char(s@[j as int])),
        decreases n - j + (if done { 0int } else { 1int }),
    {
        let c = s.get_char(j);
        if '0' <= c && c <= '9' {
            j = j + 1;
        } else {
            done = true;
        }
    }
    j
}

fn e_lit(s: &str, i: usize, lit: &str) -> (r: Option<usize>)
    requires
        i <= s@.len(),
    ensures
        match r {
            Some(j) => sp_lit(s@, i as int, lit@) == Some(j as int) && i <= j <= s@.len(),
            None => sp_lit(s@, i as int, lit@) is None,
        },
{
    let n = s.unicode_len();
    let ll = lit.unicode_len();
    if ll > n - i {
        return None;
    }
    let mut k: usize = 0;
    while k < ll
        invariant
            n == s@.len(),
            ll == lit@.len(),
            i + ll <= n,
            0 <= k <= ll,
            forall|m: int| 0 <= m < k ==> s@[i + m] == lit@[m],
        decreases ll - k,
    {
        if s.get_char(i + k) != lit.get_char(k) {
            proof {
                assert(s@.subrange(i as int, i + ll as int)[k as int] == s@[i + k]);
            }
            return None;
        }
        k = k + 1;
    }
    proof {
        assert(s@.subrange(i as int, i + ll as int) =~= lit@);
    }
    Some(i + ll)
}

/// Parses a digit run into its value, clamped detection of overflow: the
/// result mirrors `sp_nat` exactly.
fn e_nat(s: &str, i: usize, bound: u64) -> (r: Option<(u64, usize)>)
    requires
        i <= s@.len(),
    ensures
        match r {
            Some((v, j)) => sp_nat(s@, i as int, bound as int) == Some((v as int, j as int))
                && i < j <= s@.len(),
            None => sp_nat(s@, i as int, bound as int) is None,
        },
{
    let j = e_digits_end(s, i);
    proof {
        lemma_digits_end(s@, i as int);
    }
    if j == i {
        return None;
    }
    let mut acc: u128 = 0;
    let mut k = i;
    let lim: u128 = bound as u128;
    while k < j
        invariant
            i <= k <= j <= s@.len(),
            j == sp_digits_end(s@, i as int),
            forall|m: int| i <= m < j ==> is_digit_char(#[trigger] s@[m]),
            lim == bound as u128,
            acc <= lim + 1,
            (crate::date::digits_val(s@.subrange(i as int, k as int)) <= lim as int) ==> acc
                == crate::date::digits_val(s@.subrange(i as int, k as int)),
            (crate::date::digits_val(s@.subrange(i as int, k as int)) > lim as int) ==> acc
                == lim + 1,
        decreases j - k,
    {
        let c = s.get_char(k);
        let d = (c as u32) - 48;
        proof {
            let a = s@.subrange(i as int, k as int);
            let b = s@.subrange(i as int, k + 1 as int);
            assert(b.drop_last() =~= a);
            assert(b.last() == s@[k as int]);
            assert(forall|m: int| 0 <= m < a.len() ==> is_digit_char(#[trigger] a[m]));
            crate::date::lemma_digits_val_bound(a);
        }
        if acc > lim {
            // stays saturated: appending digits cannot shrink the value
        } else {
            let next = acc * 10 + (d as u128);
            if next > lim {
                acc = lim + 1;
            } else {
                acc = next;
            }
        }
        k = k + 1;
    }
    proof {
        assert(s@.subrange(i as int, j as int) == s@.subrange(i as int, k as int));
    }
    if acc > lim {
        return None;
    }
    Some((acc as u64, j))
}

fn hex_val_exec(c: char) -> (r: u32)
    requires
        is_hex_char(c),
    ensures
        r == hex_val(c),
        r < 16,
{
    if '0' <= c && c <= '9' {
        (c as u32) - 48
    } else {
        (c as u32) - 87
    }
}

fn is_hex_exec(c: char) -> (r: bool)
    ensures
        r == is_hex_char(c),
{
    ('0' <= c && c <= '9') || ('a' <= c && c <= 'f')
}

/// Parses an amount with up to two decimals into cents.
fn e_cents(s: &str, i: usize) -> (r: Option<(i64, usize)>)
    requires
        i <= s@.len(),
    ensures
        match r {
            Some((v, j)) => sp_cents(s@, i as int) == Some((v as int, j as int)) && i < j
                <= s@.len(),
            None => sp_cents(s@, i as int) is None,
        },
{
    let n = s.unicode_len();
    let neg = i < n && s.get_char(i) == '-';
    let i1 = if neg {
        i + 1
    } else {
        i
    };
    let j = e_digits_end(s, i1);
    proof {
        lemma_digits_end(s@, i1 as int);
    }
    if j == i1 {
        return None;
    }
    // units, saturating above what any in-range amount can hold
    let units128: Option<(u64, usize)> = e_nat(s, i1, 200_000_000_000_000_000u64);
    let ghost units_spec = crate::date::digits_val(s@.subrange(i1 as int, j as int));
    let mut out_of_range = false;
    let mut units: u128 = 0;
    match units128 {
        Some((u, _)) => {
            units = u as u128;
        },
        None => {
            out_of_range = true;
        },
    }
    proof {
        if !out_of_range {
            assert(units == units_spec);
        } else {
            assert(units_spec > 200_000_000_000_000_000);
        }
    }
    // fraction
    let mut frac: u128 = 0;
    let mut end = j;
    let mut bad_frac = false;
    if j < n && s.get_char(j) == '.' {
        let k = e_digits_end(s, j + 1);
        proof {
            lemma_digits_end(s@, j + 1 as int);
        }
        let fl = k - (j + 1);
        if fl == 1 {
            let d1 = (s.get_char(j + 1) as u32) - 48;
            frac = (d1 as u128) * 10;
            end = k;
            proof {
                assert(s@.subrange(j + 1 as int, k as int) =~= seq![s@[j + 1 as int]]);
                crate::date::lemma_digits_val_one(s@[j + 1 as int]);
            }
        } else if fl == 2 {
            let d1 = (s.get_char(j + 1) as u32) - 48;
            let d2 = (s.get_char(j + 2) as u32) - 48;
            frac = (d1 as u128) * 10 + (d2 as u128);
            end = k;
            proof {
                assert(s@.subrange(j + 1 as int, k as int) =~= seq![
                    s@[j + 1 as int],
                    s@[j + 2 as int],
                ]);
                crate::date::lemma_digits_val_two(s@[j + 1 as int], s@[j + 2 as int]);
            }
        } else {
            bad_frac = true;
        }
    }
    if bad_frac {
        return None;
    }
    proof {
        assert(frac == sp_frac(s@, j as int).0);
        assert(end == sp_frac(s@, j as int).1);
        assert(frac <= 99);
    }
    if out_of_range {
        proof {
            assert(units_spec * 100 + frac >= units_spec * 100);
            assert(units_spec * 100 > 20_000_000_000_000_000_000) by (nonlinear_arith)
                requires
                    units_spec > 200_000_000_000_000_000,
            {}
        }
        return None;
    }
    let mag: u128 = units * 100 + frac;
    if neg {
        if mag > 9_223_372_036_854_775_808u128 {
            return None;
        }
        let v: i64 = if mag == 9_223_372_036_854_775_808u128 {
            i64::MIN
        } else {
            -(mag as i64)
        };
        Some((v, end))
    } else {
        if mag > 9_223_372_036_854_775_807u128 {
            return None;
        }
        Some((mag as i64, end))
    }
}

/// Parses a string literal, undoing the document escapes.
fn e_string(s: &str, i: usize) -> (r: Option<(String, usize)>)
    requires
        i <= s@.len(),
    ensures
        match r {
            Some((t, j)) => sp_string(s@, i as int) == Some((t@, j as int)) && i < j
                <= s@.len(),
            None => sp_string(s@, i as int) is None,
        },
{
    let n = s.unicode_len();
    if i >= n || s.get_char(i) != '"' {
        return None;
    }
    let mut out = String::new();
    let mut c = i + 1;
    while c <= n
        invariant
            n == s@.len(),
            i < n,
            s@[i as int] == '"',
            i + 1 <= c <= n + 1,
            sp_str_body(s@, i + 1 as int) == (match sp_str_body(s@, c as int) {
                Some((t, j)) => Some((out@ + t, j)),
                None => None,
            }),
        decreases n + 1 - c,
    {
        if c >= n {
            return None;
        }
        let ch = s.get_char(c);
        if ch == '"' {
            proof {
                assert(sp_str_body(s@, c as int) == Some((Seq::<char>::empty(), c + 1 as int)));
                assert(out@ + Seq::<char>::empty() =~= out@);
                assert(sp_str_body(s@, i + 1 as int) == Some((out@, c + 1 as int)));
                assert(sp_string(s@, i as int) == sp_str_body(s@, i + 1 as int));
            }
            return Some((out, c + 1));
        }
        let ghost pre = out@;
        if ch == '\\' {
            if c + 1 >= n {
                return None;
            }
            let e = s.get_char(c + 1);
            if e == 'u' {
                if n - c > 5 && s.get_char(c + 2) == '0' && s.get_char(c + 3) == '0'
                    && is_hex_exec(s.get_char(c + 4)) && is_hex_exec(s.get_char(c + 5)) {
                    let hv = hex_val_exec(s.get_char(c + 4)) * 16 + hex_val_exec(
                        s.get_char(c + 5),
                    );
                    let ch2 = (hv as u8) as char;
                    crate::text::push_char(&mut out, ch2);
                    proof {
                        assert(forall|t: Seq<char>|
                            pre + (seq![ch2] + t) =~= (#[trigger] (pre.push(ch2) + t)));
                    }
                    c = c + 6;
                } else {
                    return None;
                }
            } else {
                let ch2opt: Option<char> = if e == '"' {
                    Some('"')
                } else if e == '\\' {
                    Some('\\')
                } else if e == '/' {
                    Some('/')
                } else if e == 'n' {
                    Some('\n')
                } else if e == 'r' {
                    Some('\r')
                } else if e == 't' {
                    Some('\t')
                } else if (e as u32) == 98 {
                    // 'b'
                    Some('\u{8}')
                } else if (e as u32) == 102 {
                    // 'f'
                    Some('\u{c}')
                } else {
                    None
                };
                proof {
                    assert(ch2opt == unesc(s@[c + 1 as int]));
                }
                match ch2opt {
                    Some(ch2) => {
                        crate::text::push_char(&mut out, ch2);
                        proof {
                            assert(forall|t: Seq<char>|
                                pre + (seq![ch2] + t) =~= (#[trigger] (pre.push(ch2) + t)));
                        }
                        c = c + 2;
                    },
                    None => {
                        return None;
                    },
                }
            }
        } else {
            crate::text::push_char(&mut out, ch);
            proof {
                assert(forall|t: Seq<char>|
                    pre + (seq![ch] + t) =~= (#[trigger] (pre.push(ch) + t)));
            }
            c = c + 1;
        }
    }
    None
}

/// The plain values of a record, as the grammar sees them.
pub open spec fn rec_parts(r: Record) -> RecParts {
    RecParts {
        amount: r.amount as int,
        category: r.category as int,
        date: r.date@,
        description: r.description@,
        id: r.id as int,
        subcategory: r.subcategory as int,
    }
}

pub open spec fn recs_parts_seq(v: Seq<Record>) -> Seq<RecParts> {
    v.map_values(|r: Record| rec_parts(r))
}

pub open spec fn subs_parts_seq(v: Seq<Subcategory>) -> Seq<(int, Seq<char>)> {
    v.map_values(|sub: Subcategory| (sub.id as int, sub.name@))
}

pub open spec fn names_parts_seq(v: Seq<(String, usize)>) -> Seq<(Seq<char>, int)> {
    v.map_values(|e: (String, usize)| (e.0@, e.1 as int))
}

fn e_record(s: &str, i: usize) -> (r: Option<(Record, usize)>)
    requires
        i <= s@.len(),
    ensures
        match r {
            Some((rec, j)) => sp_record(s@, i as int) == Some((rec_parts(rec), j as int)) && i
                < j <= s@.len(),
            None => sp_record(s@, i as int) is None,
        },
{
    let i1 = match e_lit(s, i, "{\"amount\":") {
        Some(j) => j,
        None => {
            return None;
        },
    };
    let (amount, i2) = match e_cents(s, i1) {
        Some(p) => p,
        None => {
            return None;
        },
    };
    let i3 = match e_lit(s, i2, ",\"category\":") {
        Some(j) => j,
        None => {
            return None;
        },
    };
    let (category, i4) = match e_nat(s, i3, usize::MAX as u64) {
        Some(p) => p,
        None => {
            return None;
        },
    };
    let i5 = match e_lit(s, i4, ",\"date\":") {
        Some(j) => j,
        None => {
            return None;
        },
    };
    let (date, i6) = match e_string(s, i5) {
        Some(p) => p,
        None => {
            return None;
        },
    };
    let i7 = match e_lit(s, i6, ",\"description\":") {
        Some(j) => j,
        None => {
            return None;
        },
    };
    let (description, i8) = match e_string(s, i7) {
        Some(p) => p,
        None => {
            return None;
        },
    };
    let i9 = match e_lit(s, i8, ",\"id\":") {
        Some(j) => j,
        None => {
            return None;
        },
    };
    let (id, i10) = match e_nat(s, i9, usize::MAX as u64) {
        Some(p) => p,
        None => {
            return None;
        },
    };
    let i11 = match e_lit(s, i10, ",\"subcategory\":") {
        Some(j) => j,
        None => {
            return None;
        },
    };
    let (subcategory, i12) = match e_nat(s, i11, usize::MAX as u64) {
        Some(p) => p,
        None => {
            return None;
        },
    };
    let i13 = match e_lit(s, i12, "}") {
        Some(j) => j,
        None => {
            return None;
        },
    };
    let rec = Record {
        id: id as usize,
        category: category as usize,
        subcategory: subcategory as usize,
        description,
        amount,
        date,
    };
    Some((rec, i13))
}

fn e_records(s: &str, i: usize) -> (r: Option<(Vec<Record>, usize)>)
    requires
        i <= s@.len(),
    ensures
        match r {
            Some((v, j)) => sp_records(s@, i as int) == Some((recs_parts_seq(v@), j as int))
                && j <= s@.len(),
            None => sp_records(s@, i as int) is None,
        },
{
    let n = s.unicode_len();
    if let Some(j) = e_lit(s, i, "]") {
        let out: Vec<Record> = Vec::new();
        proof {
            assert(recs_parts_seq(out@) =~= Seq::<RecParts>::empty());
        }
        return Some((out, j));
    }
    let (first, mut cur) = match e_record(s, i) {
        Some(p) => p,
        None => {
            return None;
        },
    };
    let mut out: Vec<Record> = Vec::new();
    out.push(first);
    proof {
        assert(recs_parts_seq(out@) =~= seq![rec_parts(first)]);
    }
    while cur <= n
        invariant
            n == s@.len(),
            cur <= n,
            sp_records(s@, i as int) == (match sp_records_rest(s@, cur as int) {
                Some((ts, k)) => Some((recs_parts_seq(out@) + ts, k)),
                None => None,
            }),
        decreases n - cur,
    {
        if cur >= n {
            return None;
        }
        let ch = s.get_char(cur);
        if ch == ']' {
            proof {
                assert(recs_parts_seq(out@) + Seq::<RecParts>::empty() =~= recs_parts_seq(
                    out@,
                ));
            }
            return Some((out, cur + 1));
        }
        if ch == ',' {
            let (rec, j2) = match e_record(s, cur + 1) {
                Some(p) => p,
                None => {
                    return None;
                },
            };
            let ghost pre = out@;
            out.push(rec);
            proof {
                assert(recs_parts_seq(out@) =~= recs_parts_seq(pre).push(rec_parts(rec)));
                assert(forall|ts: Seq<RecParts>|
                    recs_parts_seq(pre) + (seq![rec_parts(rec)] + ts) =~= (#[trigger] (
                    recs_parts_seq(pre).push(rec_parts(rec)) + ts)));
            }
            cur = j2;
        } else {
            return None;
        }
    }
    None
}

fn e_by_id_entry(s: &str, i: usize) -> (r: Option<(Subcategory, usize)>)
    requires
        i <= s@.len(),
    ensures
        match r {
            Some((sub, j)) => sp_by_id_entry(s@, i as int) == Some(
                ((sub.id as int, sub.name@), j as int),
            ) && i < j <= s@.len(),
            None => sp_by_id_entry(s@, i as int) is None,
        },
{
    let n = s.unicode_len();
    if i >= n || s.get_char(i) != '"' {
        return None;
    }
    let (id, j) = match e_nat(s, i + 1, usize::MAX as u64) {
        Some(p) => p,
        None => {
            return None;
        },
    };
    let j2 = match e_lit(s, j, "\":") {
        Some(p) => p,
        None => {
            return None;
        },
    };
    let (name, j3) = match e_string(s, j2) {
        Some(p) => p,
        None => {
            return None;
        },
    };
    Some((Subcategory { id: id as usize, name }, j3))
}

fn e_by_id(s: &str, i: usize) -> (r: Option<(Vec<Subcategory>, usize)>)
    requires
        i <= s@.len(),
    ensures
        match r {
            Some((v, j)) => sp_by_id(s@, i as int) == Some((subs_parts_seq(v@), j as int)) && j
                <= s@.len(),
            None => sp_by_id(s@, i as int) is None,
        },
{
    let n = s.unicode_len();
    if let Some(j) = e_lit(s, i, "}") {
        let out: Vec<Subcategory> = Vec::new();
        proof {
            assert(subs_parts_seq(out@) =~= Seq::<(int, Seq<char>)>::empty());
        }
        return Some((out, j));
    }
    let (first, mut cur) = match e_by_id_entry(s, i) {
        Some(p) => p,
        None => {
            return None;
        },
    };
    let ghost first_part = (first.id as int, first.name@);
    let mut out: Vec<Subcategory> = Vec::new();
    out.push(first);
    proof {
        assert(subs_parts_seq(out@) =~= seq![first_part]);
    }
    while cur <= n
        invariant
            n == s@.len(),
            cur <= n,
            sp_by_id(s@, i as int) == (match sp_by_id_rest(s@, cur as int) {
                Some((ts, k)) => Some((subs_parts_seq(out@) + ts, k)),
                None => None,
            }),
        decreases n - cur,
    {
        if cur >= n {
            return None;
        }
        let ch = s.get_char(cur);
        if ch == '}' {
            proof {
                assert(subs_parts_seq(out@) + Seq::<(int, Seq<char>)>::empty() =~=
                    subs_parts_seq(out@));
            }
            return Some((out, cur + 1));
        }
        if ch == ',' {
            let (sub, j2) = match e_by_id_entry(s, cur + 1) {
                Some(p) => p,
                None => {
                    return None;
                },
            };
            let ghost part = (sub.id as int, sub.name@);
            let ghost pre = out@;
            out.push(sub);
            proof {
                assert(subs_parts_seq(out@) =~= subs_parts_seq(pre).push(part));
                assert(forall|ts: Seq<(int, Seq<char>)>|
                    subs_parts_seq(pre) + (seq![part] + ts) =~= (#[trigger] (subs_parts_seq(
                        pre,
                    ).push(part) + ts)));
            }
            cur = j2;
        } else {
            return None;
        }
    }
    None
}

fn e_by_name_entry(s: &str, i: usize) -> (r: Option<((String, usize), usize)>)
    requires
        i <= s@.len(),
    ensures
        match r {
            Some((e, j)) => sp_by_name_entry(s@, i as int) == Some(
                ((e.0@, e.1 as int), j as int),
            ) && i < j <= s@.len(),
            None => sp_by_name_entry(s@, i as int) is None,
        },
{
    let (name, j) = match e_string(s, i) {
        Some(p) => p,
        None => {
            return None;
        },
    };
    let j2 = match e_lit(s, j, ":") {
        Some(p) => p,
        None => {
            return None;
        },
    };
    let (id, j3) = match e_nat(s, j2, usize::MAX as u64) {
        Some(p) => p,
        None => {
            return None;
        },
    };
    Some(((name, id as usize), j3))
}

fn e_by_name(s: &str, i: usize) -> (r: Option<(Vec<(String, usize)>, usize)>)
    requires
        i <= s@.len(),
    ensures
        match r {
            Some((v, j)) => sp_by_name(s@, i as int) == Some(
                (names_parts_seq(v@), j as int),
            ) && j <= s@.len(),
            None => sp_by_name(s@, i as int) is None,
        },
{
    let n = s.unicode_len();
    if let Some(j) = e_lit(s, i, "}") {
        let out: Vec<(String, usize)> = Vec::new();
        proof {
            assert(names_parts_seq(out@) =~= Seq::<(Seq<char>, int)>::empty());
        }
        return Some((out, j));
    }
    let (first, mut cur) = match e_by_name_entry(s, i) {
        Some(p) => p,
        None => {
            return None;
        },
    };
    let ghost first_part = (first.0@, first.1 as int);
    let mut out: Vec<(String, usize)> = Vec::new();
    out.push(first);
    proof {
        assert(names_parts_seq(out@) =~= seq![first_part]);
    }
    while cur <= n
        invariant
            n == s@.len(),
            cur <= n,
            sp_by_name(s@, i as int) == (match sp_by_name_rest(s@, cur as int) {
                Some((ts, k)) => Some((names_parts_seq(out@) + ts, k)),
                None => None,
            }),
        decreases n - cur,
    {
        if cur >= n {
            return None;
        }
        let ch = s.get_char(cur);
        if ch == '}' {
            proof {
                assert(names_parts_seq(out@) + Seq::<(Seq<char>, int)>::empty() =~=
                    names_parts_seq(out@));
            }
            return Some((out, cur + 1));
        }
        if ch == ',' {
            let (e, j2) = match e_by_name_entry(s, cur + 1) {
                Some(p) => p,
                None => {
                    return None;
                },
            };
            let ghost part = (e.0@, e.1 as int);
            let ghost pre = out@;
            out.push(e);
            proof {
                assert(names_parts_seq(out@) =~= names_parts_seq(pre).push(part));
                assert(forall|ts: Seq<(Seq<char>, int)>|
                    names_parts_seq(pre) + (seq![part] + ts) =~= (#[trigger] (names_parts_seq(
                        pre,
                    ).push(part) + ts)));
            }
            cur = j2;
        } else {
            return None;
        }
    }
    None
}

/// The name map mirrors the id map entry for entry: same length, the
/// lowercased display name, the same id.
pub open spec fn by_name_aligned(d: DocParts) -> bool {
    &&& d.by_name.len() == d.by_id.len()
    &&& forall|k: int|
        0 <= k < d.by_id.len() ==> (#[trigger] d.by_name[k]).0 == lower_seq(d.by_id[k].1)
            && d.by_name[k].1 == d.by_id[k].0
}

/// The ledger invariant, stated over the raw parsed values.
pub open spec fn doc_wf(d: DocParts) -> bool {
    &&& forall|a: int, b: int|
        0 <= a < b < d.by_id.len() ==> (#[trigger] d.by_id[a]).0 < (#[trigger] d.by_id[b]).0
    &&& forall|a: int, b: int|
        0 <= a < b < d.by_id.len() ==> lower_seq((#[trigger] d.by_id[a]).1) != lower_seq(
            (#[trigger] d.by_id[b]).1,
        )
    &&& forall|k: int|
        0 <= k < d.by_id.len() ==> (#[trigger] d.by_id[k]).0 < d.next_subcategory_id
    &&& exists|k: int|
        0 <= k < d.by_id.len() && lower_seq((#[trigger] d.by_id[k]).1) == misc_name()
    &&& forall|k: int|
        0 <= k < d.records.len() ==> {
            let rec = #[trigger] d.records[k];
            &&& (rec.category == 1 || rec.category == 2)
            &&& 0 < rec.amount <= crate::ledger::MAX_AMOUNT as int
            &&& (exists|m: int| 0 <= m < d.by_id.len() && (#[trigger] d.by_id[m]).0 == rec.subcategory)
            &&& rec.id < d.next_record_id
        }
    &&& forall|a: int, b: int|
        0 <= a < b < d.records.len() ==> (#[trigger] d.records[a]).id != (
        #[trigger] d.records[b]).id
}

/// What makes a parsed document acceptable: a known currency code, aligned
/// maps, and the ledger invariant.
pub open spec fn doc_ok(d: DocParts) -> bool {
    &&& crate::model::currency_parse_spec(d.currency) is Some
    &&& by_name_aligned(d)
    &&& doc_wf(d)
}

pub open spec fn parse_accepts(s: Seq<char>) -> bool {
    match sp_tracker(s) {
        Some(d) => doc_ok(d),
        None => false,
    }
}

/// Field-for-field: the ledger carries exactly the parsed values.
pub open spec fn corresponds(l: TrackerData, d: DocParts) -> bool {
    &&& l.version as int == d.version
    &&& crate::model::currency_parse_spec(d.currency) == Some(l.currency)
    &&& l.created_at@ == d.created_at
    &&& l.last_modified@ == d.last_modified
    &&& l.opening_balance as int == d.opening_balance
    &&& l.next_record_id as int == d.next_record_id
    &&& l.next_subcategory_id as int == d.next_subcategory_id
    &&& subs_parts_seq(l.subcategories@) == d.by_id
    &&& recs_parts_seq(l.records@) == d.records
}

/// A corresponding ledger satisfies the invariant exactly when the raw
/// document does.
proof fn lemma_wf_bridge(l: TrackerData, d: DocParts)
    requires
        corresponds(l, d),
    ensures
        l.wf() == doc_wf(d),
{
    assert(l.subs().len() == d.by_id.len());
    assert(l.recs().len() == d.records.len());
    assert forall|k: int| 0 <= k < l.subs().len() implies (#[trigger] l.subs()[k]).id as int
        == d.by_id[k].0 && l.subs()[k].name@ == d.by_id[k].1 by {
        assert(subs_parts_seq(l.subcategories@)[k] == (l.subs()[k].id as int, l.subs()[k].name@));
    }
    assert forall|k: int| 0 <= k < l.recs().len() implies rec_parts(#[trigger] l.recs()[k])
        == d.records[k] by {
        assert(recs_parts_seq(l.records@)[k] == rec_parts(l.recs()[k]));
    }
    if l.wf() {
        assert forall|k: int|
            0 <= k < d.records.len() implies {
                let rec = #[trigger] d.records[k];
                &&& (rec.category == 1 || rec.category == 2)
                &&& 0 < rec.amount <= crate::ledger::MAX_AMOUNT as int
                &&& (exists|m: int|
                    0 <= m < d.by_id.len() && (#[trigger] d.by_id[m]).0 == rec.subcategory)
                &&& rec.id < d.next_record_id
            } by {
            assert(l.record_ok(l.recs()[k]));
            let m = choose|m: int|
                0 <= m < l.subs().len() && (#[trigger] l.subs()[m]).id == l.recs()[
                    k
                ].subcategory;
            assert(d.by_id[m].0 == d.records[k].subcategory);
        }
        assert(exists|k: int|
            0 <= k < d.by_id.len() && lower_seq((#[trigger] d.by_id[k]).1) == misc_name()) by {
            let k = choose|k: int|
                0 <= k < l.subs().len() && lower_seq((#[trigger] l.subs()[k]).name@)
                    == misc_name();
            assert(lower_seq(d.by_id[k].1) == misc_name());
        }
        assert(doc_wf(d));
    }
    if doc_wf(d) {
        assert forall|k: int|
            0 <= k < l.recs().len() implies l.record_ok(#[trigger] l.recs()[k]) by {
            assert(rec_parts(l.recs()[k]) == d.records[k]);
            let m = choose|m: int|
                0 <= m < d.by_id.len() && (#[trigger] d.by_id[m]).0 == d.records[
                    k
                ].subcategory;
            assert(l.subs()[m].id == l.recs()[k].subcategory);
        }
        assert(exists|k: int|
            0 <= k < l.subs().len() && lower_seq((#[trigger] l.subs()[k]).name@)
                == misc_name()) by {
            let k = choose|k: int|
                0 <= k < d.by_id.len() && lower_seq((#[trigger] d.by_id[k]).1) == misc_name();
            assert(lower_seq(l.subs()[k].name@) == misc_name());
        }
        assert(l.wf());
    }
}

impl TrackerData {
    /// Reads a ledger back from its at-rest document: the exact grammar the
    /// renderer writes, followed by the full referential-integrity check.
    /// Anything else is a structural error.
    pub fn parse_tracker(s: &str) -> (r: Result<TrackerData, CliError>)
        ensures
            (r is Ok) == parse_accepts(s@),
            r matches Ok(l) ==> (sp_tracker(s@) matches Some(d) && corresponds(l, d)
                && l.wf()),
            r matches Err(e) ==> e matches CliError::InvalidJson(_),
    {
        let i1 = match e_lit(
            s,
            0,
            "{\"categories\":{\"expenses\":2,\"income\":1},\"created_at\":",
        ) {
            Some(j) => j,
            None => {
                return Err(Self::malformed());
            },
        };
        let (created_at, i2) = match e_string(s, i1) {
            Some(p) => p,
            None => {
                return Err(Self::malformed());
            },
        };
        let i3 = match e_lit(s, i2, ",\"currency\":") {
            Some(j) => j,
            None => {
                return Err(Self::malformed());
            },
        };
        let (currency_code, i4) = match e_string(s, i3) {
            Some(p) => p,
            None => {
                return Err(Self::malformed());
            },
        };
        let i5 = match e_lit(s, i4, ",\"last_modified\":") {
            Some(j) => j,
            None => {
                return Err(Self::malformed());
            },
        };
        let (last_modified, i6) = match e_string(s, i5) {
            Some(p) => p,
            None => {
                return Err(Self::malformed());
            },
        };
        let i7 = match e_lit(s, i6, ",\"next_record_id\":") {
            Some(j) => j,
            None => {
                return Err(Self::malformed());
            },
        };
        let (next_record_id, i8) = match e_nat(s, i7, usize::MAX as u64) {
            Some(p) => p,
            None => {
                return Err(Self::malformed());
            },
        };
        let i9 = match e_lit(s, i8, ",\"next_subcategory_id\":") {
            Some(j) => j,
            None => {
                return Err(Self::malformed());
            },
        };
        let (next_subcategory_id, i10) = match e_nat(s, i9, u32::MAX as u64) {
            Some(p) => p,
            None => {
                return Err(Self::malformed());
            },
        };
        let i11 = match e_lit(s, i10, ",\"opening_balance\":") {
            Some(j) => j,
            None => {
                return Err(Self::malformed());
            },
        };
        let (opening_balance, i12) = match e_cents(s, i11) {
            Some(p) => p,
            None => {
                return Err(Self::malformed());
            },
        };
        let i13 = match e_lit(s, i12, ",\"records\":[") {
            Some(j) => j,
            None => {
                return Err(Self::malformed());
            },
        };
        let (records, i14) = match e_records(s, i13) {
            Some(p) => p,
            None => {
                return Err(Self::malformed());
            },
        };
        let i15 = match e_lit(s, i14, ",\"subcategories_by_id\":{") {
            Some(j) => j,
            None => {
                return Err(Self::malformed());
            },
        };
        let (subcategories, i16) = match e_by_id(s, i15) {
            Some(p) => p,
            None => {
                return Err(Self::malformed());
            },
        };
        let i17 = match e_lit(s, i16, ",\"subcategories_by_name\":{") {
            Some(j) => j,
            None => {
                return Err(Self::malformed());
            },
        };
        let (by_name, i18) = match e_by_name(s, i17) {
            Some(p) => p,
            None => {
                return Err(Self::malformed());
            },
        };
        let i19 = match e_lit(s, i18, ",\"version\":") {
            Some(j) => j,
            None => {
                return Err(Self::malformed());
            },
        };
        let (version, i20) = match e_nat(s, i19, u32::MAX as u64) {
            Some(p) => p,
            None => {
                return Err(Self::malformed());
            },
        };
        let i21 = match e_lit(s, i20, "}") {
            Some(j) => j,
            None => {
                return Err(Self::malformed());
            },
        };
        let n = s.unicode_len();
        if i21 != n {
            return Err(Self::malformed());
        }
        let ghost d = sp_tracker(s@)->Some_0;
        proof {
            assert(sp_tracker(s@) is Some);
            assert(d.created_at == created_at@);
            assert(d.currency == currency_code@);
            assert(d.by_id == subs_parts_seq(subcategories@));
            assert(d.by_name == names_parts_seq(by_name@));
            assert(d.records == recs_parts_seq(records@));
        }
        // a known currency code
        let currency = match crate::model::Currency::parse(currency_code.as_str()) {
            Some(c) => c,
            None => {
                return Err(Self::malformed());
            },
        };
        // the name map must mirror the id map
        if by_name.len() != subcategories.len() {
            return Err(Self::malformed());
        }
        let m = subcategories.len();
        let mut k: usize = 0;
        while k < m
            invariant
                m == subcategories@.len(),
                m == by_name@.len(),
                0 <= k <= m,
                parse_accepts(s@) == doc_ok(d),
                sp_tracker(s@) == Some(d),
                d.by_id == subs_parts_seq(subcategories@),
                d.by_name == names_parts_seq(by_name@),
                forall|a: int|
                    0 <= a < k ==> (#[trigger] by_name@[a]).0@ == lower_seq(
                        subcategories@[a].name@,
                    ) && by_name@[a].1 == subcategories@[a].id,
            decreases m - k,
        {
            let low = crate::text::to_lowercase(subcategories[k].name.as_str());
            proof {
                assert(d.by_name[k as int] == (by_name@[k as int].0@, by_name@[
                    k as int
                ].1 as int));
                assert(d.by_id[k as int] == (subcategories@[k as int].id as int, subcategories@[
                    k as int
                ].name@));
            }
            if !crate::text::str_eq(by_name[k].0.as_str(), low.as_str()) {
                proof {
                    assert(d.by_name[k as int].0 != lower_seq(d.by_id[k as int].1));
                    assert(!by_name_aligned(d));
                }
                return Err(Self::malformed());
            }
            if by_name[k].1 != subcategories[k].id {
                proof {
                    assert(d.by_name[k as int].1 != d.by_id[k as int].0);
                    assert(!by_name_aligned(d));
                }
                return Err(Self::malformed());
            }
            k = k + 1;
        }
        proof {
            assert forall|a: int| 0 <= a < d.by_id.len() implies (#[trigger] d.by_name[a]).0
                == lower_seq(d.by_id[a].1) && d.by_name[a].1 == d.by_id[a].0 by {
                assert(d.by_name[a] == (by_name@[a].0@, by_name@[a].1 as int));
                assert(d.by_id[a] == (subcategories@[a].id as int, subcategories@[a].name@));
            }
            assert(by_name_aligned(d));
        }
        let l = TrackerData {
            version: version as u32,
            currency,
            created_at,
            last_modified,
            opening_balance,
            subcategories,
            next_subcategory_id: next_subcategory_id as u32,
            records,
            next_record_id: next_record_id as usize,
        };
        proof {
            assert(corresponds(l, d));
            lemma_wf_bridge(l, d);
        }
        if !l.wf_check() {
            return Err(Self::malformed());
        }
        Ok(l)
    }

    fn malformed() -> (e: CliError)
        ensures
            e matches CliError::InvalidJson(_),
    {
        CliError::InvalidJson(String::from_str("malformed tracker document"))
    }
}

// ----- the round trip: parsing what the renderer wrote gives the values
// back -----

/// The decimal digits of a value denote that value.
proof fn lemma_nat_digits_val(v: int)
    requires
        v >= 0,
    ensures
        nat_digits(v).len() >= 1,
        all_digits(nat_digits(v)),
        crate::date::digits_val(nat_digits(v)) == v,
    decreases v,
{
    if v < 10 {
        crate::date::lemma_digits_val_one(crate::date::digit_char(v));
    } else {
        lemma_nat_digits_val(v / 10);
        let base = nat_digits(v / 10);
        let whole = nat_digits(v);
        assert(whole == base.push(crate::date::digit_char(v % 10)));
        assert(whole.drop_last() =~= base);
        assert(whole.last() == crate::date::digit_char(v % 10));
        assert(forall|k: int|
            0 <= k < whole.len() ==> #[trigger] whole[k] == (if k < base.len() {
                base[k]
            } else {
                crate::date::digit_char(v % 10)
            }));
    }
}

/// A run of digits followed by a non-digit ends exactly there.
proof fn lemma_digits_end_exact(s: Seq<char>, i: int, j: int)
    requires
        0 <= i <= j <= s.len(),
        forall|m: int| i <= m < j ==> is_digit_char(#[trigger] s[m]),
        j == s.len() || !is_digit_char(s[j]),
    ensures
        sp_digits_end(s, i) == j,
    decreases j - i,
{
    if i < j {
        lemma_digits_end_exact(s, i + 1, j);
    }
}

/// Splitting a known concatenation at its seam.
proof fn lemma_concat_sub(s: Seq<char>, i: int, a: Seq<char>, b: Seq<char>)
    requires
        0 <= i,
        i + a.len() + b.len() <= s.len(),
        s.subrange(i, i + a.len() + b.len()) == a + b,
    ensures
        s.subrange(i, i + a.len()) == a,
        s.subrange(i + a.len(), i + a.len() + b.len()) == b,
{
    let w = s.subrange(i, i + a.len() + b.len());
    assert(forall|k: int| 0 <= k < w.len() ==> #[trigger] w[k] == s[i + k]);
    assert(forall|k: int| 0 <= k < a.len() ==> #[trigger] a[k] == w[k]);
    assert(forall|k: int| 0 <= k < b.len() ==> #[trigger] b[k] == w[a.len() + k]);
    assert(s.subrange(i, i + a.len()) =~= a);
    assert(s.subrange(i + a.len(), i + a.len() + b.len()) =~= b);
}

/// The rendered digits of `v` parse back to `v`.
proof fn lemma_parse_nat_at(s: Seq<char>, i: int, v: int, bound: int)
    requires
        0 <= i,
        0 <= v <= bound,
        i + nat_digits(v).len() <= s.len(),
        s.subrange(i, i + nat_digits(v).len()) == nat_digits(v),
        i + nat_digits(v).len() == s.len() || !is_digit_char(s[i + nat_digits(v).len()]),
    ensures
        sp_nat(s, i, bound) == Some((v, i + nat_digits(v).len())),
{
    lemma_nat_digits_val(v);
    let j = i + nat_digits(v).len();
    assert(forall|m: int|
        i <= m < j ==> #[trigger] s[m] == nat_digits(v)[m - i]);
    lemma_digits_end_exact(s, i, j);
}

/// The rendered cents of `c` parse back to `c` when a non-digit follows.
proof fn lemma_parse_cents_at(s: Seq<char>, i: int, c: int)
    requires
        0 <= i,
        i64::MIN <= c <= i64::MAX,
        i + cents_json(c).len() <= s.len(),
        s.subrange(i, i + cents_json(c).len()) == cents_json(c),
        i + cents_json(c).len() == s.len() || !is_digit_char(s[i + cents_json(c).len()]),
    ensures
        sp_cents(s, i) == Some((c, i + cents_json(c).len())),
{
    let a = crate::amount::abs_cents(c);
    let units = a / 100;
    lemma_nat_digits_val(units);
    let frag = cents_json(c);
    let sgn = crate::amount::sign_seq(c);
    let ud = nat_digits(units);
    let fd = crate::amount::frac_digits(a);
    let p1 = sgn + ud;
    let p2 = p1 + seq!['.'];
    assert(frag == p2 + fd);
    lemma_concat_sub(s, i, p2, fd);
    lemma_concat_sub(s, i, p1, seq!['.']);
    lemma_concat_sub(s, i, sgn, ud);
    let i1 = i + sgn.len();
    let j = i1 + ud.len();
    let dot = j;
    let fstart = dot + 1;
    let fend = fstart + fd.len();
    assert(fend == i + frag.len());
    assert(s[dot] == '.') by {
        assert(s.subrange(dot, dot + 1) == seq!['.']);
        assert(s.subrange(dot, dot + 1)[0] == s[dot]);
    }
    assert(!is_digit_char('.'));
    // the sign
    if c < 0 {
        assert(s[i] == '-') by {
            assert(s.subrange(i, i + 1) == sgn);
            assert(s.subrange(i, i + 1)[0] == s[i]);
        }
    } else {
        assert(sgn.len() == 0);
        assert(s[i] == ud[0]) by {
            assert(s.subrange(i1, j)[0] == s[i1]);
        }
        assert(is_digit_char(s[i]));
        assert(s[i] != '-');
    }
    // unit digits end exactly at the dot
    assert(forall|m: int|
        i1 <= m < j ==> #[trigger] s[m] == ud[m - i1]) by {
        assert(forall|k: int| 0 <= k < ud.len() ==> #[trigger] s.subrange(i1, j)[k] == s[i1 + k]);
    }
    assert(forall|m: int| i1 <= m < j ==> is_digit_char(#[trigger] s[m]));
    lemma_digits_end_exact(s, i1, j);
    assert(crate::date::digits_val(s.subrange(i1, j)) == units);
    // fraction digits
    assert(forall|m: int|
        fstart <= m < fend ==> #[trigger] s[m] == fd[m - fstart]) by {
        assert(forall|k: int|
            0 <= k < fd.len() ==> #[trigger] s.subrange(fstart, fend)[k] == s[fstart + k]);
    }
    assert(1 <= fd.len() <= 2);
    assert(forall|m: int| fstart <= m < fend ==> is_digit_char(#[trigger] s[m])) by {
        assert(forall|k: int| 0 <= k < fd.len() ==> is_digit_char(#[trigger] fd[k]));
    }
    lemma_digits_end_exact(s, fstart, fend);
    let frac_parsed = sp_frac(s, dot).0;
    if a % 100 == 0 {
        assert(fd =~= seq!['0']);
        assert(s.subrange(fstart, fend) =~= seq![s[fstart]]);
        crate::date::lemma_digits_val_one(s[fstart]);
        assert(frac_parsed == 0);
    } else if a % 10 == 0 {
        assert(fd =~= seq![crate::date::digit_char((a / 10) % 10)]);
        assert(s.subrange(fstart, fend) =~= seq![s[fstart]]);
        crate::date::lemma_digits_val_one(s[fstart]);
        assert(frac_parsed == ((a / 10) % 10) * 10);
        assert(a % 100 == (a / 10) % 10 * 10 + a % 10) by (nonlinear_arith);
        assert(frac_parsed == a % 100);
    } else {
        assert(fd =~= seq![
            crate::date::digit_char((a % 100) / 10),
            crate::date::digit_char(a % 10),
        ]);
        assert(s.subrange(fstart, fend) =~= seq![s[fstart], s[fstart + 1]]);
        crate::date::lemma_digits_val_two(s[fstart], s[fstart + 1]);
        assert(frac_parsed == (a % 100) / 10 * 10 + a % 10);
        assert(a % 100 == (a % 100) / 10 * 10 + (a % 100) % 10) by (nonlinear_arith);
        assert(a % 10 == (a % 100) % 10) by (nonlinear_arith);
        assert(frac_parsed == a % 100);
    }
    assert(frac_parsed == a % 100);
    assert(units * 100 + a % 100 == a) by (nonlinear_arith)
        requires
            units == a / 100,
    {}
    assert(sp_frac(s, dot).1 == fend);
}

proof fn lemma_esc_str_concat(a: Seq<char>, b: Seq<char>)
    ensures
        esc_str(a + b) == esc_str(a) + esc_str(b),
    decreases b.len(),
{
    if b.len() == 0 {
        assert(a + b =~= a);
        assert(esc_str(a) + esc_str(b) =~= esc_str(a));
    } else {
        lemma_esc_str_concat(a, b.drop_last());
        assert((a + b).drop_last() =~= a + b.drop_last());
        assert((a + b).last() == b.last());
        assert(esc_str(a + b) == esc_str(a + b.drop_last()) + esc_char(b.last()));
        assert(esc_str(b) == esc_str(b.drop_last()) + esc_char(b.last()));
        assert(esc_str(a) + (esc_str(b.drop_last()) + esc_char(b.last())) =~= (esc_str(a)
            + esc_str(b.drop_last())) + esc_char(b.last()));
    }
}

proof fn lemma_esc_str_front(t: Seq<char>)
    requires
        t.len() > 0,
    ensures
        esc_str(t) == esc_char(t[0]) + esc_str(t.drop_first()),
{
    assert(t =~= seq![t[0]] + t.drop_first());
    lemma_esc_str_concat(seq![t[0]], t.drop_first());
    assert(esc_str(seq![t[0]]) == esc_char(t[0])) by {
        reveal_with_fuel(esc_str, 3);
        assert(seq![t[0]].drop_last() =~= Seq::<char>::empty());
        assert(seq![t[0]].last() == t[0]);
        assert(Seq::<char>::empty() + esc_char(t[0]) =~= esc_char(t[0]));
    }
}

proof fn lemma_hex_char_val(v: int)
    requires
        0 <= v < 16,
    ensures
        is_hex_char(hex_char(v)),
        hex_val(hex_char(v)) == v,
{
}

/// The escaped body of `t`, closed by a quote, parses back to `t`.
proof fn lemma_parse_str_body_at(s: Seq<char>, i: int, t: Seq<char>)
    requires
        0 <= i,
        i + esc_str(t).len() + 1 <= s.len(),
        s.subrange(i, i + esc_str(t).len()) == esc_str(t),
        s[i + esc_str(t).len()] == '"',
    ensures
        sp_str_body(s, i) == Some((t, i + esc_str(t).len() + 1)),
    decreases t.len(),
{
    if t.len() == 0 {
        assert(t =~= Seq::<char>::empty());
    } else {
        let c0 = t[0];
        let e0 = esc_char(c0);
        let rest = t.drop_first();
        lemma_esc_str_front(t);
        lemma_concat_sub(s, i, e0, esc_str(rest));
        let mid = i + e0.len();
        assert(forall|k: int|
            0 <= k < e0.len() ==> #[trigger] s[i + k] == e0[k]) by {
            assert(forall|k: int|
                0 <= k < e0.len() ==> #[trigger] s.subrange(i, mid)[k] == s[i + k]);
        }
        // the tail keeps its closing quote
        assert(s[mid + esc_str(rest).len()] == '"');
        let inner = sp_str_body(s, mid);
        lemma_parse_str_body_at(s, mid, rest);
        assert(inner == Some((rest, i + esc_str(t).len() + 1)));
        assert(seq![c0] + rest =~= t);
        if c0 == '"' {
            assert(s[i] == '\\' && s[i + 1] == '"');
            assert(unesc(s[i + 1]) == Some('"'));
        } else if c0 == '\\' {
            assert(s[i] == '\\' && s[i + 1] == '\\');
            assert(unesc(s[i + 1]) == Some('\\'));
        } else if c0 == '\n' {
            assert(s[i] == '\\' && s[i + 1] == 'n');
            assert(unesc(s[i + 1]) == Some('\n'));
        } else if c0 == '\r' {
            assert(s[i] == '\\' && s[i + 1] == 'r');
            assert(unesc(s[i + 1]) == Some('\r'));
        } else if c0 == '\t' {
            assert(s[i] == '\\' && s[i + 1] == 't');
            assert(unesc(s[i + 1]) == Some('\t'));
        } else if c0 == '\u{8}' {
            assert(s[i] == '\\' && s[i + 1] == 'b');
            assert(unesc(s[i + 1]) == Some('\u{8}'));
        } else if c0 == '\u{c}' {
            assert(s[i] == '\\' && s[i + 1] == 'f');
            assert(unesc(s[i + 1]) == Some('\u{c}'));
        } else if 0 <= (c0 as int) && (c0 as int) < 32 {
            assert(s[i] == '\\' && s[i + 1] == 'u' && s[i + 2] == '0' && s[i + 3] == '0');
            assert(s[i + 4] == hex_char((c0 as int) / 16));
            assert(s[i + 5] == hex_char((c0 as int) % 16));
            lemma_hex_char_val((c0 as int) / 16);
            lemma_hex_char_val((c0 as int) % 16);
            assert(hex_val(s[i + 4]) * 16 + hex_val(s[i + 5]) == c0 as int);
            assert(((hex_val(s[i + 4]) * 16 + hex_val(s[i + 5])) as u8) as char == c0);
        } else {
            assert(e0 == seq![c0]);
            assert(s[i] == c0);
            assert(c0 != '"' && c0 != '\\');
        }
    }
}

/// A rendered string literal parses back to its content.
proof fn lemma_parse_string_at(s: Seq<char>, i: int, t: Seq<char>)
    requires
        0 <= i,
        i + json_string(t).len() <= s.len(),
        s.subrange(i, i + json_string(t).len()) == json_string(t),
    ensures
        sp_string(s, i) == Some((t, i + json_string(t).len())),
{
    let body = esc_str(t) + seq!['"'];
    assert(json_string(t) == seq!['"'] + body);
    lemma_concat_sub(s, i, seq!['"'], body);
    assert(s[i] == '"') by {
        assert(s.subrange(i, i + 1)[0] == s[i]);
    }
    lemma_concat_sub(s, i + 1, esc_str(t), seq!['"']);
    assert(s[i + 1 + esc_str(t).len()] == '"') by {
        let q = i + 1 + esc_str(t).len();
        assert(s.subrange(q, q + 1)[0] == s[q]);
    }
    lemma_parse_str_body_at(s, i + 1, t);
}

/// A rendered record object parses back to the record's plain values.
#[verifier::rlimit(80)]
proof fn lemma_parse_record_at(s: Seq<char>, i: int, r: Record)
    requires
        0 <= i,
        i + record_json(r).len() <= s.len(),
        s.subrange(i, i + record_json(r).len()) == record_json(r),
    ensures
        sp_record(s, i) == Some((rec_parts(r), i + record_json(r).len())),
{
    let l1 = "{\"amount\":"@;
    let p2 = cents_json(r.amount as int);
    let l3 = ",\"category\":"@;
    let p4 = nat_digits(r.category as int);
    let l5 = ",\"date\":"@;
    let p6 = json_string(r.date@);
    let l7 = ",\"description\":"@;
    let p8 = json_string(r.description@);
    let l9 = ",\"id\":"@;
    let p10 = nat_digits(r.id as int);
    let l11 = ",\"subcategory\":"@;
    let p12 = nat_digits(r.subcategory as int);
    let l13 = "}"@;
    let c12 = l1 + p2 + l3 + p4 + l5 + p6 + l7 + p8 + l9 + p10 + l11 + p12;
    let c11 = l1 + p2 + l3 + p4 + l5 + p6 + l7 + p8 + l9 + p10 + l11;
    let c10 = l1 + p2 + l3 + p4 + l5 + p6 + l7 + p8 + l9 + p10;
    let c9 = l1 + p2 + l3 + p4 + l5 + p6 + l7 + p8 + l9;
    let c8 = l1 + p2 + l3 + p4 + l5 + p6 + l7 + p8;
    let c7 = l1 + p2 + l3 + p4 + l5 + p6 + l7;
    let c6 = l1 + p2 + l3 + p4 + l5 + p6;
    let c5 = l1 + p2 + l3 + p4 + l5;
    let c4 = l1 + p2 + l3 + p4;
    let c3 = l1 + p2 + l3;
    let c2 = l1 + p2;
    let end = i + record_json(r).len();
    lemma_concat_sub(s, i, c12, l13);
    lemma_concat_sub(s, i, c11, p12);
    lemma_concat_sub(s, i, c10, l11);
    lemma_concat_sub(s, i, c9, p10);
    lemma_concat_sub(s, i, c8, l9);
    lemma_concat_sub(s, i, c7, p8);
    lemma_concat_sub(s, i, c6, l7);
    lemma_concat_sub(s, i, c5, p6);
    lemma_concat_sub(s, i, c4, l5);
    lemma_concat_sub(s, i, c3, p4);
    lemma_concat_sub(s, i, c2, l3);
    lemma_concat_sub(s, i, l1, p2);
    reveal_strlit("{\"amount\":");
    reveal_strlit(",\"category\":");
    reveal_strlit(",\"date\":");
    reveal_strlit(",\"description\":");
    reveal_strlit(",\"id\":");
    reveal_strlit(",\"subcategory\":");
    reveal_strlit("}");
    let i2 = i + l1.len();
    let i3 = i2 + p2.len();
    let i4 = i3 + l3.len();
    let i5 = i4 + p4.len();
    let i6 = i5 + l5.len();
    let i7 = i6 + p6.len();
    let i8 = i7 + l7.len();
    let i9 = i8 + p8.len();
    let i10 = i9 + l9.len();
    let i11 = i10 + p10.len();
    let i12 = i11 + l11.len();
    let i13 = i12 + p12.len();
    assert(sp_lit(s, i, l1) == Some(i2));
    assert(s[i3] == ',') by {
        assert(s.subrange(i3, i4)[0] == s[i3]);
    }
    lemma_parse_cents_at(s, i2, r.amount as int);
    assert(sp_lit(s, i3, l3) == Some(i4));
    assert(s[i5] == ',') by {
        assert(s.subrange(i5, i6)[0] == s[i5]);
    }
    lemma_parse_nat_at(s, i4, r.category as int, usize::MAX as int);
    assert(sp_lit(s, i5, l5) == Some(i6));
    lemma_parse_string_at(s, i6, r.date@);
    assert(sp_lit(s, i7, l7) == Some(i8));
    lemma_parse_string_at(s, i8, r.description@);
    assert(sp_lit(s, i9, l9) == Some(i10));
    assert(s[i11] == ',') by {
        assert(s.subrange(i11, i12)[0] == s[i11]);
    }
    lemma_parse_nat_at(s, i10, r.id as int, usize::MAX as int);
    assert(sp_lit(s, i11, l11) == Some(i12));
    assert(s[i13] == '}') by {
        assert(s.subrange(i13, end)[0] == s[i13]);
    }
    lemma_parse_nat_at(s, i12, r.subcategory as int, usize::MAX as int);
    assert(sp_lit(s, i13, l13) == Some(end));
}

// front-recursive forms of the three comma-joined lists

pub open spec fn records_json_tail(rs: Seq<Record>) -> Seq<char>
    decreases rs.len(),
{
    if rs.len() == 0 {
        Seq::<char>::empty()
    } else {
        seq![','] + record_json(rs[0]) + records_json_tail(rs.drop_first())
    }
}

proof fn lemma_records_tail_push(x: Seq<Record>, y: Record)
    ensures
        records_json_tail(x.push(y)) == records_json_tail(x) + seq![','] + record_json(y),
    decreases x.len(),
{
    if x.len() == 0 {
        assert(x.push(y)[0] == y);
        assert(x.push(y).drop_first() =~= x);
        assert(records_json_tail(x.push(y)) =~= records_json_tail(x) + seq![','] + record_json(
            y,
        ));
    } else {
        assert(x.push(y)[0] == x[0]);
        assert(x.push(y).drop_first() =~= x.drop_first().push(y));
        lemma_records_tail_push(x.drop_first(), y);
        assert(seq![','] + record_json(x[0]) + (records_json_tail(x.drop_first()) + seq![',']
            + record_json(y)) =~= (seq![','] + record_json(x[0]) + records_json_tail(
            x.drop_first(),
        )) + seq![','] + record_json(y));
    }
}

proof fn lemma_records_json_decomp(rs: Seq<Record>)
    requires
        rs.len() > 0,
    ensures
        records_json(rs) == record_json(rs[0]) + records_json_tail(rs.drop_first()),
    decreases rs.len(),
{
    if rs.len() == 1 {
        assert(rs.drop_first() =~= Seq::<Record>::empty());
        assert(record_json(rs[0]) + records_json_tail(rs.drop_first()) =~= record_json(rs[0]));
    } else {
        lemma_records_json_decomp(rs.drop_last());
        assert(rs.drop_last()[0] == rs[0]);
        assert(rs.drop_first() =~= rs.drop_last().drop_first().push(rs.last()));
        lemma_records_tail_push(rs.drop_last().drop_first(), rs.last());
        assert((record_json(rs[0]) + records_json_tail(rs.drop_last().drop_first())) + seq![',']
            + record_json(rs.last()) =~= record_json(rs[0]) + (records_json_tail(
            rs.drop_last().drop_first(),
        ) + seq![','] + record_json(rs.last())));
    }
}

proof fn lemma_parse_records_tail(s: Seq<char>, i: int, rs: Seq<Record>)
    requires
        0 <= i,
        i + records_json_tail(rs).len() + 1 <= s.len(),
        s.subrange(i, i + records_json_tail(rs).len()) == records_json_tail(rs),
        s[i + records_json_tail(rs).len()] == ']',
    ensures
        sp_records_rest(s, i) == Some(
            (recs_parts_seq(rs), i + records_json_tail(rs).len() + 1),
        ),
    decreases rs.len(),
{
    if rs.len() == 0 {
        assert(recs_parts_seq(rs) =~= Seq::<RecParts>::empty());
    } else {
        let rec0 = record_json(rs[0]);
        let rest = records_json_tail(rs.drop_first());
        let head = seq![','] + rec0;
        assert(records_json_tail(rs) == head + rest);
        lemma_concat_sub(s, i, head, rest);
        lemma_concat_sub(s, i, seq![','], rec0);
        assert(s[i] == ',') by {
            assert(s.subrange(i, i + 1)[0] == s[i]);
        }
        lemma_parse_record_at(s, i + 1, rs[0]);
        let j = i + 1 + rec0.len();
        assert(s[j + rest.len()] == ']');
        lemma_parse_records_tail(s, j, rs.drop_first());
        assert(seq![rec_parts(rs[0])] + recs_parts_seq(rs.drop_first()) =~= recs_parts_seq(rs));
    }
}

proof fn lemma_parse_records_at(s: Seq<char>, i: int, rs: Seq<Record>)
    requires
        0 <= i,
        i + records_json(rs).len() + 1 <= s.len(),
        s.subrange(i, i + records_json(rs).len()) == records_json(rs),
        s[i + records_json(rs).len()] == ']',
    ensures
        sp_records(s, i) == Some((recs_parts_seq(rs), i + records_json(rs).len() + 1)),
{
    reveal_strlit("]");
    reveal_strlit("{\"amount\":");
    if rs.len() == 0 {
        assert(s.subrange(i, i + 1) =~= "]"@);
        assert(sp_lit(s, i, "]"@) == Some(i + 1));
        assert(recs_parts_seq(rs) =~= Seq::<RecParts>::empty());
    } else {
        lemma_records_json_decomp(rs);
        let rec0 = record_json(rs[0]);
        let rest = records_json_tail(rs.drop_first());
        lemma_concat_sub(s, i, rec0, rest);
        assert(s[i] == '{') by {
            assert(s.subrange(i, i + rec0.len())[0] == s[i]);
            assert(rec0[0] == '{');
        }
        assert(sp_lit(s, i, "]"@) is None) by {
            if sp_lit(s, i, "]"@) is Some {
                assert(s.subrange(i, i + 1) == "]"@);
                assert(s.subrange(i, i + 1)[0] == s[i]);
            }
        }
        lemma_parse_record_at(s, i, rs[0]);
        let j = i + rec0.len();
        assert(s[j + rest.len()] == ']');
        lemma_parse_records_tail(s, j, rs.drop_first());
        assert(seq![rec_parts(rs[0])] + recs_parts_seq(rs.drop_first()) =~= recs_parts_seq(rs));
    }
}

proof fn lemma_parse_by_id_entry_at(s: Seq<char>, i: int, sub: Subcategory)
    requires
        0 <= i,
        i + by_id_entry(sub).len() <= s.len(),
        s.subrange(i, i + by_id_entry(sub).len()) == by_id_entry(sub),
    ensures
        sp_by_id_entry(s, i) == Some(
            ((sub.id as int, sub.name@), i + by_id_entry(sub).len()),
        ),
{
    reveal_strlit("\":");
    let nd = nat_digits(sub.id as int);
    let js = json_string(sub.name@);
    let c3 = seq!['"'] + nd + "\":"@;
    let c2 = seq!['"'] + nd;
    assert(by_id_entry(sub) == c3 + js);
    lemma_concat_sub(s, i, c3, js);
    lemma_concat_sub(s, i, c2, "\":"@);
    lemma_concat_sub(s, i, seq!['"'], nd);
    assert(s[i] == '"') by {
        assert(s.subrange(i, i + 1)[0] == s[i]);
    }
    let j = i + 1 + nd.len();
    assert(s[j] == '"') by {
        assert(s.subrange(j, j + 2)[0] == s[j]);
        assert(("\":"@)[0] == '"');
    }
    assert(!is_digit_char('"'));
    lemma_nat_digits_val(sub.id as int);
    lemma_parse_nat_at(s, i + 1, sub.id as int, usize::MAX as int);
    assert(sp_lit(s, j, "\":"@) == Some(j + 2)) by {
        assert(("\":"@).len() == 2);
    }
    lemma_parse_string_at(s, j + 2, sub.name@);
}

pub open spec fn by_id_json_tail(subs: Seq<Subcategory>) -> Seq<char>
    decreases subs.len(),
{
    if subs.len() == 0 {
        Seq::<char>::empty()
    } else {
        seq![','] + by_id_entry(subs[0]) + by_id_json_tail(subs.drop_first())
    }
}

proof fn lemma_by_id_tail_push(x: Seq<Subcategory>, y: Subcategory)
    ensures
        by_id_json_tail(x.push(y)) == by_id_json_tail(x) + seq![','] + by_id_entry(y),
    decreases x.len(),
{
    if x.len() == 0 {
        assert(x.push(y)[0] == y);
        assert(x.push(y).drop_first() =~= x);
        assert(by_id_json_tail(x.push(y)) =~= by_id_json_tail(x) + seq![','] + by_id_entry(y));
    } else {
        assert(x.push(y)[0] == x[0]);
        assert(x.push(y).drop_first() =~= x.drop_first().push(y));
        lemma_by_id_tail_push(x.drop_first(), y);
        assert(seq![','] + by_id_entry(x[0]) + (by_id_json_tail(x.drop_first()) + seq![',']
            + by_id_entry(y)) =~= (seq![','] + by_id_entry(x[0]) + by_id_json_tail(
            x.drop_first(),
        )) + seq![','] + by_id_entry(y));
    }
}

proof fn lemma_by_id_json_decomp(subs: Seq<Subcategory>)
    requires
        subs.len() > 0,
    ensures
        by_id_json(subs) == by_id_entry(subs[0]) + by_id_json_tail(subs.drop_first()),
    decreases subs.len(),
{
    if subs.len() == 1 {
        assert(subs.drop_first() =~= Seq::<Subcategory>::empty());
        assert(by_id_entry(subs[0]) + by_id_json_tail(subs.drop_first()) =~= by_id_entry(
            subs[0],
        ));
    } else {
        lemma_by_id_json_decomp(subs.drop_last());
        assert(subs.drop_last()[0] == subs[0]);
        assert(subs.drop_first() =~= subs.drop_last().drop_first().push(subs.last()));
        lemma_by_id_tail_push(subs.drop_last().drop_first(), subs.last());
        assert((by_id_entry(subs[0]) + by_id_json_tail(subs.drop_last().drop_first())) + seq![
            ',',
        ] + by_id_entry(subs.last()) =~= by_id_entry(subs[0]) + (by_id_json_tail(
            subs.drop_last().drop_first(),
        ) + seq![','] + by_id_entry(subs.last())));
    }
}

proof fn lemma_parse_by_id_tail(s: Seq<char>, i: int, subs: Seq<Subcategory>)
    requires
        0 <= i,
        i + by_id_json_tail(subs).len() + 1 <= s.len(),
        s.subrange(i, i + by_id_json_tail(subs).len()) == by_id_json_tail(subs),
        s[i + by_id_json_tail(subs).len()] == '}',
    ensures
        sp_by_id_rest(s, i) == Some(
            (subs_parts_seq(subs), i + by_id_json_tail(subs).len() + 1),
        ),
    decreases subs.len(),
{
    if subs.len() == 0 {
        assert(subs_parts_seq(subs) =~= Seq::<(int, Seq<char>)>::empty());
    } else {
        let e0 = by_id_entry(subs[0]);
        let rest = by_id_json_tail(subs.drop_first());
        let head = seq![','] + e0;
        assert(by_id_json_tail(subs) == head + rest);
        lemma_concat_sub(s, i, head, rest);
        lemma_concat_sub(s, i, seq![','], e0);
        assert(s[i] == ',') by {
            assert(s.subrange(i, i + 1)[0] == s[i]);
        }
        lemma_parse_by_id_entry_at(s, i + 1, subs[0]);
        let j = i + 1 + e0.len();
        assert(s[j + rest.len()] == '}');
        lemma_parse_by_id_tail(s, j, subs.drop_first());
        assert(seq![(subs[0].id as int, subs[0].name@)] + subs_parts_seq(subs.drop_first())
            =~= subs_parts_seq(subs));
    }
}

proof fn lemma_parse_by_id_at(s: Seq<char>, i: int, subs: Seq<Subcategory>)
    requires
        0 <= i,
        i + by_id_json(subs).len() + 1 <= s.len(),
        s.subrange(i, i + by_id_json(subs).len()) == by_id_json(subs),
        s[i + by_id_json(subs).len()] == '}',
    ensures
        sp_by_id(s, i) == Some((subs_parts_seq(subs), i + by_id_json(subs).len() + 1)),
{
    reveal_strlit("}");
    if subs.len() == 0 {
        assert(s.subrange(i, i + 1) =~= "}"@);
        assert(sp_lit(s, i, "}"@) == Some(i + 1));
        assert(subs_parts_seq(subs) =~= Seq::<(int, Seq<char>)>::empty());
    } else {
        lemma_by_id_json_decomp(subs);
        let e0 = by_id_entry(subs[0]);
        let rest = by_id_json_tail(subs.drop_first());
        lemma_concat_sub(s, i, e0, rest);
        assert(s[i] == '"') by {
            assert(s.subrange(i, i + e0.len())[0] == s[i]);
            assert(e0[0] == '"');
        }
        assert(sp_lit(s, i, "}"@) is None) by {
            if sp_lit(s, i, "}"@) is Some {
                assert(s.subrange(i, i + 1) == "}"@);
                assert(s.subrange(i, i + 1)[0] == s[i]);
            }
        }
        lemma_parse_by_id_entry_at(s, i, subs[0]);
        let j = i + e0.len();
        assert(s[j + rest.len()] == '}');
        lemma_parse_by_id_tail(s, j, subs.drop_first());
        assert(seq![(subs[0].id as int, subs[0].name@)] + subs_parts_seq(subs.drop_first())
            =~= subs_parts_seq(subs));
    }
}

/// The abstract entries of the name map as rendered from the table.
pub open spec fn subs_name_parts(subs: Seq<Subcategory>) -> Seq<(Seq<char>, int)> {
    subs.map_values(|sub: Subcategory| (lower_seq(sub.name@), sub.id as int))
}

proof fn lemma_parse_by_name_entry_at(s: Seq<char>, i: int, sub: Subcategory)
    requires
        0 <= i,
        i + by_name_entry(sub).len() <= s.len(),
        s.subrange(i, i + by_name_entry(sub).len()) == by_name_entry(sub),
        i + by_name_entry(sub).len() == s.len() || !is_digit_char(
            s[i + by_name_entry(sub).len()],
        ),
    ensures
        sp_by_name_entry(s, i) == Some(
            ((lower_seq(sub.name@), sub.id as int), i + by_name_entry(sub).len()),
        ),
{
    reveal_strlit(":");
    let js = json_string(lower_seq(sub.name@));
    let nd = nat_digits(sub.id as int);
    let c2 = js + seq![':'];
    assert(by_name_entry(sub) == c2 + nd);
    lemma_concat_sub(s, i, c2, nd);
    lemma_concat_sub(s, i, js, seq![':']);
    lemma_parse_string_at(s, i, lower_seq(sub.name@));
    let j = i + js.len();
    assert(s[j] == ':') by {
        assert(s.subrange(j, j + 1)[0] == s[j]);
    }
    assert(sp_lit(s, j, ":"@) == Some(j + 1)) by {
        assert(s.subrange(j, j + 1) =~= ":"@);
    }
    lemma_nat_digits_val(sub.id as int);
    lemma_parse_nat_at(s, j + 1, sub.id as int, usize::MAX as int);
}

pub open spec fn by_name_json_tail(subs: Seq<Subcategory>) -> Seq<char>
    decreases subs.len(),
{
    if subs.len() == 0 {
        Seq::<char>::empty()
    } else {
        seq![','] + by_name_entry(subs[0]) + by_name_json_tail(subs.drop_first())
    }
}

proof fn lemma_by_name_tail_push(x: Seq<Subcategory>, y: Subcategory)
    ensures
        by_name_json_tail(x.push(y)) == by_name_json_tail(x) + seq![','] + by_name_entry(y),
    decreases x.len(),
{
    if x.len() == 0 {
        assert(x.push(y)[0] == y);
        assert(x.push(y).drop_first() =~= x);
        assert(by_name_json_tail(x.push(y)) =~= by_name_json_tail(x) + seq![',']
            + by_name_entry(y));
    } else {
        assert(x.push(y)[0] == x[0]);
        assert(x.push(y).drop_first() =~= x.drop_first().push(y));
        lemma_by_name_tail_push(x.drop_first(), y);
        assert(seq![','] + by_name_entry(x[0]) + (by_name_json_tail(x.drop_first()) + seq![',']
            + by_name_entry(y)) =~= (seq![','] + by_name_entry(x[0]) + by_name_json_tail(
            x.drop_first(),
        )) + seq![','] + by_name_entry(y));
    }
}

proof fn lemma_by_name_json_decomp(subs: Seq<Subcategory>)
    requires
        subs.len() > 0,
    ensures
        by_name_json(subs) == by_name_entry(subs[0]) + by_name_json_tail(subs.drop_first()),
    decreases subs.len(),
{
    if subs.len() == 1 {
        assert(subs.drop_first() =~= Seq::<Subcategory>::empty());
        assert(by_name_entry(subs[0]) + by_name_json_tail(subs.drop_first()) =~= by_name_entry(
            subs[0],
        ));
    } else {
        lemma_by_name_json_decomp(subs.drop_last());
        assert(subs.drop_last()[0] == subs[0]);
        assert(subs.drop_first() =~= subs.drop_last().drop_first().push(subs.last()));
        lemma_by_name_tail_push(subs.drop_last().drop_first(), subs.last());
        assert((by_name_entry(subs[0]) + by_name_json_tail(subs.drop_last().drop_first()))
            + seq![','] + by_name_entry(subs.last()) =~= by_name_entry(subs[0]) + (
        by_name_json_tail(subs.drop_last().drop_first()) + seq![','] + by_name_entry(
            subs.last(),
        )));
    }
}

proof fn lemma_parse_by_name_tail(s: Seq<char>, i: int, subs: Seq<Subcategory>)
    requires
        0 <= i,
        i + by_name_json_tail(subs).len() + 1 <= s.len(),
        s.subrange(i, i + by_name_json_tail(subs).len()) == by_name_json_tail(subs),
        s[i + by_name_json_tail(subs).len()] == '}',
    ensures
        sp_by_name_rest(s, i) == Some(
            (subs_name_parts(subs), i + by_name_json_tail(subs).len() + 1),
        ),
    decreases subs.len(),
{
    assert(!is_digit_char('}'));
    if subs.len() == 0 {
        assert(subs_name_parts(subs) =~= Seq::<(Seq<char>, int)>::empty());
    } else {
        let e0 = by_name_entry(subs[0]);
        let rest = by_name_json_tail(subs.drop_first());
        let head = seq![','] + e0;
        assert(by_name_json_tail(subs) == head + rest);
        lemma_concat_sub(s, i, head, rest);
        lemma_concat_sub(s, i, seq![','], e0);
        assert(s[i] == ',') by {
            assert(s.subrange(i, i + 1)[0] == s[i]);
        }
        let j = i + 1 + e0.len();
        assert(j == s.len() || !is_digit_char(s[j])) by {
            if rest.len() == 0 {
                assert(s[j] == '}');
            } else {
                assert(s.subrange(j, j + rest.len())[0] == s[j]);
                assert(rest[0] == ',');
                assert(!is_digit_char(','));
            }
        }
        lemma_parse_by_name_entry_at(s, i + 1, subs[0]);
        assert(s[j + rest.len()] == '}');
        lemma_parse_by_name_tail(s, j, subs.drop_first());
        assert(seq![(lower_seq(subs[0].name@), subs[0].id as int)] + subs_name_parts(
            subs.drop_first(),
        ) =~= subs_name_parts(subs));
    }
}

proof fn lemma_parse_by_name_at(s: Seq<char>, i: int, subs: Seq<Subcategory>)
    requires
        0 <= i,
        i + by_name_json(subs).len() + 1 <= s.len(),
        s.subrange(i, i + by_name_json(subs).len()) == by_name_json(subs),
        s[i + by_name_json(subs).len()] == '}',
    ensures
        sp_by_name(s, i) == Some((subs_name_parts(subs), i + by_name_json(subs).len() + 1)),
{
    reveal_strlit("}");
    if subs.len() == 0 {
        assert(s.subrange(i, i + 1) =~= "}"@);
        assert(sp_lit(s, i, "}"@) == Some(i + 1));
        assert(subs_name_parts(subs) =~= Seq::<(Seq<char>, int)>::empty());
    } else {
        lemma_by_name_json_decomp(subs);
        let e0 = by_name_entry(subs[0]);
        let rest = by_name_json_tail(subs.drop_first());
        lemma_concat_sub(s, i, e0, rest);
        assert(s[i] == '"') by {
            assert(s.subrange(i, i + e0.len())[0] == s[i]);
            assert(e0[0] == '"');
        }
        assert(sp_lit(s, i, "}"@) is None) by {
            if sp_lit(s, i, "}"@) is Some {
                assert(s.subrange(i, i + 1) == "}"@);
                assert(s.subrange(i, i + 1)[0] == s[i]);
            }
        }
        let j = i + e0.len();
        assert(j == s.len() || !is_digit_char(s[j])) by {
            if rest.len() == 0 {
                assert(s[j] == '}');
                assert(!is_digit_char('}'));
            } else {
                assert(s.subrange(j, j + rest.len())[0] == s[j]);
                assert(rest[0] == ',');
                assert(!is_digit_char(','));
            }
        }
        lemma_parse_by_name_entry_at(s, i, subs[0]);
        assert(s[j + rest.len()] == '}');
        lemma_parse_by_name_tail(s, j, subs.drop_first());
        assert(seq![(lower_seq(subs[0].name@), subs[0].id as int)] + subs_name_parts(
            subs.drop_first(),
        ) =~= subs_name_parts(subs));
    }
}

/// A rendered currency code parses back to its currency.
proof fn lemma_currency_code_round(c: crate::model::Currency)
    ensures
        crate::model::currency_parse_spec(currency_code_spec(c)) == Some(c),
{
    reveal_strlit("NGN");
    reveal_strlit("USD");
    reveal_strlit("GBP");
    reveal_strlit("EUR");
    reveal_strlit("CAD");
    reveal_strlit("AUD");
    reveal_strlit("JPY");
    reveal_strlit("ngn");
    reveal_strlit("usd");
    reveal_strlit("gbp");
    reveal_strlit("eur");
    reveal_strlit("cad");
    reveal_strlit("aud");
    reveal_strlit("jpy");
    assert(("ngn"@)[0] == 'n' && ("usd"@)[0] == 'u' && ("gbp"@)[0] == 'g' && ("eur"@)[0] == 'e'
        && ("cad"@)[0] == 'c' && ("aud"@)[0] == 'a' && ("jpy"@)[0] == 'j');
    match c {
        crate::model::Currency::NGN => {
            assert(lower_seq("NGN"@) =~= "ngn"@);
        },
        crate::model::Currency::USD => {
            assert(lower_seq("USD"@) =~= "usd"@);
        },
        crate::model::Currency::GBP => {
            assert(lower_seq("GBP"@) =~= "gbp"@);
        },
        crate::model::Currency::EUR => {
            assert(lower_seq("EUR"@) =~= "eur"@);
        },
        crate::model::Currency::CAD => {
            assert(lower_seq("CAD"@) =~= "cad"@);
        },
        crate::model::Currency::AUD => {
            assert(lower_seq("AUD"@) =~= "aud"@);
        },
        crate::model::Currency::JPY => {
            assert(lower_seq("JPY"@) =~= "jpy"@);
        },
    }
}

/// The raw values the grammar recovers from a rendered ledger.
pub open spec fn expected_doc(l: TrackerData) -> DocParts {
    DocParts {
        created_at: l.created_at@,
        currency: currency_code_spec(l.currency),
        last_modified: l.last_modified@,
        next_record_id: l.next_record_id as int,
        next_subcategory_id: l.next_subcategory_id as int,
        opening_balance: l.opening_balance as int,
        records: recs_parts_seq(l.records@),
        by_id: subs_parts_seq(l.subcategories@),
        by_name: subs_name_parts(l.subcategories@),
        version: l.version as int,
    }
}

/// Parsing the scalar head of a rendered document: everything before the
/// record list.
#[verifier::rlimit(100)]
proof fn lemma_parse_tracker_head(s: Seq<char>, l: TrackerData, head: Seq<char>)
    requires
        head == "{\"categories\":{\"expenses\":2,\"income\":1},\"created_at\":"@ + json_string(
            l.created_at@,
        ) + ",\"currency\":"@ + json_string(currency_code_spec(l.currency))
            + ",\"last_modified\":"@ + json_string(l.last_modified@) + ",\"next_record_id\":"@
            + nat_digits(l.next_record_id as int) + ",\"next_subcategory_id\":"@ + nat_digits(
            l.next_subcategory_id as int,
        ) + ",\"opening_balance\":"@ + cents_json(l.opening_balance as int) + ",\"records\":["@,
        head.len() <= s.len(),
        s.subrange(0, head.len() as int) == head,
    ensures
        ({
            let l1 = "{\"categories\":{\"expenses\":2,\"income\":1},\"created_at\":"@;
            let i2 = l1.len() as int;
            let i3 = i2 + json_string(l.created_at@).len();
            let i4 = i3 + ",\"currency\":"@.len();
            let i5 = i4 + json_string(currency_code_spec(l.currency)).len();
            let i6 = i5 + ",\"last_modified\":"@.len();
            let i7 = i6 + json_string(l.last_modified@).len();
            let i8 = i7 + ",\"next_record_id\":"@.len();
            let i9 = i8 + nat_digits(l.next_record_id as int).len();
            let i10 = i9 + ",\"next_subcategory_id\":"@.len();
            let i11 = i10 + nat_digits(l.next_subcategory_id as int).len();
            let i12 = i11 + ",\"opening_balance\":"@.len();
            let i13 = i12 + cents_json(l.opening_balance as int).len();
            let i14 = i13 + ",\"records\":["@.len();
            &&& sp_lit(s, 0, l1) == Some(i2)
            &&& sp_string(s, i2) == Some((l.created_at@, i3))
            &&& sp_lit(s, i3, ",\"currency\":"@) == Some(i4)
            &&& sp_string(s, i4) == Some((currency_code_spec(l.currency), i5))
            &&& sp_lit(s, i5, ",\"last_modified\":"@) == Some(i6)
            &&& sp_string(s, i6) == Some((l.last_modified@, i7))
            &&& sp_lit(s, i7, ",\"next_record_id\":"@) == Some(i8)
            &&& sp_nat(s, i8, usize::MAX as int) == Some((l.next_record_id as int, i9))
            &&& sp_lit(s, i9, ",\"next_subcategory_id\":"@) == Some(i10)
            &&& sp_nat(s, i10, u32::MAX as int) == Some((l.next_subcategory_id as int, i11))
            &&& sp_lit(s, i11, ",\"opening_balance\":"@) == Some(i12)
            &&& sp_cents(s, i12) == Some((l.opening_balance as int, i13))
            &&& sp_lit(s, i13, ",\"records\":["@) == Some(i14)
        }),
{
    let l1 = "{\"categories\":{\"expenses\":2,\"income\":1},\"created_at\":"@;
    let p2 = json_string(l.created_at@);
    let l3 = ",\"currency\":"@;
    let p4 = json_string(currency_code_spec(l.currency));
    let l5 = ",\"last_modified\":"@;
    let p6 = json_string(l.last_modified@);
    let l7 = ",\"next_record_id\":"@;
    let p8 = nat_digits(l.next_record_id as int);
    let l9 = ",\"next_subcategory_id\":"@;
    let p10 = nat_digits(l.next_subcategory_id as int);
    let l11 = ",\"opening_balance\":"@;
    let p12 = cents_json(l.opening_balance as int);
    let l13 = ",\"records\":["@;
    let c12 = l1 + p2 + l3 + p4 + l5 + p6 + l7 + p8 + l9 + p10 + l11 + p12;
    let c11 = l1 + p2 + l3 + p4 + l5 + p6 + l7 + p8 + l9 + p10 + l11;
    let c10 = l1 + p2 + l3 + p4 + l5 + p6 + l7 + p8 + l9 + p10;
    let c9 = l1 + p2 + l3 + p4 + l5 + p6 + l7 + p8 + l9;
    let c8 = l1 + p2 + l3 + p4 + l5 + p6 + l7 + p8;
    let c7 = l1 + p2 + l3 + p4 + l5 + p6 + l7;
    let c6 = l1 + p2 + l3 + p4 + l5 + p6;
    let c5 = l1 + p2 + l3 + p4 + l5;
    let c4 = l1 + p2 + l3 + p4;
    let c3 = l1 + p2 + l3;
    let c2 = l1 + p2;
    lemma_concat_sub(s, 0, c12, l13);
    lemma_concat_sub(s, 0, c11, p12);
    lemma_concat_sub(s, 0, c10, l11);
    lemma_concat_sub(s, 0, c9, p10);
    lemma_concat_sub(s, 0, c8, l9);
    lemma_concat_sub(s, 0, c7, p8);
    lemma_concat_sub(s, 0, c6, l7);
    lemma_concat_sub(s, 0, c5, p6);
    lemma_concat_sub(s, 0, c4, l5);
    lemma_concat_sub(s, 0, c3, p4);
    lemma_concat_sub(s, 0, c2, l3);
    lemma_concat_sub(s, 0, l1, p2);
    reveal_strlit(",\"next_subcategory_id\":");
    reveal_strlit(",\"opening_balance\":");
    reveal_strlit(",\"records\":[");
    let i2 = l1.len() as int;
    let i3 = i2 + p2.len();
    let i4 = i3 + l3.len();
    let i5 = i4 + p4.len();
    let i6 = i5 + l5.len();
    let i7 = i6 + p6.len();
    let i8 = i7 + l7.len();
    let i9 = i8 + p8.len();
    let i10 = i9 + l9.len();
    let i11 = i10 + p10.len();
    let i12 = i11 + l11.len();
    let i13 = i12 + p12.len();
    lemma_parse_string_at(s, i2, l.created_at@);
    lemma_parse_string_at(s, i4, currency_code_spec(l.currency));
    lemma_parse_string_at(s, i6, l.last_modified@);
    assert(s[i9] == ',') by {
        assert(s.subrange(i9, i10)[0] == s[i9]);
    }
    lemma_parse_nat_at(s, i8, l.next_record_id as int, usize::MAX as int);
    assert(s[i11] == ',') by {
        assert(s.subrange(i11, i12)[0] == s[i11]);
    }
    lemma_parse_nat_at(s, i10, l.next_subcategory_id as int, u32::MAX as int);
    assert(s[i13] == ',') by {
        assert(s.subrange(i13, i13 + l13.len())[0] == s[i13]);
    }
    lemma_parse_cents_at(s, i12, l.opening_balance as int);
}

/// Splits the container tail of a rendered document into its pieces.
#[verifier::rlimit(100)]
proof fn lemma_tail_pieces(s: Seq<char>, i: int, l: TrackerData, tail: Seq<char>)
    requires
        0 <= i,
        tail == records_json(l.recs()) + "],\"subcategories_by_id\":{"@ + by_id_json(l.subs())
            + "},\"subcategories_by_name\":{"@ + by_name_json(l.subs()) + "},\"version\":"@
            + nat_digits(l.version as int) + "}"@,
        i + tail.len() == s.len(),
        s.subrange(i, s.len() as int) == tail,
    ensures
        ({
            let i15 = i + records_json(l.recs()).len();
            let i16 = i15 + "],\"subcategories_by_id\":{"@.len();
            let i17 = i16 + by_id_json(l.subs()).len();
            let i18 = i17 + "},\"subcategories_by_name\":{"@.len();
            let i19 = i18 + by_name_json(l.subs()).len();
            let i20 = i19 + "},\"version\":"@.len();
            let i21 = i20 + nat_digits(l.version as int).len();
            &&& s.subrange(i, i15) == records_json(l.recs())
            &&& s.subrange(i15, i16) == "],\"subcategories_by_id\":{"@
            &&& s.subrange(i16, i17) == by_id_json(l.subs())
            &&& s.subrange(i17, i18) == "},\"subcategories_by_name\":{"@
            &&& s.subrange(i18, i19) == by_name_json(l.subs())
            &&& s.subrange(i19, i20) == "},\"version\":"@
            &&& s.subrange(i20, i21) == nat_digits(l.version as int)
            &&& s.subrange(i21, i21 + 1) == "}"@
            &&& i21 + 1 == s.len()
        }),
{
    let p14 = records_json(l.recs());
    let l15 = "],\"subcategories_by_id\":{"@;
    let p16 = by_id_json(l.subs());
    let l17 = "},\"subcategories_by_name\":{"@;
    let p18 = by_name_json(l.subs());
    let l19 = "},\"version\":"@;
    let p20 = nat_digits(l.version as int);
    let l21 = "}"@;
    let c20 = p14 + l15 + p16 + l17 + p18 + l19 + p20;
    let c19 = p14 + l15 + p16 + l17 + p18 + l19;
    let c18 = p14 + l15 + p16 + l17 + p18;
    let c17 = p14 + l15 + p16 + l17;
    let c16 = p14 + l15 + p16;
    let c15 = p14 + l15;
    reveal_strlit("}");
    lemma_concat_sub(s, i, c20, l21);
    lemma_concat_sub(s, i, c19, p20);
    lemma_concat_sub(s, i, c18, l19);
    lemma_concat_sub(s, i, c17, p18);
    lemma_concat_sub(s, i, c16, l17);
    lemma_concat_sub(s, i, c15, p16);
    lemma_concat_sub(s, i, p14, l15);
}

/// Parsing the container tail of a rendered document: the record list, the
/// two maps, and the version.
#[verifier::rlimit(100)]
proof fn lemma_parse_tracker_tail_at(s: Seq<char>, i: int, l: TrackerData, tail: Seq<char>)
    requires
        0 <= i,
        tail == records_json(l.recs()) + "],\"subcategories_by_id\":{"@ + by_id_json(l.subs())
            + "},\"subcategories_by_name\":{"@ + by_name_json(l.subs()) + "},\"version\":"@
            + nat_digits(l.version as int) + "}"@,
        i + tail.len() == s.len(),
        s.subrange(i, s.len() as int) == tail,
    ensures
        ({
            let i15 = i + records_json(l.recs()).len();
            &&& sp_tracker_tail(
                s,
                i15 + 1,
                l.created_at@,
                currency_code_spec(l.currency),
                l.last_modified@,
                l.next_record_id as int,
                l.next_subcategory_id as int,
                l.opening_balance as int,
                recs_parts_seq(l.records@),
            ) == Some(expected_doc(l))
            &&& sp_records(s, i) == Some((recs_parts_seq(l.records@), i15 + 1))
        }),
{
    lemma_tail_pieces(s, i, l, tail);
    let p14 = records_json(l.recs());
    let l15 = "],\"subcategories_by_id\":{"@;
    let p16 = by_id_json(l.subs());
    let l17 = "},\"subcategories_by_name\":{"@;
    let p18 = by_name_json(l.subs());
    let l19 = "},\"version\":"@;
    let p20 = nat_digits(l.version as int);
    reveal_strlit("],\"subcategories_by_id\":{");
    reveal_strlit(",\"subcategories_by_id\":{");
    reveal_strlit("},\"subcategories_by_name\":{");
    reveal_strlit(",\"subcategories_by_name\":{");
    reveal_strlit("},\"version\":");
    reveal_strlit(",\"version\":");
    reveal_strlit("}");
    let i15 = i + p14.len();
    let i16 = i15 + l15.len();
    let i17 = i16 + p16.len();
    let i18 = i17 + l17.len();
    let i19 = i18 + p18.len();
    let i20 = i19 + l19.len();
    let i21 = i20 + p20.len();
    let end = i21 + 1;
    // the list literals open with the list terminators
    let l15b = ",\"subcategories_by_id\":{"@;
    assert(l15 =~= seq![']'] + l15b);
    lemma_concat_sub(s, i15, seq![']'], l15b);
    assert(s[i15] == ']') by {
        assert(s.subrange(i15, i15 + 1)[0] == s[i15]);
    }
    lemma_parse_records_at(s, i, l.recs());
    let l17b = ",\"subcategories_by_name\":{"@;
    assert(l17 =~= seq!['}'] + l17b);
    lemma_concat_sub(s, i17, seq!['}'], l17b);
    assert(s[i17] == '}') by {
        assert(s.subrange(i17, i17 + 1)[0] == s[i17]);
    }
    lemma_parse_by_id_at(s, i16, l.subs());
    let l19b = ",\"version\":"@;
    assert(l19 =~= seq!['}'] + l19b);
    lemma_concat_sub(s, i19, seq!['}'], l19b);
    assert(s[i19] == '}') by {
        assert(s.subrange(i19, i19 + 1)[0] == s[i19]);
    }
    lemma_parse_by_name_at(s, i18, l.subs());
    assert(s[i21] == '}') by {
        assert(s.subrange(i21, end)[0] == s[i21]);
    }
    lemma_parse_nat_at(s, i20, l.version as int, u32::MAX as int);
    assert(sp_lit(s, i21, "}"@) == Some(end));
}


pub open spec fn doc_head(l: TrackerData) -> Seq<char> {
    "{\"categories\":{\"expenses\":2,\"income\":1},\"created_at\":"@ + json_string(
        l.created_at@,
    ) + ",\"currency\":"@ + json_string(currency_code_spec(l.currency)) + ",\"last_modified\":"@
        + json_string(l.last_modified@) + ",\"next_record_id\":"@ + nat_digits(
        l.next_record_id as int,
    ) + ",\"next_subcategory_id\":"@ + nat_digits(l.next_subcategory_id as int)
        + ",\"opening_balance\":"@ + cents_json(l.opening_balance as int) + ",\"records\":["@
}

pub open spec fn doc_tail(l: TrackerData) -> Seq<char> {
    records_json(l.recs()) + "],\"subcategories_by_id\":{"@ + by_id_json(l.subs())
        + "},\"subcategories_by_name\":{"@ + by_name_json(l.subs()) + "},\"version\":"@
        + nat_digits(l.version as int) + "}"@
}

#[verifier::rlimit(100)]
proof fn lemma_render_split(l: TrackerData)
    ensures
        render_tracker_spec(l) == doc_head(l) + doc_tail(l),
        render_tracker_spec(l).len() == doc_head(l).len() + doc_tail(l).len(),
{
    assert(render_tracker_spec(l) =~= doc_head(l) + doc_tail(l));
}

/// The grammar maps a rendered document back to the ledger's raw values.
#[verifier::rlimit(100)]
proof fn lemma_parse_rendered(l: TrackerData)
    ensures
        sp_tracker(render_tracker_spec(l)) == Some(expected_doc(l)),
{
    let s = render_tracker_spec(l);
    lemma_render_split(l);
    assert(s.subrange(0, s.len() as int) =~= s);
    lemma_concat_sub(s, 0, doc_head(l), doc_tail(l));
    lemma_parse_tracker_head(s, l, doc_head(l));
    lemma_parse_tracker_tail_at(s, doc_head(l).len() as int, l, doc_tail(l));
}

/// The round trip at the heart of the persistence boundary: parsing the
/// rendered document of a well-formed ledger succeeds, passes the
/// validation, and returns exactly the ledger's values.
pub proof fn lemma_tracker_round_trip(l: TrackerData)
    requires
        l.wf(),
    ensures
        parse_accepts(render_tracker_spec(l)),
        sp_tracker(render_tracker_spec(l)) matches Some(d) && corresponds(l, d) && doc_ok(d),
{
    lemma_parse_rendered(l);
    let s = render_tracker_spec(l);
    let d = expected_doc(l);
    assert(sp_tracker(s) == Some(d));
    lemma_currency_code_round(l.currency);
    assert(corresponds(l, d));
    assert(by_name_aligned(d)) by {
        assert forall|k: int| 0 <= k < d.by_id.len() implies (#[trigger] d.by_name[k]).0
            == lower_seq(d.by_id[k].1) && d.by_name[k].1 == d.by_id[k].0 by {
            assert(d.by_name[k] == (lower_seq(l.subcategories@[k].name@), l.subcategories@[
                k
            ].id as int));
            assert(d.by_id[k] == (l.subcategories@[k].id as int, l.subcategories@[k].name@));
        }
    }
    lemma_wf_bridge(l, d);
}

} // verus!
