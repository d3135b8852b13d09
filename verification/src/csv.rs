use vstd::prelude::*;
use vstd::string::*;
use crate::amount::{cents_display, render_cents_display};
use crate::ledger::{TrackerData, find_name_by_id};
use crate::model::{Record, currency_code_spec};
use crate::text::push_char;

verus! {

/// One description character as it appears in a CSV cell: doubled quotes,
/// and line breaks flattened to spaces.
pub open spec fn csv_esc_char(c: char) -> Seq<char> {
    if c == '"' {
        seq!['"', '"']
    } else if c == '\n' || c == '\r' {
        seq![' ']
    } else {
        seq![c]
    }
}

pub open spec fn csv_esc(s: Seq<char>) -> Seq<char>
    decreases s.len(),
{
    if s.len() == 0 {
        Seq::<char>::empty()
    } else {
        csv_esc(s.drop_last()) + csv_esc_char(s.last())
    }
}

pub open spec fn csv_cat_name(cid: usize) -> Seq<char> {
    if cid == 1 {
        "income"@
    } else if cid == 2 {
        "expenses"@
    } else {
        "Unknown"@
    }
}

pub open spec fn csv_sub_name(l: TrackerData, sid: usize) -> Seq<char> {
    match find_name_by_id(l.subs(), sid) {
        Some(n) => n,
        None => "Unknown"@,
    }
}

/// One CSV data row:
/// `id,category,subcategory,amount,currency,date,"description"` with a
/// trailing newline.
pub open spec fn csv_row(l: TrackerData, r: Record) -> Seq<char> {
    crate::amount::nat_digits(r.id as int) + seq![','] + csv_cat_name(r.category) + seq![',']
        + csv_sub_name(l, r.subcategory) + seq![','] + cents_display(r.amount as int) + seq![
        ',',
    ] + currency_code_spec(l.currency) + seq![','] + r.date@ + seq![',', '"'] + csv_esc(
        r.description@,
    ) + seq!['"', '\n']
}

pub open spec fn csv_rows(l: TrackerData, rs: Seq<Record>) -> Seq<char>
    decreases rs.len(),
{
    if rs.len() == 0 {
        Seq::<char>::empty()
    } else {
        csv_rows(l, rs.drop_last()) + csv_row(l, rs.last())
    }
}

/// The whole export: a header line, then one row per record in ledger
/// order.
pub open spec fn csv_spec(l: TrackerData) -> Seq<char> {
    "ID,Category,Subcategory,Amount,Currency,Date,Description\n"@ + csv_rows(l, l.recs())
}

fn push_str(out: &mut String, s: &str)
    ensures
        final(out)@ == old(out)@ + s@,
{
    out.append(s);
}

fn push_csv_esc(out: &mut String, s: &str)
    ensures
        final(out)@ == old(out)@ + csv_esc(s@),
{
    let n: usize = s.unicode_len();
    let mut i: usize = 0;
    while i < n
        invariant
            n == s@.len(),
            0 <= i <= n,
            out@ == old(out)@ + csv_esc(s@.subrange(0, i as int)),
        decreases n - i,
    {
        let ghost pre = out@;
        let c = s.get_char(i);
        if c == '"' {
            push_char(out, '"');
            push_char(out, '"');
        } else if c == '\n' || c == '\r' {
            push_char(out, ' ');
        } else {
            push_char(out, c);
        }
        proof {
            assert(s@.subrange(0, i + 1 as int).drop_last() =~= s@.subrange(0, i as int));
            assert(s@.subrange(0, i + 1 as int).last() == s@[i as int]);
            assert(out@ =~= pre + csv_esc_char(s@[i as int]));
            assert(pre + csv_esc_char(s@[i as int]) =~= old(out)@ + csv_esc(
                s@.subrange(0, i + 1 as int),
            ));
        }
        i = i + 1;
    }
    proof {
        assert(s@.subrange(0, n as int) =~= s@);
    }
}

impl TrackerData {
    /// Renders the records as the CSV export document.
    #[verifier::rlimit(60)]
    pub fn render_csv(&self) -> (r: String)
        ensures
            r@ == csv_spec(*self),
    {
        let mut out = String::new();
        push_str(&mut out, "ID,Category,Subcategory,Amount,Currency,Date,Description\n");
        proof {
            assert(out@ =~= "ID,Category,Subcategory,Amount,Currency,Date,Description\n"@);
        }
        let code = self.currency.code();
        let n = self.records.len();
        let mut i: usize = 0;
        while i < n
            invariant
                n == self.recs().len(),
                0 <= i <= n,
                code@ == currency_code_spec(self.currency),
                out@ == "ID,Category,Subcategory,Amount,Currency,Date,Description\n"@ + csv_rows(
                    *self,
                    self.recs().take(i as int),
                ),
            decreases n - i,
        {
            proof {
                assert(self.recs().take(i + 1 as int).drop_last() =~= self.recs().take(i as int));
                assert(self.recs().take(i + 1 as int).last() == self.recs()[i as int]);
            }
            let ghost pre = out@;
            let rec = &self.records[i];
            push_digits(&mut out, rec.id);
            push_char(&mut out, ',');
            match self.category_name(rec.category) {
                Some(name) => push_str(&mut out, name.as_str()),
                None => push_str(&mut out, "Unknown"),
            }
            push_char(&mut out, ',');
            match self.subcategory_name(rec.subcategory) {
                Some(name) => push_str(&mut out, name.as_str()),
                None => push_str(&mut out, "Unknown"),
            }
            push_char(&mut out, ',');
            let amt = render_cents_display(rec.amount);
            push_str(&mut out, amt.as_str());
            push_char(&mut out, ',');
            push_str(&mut out, code.as_str());
            push_char(&mut out, ',');
            push_str(&mut out, rec.date.as_str());
            push_char(&mut out, ',');
            push_char(&mut out, '"');
            push_csv_esc(&mut out, rec.description.as_str());
            push_char(&mut out, '"');
            push_char(&mut out, '\n');
            proof {
                assert(out@ =~= pre + csv_row(*self, self.recs()[i as int]));
                assert(pre + csv_row(*self, self.recs()[i as int]) =~=
                    "ID,Category,Subcategory,Amount,Currency,Date,Description\n"@ + csv_rows(
                    *self,
                    self.recs().take(i + 1 as int),
                ));
            }
            i = i + 1;
        }
        proof {
            assert(self.recs().take(n as int) =~= self.recs());
        }
        out
    }
}

fn push_digits(out: &mut String, n: usize)
    ensures
        final(out)@ == old(out)@ + crate::amount::nat_digits(n as int),
{
    crate::amount::push_digits(out, n as u128);
}

} // verus!
