use vstd::prelude::*;
use vstd::string::*;
use crate::date::{Date, date_parse, date_le, date_render, parse_date, render_date};
use crate::ledger::{
    MAX_AMOUNT, TrackerData, count_subcat, expenses_sum, find_id_by_lower, income_sum,
};
use crate::model::{Category, Currency, Record, Subcategory};
use crate::ops::retained;
use crate::text::lower_seq;

verus! {

/// The optional list filters: a record passes only if every supplied filter
/// matches. `first` and `last` are applied after sorting and are mutually
/// exclusive (`first` wins when both are supplied).
#[derive(Debug)]
pub struct ListFilter {
    pub first: Option<usize>,
    pub last: Option<usize>,
    pub start: Option<Date>,
    pub end: Option<Date>,
    pub category: Option<Category>,
    pub subcategory: Option<String>,
}

/// The subcategory id a filter restricts to; a name that does not resolve
/// restricts nothing.
pub open spec fn subcat_filter_of(l: TrackerData, f: ListFilter) -> Option<usize> {
    match f.subcategory {
        Some(s) => find_id_by_lower(l.subs(), lower_seq(s@)),
        None => None,
    }
}

/// The sort key of a record: its parsed date, with unparseable dates below
/// every real date.
pub open spec fn sort_key(r: Record) -> int {
    match date_parse(r.date@) {
        Some(d) => d.key(),
        None => -1,
    }
}

/// The list predicate: category and subcategory filters when supplied, and
/// a date that parses and lies within the supplied bounds. A record whose
/// date does not parse never appears in a listing.
pub open spec fn list_pass(l: TrackerData, f: ListFilter, r: Record) -> bool {
    &&& (match f.category {
        Some(c) => r.category == c.id_spec(),
        None => true,
    })
    &&& (match subcat_filter_of(l, f) {
        Some(id) => r.subcategory == id,
        None => true,
    })
    &&& (match date_parse(r.date@) {
        Some(d) => (match f.start {
            Some(s) => s.key() <= d.key(),
            None => true,
        }) && (match f.end {
            Some(e) => d.key() <= e.key(),
            None => true,
        }),
        None => false,
    })
}

pub open spec fn list_keep(l: TrackerData, f: ListFilter) -> spec_fn(Record) -> bool {
    |r: Record| list_pass(l, f, r)
}

/// Insertion after every element whose key is not above the new one, so
/// that equal keys keep their arrival order.
pub open spec fn insert_sorted(s: Seq<Record>, x: Record) -> Seq<Record>
    decreases s.len(),
{
    if s.len() == 0 {
        seq![x]
    } else if sort_key(s.last()) <= sort_key(x) {
        s.push(x)
    } else {
        insert_sorted(s.drop_last(), x).push(s.last())
    }
}

/// Stable sort by date, ascending: records are inserted left to right.
pub open spec fn stable_sort(s: Seq<Record>) -> Seq<Record>
    decreases s.len(),
{
    if s.len() == 0 {
        Seq::<Record>::empty()
    } else {
        insert_sorted(stable_sort(s.drop_last()), s.last())
    }
}

pub open spec fn sorted_by_date(s: Seq<Record>) -> bool {
    forall|i: int, j: int| 0 <= i < j < s.len() ==> sort_key(s[i]) <= sort_key(s[j])
}

/// The first/last truncation, applied to the sorted sequence. A supplied
/// `first` wins over `last`; zero or an over-large count changes nothing.
pub open spec fn apply_limits(s: Seq<Record>, f: ListFilter) -> Seq<Record> {
    if f.first is Some {
        let n = f.first->Some_0 as int;
        if n > 0 && n < s.len() {
            s.take(n)
        } else {
            s
        }
    } else if f.last is Some {
        let n = f.last->Some_0 as int;
        if n > 0 && n < s.len() {
            s.skip(s.len() - n)
        } else {
            s
        }
    } else {
        s
    }
}

/// Inserting splits the sequence at the found position.
proof fn lemma_insert_at(s: Seq<Record>, x: Record, j: int)
    requires
        0 <= j <= s.len(),
        forall|m: int| j <= m < s.len() ==> sort_key(#[trigger] s[m]) > sort_key(x),
        j > 0 ==> sort_key(s[j - 1]) <= sort_key(x),
    ensures
        insert_sorted(s, x) == s.take(j) + seq![x] + s.skip(j),
    decreases s.len(),
{
    if s.len() == 0 {
        assert(insert_sorted(s, x) =~= s.take(j) + seq![x] + s.skip(j));
    } else if j == s.len() {
        assert(insert_sorted(s, x) == s.push(x));
        assert(s.push(x) =~= s.take(j) + seq![x] + s.skip(j));
    } else {
        assert(sort_key(s.last()) > sort_key(x));
        lemma_insert_at(s.drop_last(), x, j);
        assert(insert_sorted(s, x) == insert_sorted(s.drop_last(), x).push(s.last()));
        assert((s.drop_last().take(j) + seq![x] + s.drop_last().skip(j)).push(s.last()) =~= s.take(
            j,
        ) + seq![x] + s.skip(j));
    }
}

/// The sort returns a sorted permutation of its input.
pub proof fn lemma_stable_sort_props(s: Seq<Record>)
    ensures
        sorted_by_date(stable_sort(s)),
        stable_sort(s).to_multiset() == s.to_multiset(),
        stable_sort(s).len() == s.len(),
    decreases s.len(),
{
    if s.len() == 0 {
        assert(stable_sort(s) =~= s);
    } else {
        lemma_stable_sort_props(s.drop_last());
        lemma_insert_sorted_props(stable_sort(s.drop_last()), s.last());
        assert(s.drop_last().push(s.last()) =~= s);
        s.drop_last().to_multiset_ensures();
        assert(s.drop_last().to_multiset().insert(s.last()) == s.to_multiset());
    }
}

proof fn lemma_insert_sorted_props(s: Seq<Record>, x: Record)
    requires
        sorted_by_date(s),
    ensures
        sorted_by_date(insert_sorted(s, x)),
        insert_sorted(s, x).to_multiset() == s.to_multiset().insert(x),
        insert_sorted(s, x).len() == s.len() + 1,
    decreases s.len(),
{
    let out = insert_sorted(s, x);
    if s.len() == 0 {
        assert(s =~= Seq::<Record>::empty());
        assert(out =~= s.push(x));
        s.to_multiset_ensures();
        assert(out.to_multiset() == s.to_multiset().insert(x));
    } else if sort_key(s.last()) <= sort_key(x) {
        assert(out == s.push(x));
        s.to_multiset_ensures();
        assert forall|i: int, j: int|
            0 <= i < j < out.len() implies sort_key(out[i]) <= sort_key(out[j]) by {
            if j < out.len() - 1 {
                assert(out[i] == s[i] && out[j] == s[j]);
            } else {
                assert(out[j] == x);
                if i < s.len() - 1 {
                    assert(sort_key(s[i]) <= sort_key(s[s.len() - 1]));
                }
            }
        }
    } else {
        assert(sorted_by_date(s.drop_last())) by {
            assert(forall|i: int|
                0 <= i < s.len() - 1 ==> #[trigger] s.drop_last()[i] == s[i]);
        }
        lemma_insert_sorted_props(s.drop_last(), x);
        let inner = insert_sorted(s.drop_last(), x);
        assert(out == inner.push(s.last()));
        inner.to_multiset_ensures();
        s.drop_last().to_multiset_ensures();
        assert(s.drop_last().push(s.last()) =~= s);
        assert(out.to_multiset() == s.to_multiset().insert(x)) by {
            assert(inner.to_multiset() == s.drop_last().to_multiset().insert(x));
            assert(out.to_multiset() == inner.to_multiset().insert(s.last()));
            assert(s.to_multiset() == s.drop_last().to_multiset().insert(s.last()));
            assert(s.drop_last().to_multiset().insert(x).insert(s.last()) =~= s.drop_last()
                .to_multiset().insert(s.last()).insert(x));
        }
        // sortedness: every element of inner is either x or from s.drop_last(),
        // and all of them sort at or below s.last()
        assert forall|i: int, j: int|
            0 <= i < j < out.len() implies sort_key(out[i]) <= sort_key(out[j]) by {
            if j < out.len() - 1 {
                assert(out[i] == inner[i] && out[j] == inner[j]);
            } else {
                assert(out[j] == s.last());
                assert(out[i] == inner[i]);
                lemma_insert_sorted_members(s.drop_last(), x, i);
            }
        }
    }
}

/// Every element of an insertion result is the inserted element or one of
/// the originals.
proof fn lemma_insert_sorted_members(s: Seq<Record>, x: Record, i: int)
    requires
        0 <= i < insert_sorted(s, x).len(),
    ensures
        insert_sorted(s, x)[i] == x || exists|m: int|
            0 <= m < s.len() && #[trigger] s[m] == insert_sorted(s, x)[i],
    decreases s.len(),
{
    let out = insert_sorted(s, x);
    if s.len() == 0 {
    } else if sort_key(s.last()) <= sort_key(x) {
        if i < s.len() {
            assert(s[i] == out[i]);
        }
    } else {
        if i == out.len() - 1 {
            assert(out[i] == s.last());
            assert(s[s.len() - 1] == out[i]);
        } else {
            lemma_insert_sorted_members(s.drop_last(), x, i);
            if exists|m: int|
                0 <= m < s.drop_last().len() && #[trigger] s.drop_last()[m] == insert_sorted(
                    s.drop_last(),
                    x,
                )[i] {
                let m = choose|m: int|
                    0 <= m < s.drop_last().len() && #[trigger] s.drop_last()[m]
                        == insert_sorted(s.drop_last(), x)[i];
                assert(s[m] == out[i]);
            }
        }
    }
}

fn rec_key(r: &Record) -> (k: i64)
    ensures
        k == sort_key(*r),
{
    match parse_date(r.date.as_str()) {
        Some(d) => {
            (d.year as i64) * 10000 + (d.month as i64) * 100 + (d.day as i64)
        },
        None => -1,
    }
}

/// Inserts a record into its sorted position, after any equal keys.
fn insert_record_sorted(out: &mut Vec<Record>, x: Record)
    ensures
        final(out)@ == insert_sorted(old(out)@, x),
{
    let mut j: usize = out.len();
    let xk = rec_key(&x);
    let mut done = false;
    while j > 0 && !done
        invariant
            0 <= j <= out@.len(),
            xk == sort_key(x),
            forall|m: int| j <= m < out@.len() ==> sort_key(#[trigger] out@[m]) > sort_key(x),
            done ==> j > 0 && sort_key(out@[j - 1]) <= sort_key(x),
        decreases j + (if done { 0int } else { 1int }),
    {
        if rec_key(&out[j - 1]) > xk {
            j = j - 1;
        } else {
            done = true;
        }
    }
    proof {
        lemma_insert_at(out@, x, j as int);
    }
    out.insert(j, x);
    proof {
        assert(final(out)@ =~= old(out)@.take(j as int) + seq![x] + old(out)@.skip(j as int));
        assert(old(out)@.insert(j as int, x) =~= old(out)@.take(j as int) + seq![x] + old(
            out,
        )@.skip(j as int));
    }
}

impl TrackerData {
    /// The list query: filters, sorts ascending by date (stable), then
    /// applies the first/last limit.
    pub fn list_records(&self, f: &ListFilter) -> (r: Vec<Record>)
        ensures
            r@ == apply_limits(stable_sort(retained(self.recs(), list_keep(*self, *f))), *f),
    {
        let subf: Option<usize> = match &f.subcategory {
            Some(s) => {
                let low = crate::text::to_lowercase(s.as_str());
                self.subcategory_id(low.as_str())
            },
            None => None,
        };
        let n = self.records.len();
        let mut kept: Vec<Record> = Vec::new();
        let mut i: usize = 0;
        while i < n
            invariant
                n == self.recs().len(),
                0 <= i <= n,
                subf == subcat_filter_of(*self, *f),
                kept@ == retained(self.recs().take(i as int), list_keep(*self, *f)),
            decreases n - i,
        {
            proof {
                assert(self.recs().take(i + 1 as int).drop_last() =~= self.recs().take(i as int));
                assert(self.recs().take(i + 1 as int).last() == self.recs()[i as int]);
            }
            let rec = &self.records[i];
            let cat_ok = match &f.category {
                Some(c) => rec.category == c.id(),
                None => true,
            };
            let sub_ok = match subf {
                Some(id) => rec.subcategory == id,
                None => true,
            };
            let date_ok = match parse_date(rec.date.as_str()) {
                Some(d) => {
                    let start_ok = match &f.start {
                        Some(s) => date_le(s, &d),
                        None => true,
                    };
                    let end_ok = match &f.end {
                        Some(e) => date_le(&d, e),
                        None => true,
                    };
                    start_ok && end_ok
                },
                None => false,
            };
            if cat_ok && sub_ok && date_ok {
                let c = rec.clone();
                kept.push(c);
            }
            proof {
                assert((cat_ok && sub_ok && date_ok) == list_pass(*self, *f, self.recs()[
                    i as int
                ]));
            }
            i = i + 1;
        }
        proof {
            assert(self.recs().take(n as int) =~= self.recs());
        }
        let m = kept.len();
        let mut sorted: Vec<Record> = Vec::new();
        let mut i: usize = 0;
        while i < m
            invariant
                m == kept@.len(),
                0 <= i <= m,
                sorted@ == stable_sort(kept@.take(i as int)),
            decreases m - i,
        {
            proof {
                assert(kept@.take(i + 1 as int).drop_last() =~= kept@.take(i as int));
                assert(kept@.take(i + 1 as int).last() == kept@[i as int]);
            }
            let x = kept[i].clone();
            insert_record_sorted(&mut sorted, x);
            i = i + 1;
        }
        proof {
            assert(kept@.take(m as int) =~= kept@);
        }
        // first/last limit
        if let Some(first) = first_of(f) {
            if first > 0 && first < sorted.len() {
                sorted.truncate(first);
                proof {
                    assert(sorted@ =~= apply_limits(
                        stable_sort(retained(self.recs(), list_keep(*self, *f))),
                        *f,
                    ));
                }
            }
            return sorted;
        }
        if let Some(last) = last_of(f) {
            if last > 0 && last < sorted.len() {
                let start = sorted.len() - last;
                let mut tail: Vec<Record> = Vec::new();
                let mut i: usize = start;
                while i < sorted.len()
                    invariant
                        start <= i <= sorted@.len(),
                        start == sorted@.len() - last,
                        0 < last < sorted@.len(),
                        tail@ == sorted@.subrange(start as int, i as int),
                    decreases sorted@.len() - i,
                {
                    let x = sorted[i].clone();
                    tail.push(x);
                    proof {
                        assert(sorted@.subrange(start as int, i + 1 as int) =~= sorted@.subrange(
                            start as int,
                            i as int,
                        ).push(sorted@[i as int]));
                    }
                    i = i + 1;
                }
                proof {
                    assert(tail@ =~= sorted@.skip(start as int));
                }
                return tail;
            }
            return sorted;
        }
        sorted
    }
}

fn first_of(f: &ListFilter) -> (r: Option<usize>)
    ensures
        r == f.first,
{
    match f.first {
        Some(n) => Some(n),
        None => None,
    }
}

fn last_of(f: &ListFilter) -> (r: Option<usize>)
    ensures
        r == f.last,
{
    match f.last {
        Some(n) => Some(n),
        None => None,
    }
}

/// The upper bound, in cents, on any sum of record amounts: the record
/// count can never exceed the address space, and each amount is capped.
pub const MAX_TOTAL_CENTS: i128 = 1_000_000_000_000_000 * 18_446_744_073_709_551_615;

/// The three totals the `total` command reports, in cents.
#[derive(Debug, Clone, PartialEq, Eq)]
pub struct Total {
    pub currency: Currency,
    pub opening_balance: i64,
    pub income_total: i128,
    pub expenses_total: i128,
}

impl Total {
    /// The net balance: opening balance plus income minus expenses.
    pub fn total(&self) -> (r: i128)
        requires
            0 <= self.income_total <= MAX_TOTAL_CENTS,
            0 <= self.expenses_total <= MAX_TOTAL_CENTS,
        ensures
            r == self.opening_balance + self.income_total - self.expenses_total,
    {
        self.opening_balance as i128 + self.income_total - self.expenses_total
    }
}

/// Sum, in cents, of all record amounts.
pub open spec fn amount_sum(rs: Seq<Record>) -> int
    decreases rs.len(),
{
    if rs.len() == 0 {
        0
    } else {
        amount_sum(rs.drop_last()) + rs.last().amount as int
    }
}

/// Earliest parseable record date; records whose dates do not parse are
/// ignored.
pub open spec fn min_date(rs: Seq<Record>) -> Option<Date>
    decreases rs.len(),
{
    if rs.len() == 0 {
        None
    } else {
        let rest = min_date(rs.drop_last());
        match date_parse(rs.last().date@) {
            Some(d) => match rest {
                Some(m) => if d.key() < m.key() {
                    Some(d)
                } else {
                    Some(m)
                },
                None => Some(d),
            },
            None => rest,
        }
    }
}

/// Latest parseable record date.
pub open spec fn max_date(rs: Seq<Record>) -> Option<Date>
    decreases rs.len(),
{
    if rs.len() == 0 {
        None
    } else {
        let rest = max_date(rs.drop_last());
        match date_parse(rs.last().date@) {
            Some(d) => match rest {
                Some(m) => if d.key() > m.key() {
                    Some(d)
                } else {
                    Some(m)
                },
                None => Some(d),
            },
            None => rest,
        }
    }
}

proof fn lemma_min_max_date_wf(rs: Seq<Record>)
    ensures
        min_date(rs) matches Some(d) ==> d.wf(),
        max_date(rs) matches Some(d) ==> d.wf(),
        (min_date(rs) is Some) == (max_date(rs) is Some),
    decreases rs.len(),
{
    if rs.len() > 0 {
        lemma_min_max_date_wf(rs.drop_last());
    }
}

pub open spec fn count_cat(rs: Seq<Record>, cid: usize) -> int
    decreases rs.len(),
{
    if rs.len() == 0 {
        0int
    } else {
        count_cat(rs.drop_last(), cid) + if rs.last().category == cid {
            1int
        } else {
            0int
        }
    }
}

pub open spec fn sum_cat(rs: Seq<Record>, cid: usize) -> int
    decreases rs.len(),
{
    if rs.len() == 0 {
        0
    } else {
        sum_cat(rs.drop_last(), cid) + if rs.last().category == cid {
            rs.last().amount as int
        } else {
            0
        }
    }
}

pub open spec fn sum_subcat(rs: Seq<Record>, sid: usize) -> int
    decreases rs.len(),
{
    if rs.len() == 0 {
        0
    } else {
        sum_subcat(rs.drop_last(), sid) + if rs.last().subcategory == sid {
            rs.last().amount as int
        } else {
            0
        }
    }
}

/// The abstract value of one breakdown row: name, record count, amount sum.
pub open spec fn entry_view(e: (String, usize, i128)) -> (Seq<char>, int, int) {
    (e.0@, e.1 as int, e.2 as int)
}

pub open spec fn entries_view(s: Seq<(String, usize, i128)>) -> Seq<(Seq<char>, int, int)> {
    s.map_values(|e: (String, usize, i128)| entry_view(e))
}

/// Insertion below every row whose sum is not below the new one: rows with
/// equal sums keep their arrival order.
pub open spec fn insert_desc(s: Seq<(Seq<char>, int, int)>, x: (Seq<char>, int, int)) -> Seq<
    (Seq<char>, int, int),
>
    decreases s.len(),
{
    if s.len() == 0 {
        seq![x]
    } else if s.last().2 >= x.2 {
        s.push(x)
    } else {
        insert_desc(s.drop_last(), x).push(s.last())
    }
}

/// Stable sort by sum, descending.
pub open spec fn sort_desc(s: Seq<(Seq<char>, int, int)>) -> Seq<(Seq<char>, int, int)>
    decreases s.len(),
{
    if s.len() == 0 {
        Seq::<(Seq<char>, int, int)>::empty()
    } else {
        insert_desc(sort_desc(s.drop_last()), s.last())
    }
}

/// The unsorted per-category rows, income first, categories with no
/// records omitted.
pub open spec fn cat_entries(l: TrackerData) -> Seq<(Seq<char>, int, int)> {
    (if count_cat(l.recs(), 1) > 0 {
        seq![("income"@, count_cat(l.recs(), 1), sum_cat(l.recs(), 1))]
    } else {
        Seq::<(Seq<char>, int, int)>::empty()
    }) + (if count_cat(l.recs(), 2) > 0 {
        seq![("expenses"@, count_cat(l.recs(), 2), sum_cat(l.recs(), 2))]
    } else {
        Seq::<(Seq<char>, int, int)>::empty()
    })
}

/// The unsorted per-subcategory rows, in table order, subcategories with
/// no records omitted.
pub open spec fn sub_entries_from(l: TrackerData, subs: Seq<Subcategory>) -> Seq<
    (Seq<char>, int, int),
>
    decreases subs.len(),
{
    if subs.len() == 0 {
        Seq::<(Seq<char>, int, int)>::empty()
    } else {
        (if count_subcat(l.recs(), subs[0].id) > 0 {
            seq![
                (
                    subs[0].name@,
                    count_subcat(l.recs(), subs[0].id),
                    sum_subcat(l.recs(), subs[0].id),
                ),
            ]
        } else {
            Seq::<(Seq<char>, int, int)>::empty()
        }) + sub_entries_from(l, subs.drop_first())
    }
}

pub open spec fn sub_entries(l: TrackerData) -> Seq<(Seq<char>, int, int)> {
    sub_entries_from(l, l.subs())
}

/// The statistics the `describe` command reports. Monetary fields are in
/// cents; the average is the floor of the exact quotient.
#[derive(Debug)]
pub struct DescribeData {
    pub total_records: usize,
    /// `(earliest, latest)` in display format, over the records whose dates
    /// parse; absent when none do.
    pub date_range: Option<(String, String)>,
    /// `(name, count, total)` rows sorted by total, largest first.
    pub by_category: Vec<(String, usize, i128)>,
    pub by_subcategory: Vec<(String, usize, i128)>,
    pub average_transaction: i128,
    pub currency: Currency,
}

/// Inserting splits the row sequence at the found position.
proof fn lemma_insert_desc_at(s: Seq<(Seq<char>, int, int)>, x: (Seq<char>, int, int), j: int)
    requires
        0 <= j <= s.len(),
        forall|m: int| j <= m < s.len() ==> (#[trigger] s[m]).2 < x.2,
        j > 0 ==> s[j - 1].2 >= x.2,
    ensures
        insert_desc(s, x) == s.take(j) + seq![x] + s.skip(j),
    decreases s.len(),
{
    if s.len() == 0 {
        assert(insert_desc(s, x) =~= s.take(j) + seq![x] + s.skip(j));
    } else if j == s.len() {
        assert(insert_desc(s, x) == s.push(x));
        assert(s.push(x) =~= s.take(j) + seq![x] + s.skip(j));
    } else {
        assert(s.last().2 < x.2);
        lemma_insert_desc_at(s.drop_last(), x, j);
        assert(insert_desc(s, x) == insert_desc(s.drop_last(), x).push(s.last()));
        assert((s.drop_last().take(j) + seq![x] + s.drop_last().skip(j)).push(s.last()) =~= s.take(
            j,
        ) + seq![x] + s.skip(j));
    }
}

fn clone_entry(e: &(String, usize, i128)) -> (r: (String, usize, i128))
    ensures
        r == *e,
{
    (e.0.clone(), e.1, e.2)
}

/// Inserts a breakdown row into its position in a sum-descending vector,
/// after any rows with the same sum.
fn insert_entry_desc(out: &mut Vec<(String, usize, i128)>, x: (String, usize, i128))
    ensures
        entries_view(final(out)@) == insert_desc(entries_view(old(out)@), entry_view(x)),
{
    let mut j: usize = out.len();
    let mut done = false;
    while j > 0 && !done
        invariant
            0 <= j <= out@.len(),
            forall|m: int|
                j <= m < out@.len() ==> (#[trigger] entries_view(out@)[m]).2 < entry_view(x).2,
            done ==> j > 0 && entries_view(out@)[j - 1].2 >= entry_view(x).2,
        decreases j + (if done { 0int } else { 1int }),
    {
        if out[j - 1].2 < x.2 {
            j = j - 1;
        } else {
            done = true;
        }
    }
    proof {
        lemma_insert_desc_at(entries_view(out@), entry_view(x), j as int);
    }
    out.insert(j, x);
    proof {
        let v0 = entries_view(old(out)@);
        assert(entries_view(final(out)@) =~= v0.take(j as int) + seq![entry_view(x)] + v0.skip(
            j as int,
        ));
    }
}

impl TrackerData {
    /// Sum, in cents, of the amounts of the records in one subcategory.
    pub fn sum_records_for_subcategory(&self, id: usize) -> (r: i128)
        requires
            self.wf(),
        ensures
            r == sum_subcat(self.recs(), id),
            0 <= r <= self.recs().len() * MAX_AMOUNT,
    {
        let n = self.records.len();
        let mut total: i128 = 0;
        let mut i: usize = 0;
        while i < n
            invariant
                self.wf(),
                n == self.recs().len(),
                0 <= i <= n,
                total == sum_subcat(self.recs().take(i as int), id),
                0 <= total <= i * MAX_AMOUNT,
            decreases n - i,
        {
            proof {
                assert(self.recs().take(i + 1 as int).drop_last() =~= self.recs().take(i as int));
                assert(self.recs().take(i + 1 as int).last() == self.recs()[i as int]);
                assert(self.record_ok(self.recs()[i as int]));
            }
            if self.records[i].subcategory == id {
                total = total + self.records[i].amount as i128;
            }
            i = i + 1;
        }
        proof {
            assert(self.recs().take(n as int) =~= self.recs());
        }
        total
    }

    /// The three totals: currency, opening balance, income and expense sums.
    pub fn total_summary(&self) -> (t: Total)
        requires
            self.wf(),
        ensures
            t.currency == self.currency,
            t.opening_balance == self.opening_balance,
            t.income_total == income_sum(self.recs()),
            t.expenses_total == expenses_sum(self.recs()),
            0 <= t.income_total <= MAX_TOTAL_CENTS,
            0 <= t.expenses_total <= MAX_TOTAL_CENTS,
    {
        let n = self.records.len();
        let (income, expenses) = self.totals();
        proof {
            assert(self.recs().len() == n);
            assert(self.recs().len() * MAX_AMOUNT <= MAX_TOTAL_CENTS);
        }
        Total {
            currency: self.currency,
            opening_balance: self.opening_balance,
            income_total: income,
            expenses_total: expenses,
        }
    }

    /// The two fixed categories, by id.
    pub fn list_categories(&self) -> (r: Vec<(usize, String)>)
        ensures
            r@.len() == 2,
            r@[0].0 == 1 && r@[0].1@ == "income"@,
            r@[1].0 == 2 && r@[1].1@ == "expenses"@,
    {
        let mut out: Vec<(usize, String)> = Vec::new();
        out.push((1, String::from_str("income")));
        out.push((2, String::from_str("expenses")));
        out
    }

    /// Every subcategory as `(id, name)`, in ascending id order.
    pub fn list_subcategories(&self) -> (r: Vec<(usize, String)>)
        ensures
            r@.len() == self.subs().len(),
            forall|k: int|
                0 <= k < r@.len() ==> (#[trigger] r@[k]).0 == self.subs()[k].id && r@[k].1@
                    == self.subs()[k].name@,
    {
        let n = self.subcategories.len();
        let mut out: Vec<(usize, String)> = Vec::new();
        let mut i: usize = 0;
        while i < n
            invariant
                n == self.subs().len(),
                0 <= i <= n,
                out@.len() == i,
                forall|k: int|
                    0 <= k < i ==> (#[trigger] out@[k]).0 == self.subs()[k].id && out@[k].1@
                        == self.subs()[k].name@,
            decreases n - i,
        {
            let sub = &self.subcategories[i];
            out.push((sub.id, sub.name.clone()));
            i = i + 1;
        }
        out
    }

    /// The descriptive statistics: record count, date range, per-category
    /// and per-subcategory breakdowns sorted by sum descending, and the
    /// average transaction amount.
    pub fn describe(&self) -> (d: DescribeData)
        requires
            self.wf(),
        ensures
            d.total_records == self.recs().len(),
            d.currency == self.currency,
            d.average_transaction == (if self.recs().len() > 0 {
                amount_sum(self.recs()) / (self.recs().len() as int)
            } else {
                0
            }),
            (d.date_range is Some) == (min_date(self.recs()) is Some),
            d.date_range matches Some(range) ==> range.0@ == date_render(
                min_date(self.recs())->Some_0,
            ) && range.1@ == date_render(max_date(self.recs())->Some_0),
            entries_view(d.by_category@) == sort_desc(cat_entries(*self)),
            entries_view(d.by_subcategory@) == sort_desc(sub_entries(*self)),
    {
        let n = self.records.len();
        // total amount and per-category tallies, one pass
        let mut total: i128 = 0;
        let mut c1: usize = 0;
        let mut s1: i128 = 0;
        let mut c2: usize = 0;
        let mut s2: i128 = 0;
        let mut best_min: Option<Date> = None;
        let mut best_max: Option<Date> = None;
        let mut i: usize = 0;
        while i < n
            invariant
                self.wf(),
                n == self.recs().len(),
                0 <= i <= n,
                total == amount_sum(self.recs().take(i as int)),
                0 <= total <= i * MAX_AMOUNT,
                c1 == count_cat(self.recs().take(i as int), 1),
                s1 == sum_cat(self.recs().take(i as int), 1),
                c2 == count_cat(self.recs().take(i as int), 2),
                s2 == sum_cat(self.recs().take(i as int), 2),
                c1 <= i && c2 <= i,
                0 <= s1 <= i * MAX_AMOUNT,
                0 <= s2 <= i * MAX_AMOUNT,
                best_min == min_date(self.recs().take(i as int)),
                best_max == max_date(self.recs().take(i as int)),
            decreases n - i,
        {
            proof {
                assert(self.recs().take(i + 1 as int).drop_last() =~= self.recs().take(i as int));
                assert(self.recs().take(i + 1 as int).last() == self.recs()[i as int]);
                assert(self.record_ok(self.recs()[i as int]));
            }
            let rec = &self.records[i];
            total = total + rec.amount as i128;
            if rec.category == 1 {
                c1 = c1 + 1;
                s1 = s1 + rec.amount as i128;
            }
            if rec.category == 2 {
                c2 = c2 + 1;
                s2 = s2 + rec.amount as i128;
            }
            match parse_date(rec.date.as_str()) {
                Some(d) => {
                    best_min = match best_min {
                        Some(m) => if !date_le(&m, &d) {
                            Some(d)
                        } else {
                            Some(m)
                        },
                        None => Some(d),
                    };
                    best_max = match best_max {
                        Some(m) => if !date_le(&d, &m) {
                            Some(d)
                        } else {
                            Some(m)
                        },
                        None => Some(d),
                    };
                },
                None => {},
            }
            i = i + 1;
        }
        proof {
            assert(self.recs().take(n as int) =~= self.recs());
        }
        let average: i128 = if n > 0 {
            total / (n as i128)
        } else {
            0
        };
        proof {
            lemma_min_max_date_wf(self.recs());
        }
        let date_range: Option<(String, String)> = match (best_min, best_max) {
            (Some(lo), Some(hi)) => Some((render_date(&lo), render_date(&hi))),
            _ => None,
        };
        // category rows, income first, then sorted by sum descending
        let mut cat_raw: Vec<(String, usize, i128)> = Vec::new();
        if c1 > 0 {
            cat_raw.push((String::from_str("income"), c1, s1));
        }
        if c2 > 0 {
            cat_raw.push((String::from_str("expenses"), c2, s2));
        }
        proof {
            assert(entries_view(cat_raw@) =~= cat_entries(*self));
        }
        let by_category = sort_entries(&cat_raw);
        // subcategory rows, table order, then sorted by sum descending
        let mut sub_raw: Vec<(String, usize, i128)> = Vec::new();
        proof {
            assert(self.subs().skip(0) =~= self.subs());
            assert(entries_view(sub_raw@) =~= Seq::<(Seq<char>, int, int)>::empty());
            assert(entries_view(sub_raw@) + sub_entries_from(*self, self.subs()) =~=
                sub_entries_from(*self, self.subs()));
        }
        let m = self.subcategories.len();
        let mut i: usize = 0;
        while i < m
            invariant
                self.wf(),
                m == self.subs().len(),
                0 <= i <= m,
                sub_entries(*self) == entries_view(sub_raw@) + sub_entries_from(
                    *self,
                    self.subs().skip(i as int),
                ),
            decreases m - i,
        {
            proof {
                assert(self.subs().skip(i as int)[0] == self.subs()[i as int]);
                assert(self.subs().skip(i as int).drop_first() =~= self.subs().skip(
                    i + 1 as int,
                ));
            }
            let ghost pre = sub_raw@;
            let sub = &self.subcategories[i];
            let count = self.count_records_for_subcategory(sub.id);
            if count > 0 {
                let sum = self.sum_records_for_subcategory(sub.id);
                sub_raw.push((sub.name.clone(), count, sum));
            }
            proof {
                assert(entries_view(sub_raw@) =~= entries_view(pre) + (if count_subcat(
                    self.recs(),
                    self.subs()[i as int].id,
                ) > 0 {
                    seq![
                        (
                            self.subs()[i as int].name@,
                            count_subcat(self.recs(), self.subs()[i as int].id),
                            sum_subcat(self.recs(), self.subs()[i as int].id),
                        ),
                    ]
                } else {
                    Seq::<(Seq<char>, int, int)>::empty()
                }));
                assert(entries_view(sub_raw@) + sub_entries_from(
                    *self,
                    self.subs().skip(i + 1 as int),
                ) =~= sub_entries(*self));
            }
            i = i + 1;
        }
        proof {
            assert(self.subs().skip(m as int) =~= Seq::<Subcategory>::empty());
            assert(entries_view(sub_raw@) + sub_entries_from(
                *self,
                self.subs().skip(m as int),
            ) =~= entries_view(sub_raw@));
        }
        let by_subcategory = sort_entries(&sub_raw);
        DescribeData {
            total_records: n,
            date_range,
            by_category,
            by_subcategory,
            average_transaction: average,
            currency: self.currency,
        }
    }
}

/// Stable sort of breakdown rows by sum, descending.
fn sort_entries(raw: &Vec<(String, usize, i128)>) -> (r: Vec<(String, usize, i128)>)
    ensures
        entries_view(r@) == sort_desc(entries_view(raw@)),
{
    let n = raw.len();
    let mut out: Vec<(String, usize, i128)> = Vec::new();
    let mut i: usize = 0;
    while i < n
        invariant
            n == raw@.len(),
            0 <= i <= n,
            entries_view(out@) == sort_desc(entries_view(raw@).take(i as int)),
        decreases n - i,
    {
        proof {
            assert(entries_view(raw@).take(i + 1 as int).drop_last() =~= entries_view(
                raw@,
            ).take(i as int));
            assert(entries_view(raw@).take(i + 1 as int).last() == entries_view(raw@)[i as int]);
        }
        let x = clone_entry(&raw[i]);
        insert_entry_desc(&mut out, x);
        i = i + 1;
    }
    proof {
        assert(entries_view(raw@).take(n as int) =~= entries_view(raw@));
    }
    out
}

} // verus!
