use vstd::prelude::*;
use vstd::string::*;
use crate::model::{Currency, Record, Subcategory};
use crate::text::{lower_seq, str_eq, to_lowercase};

verus! {

/// The largest amount, in cents, a single record may hold. The bound keeps
/// every aggregation representable in fixed-width integers.
pub const MAX_AMOUNT: i64 = 1_000_000_000_000_000;

pub open spec fn misc_name() -> Seq<char> {
    "miscellaneous"@
}

/// The aggregate root: the whole persisted financial document.
///
/// The two category ids are a closed set (income 1, expenses 2) and are not
/// stored; the subcategory table is the single source from which the two
/// at-rest name/id maps are derived.
#[derive(Clone, Debug, PartialEq, Eq)]
pub struct TrackerData {
    pub version: u32,
    pub currency: Currency,
    pub created_at: String,
    pub last_modified: String,
    /// Cents.
    pub opening_balance: i64,
    pub subcategories: Vec<Subcategory>,
    pub next_subcategory_id: u32,
    pub records: Vec<Record>,
    pub next_record_id: usize,
}

/// First subcategory whose lowercased name equals `q` (itself lowercase).
pub open spec fn find_id_by_lower(subs: Seq<Subcategory>, q: Seq<char>) -> Option<usize>
    decreases subs.len(),
{
    if subs.len() == 0 {
        None
    } else if lower_seq(subs[0].name@) == q {
        Some(subs[0].id)
    } else {
        find_id_by_lower(subs.drop_first(), q)
    }
}

/// First subcategory with the given id, as its stored display name.
pub open spec fn find_name_by_id(subs: Seq<Subcategory>, id: usize) -> Option<Seq<char>>
    decreases subs.len(),
{
    if subs.len() == 0 {
        None
    } else if subs[0].id == id {
        Some(subs[0].name@)
    } else {
        find_name_by_id(subs.drop_first(), id)
    }
}

/// Sum, in cents, of the amounts of the income records.
pub open spec fn income_sum(rs: Seq<Record>) -> int
    decreases rs.len(),
{
    if rs.len() == 0 {
        0
    } else {
        income_sum(rs.drop_last()) + if rs.last().category == 1 {
            rs.last().amount as int
        } else {
            0
        }
    }
}

/// Sum, in cents, of the amounts of the records outside the income category.
pub open spec fn expenses_sum(rs: Seq<Record>) -> int
    decreases rs.len(),
{
    if rs.len() == 0 {
        0
    } else {
        expenses_sum(rs.drop_last()) + if rs.last().category != 1 {
            rs.last().amount as int
        } else {
            0
        }
    }
}

impl TrackerData {
    pub open spec fn subs(self) -> Seq<Subcategory> {
        self.subcategories@
    }

    pub open spec fn recs(self) -> Seq<Record> {
        self.records@
    }

    pub open spec fn has_subcat_id(self, id: usize) -> bool {
        exists|i: int|
            0 <= i < self.subs().len() && (#[trigger] self.subs()[i]).id == id
    }

    /// What must hold of one record for the ledger's referential integrity.
    pub open spec fn record_ok(self, r: Record) -> bool {
        &&& r.category == 1 || r.category == 2
        &&& self.has_subcat_id(r.subcategory)
        &&& 0 < r.amount <= MAX_AMOUNT
        &&& r.id < self.next_record_id
    }

    pub open spec fn subs_wf(self) -> bool {
        &&& forall|i: int, j: int|
            0 <= i < j < self.subs().len() ==> (#[trigger] self.subs()[i]).id < (
            #[trigger] self.subs()[j]).id
        &&& forall|i: int, j: int|
            0 <= i < j < self.subs().len() ==> lower_seq((#[trigger] self.subs()[i]).name@)
                != lower_seq((#[trigger] self.subs()[j]).name@)
        &&& forall|i: int|
            0 <= i < self.subs().len() ==> (#[trigger] self.subs()[i]).id < (
            self.next_subcategory_id as usize)
        &&& exists|i: int|
            0 <= i < self.subs().len() && lower_seq((#[trigger] self.subs()[i]).name@)
                == misc_name()
    }

    pub open spec fn recs_wf(self) -> bool {
        &&& forall|i: int|
            0 <= i < self.recs().len() ==> self.record_ok(#[trigger] self.recs()[i])
        &&& forall|i: int, j: int|
            0 <= i < j < self.recs().len() ==> (#[trigger] self.recs()[i]).id != (
            #[trigger] self.recs()[j]).id
    }

    /// The ledger invariant: it holds after initialization and is preserved
    /// by every mutation. Every record's category id is one of the two fixed
    /// ids and its subcategory id resolves; subcategory ids and lowercased
    /// names are unique; both id counters exceed every id in use; the
    /// reserved `miscellaneous` subcategory is present.
    pub open spec fn wf(self) -> bool {
        self.subs_wf() && self.recs_wf()
    }

    /// Exact lookup in the fixed category map. The caller must supply one of
    /// the two category names.
    pub fn category_id(&self, category: &str) -> (r: usize)
        requires
            category@ == "income"@ || category@ == "expenses"@,
        ensures
            category@ == "income"@ ==> r == 1,
            category@ == "expenses"@ ==> r == 2,
    {
        proof {
            reveal_strlit("income");
            reveal_strlit("expenses");
            assert("income"@.len() == 6);
            assert("expenses"@.len() == 8);
        }
        if str_eq(category, "income") {
            1
        } else {
            2
        }
    }

    /// Reverse lookup of a category name for display and aggregation.
    pub fn category_name(&self, id: usize) -> (r: Option<String>)
        ensures
            (r is Some) == (id == 1 || id == 2),
            r matches Some(s) ==> (if id == 1 {
                s@ == "income"@
            } else {
                s@ == "expenses"@
            }),
    {
        if id == 1 {
            Some(String::from_str("income"))
        } else if id == 2 {
            Some(String::from_str("expenses"))
        } else {
            None
        }
    }

    /// Case-insensitive subcategory lookup; the caller supplies the
    /// lowercased name.
    pub fn subcategory_id(&self, name: &str) -> (r: Option<usize>)
        ensures
            r == find_id_by_lower(self.subs(), name@),
    {
        proof {
            assert(self.subs().skip(0) =~= self.subs());
        }
        let n = self.subcategories.len();
        let mut i: usize = 0;
        while i < n
            invariant
                n == self.subs().len(),
                0 <= i <= n,
                find_id_by_lower(self.subs(), name@) == find_id_by_lower(
                    self.subs().skip(i as int),
                    name@,
                ),
            decreases n - i,
        {
            let sub = &self.subcategories[i];
            let low = to_lowercase(sub.name.as_str());
            proof {
                assert(self.subs().skip(i as int)[0] == self.subs()[i as int]);
                assert(self.subs().skip(i as int).drop_first() =~= self.subs().skip(
                    i + 1 as int,
                ));
            }
            if str_eq(low.as_str(), name) {
                return Some(sub.id);
            }
            i = i + 1;
        }
        proof {
            assert(self.subs().skip(n as int) =~= Seq::<Subcategory>::empty());
        }
        None
    }

    /// The id of the reserved `miscellaneous` subcategory.
    pub fn miscellaneous_subcategory_id(&self) -> (r: Option<usize>)
        ensures
            r == find_id_by_lower(self.subs(), misc_name()),
    {
        self.subcategory_id("miscellaneous")
    }

    /// Reverse lookup of a subcategory's stored display name.
    pub fn subcategory_name(&self, id: usize) -> (r: Option<String>)
        ensures
            (r is Some) == (find_name_by_id(self.subs(), id) is Some),
            r matches Some(s) ==> find_name_by_id(self.subs(), id) == Some(s@),
    {
        proof {
            assert(self.subs().skip(0) =~= self.subs());
        }
        let n = self.subcategories.len();
        let mut i: usize = 0;
        while i < n
            invariant
                n == self.subs().len(),
                0 <= i <= n,
                find_name_by_id(self.subs(), id) == find_name_by_id(
                    self.subs().skip(i as int),
                    id,
                ),
            decreases n - i,
        {
            let sub = &self.subcategories[i];
            proof {
                assert(self.subs().skip(i as int)[0] == self.subs()[i as int]);
                assert(self.subs().skip(i as int).drop_first() =~= self.subs().skip(
                    i + 1 as int,
                ));
            }
            if sub.id == id {
                return Some(sub.name.clone());
            }
            i = i + 1;
        }
        proof {
            assert(self.subs().skip(n as int) =~= Seq::<Subcategory>::empty());
        }
        None
    }

    /// Counts how many records reference the given subcategory id.
    pub fn count_records_for_subcategory(&self, id: usize) -> (r: usize)
        ensures
            r == count_subcat(self.recs(), id),
    {
        let n = self.records.len();
        let mut count: usize = 0;
        let mut i: usize = 0;
        while i < n
            invariant
                n == self.recs().len(),
                0 <= i <= n,
                count == count_subcat(self.recs().take(i as int), id),
                count <= i,
            decreases n - i,
        {
            proof {
                assert(self.recs().take(i + 1 as int).drop_last() =~= self.recs().take(
                    i as int,
                ));
                assert(self.recs().take(i + 1 as int).last() == self.recs()[i as int]);
            }
            if self.records[i].subcategory == id {
                count = count + 1;
            }
            i = i + 1;
        }
        proof {
            assert(self.recs().take(n as int) =~= self.recs());
        }
        count
    }

    /// One pass over the records, bucketed into the two fixed categories.
    /// Returns `(income_sum, expenses_sum)` in cents.
    pub fn totals(&self) -> (r: (i128, i128))
        requires
            self.wf(),
        ensures
            r.0 == income_sum(self.recs()),
            r.1 == expenses_sum(self.recs()),
            0 <= r.0 <= self.recs().len() * MAX_AMOUNT,
            0 <= r.1 <= self.recs().len() * MAX_AMOUNT,
    {
        let n = self.records.len();
        let mut income: i128 = 0;
        let mut expenses: i128 = 0;
        let mut i: usize = 0;
        while i < n
            invariant
                self.wf(),
                n == self.recs().len(),
                0 <= i <= n,
                income == income_sum(self.recs().take(i as int)),
                expenses == expenses_sum(self.recs().take(i as int)),
                0 <= income <= i * MAX_AMOUNT,
                0 <= expenses <= i * MAX_AMOUNT,
            decreases n - i,
        {
            proof {
                assert(self.recs().take(i + 1 as int).drop_last() =~= self.recs().take(
                    i as int,
                ));
                assert(self.recs().take(i + 1 as int).last() == self.recs()[i as int]);
                assert(self.record_ok(self.recs()[i as int]));
            }
            let rec = &self.records[i];
            if rec.category == 1 {
                income = income + rec.amount as i128;
            } else {
                expenses = expenses + rec.amount as i128;
            }
            i = i + 1;
        }
        proof {
            assert(self.recs().take(n as int) =~= self.recs());
        }
        (income, expenses)
    }

    /// Appends a record to the sequence; every other field is untouched.
    pub fn push_record(&mut self, record: Record)
        ensures
            final(self).records@ == old(self).records@.push(record),
            final(self).version == old(self).version,
            final(self).currency == old(self).currency,
            final(self).created_at == old(self).created_at,
            final(self).last_modified == old(self).last_modified,
            final(self).opening_balance == old(self).opening_balance,
            final(self).subcategories == old(self).subcategories,
            final(self).next_subcategory_id == old(self).next_subcategory_id,
            final(self).next_record_id == old(self).next_record_id,
    {
        self.records.push(record);
    }

    /// A fresh ledger: version 1, the reserved `miscellaneous` subcategory
    /// with id 1, no records, both counters at their initial values, and
    /// both timestamps set to `now`.
    pub fn init(currency: Currency, opening_balance: i64, now: &str) -> (r: TrackerData)
        ensures
            r.version == 1,
            r.currency == currency,
            r.created_at@ == now@,
            r.last_modified@ == now@,
            r.opening_balance == opening_balance,
            r.subs().len() == 1,
            r.subs()[0].id == 1,
            r.subs()[0].name@ == misc_name(),
            r.next_subcategory_id == 2,
            r.recs().len() == 0,
            r.next_record_id == 1,
            r.wf(),
    {
        let mut subcategories: Vec<Subcategory> = Vec::new();
        subcategories.push(Subcategory { id: 1, name: String::from_str("miscellaneous") });
        let r = TrackerData {
            version: 1,
            currency,
            created_at: String::from_str(now),
            last_modified: String::from_str(now),
            opening_balance,
            subcategories,
            next_subcategory_id: 2,
            records: Vec::new(),
            next_record_id: 1,
        };
        proof {
            lemma_misc_lower_is_misc();
        }
        r
    }
}

/// How many records of `rs` reference subcategory `id`.
pub open spec fn count_subcat(rs: Seq<Record>, id: usize) -> int
    decreases rs.len(),
{
    if rs.len() == 0 {
        0int
    } else {
        count_subcat(rs.drop_last(), id) + if rs.last().subcategory == id {
            1int
        } else {
            0int
        }
    }
}

/// A successful lookup names a subcategory that is present in the table.
pub proof fn lemma_find_id_some(subs: Seq<Subcategory>, q: Seq<char>)
    ensures
        find_id_by_lower(subs, q) matches Some(id) ==> exists|i: int|
            0 <= i < subs.len() && (#[trigger] subs[i]).id == id && lower_seq(subs[i].name@)
                == q,
    decreases subs.len(),
{
    if subs.len() > 0 {
        if lower_seq(subs[0].name@) == q {
        } else {
            lemma_find_id_some(subs.drop_first(), q);
            if find_id_by_lower(subs, q) is Some {
                let id = find_id_by_lower(subs, q)->Some_0;
                let j = choose|j: int|
                    0 <= j < subs.drop_first().len() && (#[trigger] subs.drop_first()[j]).id
                        == id && lower_seq(subs.drop_first()[j].name@) == q;
                assert(subs.drop_first()[j] == subs[j + 1]);
            }
        }
    }
}

/// A failed lookup means no subcategory bears that lowercased name.
pub proof fn lemma_find_id_none(subs: Seq<Subcategory>, q: Seq<char>)
    ensures
        find_id_by_lower(subs, q) is None ==> forall|i: int|
            0 <= i < subs.len() ==> lower_seq((#[trigger] subs[i]).name@) != q,
    decreases subs.len(),
{
    if subs.len() > 0 {
        lemma_find_id_none(subs.drop_first(), q);
        if find_id_by_lower(subs, q) is None {
            assert forall|i: int|
                0 <= i < subs.len() implies lower_seq((#[trigger] subs[i]).name@) != q by {
                if i > 0 {
                    assert(subs.drop_first()[i - 1] == subs[i]);
                }
            }
        }
    }
}

/// Zero dependents means no record references the subcategory.
pub proof fn lemma_count_subcat_zero(rs: Seq<Record>, id: usize)
    ensures
        count_subcat(rs, id) >= 0,
        count_subcat(rs, id) == 0 ==> forall|i: int|
            0 <= i < rs.len() ==> (#[trigger] rs[i]).subcategory != id,
    decreases rs.len(),
{
    if rs.len() > 0 {
        lemma_count_subcat_zero(rs.drop_last(), id);
        if count_subcat(rs, id) == 0 {
            assert forall|i: int|
                0 <= i < rs.len() implies (#[trigger] rs[i]).subcategory != id by {
                if i < rs.len() - 1 {
                    assert(rs.drop_last()[i] == rs[i]);
                }
            }
        }
    }
}

/// With pairwise-distinct ids, the name lookup at an id returns the name
/// stored at any index bearing that id.
pub proof fn lemma_find_name_at_index(subs: Seq<Subcategory>, k: int)
    requires
        0 <= k < subs.len(),
        forall|i: int, j: int|
            0 <= i < j < subs.len() ==> (#[trigger] subs[i]).id != (#[trigger] subs[j]).id,
    ensures
        find_name_by_id(subs, subs[k].id) == Some(subs[k].name@),
    decreases subs.len(),
{
    if k > 0 {
        assert(subs[0].id != subs[k].id);
        assert(forall|i: int|
            0 <= i < subs.len() - 1 ==> #[trigger] subs.drop_first()[i] == subs[i + 1]);
        lemma_find_name_at_index(subs.drop_first(), k - 1);
    }
}

/// The reserved name is already lowercase.
pub proof fn lemma_misc_lower_is_misc()
    ensures
        lower_seq(misc_name()) == misc_name(),
{
    reveal_strlit("miscellaneous");
    let s = misc_name();
    assert(forall|i: int|
        0 <= i < s.len() ==> #[trigger] lower_seq(s)[i] == s[i]);
    assert(lower_seq(s) =~= s);
}

impl TrackerData {
    /// Whether the given subcategory id is present in the table.
    pub fn has_subcat_check(&self, id: usize) -> (b: bool)
        ensures
            b == self.has_subcat_id(id),
    {
        let n = self.subcategories.len();
        let mut i: usize = 0;
        while i < n
            invariant
                n == self.subs().len(),
                0 <= i <= n,
                forall|k: int| 0 <= k < i ==> (#[trigger] self.subs()[k]).id != id,
            decreases n - i,
        {
            if self.subcategories[i].id == id {
                return true;
            }
            i = i + 1;
        }
        false
    }

    /// Decides the ledger invariant for a value of unknown provenance, such
    /// as a freshly parsed document.
    pub fn wf_check(&self) -> (b: bool)
        ensures
            b == self.wf(),
    {
        let n = self.subcategories.len();
        // subcategory table: ids strictly ascending, lowercased names unique
        let mut i: usize = 0;
        while i < n
            invariant
                n == self.subs().len(),
                0 <= i <= n,
                forall|a: int, b: int|
                    0 <= a < b < n && a < i ==> (#[trigger] self.subs()[a]).id < (
                    #[trigger] self.subs()[b]).id,
                forall|a: int, b: int|
                    0 <= a < b < n && a < i ==> lower_seq((#[trigger] self.subs()[a]).name@)
                        != lower_seq((#[trigger] self.subs()[b]).name@),
            decreases n - i,
        {
            let low_i = to_lowercase(self.subcategories[i].name.as_str());
            let mut j: usize = i + 1;
            while j < n
                invariant
                    n == self.subs().len(),
                    0 <= i < j <= n,
                    low_i@ == lower_seq(self.subs()[i as int].name@),
                    forall|b: int|
                        i < b < j ==> (#[trigger] self.subs()[b]).id > self.subs()[i as int].id,
                    forall|b: int|
                        i < b < j ==> lower_seq((#[trigger] self.subs()[b]).name@) != lower_seq(
                            self.subs()[i as int].name@,
                        ),
                decreases n - j,
            {
                if self.subcategories[j].id <= self.subcategories[i].id {
                    return false;
                }
                let low_j = to_lowercase(self.subcategories[j].name.as_str());
                if str_eq(low_i.as_str(), low_j.as_str()) {
                    return false;
                }
                j = j + 1;
            }
            i = i + 1;
        }
        // every subcategory id lies below the counter
        let mut i: usize = 0;
        while i < n
            invariant
                n == self.subs().len(),
                0 <= i <= n,
                forall|k: int|
                    0 <= k < i ==> (#[trigger] self.subs()[k]).id < (
                    self.next_subcategory_id as usize),
            decreases n - i,
        {
            if !(self.subcategories[i].id < self.next_subcategory_id as usize) {
                return false;
            }
            i = i + 1;
        }
        // the reserved subcategory is present
        proof {
            lemma_find_id_some(self.subs(), misc_name());
            lemma_find_id_none(self.subs(), misc_name());
        }
        if self.miscellaneous_subcategory_id().is_none() {
            return false;
        }
        // records: valid category, resolvable subcategory, amount in range,
        // id below the counter, ids pairwise distinct
        let rn = self.records.len();
        let mut i: usize = 0;
        while i < rn
            invariant
                rn == self.recs().len(),
                0 <= i <= rn,
                forall|k: int| 0 <= k < i ==> self.record_ok(#[trigger] self.recs()[k]),
                forall|a: int, b: int|
                    0 <= a < b < rn && a < i ==> (#[trigger] self.recs()[a]).id != (
                    #[trigger] self.recs()[b]).id,
            decreases rn - i,
        {
            let rec = &self.records[i];
            if !(rec.category == 1 || rec.category == 2) {
                return false;
            }
            if !self.has_subcat_check(rec.subcategory) {
                return false;
            }
            if !(0 < rec.amount && rec.amount <= MAX_AMOUNT) {
                return false;
            }
            if !(rec.id < self.next_record_id) {
                return false;
            }
            let mut j: usize = i + 1;
            while j < rn
                invariant
                    rn == self.recs().len(),
                    0 <= i < j <= rn,
                    forall|b: int|
                        i < b < j ==> (#[trigger] self.recs()[b]).id != self.recs()[i as int].id,
                decreases rn - j,
            {
                if self.records[j].id == self.records[i].id {
                    return false;
                }
                j = j + 1;
            }
            i = i + 1;
        }
        true
    }
}

} // verus!
