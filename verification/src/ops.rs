use vstd::prelude::*;
use vstd::string::*;
use crate::date::{Date, date_render, render_date};
use crate::error::{CliError, ValidationErrorKind};
use crate::ledger::{
    MAX_AMOUNT, TrackerData, count_subcat, find_id_by_lower, find_name_by_id,
    lemma_count_subcat_zero, lemma_find_id_none, lemma_find_id_some, lemma_find_name_at_index,
    misc_name,
};
use crate::model::{Category, Record, Subcategory};
use crate::text::{
    check_label, is_valid_label, lemma_lower_title, lower_seq, str_eq, title_seq, to_lowercase,
    to_title_case,
};

verus! {

/// A validated request to record one transaction. Unsupplied optional
/// fields take their documented defaults.
#[derive(Debug)]
pub struct AddRequest {
    pub category: Category,
    /// Cents; a request may carry a non-positive amount, which is rejected.
    pub amount: i64,
    /// Subcategory name; defaults to `miscellaneous`.
    pub subcategory: Option<String>,
    /// Defaults to the empty string.
    pub description: Option<String>,
    /// Defaults to the current date.
    pub date: Option<Date>,
}

/// The subcategory name an add request asks for, before lowercasing.
pub open spec fn req_sub_name(req: AddRequest) -> Seq<char> {
    match req.subcategory {
        Some(s) => s@,
        None => misc_name(),
    }
}

pub open spec fn req_desc(req: AddRequest) -> Seq<char> {
    match req.description {
        Some(s) => s@,
        None => Seq::<char>::empty(),
    }
}

pub open spec fn chosen_date(req: AddRequest, today: Date) -> Date {
    match req.date {
        Some(d) => d,
        None => today,
    }
}

/// When an add succeeds: the amount is positive and within range, and the
/// requested subcategory resolves.
pub open spec fn add_ok(l: TrackerData, req: AddRequest) -> bool {
    &&& 0 < req.amount <= MAX_AMOUNT
    &&& find_id_by_lower(l.subs(), lower_seq(req_sub_name(req))) is Some
}

/// Which error a failing add returns: a non-positive amount first, then an
/// out-of-range amount, then an unresolvable subcategory.
pub open spec fn add_err(req: AddRequest, e: CliError) -> bool {
    if req.amount <= 0 {
        e == CliError::ValidationError(ValidationErrorKind::AmountTooSmall {
            amount: req.amount,
        })
    } else if req.amount > MAX_AMOUNT {
        e matches CliError::ValidationError(ValidationErrorKind::InvalidAmount { reason })
            && reason@ == "amount exceeds the largest supported value"@
    } else {
        e matches CliError::ValidationError(ValidationErrorKind::SubcategoryNotFound { name })
            && name@ == req_sub_name(req)
    }
}

/// Fields that no record or subcategory operation may change.
pub open spec fn same_config(a: TrackerData, b: TrackerData) -> bool {
    &&& a.version == b.version
    &&& a.currency == b.currency
    &&& a.created_at == b.created_at
    &&& a.opening_balance == b.opening_balance
}

impl TrackerData {
    /// Records a new transaction: validates the amount, resolves the
    /// subcategory case-insensitively, assigns the next record id,
    /// increments the counter, and appends the record. A failing request
    /// leaves the ledger untouched.
    pub fn add_record(&mut self, req: &AddRequest, now: &str, today: &Date) -> (r: Result<
        Record,
        CliError,
    >)
        requires
            old(self).wf(),
            old(self).next_record_id < usize::MAX,
            today.wf(),
            req.date matches Some(d) ==> d.wf(),
        ensures
            final(self).wf(),
            (r is Ok) == add_ok(*old(self), *req),
            r matches Ok(rec) ==> {
                &&& rec.id == old(self).next_record_id
                &&& rec.category == req.category.id_spec()
                &&& Some(rec.subcategory) == find_id_by_lower(
                    old(self).subs(),
                    lower_seq(req_sub_name(*req)),
                )
                &&& rec.amount == req.amount
                &&& rec.description@ == req_desc(*req)
                &&& rec.date@ == date_render(chosen_date(*req, *today))
                &&& final(self).records@ == old(self).records@.push(rec)
                &&& final(self).next_record_id == old(self).next_record_id + 1
                &&& final(self).last_modified@ == now@
                &&& final(self).subcategories == old(self).subcategories
                &&& final(self).next_subcategory_id == old(self).next_subcategory_id
                &&& same_config(*old(self), *final(self))
            },
            r matches Err(e) ==> *final(self) == *old(self) && add_err(*req, e),
    {
        if self.amount_check_fails(req.amount) {
            return Err(self.amount_error(req.amount));
        }
        let sub_id = match self.resolve_subcategory(&req.subcategory) {
            Ok(id) => id,
            Err(e) => {
                return Err(e);
            },
        };
        let date_str = match &req.date {
            Some(d) => render_date(d),
            None => render_date(today),
        };
        let description = match &req.description {
            Some(d) => d.clone(),
            None => String::new(),
        };
        let rec = Record {
            id: self.next_record_id,
            category: req.category.id(),
            subcategory: sub_id,
            description,
            amount: req.amount,
            date: date_str,
        };
        let ret = rec.clone();
        proof {
            lemma_find_id_some(self.subs(), lower_seq(req_sub_name(*req)));
        }
        self.records.push(rec);
        self.next_record_id = self.next_record_id + 1;
        self.last_modified = String::from_str(now);
        proof {
            let l0 = *old(self);
            let l1 = *self;
            assert(l1.subs() == l0.subs());
            assert(rec.category == 1 || rec.category == 2);
            assert forall|i: int|
                0 <= i < l1.recs().len() implies l1.record_ok(#[trigger] l1.recs()[i]) by {
                if i < l1.recs().len() - 1 {
                    assert(l1.recs()[i] == l0.recs()[i]);
                    assert(l0.record_ok(l0.recs()[i]));
                } else {
                    assert(l1.recs()[i] == rec);
                }
            }
            assert forall|i: int, j: int|
                0 <= i < j < l1.recs().len() implies (#[trigger] l1.recs()[i]).id != (
            #[trigger] l1.recs()[j]).id by {
                if j < l1.recs().len() - 1 {
                    assert(l0.recs()[i].id != l0.recs()[j].id);
                } else {
                    assert(l1.recs()[j] == rec);
                    assert(l0.record_ok(l0.recs()[i]));
                }
            }
        }
        Ok(ret)
    }

    /// True when the amount fails validation (the caller then asks
    /// `amount_error` which error that is).
    fn amount_check_fails(&self, amount: i64) -> (r: bool)
        ensures
            r == !(0 < amount <= MAX_AMOUNT),
    {
        amount <= 0 || amount > MAX_AMOUNT
    }

    fn amount_error(&self, amount: i64) -> (e: CliError)
        requires
            !(0 < amount <= MAX_AMOUNT),
        ensures
            amount <= 0 ==> e == CliError::ValidationError(
                ValidationErrorKind::AmountTooSmall { amount },
            ),
            amount > 0 ==> (e matches CliError::ValidationError(
                ValidationErrorKind::InvalidAmount { reason },
            ) && reason@ == "amount exceeds the largest supported value"@),
    {
        if amount <= 0 {
            CliError::ValidationError(ValidationErrorKind::AmountTooSmall { amount })
        } else {
            CliError::ValidationError(ValidationErrorKind::InvalidAmount {
                reason: String::from_str("amount exceeds the largest supported value"),
            })
        }
    }

    /// Resolves an optional subcategory name (default `miscellaneous`)
    /// case-insensitively to its id.
    fn resolve_subcategory(&self, name: &Option<String>) -> (r: Result<usize, CliError>)
        ensures
            r matches Ok(id) ==> find_id_by_lower(
                self.subs(),
                lower_seq(match name {
                    Some(s) => s@,
                    None => misc_name(),
                }),
            ) == Some(id),
            r matches Err(e) ==> find_id_by_lower(
                self.subs(),
                lower_seq(match name {
                    Some(s) => s@,
                    None => misc_name(),
                }),
            ) is None && (e matches CliError::ValidationError(
                ValidationErrorKind::SubcategoryNotFound { name: n },
            ) && n@ == (match name {
                Some(s) => s@,
                None => misc_name(),
            })),
    {
        let raw: String = match name {
            Some(s) => s.clone(),
            None => String::from_str("miscellaneous"),
        };
        let low = to_lowercase(raw.as_str());
        match self.subcategory_id(low.as_str()) {
            Some(id) => Ok(id),
            None => Err(
                CliError::ValidationError(ValidationErrorKind::SubcategoryNotFound {
                    name: raw,
                }),
            ),
        }
    }
}

/// A request to modify an existing record: only supplied fields change.
#[derive(Debug)]
pub struct UpdateRequest {
    pub record_id: usize,
    pub category: Option<Category>,
    /// Cents; re-validated when supplied.
    pub amount: Option<i64>,
    /// Re-resolved when supplied.
    pub subcategory: Option<String>,
    pub description: Option<String>,
    pub date: Option<Date>,
}

/// When an update succeeds: a supplied subcategory resolves, the record id
/// exists, and a supplied amount is positive and within range.
pub open spec fn upd_ok(l: TrackerData, req: UpdateRequest) -> bool {
    &&& (req.subcategory matches Some(s) ==> find_id_by_lower(l.subs(), lower_seq(s@)) is Some)
    &&& exists|k: int| 0 <= k < l.recs().len() && (#[trigger] l.recs()[k]).id == req.record_id
    &&& (req.amount matches Some(a) ==> 0 < a <= MAX_AMOUNT)
}

/// Which error a failing update returns: an unresolvable subcategory first,
/// then a missing record, then a bad amount.
pub open spec fn upd_err(l: TrackerData, req: UpdateRequest, e: CliError) -> bool {
    if req.subcategory matches Some(s) && find_id_by_lower(l.subs(), lower_seq(s@)) is None {
        e matches CliError::ValidationError(ValidationErrorKind::SubcategoryNotFound { name })
            && name@ == req.subcategory->Some_0@
    } else if !(exists|k: int|
        0 <= k < l.recs().len() && (#[trigger] l.recs()[k]).id == req.record_id) {
        e == CliError::ValidationError(ValidationErrorKind::RecordNotFound {
            id: req.record_id,
        })
    } else if req.amount matches Some(a) && a <= 0 {
        e == CliError::ValidationError(ValidationErrorKind::AmountTooSmall {
            amount: req.amount->Some_0,
        })
    } else {
        e matches CliError::ValidationError(ValidationErrorKind::InvalidAmount { reason })
            && reason@ == "amount exceeds the largest supported value"@
    }
}

/// Field-by-field: supplied fields take the new value, others keep the old.
pub open spec fn updated_record(
    l: TrackerData,
    oldr: Record,
    newr: Record,
    req: UpdateRequest,
) -> bool {
    &&& newr.id == oldr.id
    &&& newr.category == (match req.category {
        Some(c) => c.id_spec(),
        None => oldr.category,
    })
    &&& newr.amount == (match req.amount {
        Some(a) => a,
        None => oldr.amount,
    })
    &&& Some(newr.subcategory) == (match req.subcategory {
        Some(s) => find_id_by_lower(l.subs(), lower_seq(s@)),
        None => Some(oldr.subcategory),
    })
    &&& newr.description@ == (match req.description {
        Some(d) => d@,
        None => oldr.description@,
    })
    &&& newr.date@ == (match req.date {
        Some(d) => date_render(d),
        None => oldr.date@,
    })
}

impl TrackerData {
    /// Finds the position of the record with the given id.
    fn find_record_index(&self, id: usize) -> (r: Option<usize>)
        ensures
            r matches Some(k) ==> 0 <= k < self.recs().len() && self.recs()[k as int].id == id,
            r is None ==> forall|k: int|
                0 <= k < self.recs().len() ==> (#[trigger] self.recs()[k]).id != id,
    {
        let n = self.records.len();
        let mut i: usize = 0;
        while i < n
            invariant
                n == self.recs().len(),
                0 <= i <= n,
                forall|k: int| 0 <= k < i ==> (#[trigger] self.recs()[k]).id != id,
            decreases n - i,
        {
            if self.records[i].id == id {
                return Some(i);
            }
            i = i + 1;
        }
        None
    }

    /// Modifies an existing record in place. Only the supplied fields
    /// change; a supplied amount is re-validated and a supplied subcategory
    /// re-resolved. A failing request leaves the ledger untouched.
    pub fn update_record(&mut self, req: &UpdateRequest, now: &str) -> (r: Result<
        Record,
        CliError,
    >)
        requires
            old(self).wf(),
            req.date matches Some(d) ==> d.wf(),
        ensures
            final(self).wf(),
            (r is Ok) == upd_ok(*old(self), *req),
            r matches Ok(rec) ==> exists|k: int|
                {
                    &&& 0 <= k < old(self).recs().len()
                    &&& (#[trigger] old(self).recs()[k]).id == req.record_id
                    &&& final(self).records@ == old(self).records@.update(k, rec)
                    &&& updated_record(*old(self), old(self).recs()[k], rec, *req)
                },
            r matches Ok(rec) ==> {
                &&& final(self).next_record_id == old(self).next_record_id
                &&& final(self).last_modified@ == now@
                &&& final(self).subcategories == old(self).subcategories
                &&& final(self).next_subcategory_id == old(self).next_subcategory_id
                &&& same_config(*old(self), *final(self))
            },
            r matches Err(e) ==> *final(self) == *old(self) && upd_err(*old(self), *req, e),
    {
        let sub_id: Option<usize> = match &req.subcategory {
            Some(name) => {
                let low = to_lowercase(name.as_str());
                match self.subcategory_id(low.as_str()) {
                    Some(id) => Some(id),
                    None => {
                        return Err(
                            CliError::ValidationError(ValidationErrorKind::SubcategoryNotFound {
                                name: name.clone(),
                            }),
                        );
                    },
                }
            },
            None => None,
        };
        let idx = match self.find_record_index(req.record_id) {
            Some(k) => k,
            None => {
                return Err(
                    CliError::ValidationError(ValidationErrorKind::RecordNotFound {
                        id: req.record_id,
                    }),
                );
            },
        };
        if let Some(a) = req.amount {
            if self.amount_check_fails(a) {
                return Err(self.amount_error(a));
            }
        }
        let oldr = &self.records[idx];
        let rec = Record {
            id: oldr.id,
            category: match &req.category {
                Some(c) => c.id(),
                None => oldr.category,
            },
            subcategory: match sub_id {
                Some(id) => id,
                None => oldr.subcategory,
            },
            description: match &req.description {
                Some(d) => d.clone(),
                None => oldr.description.clone(),
            },
            amount: match req.amount {
                Some(a) => a,
                None => oldr.amount,
            },
            date: match &req.date {
                Some(d) => render_date(d),
                None => oldr.date.clone(),
            },
        };
        let ret = rec.clone();
        proof {
            if req.subcategory is Some {
                lemma_find_id_some(self.subs(), lower_seq(req.subcategory->Some_0@));
            }
        }
        self.records[idx] = rec;
        self.last_modified = String::from_str(now);
        proof {
            let l0 = *old(self);
            let l1 = *self;
            let k = idx as int;
            assert(l1.subs() == l0.subs());
            assert(l1.recs() == l0.recs().update(k, rec));
            assert forall|i: int|
                0 <= i < l1.recs().len() implies l1.record_ok(#[trigger] l1.recs()[i]) by {
                if i != k {
                    assert(l1.recs()[i] == l0.recs()[i]);
                    assert(l0.record_ok(l0.recs()[i]));
                } else {
                    assert(l1.recs()[i] == rec);
                    assert(l0.record_ok(l0.recs()[k]));
                }
            }
            assert forall|i: int, j: int|
                0 <= i < j < l1.recs().len() implies (#[trigger] l1.recs()[i]).id != (
            #[trigger] l1.recs()[j]).id by {
                assert(l0.recs()[i].id != l0.recs()[j].id);
                assert(l1.recs()[i].id == l0.recs()[i].id);
                assert(l1.recs()[j].id == l0.recs()[j].id);
            }
        }
        Ok(ret)
    }
}

/// The records of `rs` that `keep` retains, in their original order.
pub open spec fn retained(rs: Seq<Record>, keep: spec_fn(Record) -> bool) -> Seq<Record>
    decreases rs.len(),
{
    if rs.len() == 0 {
        Seq::<Record>::empty()
    } else {
        let rest = retained(rs.drop_last(), keep);
        if keep(rs.last()) {
            rest.push(rs.last())
        } else {
            rest
        }
    }
}

/// Retention keeps only matching records, takes them from the input
/// sequence, and preserves pairwise-distinct ids.
pub proof fn lemma_retained(rs: Seq<Record>, keep: spec_fn(Record) -> bool)
    ensures
        retained(rs, keep).len() <= rs.len(),
        forall|i: int|
            0 <= i < retained(rs, keep).len() ==> keep(#[trigger] retained(rs, keep)[i]),
        forall|i: int|
            0 <= i < retained(rs, keep).len() ==> rs.contains(#[trigger] retained(rs, keep)[i]),
        (forall|i: int, j: int|
            0 <= i < j < rs.len() ==> (#[trigger] rs[i]).id != (#[trigger] rs[j]).id) ==> (
        forall|i: int, j: int|
            0 <= i < j < retained(rs, keep).len() ==> (#[trigger] retained(rs, keep)[i]).id != (
            #[trigger] retained(rs, keep)[j]).id),
    decreases rs.len(),
{
    if rs.len() > 0 {
        lemma_retained(rs.drop_last(), keep);
        let pre = rs.drop_last();
        let rest = retained(pre, keep);
        let out = retained(rs, keep);
        assert(forall|i: int| 0 <= i < pre.len() ==> pre[i] == #[trigger] rs[i]);
        assert forall|i: int| 0 <= i < out.len() implies rs.contains(#[trigger] out[i]) by {
            if keep(rs.last()) && i == out.len() - 1 {
                assert(out[i] == rs.last());
                assert(rs[rs.len() - 1] == rs.last());
            } else {
                assert(out[i] == rest[i]);
                assert(pre.contains(rest[i]));
                let w = choose|w: int| 0 <= w < pre.len() && pre[w] == rest[i];
                assert(rs[w] == rest[i]);
            }
        }
        if forall|i: int, j: int|
            0 <= i < j < rs.len() ==> (#[trigger] rs[i]).id != (#[trigger] rs[j]).id {
            assert forall|i: int, j: int|
                0 <= i < j < out.len() implies (#[trigger] out[i]).id != (
            #[trigger] out[j]).id by {
                if keep(rs.last()) && j == out.len() - 1 {
                    assert(out[j] == rs.last());
                    assert(pre.contains(out[i]));
                    let w = choose|w: int| 0 <= w < pre.len() && pre[w] == out[i];
                    assert(rs[w] == out[i]);
                    assert(rs[w].id != rs[rs.len() - 1].id);
                } else {
                    assert(out[i] == rest[i] && out[j] == rest[j]);
                }
            }
        }
    }
}

/// Records whose id is outside the given id set.
pub open spec fn keep_not_in_ids(ids: Seq<usize>) -> spec_fn(Record) -> bool {
    |r: Record| !ids.contains(r.id)
}

/// Records outside the given category.
pub open spec fn keep_not_cat(cid: usize) -> spec_fn(Record) -> bool {
    |r: Record| r.category != cid
}

/// Records outside the given subcategory.
pub open spec fn keep_not_subcat(sid: usize) -> spec_fn(Record) -> bool {
    |r: Record| r.subcategory != sid
}

fn vec_contains_usize(v: &Vec<usize>, x: usize) -> (r: bool)
    ensures
        r == v@.contains(x),
{
    let n = v.len();
    let mut i: usize = 0;
    while i < n
        invariant
            n == v@.len(),
            0 <= i <= n,
            forall|k: int| 0 <= k < i ==> v@[k] != x,
        decreases n - i,
    {
        if v[i] == x {
            return true;
        }
        i = i + 1;
    }
    false
}

impl TrackerData {
    /// Shared body of the deletions: replaces the record sequence by the
    /// retained subsequence and refreshes `last_modified`.
    fn retain_records(&mut self, kept: Vec<Record>, now: &str, Ghost(keep): Ghost<
        spec_fn(Record) -> bool,
    >)
        requires
            old(self).wf(),
            kept@ == retained(old(self).recs(), keep),
        ensures
            final(self).wf(),
            final(self).records@ == retained(old(self).recs(), keep),
            final(self).next_record_id == old(self).next_record_id,
            final(self).last_modified@ == now@,
            final(self).subcategories == old(self).subcategories,
            final(self).next_subcategory_id == old(self).next_subcategory_id,
            same_config(*old(self), *final(self)),
    {
        proof {
            lemma_retained(old(self).recs(), keep);
        }
        self.records = kept;
        self.last_modified = String::from_str(now);
        proof {
            let l0 = *old(self);
            let l1 = *self;
            assert(l1.subs() == l0.subs());
            assert forall|i: int|
                0 <= i < l1.recs().len() implies l1.record_ok(#[trigger] l1.recs()[i]) by {
                assert(l0.recs().contains(l1.recs()[i]));
                let w = choose|w: int| 0 <= w < l0.recs().len() && l0.recs()[w] == l1.recs()[i];
                assert(l0.record_ok(l0.recs()[w]));
            }
        }
    }

    /// Removes every record whose id is in the given set; ids that match no
    /// record are silently ignored, so the deletion is idempotent per id.
    pub fn delete_by_ids(&mut self, ids: &Vec<usize>, now: &str)
        requires
            old(self).wf(),
        ensures
            final(self).wf(),
            final(self).records@ == retained(old(self).recs(), keep_not_in_ids(ids@)),
            final(self).next_record_id == old(self).next_record_id,
            final(self).last_modified@ == now@,
            final(self).subcategories == old(self).subcategories,
            final(self).next_subcategory_id == old(self).next_subcategory_id,
            same_config(*old(self), *final(self)),
    {
        let ghost keep = keep_not_in_ids(ids@);
        let n = self.records.len();
        let mut kept: Vec<Record> = Vec::new();
        let mut i: usize = 0;
        while i < n
            invariant
                n == self.recs().len(),
                0 <= i <= n,
                kept@ == retained(self.recs().take(i as int), keep_not_in_ids(ids@)),
            decreases n - i,
        {
            proof {
                assert(self.recs().take(i + 1 as int).drop_last() =~= self.recs().take(i as int));
                assert(self.recs().take(i + 1 as int).last() == self.recs()[i as int]);
            }
            if !vec_contains_usize(ids, self.records[i].id) {
                let rec = self.records[i].clone();
                kept.push(rec);
            }
            i = i + 1;
        }
        proof {
            assert(self.recs().take(n as int) =~= self.recs());
        }
        self.retain_records(kept, now, Ghost(keep));
    }

    /// Removes every record in the given category.
    pub fn delete_by_category(&mut self, category: Category, now: &str)
        requires
            old(self).wf(),
        ensures
            final(self).wf(),
            final(self).records@ == retained(
                old(self).recs(),
                keep_not_cat(category.id_spec()),
            ),
            final(self).next_record_id == old(self).next_record_id,
            final(self).last_modified@ == now@,
            final(self).subcategories == old(self).subcategories,
            final(self).next_subcategory_id == old(self).next_subcategory_id,
            same_config(*old(self), *final(self)),
    {
        let cid = category.id();
        let ghost keep = keep_not_cat(category.id_spec());
        let n = self.records.len();
        let mut kept: Vec<Record> = Vec::new();
        let mut i: usize = 0;
        while i < n
            invariant
                n == self.recs().len(),
                0 <= i <= n,
                cid == category.id_spec(),
                kept@ == retained(self.recs().take(i as int), keep_not_cat(category.id_spec())),
            decreases n - i,
        {
            proof {
                assert(self.recs().take(i + 1 as int).drop_last() =~= self.recs().take(i as int));
                assert(self.recs().take(i + 1 as int).last() == self.recs()[i as int]);
            }
            if self.records[i].category != cid {
                let rec = self.records[i].clone();
                kept.push(rec);
            }
            i = i + 1;
        }
        proof {
            assert(self.recs().take(n as int) =~= self.recs());
        }
        self.retain_records(kept, now, Ghost(keep));
    }

    /// Removes every record in the named subcategory; fails when the name
    /// does not resolve, leaving the ledger untouched.
    pub fn delete_by_subcategory(&mut self, name: &str, now: &str) -> (r: Result<(), CliError>)
        requires
            old(self).wf(),
        ensures
            final(self).wf(),
            (r is Ok) == (find_id_by_lower(old(self).subs(), lower_seq(name@)) is Some),
            r is Ok ==> {
                &&& final(self).records@ == retained(
                    old(self).recs(),
                    keep_not_subcat(
                        find_id_by_lower(old(self).subs(), lower_seq(name@))->Some_0,
                    ),
                )
                &&& final(self).next_record_id == old(self).next_record_id
                &&& final(self).last_modified@ == now@
                &&& final(self).subcategories == old(self).subcategories
                &&& final(self).next_subcategory_id == old(self).next_subcategory_id
                &&& same_config(*old(self), *final(self))
            },
            r matches Err(e) ==> *final(self) == *old(self) && (e matches
                CliError::ValidationError(ValidationErrorKind::SubcategoryNotFound {
                    name: n,
                }) && n@ == name@),
    {
        let low = to_lowercase(name);
        let sid = match self.subcategory_id(low.as_str()) {
            Some(id) => id,
            None => {
                return Err(
                    CliError::ValidationError(ValidationErrorKind::SubcategoryNotFound {
                        name: String::from_str(name),
                    }),
                );
            },
        };
        let ghost keep = keep_not_subcat(sid);
        let n = self.records.len();
        let mut kept: Vec<Record> = Vec::new();
        let mut i: usize = 0;
        while i < n
            invariant
                n == self.recs().len(),
                0 <= i <= n,
                kept@ == retained(self.recs().take(i as int), keep_not_subcat(sid)),
            decreases n - i,
        {
            proof {
                assert(self.recs().take(i + 1 as int).drop_last() =~= self.recs().take(i as int));
                assert(self.recs().take(i + 1 as int).last() == self.recs()[i as int]);
            }
            if self.records[i].subcategory != sid {
                let rec = self.records[i].clone();
                kept.push(rec);
            }
            i = i + 1;
        }
        proof {
            assert(self.recs().take(n as int) =~= self.recs());
        }
        self.retain_records(kept, now, Ghost(keep));
        Ok(())
    }
}

/// When adding a subcategory succeeds: the name is a valid label, is not
/// the reserved name, and is not already taken (case-insensitively).
pub open spec fn sub_add_ok(l: TrackerData, nm: Seq<char>) -> bool {
    &&& is_valid_label(nm)
    &&& lower_seq(nm) != misc_name()
    &&& find_id_by_lower(l.subs(), lower_seq(nm)) is None
}

/// Which error a failing subcategory add returns: an invalid label first,
/// then the reserved name, then a duplicate.
pub open spec fn sub_add_err(nm: Seq<char>, e: CliError) -> bool {
    if !is_valid_label(nm) {
        e matches CliError::ValidationError(ValidationErrorKind::InvalidName { name, reason })
            && name@ == nm && reason@
            == "must start with a letter and contain only letters, digits and underscores"@
    } else if lower_seq(nm) == misc_name() {
        e == CliError::ValidationError(ValidationErrorKind::CannotDeleteMiscellaneous)
    } else {
        e matches CliError::ValidationError(ValidationErrorKind::SubcategoryAlreadyExists {
            name,
        }) && name@ == title_seq(nm)
    }
}

impl TrackerData {
    /// Finds the position of the first subcategory whose lowercased name
    /// equals `low` (itself lowercase).
    fn find_sub_index(&self, low: &str) -> (r: Option<usize>)
        ensures
            r matches Some(k) ==> {
                &&& 0 <= k < self.subs().len()
                &&& lower_seq(self.subs()[k as int].name@) == low@
                &&& find_id_by_lower(self.subs(), low@) == Some(self.subs()[k as int].id)
            },
            r is None ==> find_id_by_lower(self.subs(), low@) is None,
    {
        proof {
            assert(self.subs().skip(0) =~= self.subs());
        }
        let n = self.subcategories.len();
        let mut i: usize = 0;
        while i < n
            invariant
                n == self.subs().len(),
                0 <= i <= n,
                find_id_by_lower(self.subs(), low@) == find_id_by_lower(
                    self.subs().skip(i as int),
                    low@,
                ),
            decreases n - i,
        {
            let sub = &self.subcategories[i];
            let sublow = to_lowercase(sub.name.as_str());
            proof {
                assert(self.subs().skip(i as int)[0] == self.subs()[i as int]);
                assert(self.subs().skip(i as int).drop_first() =~= self.subs().skip(
                    i + 1 as int,
                ));
            }
            if str_eq(sublow.as_str(), low) {
                return Some(i);
            }
            i = i + 1;
        }
        proof {
            assert(self.subs().skip(n as int) =~= Seq::<Subcategory>::empty());
        }
        None
    }

    /// Creates a subcategory: the name is stored in Title Case, looked up by
    /// its lowercase form, and assigned the next subcategory id. Returns the
    /// new id. A failing request leaves the ledger untouched.
    pub fn subcategory_add(&mut self, name: &str, now: &str) -> (r: Result<usize, CliError>)
        requires
            old(self).wf(),
            old(self).next_subcategory_id < u32::MAX,
        ensures
            final(self).wf(),
            (r is Ok) == sub_add_ok(*old(self), name@),
            r matches Ok(id) ==> {
                &&& id == old(self).next_subcategory_id as usize
                &&& final(self).subcategories@.len() == old(self).subcategories@.len() + 1
                &&& final(self).subcategories@.drop_last() == old(self).subcategories@
                &&& final(self).subcategories@.last().id == id
                &&& final(self).subcategories@.last().name@ == title_seq(name@)
                &&& final(self).next_subcategory_id == old(self).next_subcategory_id + 1
                &&& final(self).records@ == old(self).records@
                &&& final(self).next_record_id == old(self).next_record_id
                &&& final(self).last_modified@ == now@
                &&& same_config(*old(self), *final(self))
            },
            r matches Err(e) ==> *final(self) == *old(self) && sub_add_err(name@, e),
    {
        if !check_label(name) {
            return Err(
                CliError::ValidationError(ValidationErrorKind::InvalidName {
                    name: String::from_str(name),
                    reason: String::from_str(
                        "must start with a letter and contain only letters, digits and underscores",
                    ),
                }),
            );
        }
        let low = to_lowercase(name);
        if str_eq(low.as_str(), "miscellaneous") {
            return Err(
                CliError::ValidationError(ValidationErrorKind::CannotDeleteMiscellaneous),
            );
        }
        let title = to_title_case(name);
        if self.find_sub_index(low.as_str()).is_some() {
            return Err(
                CliError::ValidationError(ValidationErrorKind::SubcategoryAlreadyExists {
                    name: title,
                }),
            );
        }
        let id = self.next_subcategory_id as usize;
        let sub = Subcategory { id, name: title };
        proof {
            lemma_find_id_none(self.subs(), low@);
            lemma_lower_title(name@);
        }
        self.subcategories.push(sub);
        self.next_subcategory_id = self.next_subcategory_id + 1;
        self.last_modified = String::from_str(now);
        proof {
            let l0 = *old(self);
            let l1 = *self;
            assert(l1.subcategories@.drop_last() =~= l0.subcategories@);
            assert(l1.recs() == l0.recs());
            assert forall|i: int, j: int|
                0 <= i < j < l1.subs().len() implies (#[trigger] l1.subs()[i]).id != (
            #[trigger] l1.subs()[j]).id by {
                if j < l1.subs().len() - 1 {
                    assert(l1.subs()[i] == l0.subs()[i] && l1.subs()[j] == l0.subs()[j]);
                } else {
                    assert(l1.subs()[i] == l0.subs()[i]);
                    assert(l0.subs()[i].id < l0.next_subcategory_id as usize);
                }
            }
            assert forall|i: int, j: int|
                0 <= i < j < l1.subs().len() implies lower_seq((#[trigger] l1.subs()[i]).name@)
                != lower_seq((#[trigger] l1.subs()[j]).name@) by {
                if j < l1.subs().len() - 1 {
                    assert(l1.subs()[i] == l0.subs()[i] && l1.subs()[j] == l0.subs()[j]);
                } else {
                    assert(l1.subs()[i] == l0.subs()[i]);
                    assert(l1.subs()[j].name@ == title_seq(name@));
                    assert(lower_seq(l0.subs()[i].name@) != low@);
                }
            }
            let m = choose|m: int|
                0 <= m < l0.subs().len() && lower_seq((#[trigger] l0.subs()[m]).name@)
                    == misc_name();
            assert(l1.subs()[m] == l0.subs()[m]);
            assert forall|i: int|
                0 <= i < l1.recs().len() implies l1.record_ok(#[trigger] l1.recs()[i]) by {
                assert(l0.record_ok(l0.recs()[i]));
                let w = choose|w: int|
                    0 <= w < l0.subs().len() && (#[trigger] l0.subs()[w]).id == l0.recs()[
                        i
                    ].subcategory;
                assert(l1.subs()[w] == l0.subs()[w]);
            }
        }
        Ok(id)
    }

    /// Renames a subcategory: the entry keeps its id, so records that
    /// reference it follow the new name. The reserved subcategory cannot be
    /// renamed. A failing request leaves the ledger untouched.
    pub fn subcategory_rename(&mut self, old_name: &str, new_name: &str, now: &str) -> (r:
        Result<(), CliError>)
        requires
            old(self).wf(),
        ensures
            final(self).wf(),
            (r is Ok) == {
                &&& find_id_by_lower(old(self).subs(), lower_seq(old_name@)) is Some
                &&& lower_seq(old_name@) != misc_name()
                &&& is_valid_label(new_name@)
                &&& find_id_by_lower(old(self).subs(), lower_seq(new_name@)) is None
            },
            r is Ok ==> exists|k: int|
                {
                    &&& 0 <= k < old(self).subs().len()
                    &&& lower_seq((#[trigger] old(self).subs()[k]).name@) == lower_seq(
                        old_name@,
                    )
                    &&& final(self).subcategories@.len() == old(self).subcategories@.len()
                    &&& (forall|i: int|
                        0 <= i < old(self).subs().len() && i != k ==> final(self).subs()[i]
                            == old(self).subs()[i])
                    &&& final(self).subs()[k].id == old(self).subs()[k].id
                    &&& final(self).subs()[k].name@ == title_seq(new_name@)
                },
            r is Ok ==> {
                &&& final(self).records@ == old(self).records@
                &&& final(self).next_record_id == old(self).next_record_id
                &&& final(self).next_subcategory_id == old(self).next_subcategory_id
                &&& final(self).last_modified@ == now@
                &&& same_config(*old(self), *final(self))
            },
            r matches Err(e) ==> *final(self) == *old(self) && rename_err(
                *old(self),
                old_name@,
                new_name@,
                e,
            ),
    {
        let old_low = to_lowercase(old_name);
        let k = match self.find_sub_index(old_low.as_str()) {
            Some(k) => k,
            None => {
                return Err(
                    CliError::ValidationError(ValidationErrorKind::SubcategoryNotFound {
                        name: String::from_str(old_name),
                    }),
                );
            },
        };
        if str_eq(old_low.as_str(), "miscellaneous") {
            return Err(
                CliError::ValidationError(ValidationErrorKind::CannotDeleteMiscellaneous),
            );
        }
        if !check_label(new_name) {
            return Err(
                CliError::ValidationError(ValidationErrorKind::InvalidName {
                    name: String::from_str(new_name),
                    reason: String::from_str(
                        "must start with a letter and contain only letters, digits and underscores",
                    ),
                }),
            );
        }
        let new_low = to_lowercase(new_name);
        let title = to_title_case(new_name);
        if self.find_sub_index(new_low.as_str()).is_some() {
            return Err(
                CliError::ValidationError(ValidationErrorKind::SubcategoryAlreadyExists {
                    name: title,
                }),
            );
        }
        let id = self.subcategories[k].id;
        proof {
            lemma_find_id_none(self.subs(), new_low@);
            lemma_lower_title(new_name@);
        }
        self.subcategories[k] = Subcategory { id, name: title };
        self.last_modified = String::from_str(now);
        proof {
            let l0 = *old(self);
            let l1 = *self;
            let ki = k as int;
            assert(l1.subs() == l0.subs().update(ki, l1.subs()[ki]));
            assert(l1.recs() == l0.recs());
            assert forall|i: int, j: int|
                0 <= i < j < l1.subs().len() implies lower_seq((#[trigger] l1.subs()[i]).name@)
                != lower_seq((#[trigger] l1.subs()[j]).name@) by {
                if i != ki && j != ki {
                    assert(l1.subs()[i] == l0.subs()[i] && l1.subs()[j] == l0.subs()[j]);
                } else if i == ki {
                    assert(l1.subs()[j] == l0.subs()[j]);
                    assert(lower_seq(l1.subs()[i].name@) == lower_seq(new_name@));
                    assert(lower_seq(l0.subs()[j].name@) != lower_seq(new_name@));
                } else {
                    assert(l1.subs()[i] == l0.subs()[i]);
                    assert(lower_seq(l1.subs()[j].name@) == lower_seq(new_name@));
                    assert(lower_seq(l0.subs()[i].name@) != lower_seq(new_name@));
                }
            }
            let m = choose|m: int|
                0 <= m < l0.subs().len() && lower_seq((#[trigger] l0.subs()[m]).name@)
                    == misc_name();
            assert(lower_seq(l0.subs()[ki].name@) == old_low@);
            assert(m != ki);
            assert(l1.subs()[m] == l0.subs()[m]);
            assert forall|i: int|
                0 <= i < l1.recs().len() implies l1.record_ok(#[trigger] l1.recs()[i]) by {
                assert(l0.record_ok(l0.recs()[i]));
                let w = choose|w: int|
                    0 <= w < l0.subs().len() && (#[trigger] l0.subs()[w]).id == l0.recs()[
                        i
                    ].subcategory;
                assert(l1.subs()[w].id == l0.subs()[w].id);
            }
        }
        Ok(())
    }

    /// Deletes a subcategory: only when it is not the reserved one, it
    /// exists, and no record references it. A failing request leaves the
    /// ledger untouched; the dependent-record error carries the exact count.
    pub fn subcategory_delete(&mut self, name: &str, now: &str) -> (r: Result<(), CliError>)
        requires
            old(self).wf(),
        ensures
            final(self).wf(),
            (r is Ok) == {
                &&& lower_seq(name@) != misc_name()
                &&& find_id_by_lower(old(self).subs(), lower_seq(name@)) is Some
                &&& count_subcat(
                    old(self).recs(),
                    find_id_by_lower(old(self).subs(), lower_seq(name@))->Some_0,
                ) == 0
            },
            r is Ok ==> exists|k: int|
                {
                    &&& 0 <= k < old(self).subs().len()
                    &&& lower_seq((#[trigger] old(self).subs()[k]).name@) == lower_seq(name@)
                    &&& final(self).subcategories@ == old(self).subcategories@.remove(k)
                },
            r is Ok ==> {
                &&& final(self).records@ == old(self).records@
                &&& final(self).next_record_id == old(self).next_record_id
                &&& final(self).next_subcategory_id == old(self).next_subcategory_id
                &&& final(self).last_modified@ == now@
                &&& same_config(*old(self), *final(self))
            },
            r matches Err(e) ==> *final(self) == *old(self) && sub_delete_err(
                *old(self),
                name@,
                e,
            ),
    {
        let low = to_lowercase(name);
        if str_eq(low.as_str(), "miscellaneous") {
            return Err(
                CliError::ValidationError(ValidationErrorKind::CannotDeleteMiscellaneous),
            );
        }
        let k = match self.find_sub_index(low.as_str()) {
            Some(k) => k,
            None => {
                return Err(
                    CliError::ValidationError(ValidationErrorKind::SubcategoryNotFound {
                        name: String::from_str(name),
                    }),
                );
            },
        };
        let id = self.subcategories[k].id;
        let count = self.count_records_for_subcategory(id);
        if count > 0 {
            proof {
                lemma_find_name_at_index(self.subs(), k as int);
            }
            return Err(
                CliError::ValidationError(ValidationErrorKind::SubcategoryHasRecords {
                    name: self.subcategories[k].name.clone(),
                    count,
                }),
            );
        }
        proof {
            lemma_count_subcat_zero(self.recs(), id);
        }
        self.subcategories.remove(k);
        self.last_modified = String::from_str(now);
        proof {
            let l0 = *old(self);
            let l1 = *self;
            let ki = k as int;
            assert(l1.subcategories@ =~= l0.subcategories@.subrange(0, ki) + l0.subcategories@
                .subrange(ki + 1, l0.subcategories@.len() as int));
            assert(l1.recs() == l0.recs());
            assert forall|i: int|
                0 <= i < l1.subs().len() implies #[trigger] l1.subs()[i] == (if i < ki {
                l0.subs()[i]
            } else {
                l0.subs()[i + 1]
            }) by {}
            let m = choose|m: int|
                0 <= m < l0.subs().len() && lower_seq((#[trigger] l0.subs()[m]).name@)
                    == misc_name();
            assert(lower_seq(l0.subs()[ki].name@) == low@);
            assert(m != ki);
            if m < ki {
                assert(l1.subs()[m] == l0.subs()[m]);
            } else {
                assert(l1.subs()[m - 1] == l0.subs()[m]);
            }
            assert forall|i: int|
                0 <= i < l1.recs().len() implies l1.record_ok(#[trigger] l1.recs()[i]) by {
                assert(l0.record_ok(l0.recs()[i]));
                assert(l0.recs()[i].subcategory != id);
                let w = choose|w: int|
                    0 <= w < l0.subs().len() && (#[trigger] l0.subs()[w]).id == l0.recs()[
                        i
                    ].subcategory;
                assert(w != ki);
                if w < ki {
                    assert(l1.subs()[w] == l0.subs()[w]);
                } else {
                    assert(l1.subs()[w - 1] == l0.subs()[w]);
                }
            }
        }
        Ok(())
    }
}

/// Which error a failing rename returns: a missing old name first, then the
/// reserved name, then an invalid new label, then a duplicate new name.
pub open spec fn rename_err(l: TrackerData, oldn: Seq<char>, newn: Seq<char>, e: CliError) -> bool {
    if find_id_by_lower(l.subs(), lower_seq(oldn)) is None {
        e matches CliError::ValidationError(ValidationErrorKind::SubcategoryNotFound { name })
            && name@ == oldn
    } else if lower_seq(oldn) == misc_name() {
        e == CliError::ValidationError(ValidationErrorKind::CannotDeleteMiscellaneous)
    } else if !is_valid_label(newn) {
        e matches CliError::ValidationError(ValidationErrorKind::InvalidName { name, reason })
            && name@ == newn && reason@
            == "must start with a letter and contain only letters, digits and underscores"@
    } else {
        e matches CliError::ValidationError(ValidationErrorKind::SubcategoryAlreadyExists {
            name,
        }) && name@ == title_seq(newn)
    }
}

/// Which error a failing subcategory delete returns: the reserved name
/// first, then a missing name, then dependent records with their exact
/// count.
pub open spec fn sub_delete_err(l: TrackerData, nm: Seq<char>, e: CliError) -> bool {
    if lower_seq(nm) == misc_name() {
        e == CliError::ValidationError(ValidationErrorKind::CannotDeleteMiscellaneous)
    } else if find_id_by_lower(l.subs(), lower_seq(nm)) is None {
        e matches CliError::ValidationError(ValidationErrorKind::SubcategoryNotFound { name })
            && name@ == nm
    } else {
        e matches CliError::ValidationError(ValidationErrorKind::SubcategoryHasRecords {
            name,
            count,
        }) && find_name_by_id(
            l.subs(),
            find_id_by_lower(l.subs(), lower_seq(nm))->Some_0,
        ) == Some(name@) && count == count_subcat(
            l.recs(),
            find_id_by_lower(l.subs(), lower_seq(nm))->Some_0,
        ) && count >= 1
    }
}

/// Deleted record ids are never reused: a delete keeps the id counter, every
/// id ever assigned lies below the counter, and a later add assigns the
/// counter itself, so the new record's id differs from every id that existed
/// before the delete, the deleted ones included.
pub proof fn lemma_deleted_id_never_reused(
    l0: TrackerData,
    l1: TrackerData,
    rec: Record,
    x: usize,
)
    requires
        l0.wf(),
        forall|r: Record| l1.recs().contains(r) ==> l0.recs().contains(r),
        l1.next_record_id == l0.next_record_id,
        rec.id == l1.next_record_id,
        exists|i: int| 0 <= i < l0.recs().len() && (#[trigger] l0.recs()[i]).id == x,
    ensures
        rec.id != x,
{
    let i = choose|i: int| 0 <= i < l0.recs().len() && (#[trigger] l0.recs()[i]).id == x;
    assert(l0.record_ok(l0.recs()[i]));
}

} // verus!
