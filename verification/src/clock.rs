use vstd::prelude::*;
use chrono::Datelike;
use crate::date::{Date, date_render, days_in_month};
use crate::error::CliError;
use crate::ledger::{TrackerData, find_id_by_lower, misc_name};
use crate::model::{Category, Currency, Record};
use crate::ops::{
    AddRequest, UpdateRequest, add_err, add_ok, req_desc, req_sub_name, retained, rename_err,
    same_config, sub_add_err, sub_add_ok, sub_delete_err, upd_err, upd_ok, updated_record,
    keep_not_cat, keep_not_in_ids, keep_not_subcat,
};
use crate::ledger::{MAX_AMOUNT, count_subcat};
use crate::text::{is_valid_label, lower_seq, title_seq};

verus! {

/// Relies on chrono's `Utc::now` and `DateTime::to_rfc3339`: the current
/// instant as an RFC 3339 timestamp. The value depends on the clock, so
/// nothing is promised of it beyond being nonempty.
#[verifier::external_body]
fn now_rfc3339() -> (r: String)
    ensures
        r@.len() > 0,
{
    chrono::Utc::now().to_rfc3339()
}

/// Relies on chrono's `Utc::now`, `DateTime::date_naive` and `Datelike`:
/// the current date as plain day, month and year numbers. chrono documents
/// the month as always in 1..=12 and the day as a real day of that month in
/// the proleptic Gregorian calendar; the year is whatever the clock says.
#[verifier::external_body]
fn today_ymd() -> (r: (u32, u32, i32))
    ensures
        1 <= r.1 <= 12,
        1 <= r.0 as int <= days_in_month(r.2 as int, r.1 as int),
{
    let now = chrono::Utc::now().date_naive();
    (now.day(), now.month(), now.year())
}

/// The current date, clamped into the four-digit-year range the document
/// format can carry (a clock outside years 1..=9999 falls back to the Unix
/// epoch date).
fn today() -> (r: Date)
    ensures
        r.wf(),
{
    let (d, m, y) = today_ymd();
    if 1 <= y && y <= 9999 {
        Date { day: d, month: m, year: y as u32 }
    } else {
        Date { day: 1, month: 1, year: 1970 }
    }
}

impl TrackerData {
    /// A fresh ledger stamped with the current time: both timestamps carry
    /// the same clock reading.
    pub fn init_now(currency: Currency, opening_balance: i64) -> (r: TrackerData)
        ensures
            r.version == 1,
            r.currency == currency,
            r.created_at@ == r.last_modified@,
            r.created_at@.len() > 0,
            r.opening_balance == opening_balance,
            r.subs().len() == 1,
            r.subs()[0].id == 1,
            r.subs()[0].name@ == misc_name(),
            r.next_subcategory_id == 2,
            r.recs().len() == 0,
            r.next_record_id == 1,
            r.wf(),
    {
        let now = now_rfc3339();
        TrackerData::init(currency, opening_balance, now.as_str())
    }

    /// `add_record` against the clock: the record's date defaults to the
    /// current date and `last_modified` takes the current timestamp.
    pub fn add_record_now(&mut self, req: &AddRequest) -> (r: Result<Record, CliError>)
        requires
            old(self).wf(),
            old(self).next_record_id < usize::MAX,
            req.date matches Some(d) ==> d.wf(),
        ensures
            final(self).wf(),
            (r is Ok) == add_ok(*old(self), *req),
            r matches Ok(rec) ==> {
                &&& rec.id == old(self).next_record_id
                &&& rec.category == req.category.id_spec()
                &&& Some(rec.subcategory) == find_id_by_lower(
                    old(self).subs(),
                    lower_seq(req_sub_name(*req)),
                )
                &&& rec.amount == req.amount
                &&& rec.description@ == req_desc(*req)
                &&& (req.date matches Some(d) ==> rec.date@ == date_render(d))
                &&& final(self).records@ == old(self).records@.push(rec)
                &&& final(self).next_record_id == old(self).next_record_id + 1
                &&& final(self).subcategories == old(self).subcategories
                &&& final(self).next_subcategory_id == old(self).next_subcategory_id
                &&& same_config(*old(self), *final(self))
            },
            r matches Err(e) ==> *final(self) == *old(self) && add_err(*req, e),
    {
        let now = now_rfc3339();
        let d = today();
        self.add_record(req, now.as_str(), &d)
    }

    /// `update_record` stamped with the current timestamp.
    pub fn update_record_now(&mut self, req: &UpdateRequest) -> (r: Result<Record, CliError>)
        requires
            old(self).wf(),
            req.date matches Some(d) ==> d.wf(),
        ensures
            final(self).wf(),
            (r is Ok) == upd_ok(*old(self), *req),
            r matches Ok(rec) ==> exists|k: int|
                {
                    &&& 0 <= k < old(self).recs().len()
                    &&& (#[trigger] old(self).recs()[k]).id == req.record_id
                    &&& final(self).records@ == old(self).records@.update(k, rec)
                    &&& updated_record(*old(self), old(self).recs()[k], rec, *req)
                },
            r matches Ok(rec) ==> {
                &&& final(self).next_record_id == old(self).next_record_id
                &&& final(self).subcategories == old(self).subcategories
                &&& final(self).next_subcategory_id == old(self).next_subcategory_id
                &&& same_config(*old(self), *final(self))
            },
            r matches Err(e) ==> *final(self) == *old(self) && upd_err(*old(self), *req, e),
    {
        let now = now_rfc3339();
        self.update_record(req, now.as_str())
    }

    /// `delete_by_ids` stamped with the current timestamp.
    pub fn delete_by_ids_now(&mut self, ids: &Vec<usize>)
        requires
            old(self).wf(),
        ensures
            final(self).wf(),
            final(self).records@ == retained(old(self).recs(), keep_not_in_ids(ids@)),
            final(self).next_record_id == old(self).next_record_id,
            final(self).subcategories == old(self).subcategories,
            final(self).next_subcategory_id == old(self).next_subcategory_id,
            same_config(*old(self), *final(self)),
    {
        let now = now_rfc3339();
        self.delete_by_ids(ids, now.as_str())
    }

    /// `delete_by_category` stamped with the current timestamp.
    pub fn delete_by_category_now(&mut self, category: Category)
        requires
            old(self).wf(),
        ensures
            final(self).wf(),
            final(self).records@ == retained(
                old(self).recs(),
                keep_not_cat(category.id_spec()),
            ),
            final(self).next_record_id == old(self).next_record_id,
            final(self).subcategories == old(self).subcategories,
            final(self).next_subcategory_id == old(self).next_subcategory_id,
            same_config(*old(self), *final(self)),
    {
        let now = now_rfc3339();
        self.delete_by_category(category, now.as_str())
    }

    /// `delete_by_subcategory` stamped with the current timestamp.
    pub fn delete_by_subcategory_now(&mut self, name: &str) -> (r: Result<(), CliError>)
        requires
            old(self).wf(),
        ensures
            final(self).wf(),
            (r is Ok) == (find_id_by_lower(old(self).subs(), lower_seq(name@)) is Some),
            r is Ok ==> {
                &&& final(self).records@ == retained(
                    old(self).recs(),
                    keep_not_subcat(
                        find_id_by_lower(old(self).subs(), lower_seq(name@))->Some_0,
                    ),
                )
                &&& final(self).next_record_id == old(self).next_record_id
                &&& final(self).subcategories == old(self).subcategories
                &&& final(self).next_subcategory_id == old(self).next_subcategory_id
                &&& same_config(*old(self), *final(self))
            },
            r matches Err(e) ==> *final(self) == *old(self) && (e matches
                CliError::ValidationError(crate::error::ValidationErrorKind::SubcategoryNotFound {
                    name: n,
                }) && n@ == name@),
    {
        let now = now_rfc3339();
        self.delete_by_subcategory(name, now.as_str())
    }

    /// `subcategory_add` stamped with the current timestamp.
    pub fn subcategory_add_now(&mut self, name: &str) -> (r: Result<usize, CliError>)
        requires
            old(self).wf(),
            old(self).next_subcategory_id < u32::MAX,
        ensures
            final(self).wf(),
            (r is Ok) == sub_add_ok(*old(self), name@),
            r matches Ok(id) ==> {
                &&& id == old(self).next_subcategory_id as usize
                &&& final(self).subcategories@.len() == old(self).subcategories@.len() + 1
                &&& final(self).subcategories@.drop_last() == old(self).subcategories@
                &&& final(self).subcategories@.last().id == id
                &&& final(self).subcategories@.last().name@ == title_seq(name@)
                &&& final(self).next_subcategory_id == old(self).next_subcategory_id + 1
                &&& final(self).records@ == old(self).records@
                &&& final(self).next_record_id == old(self).next_record_id
                &&& same_config(*old(self), *final(self))
            },
            r matches Err(e) ==> *final(self) == *old(self) && sub_add_err(name@, e),
    {
        let now = now_rfc3339();
        self.subcategory_add(name, now.as_str())
    }

    /// `subcategory_rename` stamped with the current timestamp.
    pub fn subcategory_rename_now(&mut self, old_name: &str, new_name: &str) -> (r: Result<
        (),
        CliError,
    >)
        requires
            old(self).wf(),
        ensures
            final(self).wf(),
            (r is Ok) == {
                &&& find_id_by_lower(old(self).subs(), lower_seq(old_name@)) is Some
                &&& lower_seq(old_name@) != misc_name()
                &&& is_valid_label(new_name@)
                &&& find_id_by_lower(old(self).subs(), lower_seq(new_name@)) is None
            },
            r is Ok ==> exists|k: int|
                {
                    &&& 0 <= k < old(self).subs().len()
                    &&& lower_seq((#[trigger] old(self).subs()[k]).name@) == lower_seq(
                        old_name@,
                    )
                    &&& final(self).subcategories@.len() == old(self).subcategories@.len()
                    &&& (forall|i: int|
                        0 <= i < old(self).subs().len() && i != k ==> final(self).subs()[i]
                            == old(self).subs()[i])
                    &&& final(self).subs()[k].id == old(self).subs()[k].id
                    &&& final(self).subs()[k].name@ == title_seq(new_name@)
                },
            r is Ok ==> {
                &&& final(self).records@ == old(self).records@
                &&& final(self).next_record_id == old(self).next_record_id
                &&& final(self).next_subcategory_id == old(self).next_subcategory_id
                &&& same_config(*old(self), *final(self))
            },
            r matches Err(e) ==> *final(self) == *old(self) && rename_err(
                *old(self),
                old_name@,
                new_name@,
                e,
            ),
    {
        let now = now_rfc3339();
        self.subcategory_rename(old_name, new_name, now.as_str())
    }

    /// `subcategory_delete` stamped with the current timestamp.
    pub fn subcategory_delete_now(&mut self, name: &str) -> (r: Result<(), CliError>)
        requires
            old(self).wf(),
        ensures
            final(self).wf(),
            (r is Ok) == {
                &&& lower_seq(name@) != misc_name()
                &&& find_id_by_lower(old(self).subs(), lower_seq(name@)) is Some
                &&& count_subcat(
                    old(self).recs(),
                    find_id_by_lower(old(self).subs(), lower_seq(name@))->Some_0,
                ) == 0
            },
            r is Ok ==> exists|k: int|
                {
                    &&& 0 <= k < old(self).subs().len()
                    &&& lower_seq((#[trigger] old(self).subs()[k]).name@) == lower_seq(name@)
                    &&& final(self).subcategories@ == old(self).subcategories@.remove(k)
                },
            r is Ok ==> {
                &&& final(self).records@ == old(self).records@
                &&& final(self).next_record_id == old(self).next_record_id
                &&& final(self).next_subcategory_id == old(self).next_subcategory_id
                &&& same_config(*old(self), *final(self))
            },
            r matches Err(e) ==> *final(self) == *old(self) && sub_delete_err(
                *old(self),
                name@,
                e,
            ),
    {
        let now = now_rfc3339();
        self.subcategory_delete(name, now.as_str())
    }
}

} // verus!
