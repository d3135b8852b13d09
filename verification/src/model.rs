use vstd::prelude::*;
use vstd::string::*;
use crate::text::{lower_seq, str_eq, to_lowercase};

verus! {

/// The fixed currency code set a ledger can be denominated in.
#[derive(Clone, Copy, Debug, PartialEq, Eq, Structural)]
pub enum Currency {
    NGN,
    USD,
    GBP,
    EUR,
    CAD,
    AUD,
    JPY,
}

pub open spec fn currency_code_spec(c: Currency) -> Seq<char> {
    match c {
        Currency::NGN => "NGN"@,
        Currency::USD => "USD"@,
        Currency::GBP => "GBP"@,
        Currency::EUR => "EUR"@,
        Currency::CAD => "CAD"@,
        Currency::AUD => "AUD"@,
        Currency::JPY => "JPY"@,
    }
}

/// The case-insensitive reading of a currency code.
pub open spec fn currency_parse_spec(q: Seq<char>) -> Option<Currency> {
    let l = lower_seq(q);
    if l == "ngn"@ {
        Some(Currency::NGN)
    } else if l == "usd"@ {
        Some(Currency::USD)
    } else if l == "gbp"@ {
        Some(Currency::GBP)
    } else if l == "eur"@ {
        Some(Currency::EUR)
    } else if l == "cad"@ {
        Some(Currency::CAD)
    } else if l == "aud"@ {
        Some(Currency::AUD)
    } else if l == "jpy"@ {
        Some(Currency::JPY)
    } else {
        None
    }
}

impl Currency {
    /// The canonical upper-case code, as written at rest and in displays.
    pub fn code(&self) -> (r: String)
        ensures
            r@ == currency_code_spec(*self),
    {
        match self {
            Currency::NGN => String::from_str("NGN"),
            Currency::USD => String::from_str("USD"),
            Currency::GBP => String::from_str("GBP"),
            Currency::EUR => String::from_str("EUR"),
            Currency::CAD => String::from_str("CAD"),
            Currency::AUD => String::from_str("AUD"),
            Currency::JPY => String::from_str("JPY"),
        }
    }

    /// Case-insensitive parse of a currency code.
    pub fn parse(s: &str) -> (r: Option<Currency>)
        ensures
            r == currency_parse_spec(s@),
    {
        let low = to_lowercase(s);
        let l = low.as_str();
        if str_eq(l, "ngn") {
            Some(Currency::NGN)
        } else if str_eq(l, "usd") {
            Some(Currency::USD)
        } else if str_eq(l, "gbp") {
            Some(Currency::GBP)
        } else if str_eq(l, "eur") {
            Some(Currency::EUR)
        } else if str_eq(l, "cad") {
            Some(Currency::CAD)
        } else if str_eq(l, "aud") {
            Some(Currency::AUD)
        } else if str_eq(l, "jpy") {
            Some(Currency::JPY)
        } else {
            None
        }
    }
}

/// The two fixed transaction categories. They are never created, renamed,
/// or deleted: the set is closed for the lifetime of a ledger.
#[derive(Clone, Copy, Debug, PartialEq, Eq, Structural)]
pub enum Category {
    Income,
    Expenses,
}

pub open spec fn category_name_of(c: Category) -> Seq<char> {
    match c {
        Category::Income => "income"@,
        Category::Expenses => "expenses"@,
    }
}

/// The case-insensitive reading of a category name.
pub open spec fn category_parse_spec(q: Seq<char>) -> Option<Category> {
    let l = lower_seq(q);
    if l == "income"@ {
        Some(Category::Income)
    } else if l == "expenses"@ {
        Some(Category::Expenses)
    } else {
        None
    }
}

impl Category {
    pub open spec fn id_spec(&self) -> usize {
        match self {
            Category::Income => 1usize,
            Category::Expenses => 2usize,
        }
    }

    /// The stable numeric id used in stored records: income is 1, expenses 2.
    pub fn id(&self) -> (r: usize)
        ensures
            r == self.id_spec(),
    {
        match self {
            Category::Income => 1,
            Category::Expenses => 2,
        }
    }

    /// The canonical lower-case name, as written at rest.
    pub fn name(&self) -> (r: String)
        ensures
            r@ == category_name_of(*self),
    {
        match self {
            Category::Income => String::from_str("income"),
            Category::Expenses => String::from_str("expenses"),
        }
    }

    /// Case-insensitive parse of a category name.
    pub fn parse(s: &str) -> (r: Option<Category>)
        ensures
            r == category_parse_spec(s@),
    {
        let low = to_lowercase(s);
        let l = low.as_str();
        if str_eq(l, "income") {
            Some(Category::Income)
        } else if str_eq(l, "expenses") {
            Some(Category::Expenses)
        } else {
            None
        }
    }
}

/// The file formats the export command can produce.
#[derive(Clone, Copy, Debug, PartialEq, Eq, Structural)]
pub enum ExportFileType {
    JSON,
    PDF,
    CSV,
}

/// One income or expense transaction. `amount` is in cents and always
/// positive in a well-formed ledger; the sign of its effect is determined
/// by `category` at aggregation time.
#[derive(Debug, PartialEq, Eq)]
pub struct Record {
    pub id: usize,
    /// Id from the fixed category set.
    pub category: usize,
    /// Id from the ledger's subcategory table.
    pub subcategory: usize,
    pub description: String,
    /// Cents; stored positive.
    pub amount: i64,
    /// Format: DD-MM-YYYY.
    pub date: String,
}

/// A user-managed, named sub-classification of transactions. Names are
/// case-insensitively unique; lookups go through the lowercased name.
#[derive(Debug, PartialEq, Eq)]
pub struct Subcategory {
    pub id: usize,
    pub name: String,
}

impl Clone for Record {
    fn clone(&self) -> (r: Record)
        ensures
            r == *self,
    {
        Record {
            id: self.id,
            category: self.category,
            subcategory: self.subcategory,
            description: self.description.clone(),
            amount: self.amount,
            date: self.date.clone(),
        }
    }
}

impl Clone for Subcategory {
    fn clone(&self) -> (r: Subcategory)
        ensures
            r == *self,
    {
        Subcategory { id: self.id, name: self.name.clone() }
    }
}

} // verus!
