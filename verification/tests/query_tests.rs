use fintrack::{AddRequest, Category, Currency, ListFilter, TrackerData};
use fintrack::date::Date;

const NOW: &str = "2025-06-01T00:00:00Z";

fn today() -> Date {
    Date { day: 1, month: 6, year: 2025 }
}

fn init() -> TrackerData {
    TrackerData::init(Currency::NGN, 0, NOW)
}

fn add(t: &mut TrackerData, category: Category, amount: i64, date: &str) {
    let d = fintrack::date::parse_date(date).unwrap();
    let req = AddRequest {
        category,
        amount,
        subcategory: None,
        description: None,
        date: Some(d),
    };
    t.add_record(&req, NOW, &today()).unwrap();
}

fn no_filter() -> ListFilter {
    ListFilter {
        first: None,
        last: None,
        start: None,
        end: None,
        category: None,
        subcategory: None,
    }
}

#[test]
fn test_list_all_records() {
    let mut t = init();

    add(&mut t, Category::Income, 10000, "01-01-2025");
    add(&mut t, Category::Expenses, 5000, "02-01-2025");
    add(&mut t, Category::Income, 20000, "03-01-2025");

    let records = t.list_records(&no_filter());

    assert_eq!(records.len(), 3);
    // Records should be sorted by date
    assert_eq!(records[0].date, "01-01-2025");
    assert_eq!(records[1].date, "02-01-2025");
    assert_eq!(records[2].date, "03-01-2025");
}

#[test]
fn test_list_filter_by_category() {
    let mut t = init();

    add(&mut t, Category::Income, 10000, "01-06-2025");
    add(&mut t, Category::Expenses, 5000, "01-06-2025");
    add(&mut t, Category::Income, 20000, "01-06-2025");

    let mut f = no_filter();
    f.category = Some(Category::Income);
    let records = t.list_records(&f);

    assert_eq!(records.len(), 2);
    assert_eq!(records[0].amount, 10000);
    assert_eq!(records[1].amount, 20000);
}

#[test]
fn test_list_filter_by_date_range() {
    let mut t = init();

    add(&mut t, Category::Income, 10000, "01-01-2025");
    add(&mut t, Category::Expenses, 5000, "05-01-2025");
    add(&mut t, Category::Income, 20000, "10-01-2025");

    let mut f = no_filter();
    f.start = Some(Date { day: 3, month: 1, year: 2025 });
    f.end = Some(Date { day: 7, month: 1, year: 2025 });
    let records = t.list_records(&f);

    assert_eq!(records.len(), 1);
    assert_eq!(records[0].amount, 5000);
}

#[test]
fn test_list_first_n_records() {
    let mut t = init();

    for i in 1..=5 {
        let date = format!("{:02}-01-2025", i);
        add(&mut t, Category::Income, 10000, &date);
    }

    let mut f = no_filter();
    f.first = Some(3);
    let records = t.list_records(&f);

    assert_eq!(records.len(), 3);
}

#[test]
fn test_list_last_n_records() {
    let mut t = init();

    for i in 1..=5 {
        let date = format!("{:02}-01-2025", i);
        add(&mut t, Category::Income, 10000, &date);
    }

    let mut f = no_filter();
    f.last = Some(2);
    let records = t.list_records(&f);

    assert_eq!(records.len(), 2);
}

#[test]
fn test_list_last_n_returns_latest_ascending() {
    let mut t = init();

    // five chronologically distinct records, inserted out of order
    add(&mut t, Category::Income, 100, "09-03-2025");
    add(&mut t, Category::Income, 200, "01-03-2025");
    add(&mut t, Category::Income, 300, "25-03-2025");
    add(&mut t, Category::Income, 400, "17-03-2025");
    add(&mut t, Category::Income, 500, "05-03-2025");

    let mut f = no_filter();
    f.last = Some(2);
    let records = t.list_records(&f);

    assert_eq!(records.len(), 2);
    assert_eq!(records[0].date, "17-03-2025");
    assert_eq!(records[1].date, "25-03-2025");
}

#[test]
fn test_list_with_no_results() {
    let mut t = init();

    add(&mut t, Category::Income, 10000, "15-01-2025");

    let mut f = no_filter();
    f.start = Some(Date { day: 1, month: 2, year: 2025 });
    f.end = Some(Date { day: 28, month: 2, year: 2025 });
    let records = t.list_records(&f);

    assert_eq!(records.len(), 0, "Should return empty list");
}

#[test]
fn test_list_excludes_unparseable_dates() {
    let mut t = init();
    add(&mut t, Category::Income, 10000, "01-01-2025");
    // a record whose stored date is not a date never appears in a listing
    t.records.push(fintrack::Record {
        id: 99,
        category: 1,
        subcategory: 1,
        description: String::new(),
        amount: 100,
        date: "not-a-date".to_string(),
    });

    let records = t.list_records(&no_filter());
    assert_eq!(records.len(), 1);
    assert_eq!(records[0].id, 1);
}

#[test]
fn test_describe_empty_tracker() {
    let t = init();

    let data = t.describe();
    assert_eq!(data.total_records, 0);
    assert_eq!(data.date_range, None);
    assert_eq!(data.average_transaction, 0);
}

#[test]
fn test_describe_with_data() {
    let mut t = TrackerData::init(Currency::USD, 0, NOW);

    add(&mut t, Category::Income, 100000, "01-01-2025");
    add(&mut t, Category::Expenses, 20000, "15-01-2025");
    add(&mut t, Category::Income, 50000, "20-01-2025");

    let data = t.describe();
    assert_eq!(data.total_records, 3);
    assert!(data.date_range.is_some());

    let (earliest, latest) = data.date_range.as_ref().unwrap();
    assert_eq!(earliest, "01-01-2025");
    assert_eq!(latest, "20-01-2025");

    // Average = (1000 + 200 + 500) / 3 = 566.67 (roughly)
    assert!((data.average_transaction as f64 / 100.0 - 566.67).abs() < 0.1);

    assert!(data.by_category.len() > 0);
}

#[test]
fn test_describe_date_range() {
    let mut t = init();

    add(&mut t, Category::Income, 10000, "10-03-2024");
    add(&mut t, Category::Expenses, 5000, "05-01-2025");
    add(&mut t, Category::Income, 7500, "20-12-2023");

    let data = t.describe();
    assert!(data.date_range.is_some());

    let (earliest, latest) = data.date_range.as_ref().unwrap();
    assert_eq!(earliest, "20-12-2023");
    assert_eq!(latest, "05-01-2025");
}

#[test]
fn test_describe_breakdowns_sorted_by_sum() {
    let mut t = init();
    t.subcategory_add("Rent", NOW).unwrap();
    t.subcategory_add("Snacks", NOW).unwrap();

    let mk = |cat: Category, amount: i64, sub: &str| AddRequest {
        category: cat,
        amount,
        subcategory: Some(sub.to_string()),
        description: None,
        date: None,
    };
    t.add_record(&mk(Category::Expenses, 90000, "rent"), NOW, &today()).unwrap();
    t.add_record(&mk(Category::Expenses, 1500, "snacks"), NOW, &today()).unwrap();
    t.add_record(&mk(Category::Income, 40000, "miscellaneous"), NOW, &today()).unwrap();

    let data = t.describe();
    // expenses total 915.00 beats income 400.00
    assert_eq!(data.by_category[0].0, "expenses");
    assert_eq!(data.by_category[0].1, 2);
    assert_eq!(data.by_category[0].2, 91500);
    assert_eq!(data.by_category[1].0, "income");
    // subcategories by sum descending: Rent, Miscellaneous, Snacks
    assert_eq!(data.by_subcategory[0].0, "Rent");
    assert_eq!(data.by_subcategory[1].0, "miscellaneous");
    assert_eq!(data.by_subcategory[2].0, "Snacks");
}

#[test]
fn test_dump_tracker_data() {
    let mut t = TrackerData::init(Currency::GBP, 50000, NOW);
    add(&mut t, Category::Income, 10000, "01-06-2025");

    assert_eq!(t.currency, Currency::GBP);
    assert_eq!(t.opening_balance, 50000);
    assert_eq!(t.records.len(), 1);
}

#[test]
fn test_category_list() {
    let t = init();

    let categories = t.list_categories();
    assert_eq!(categories.len(), 2);

    let has_income = categories.iter().any(|(id, name)| *id == 1 && name == "income");
    let has_expenses = categories.iter().any(|(id, name)| *id == 2 && name == "expenses");

    assert!(has_income, "Should have income category");
    assert!(has_expenses, "Should have expenses category");
}
