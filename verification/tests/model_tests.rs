use fintrack::{Currency, Category, Record, Subcategory, Total, TrackerData};

fn create_test_tracker_data() -> TrackerData {
    TrackerData {
        version: 1,
        currency: Currency::USD,
        created_at: "2025-01-01T00:00:00Z".to_string(),
        last_modified: "2025-01-01T00:00:00Z".to_string(),
        opening_balance: 100000,
        subcategories: vec![Subcategory { id: 1, name: "miscellaneous".to_string() }],
        next_subcategory_id: 2,
        records: Vec::new(),
        next_record_id: 1,
    }
}

#[test]
fn test_push_record() {
    let mut tracker = create_test_tracker_data();
    let record = Record {
        id: 1,
        category: 1,
        subcategory: 1,
        description: "Test".to_string(),
        amount: 10000,
        date: "01-01-2025".to_string(),
    };

    tracker.push_record(record.clone());
    assert_eq!(tracker.records.len(), 1);
    assert_eq!(tracker.records[0].id, 1);
}

#[test]
fn test_category_id() {
    let tracker = create_test_tracker_data();
    assert_eq!(tracker.category_id("income"), 1);
    assert_eq!(tracker.category_id("expenses"), 2);
}

#[test]
fn test_subcategory_id() {
    let tracker = create_test_tracker_data();
    assert_eq!(tracker.subcategory_id("miscellaneous"), Some(1));
    assert_eq!(tracker.subcategory_id("nonexistent"), None);
}

#[test]
fn test_miscellaneous_subcategory_id() {
    let tracker = create_test_tracker_data();
    assert_eq!(tracker.miscellaneous_subcategory_id(), Some(1));
}

#[test]
fn test_category_name() {
    let tracker = create_test_tracker_data();
    assert_eq!(tracker.category_name(1), Some("income".to_string()));
    assert_eq!(tracker.category_name(2), Some("expenses".to_string()));
    assert_eq!(tracker.category_name(999), None);
}

#[test]
fn test_subcategory_name() {
    let mut tracker = create_test_tracker_data();
    tracker.subcategories.push(Subcategory { id: 2, name: "groceries".to_string() });

    assert_eq!(tracker.subcategory_name(1), Some("miscellaneous".to_string()));
    assert_eq!(tracker.subcategory_name(2), Some("groceries".to_string()));
    assert_eq!(tracker.subcategory_name(999), None);
}

#[test]
fn test_totals_empty() {
    let tracker = create_test_tracker_data();
    let (income, expenses) = tracker.totals();
    assert_eq!(income, 0);
    assert_eq!(expenses, 0);
}

#[test]
fn test_totals_with_records() {
    let mut tracker = create_test_tracker_data();

    tracker.records.push(Record {
        id: 1,
        category: 1, // income
        subcategory: 1,
        description: "Salary".to_string(),
        amount: 50000,
        date: "01-01-2025".to_string(),
    });

    tracker.records.push(Record {
        id: 2,
        category: 2, // expenses
        subcategory: 1,
        description: "Food".to_string(),
        amount: 10000,
        date: "02-01-2025".to_string(),
    });

    tracker.records.push(Record {
        id: 3,
        category: 1, // income
        subcategory: 1,
        description: "Bonus".to_string(),
        amount: 20000,
        date: "03-01-2025".to_string(),
    });

    let (income, expenses) = tracker.totals();
    assert_eq!(income, 70000);
    assert_eq!(expenses, 10000);
}

#[test]
fn test_currency_display() {
    assert_eq!(Currency::USD.code(), "USD");
    assert_eq!(Currency::NGN.code(), "NGN");
    assert_eq!(Currency::GBP.code(), "GBP");
}

#[test]
fn test_currency_from_str() {
    assert_eq!(Currency::parse("USD"), Some(Currency::USD));
    assert_eq!(Currency::parse("usd"), Some(Currency::USD));
    assert_eq!(Currency::parse("Usd"), Some(Currency::USD));
    assert!(Currency::parse("INVALID").is_none());
}

#[test]
fn test_category_display() {
    assert_eq!(Category::Income.name(), "income");
    assert_eq!(Category::Expenses.name(), "expenses");
}

#[test]
fn test_category_from_str() {
    assert_eq!(Category::parse("income"), Some(Category::Income));
    assert_eq!(Category::parse("Income"), Some(Category::Income));
    assert_eq!(Category::parse("INCOME"), Some(Category::Income));
    assert_eq!(Category::parse("expenses"), Some(Category::Expenses));
    assert!(Category::parse("invalid").is_none());
}

#[test]
fn models_test_total_calculation() {
    let total = Total {
        currency: Currency::USD,
        opening_balance: 100000,
        income_total: 50000,
        expenses_total: 20000,
    };

    assert_eq!(total.total(), 130000); // 1000 + 500 - 200, in cents
}

#[test]
fn test_default_tracker_json() {
    let t = TrackerData::init(Currency::USD, 100000, "2025-01-01T00:00:00Z");

    assert_eq!(t.currency, Currency::USD);
    assert_eq!(t.opening_balance, 100000);
    assert_eq!(t.category_id("income"), 1);
    assert_eq!(t.category_id("expenses"), 2);
    assert_eq!(t.subcategory_id("miscellaneous"), Some(1));
    assert_eq!(t.records.len(), 0);
    assert_eq!(t.next_record_id, 1);
    assert_eq!(t.next_subcategory_id, 2);
}

#[test]
fn test_invalid_subcommand_error() {
    let e = fintrack::invalid_subcommand_error("bogus");
    assert!(matches!(
        e,
        fintrack::CliError::ValidationError(fintrack::ValidationErrorKind::InvalidSubcommand { .. })
    ));
}

#[test]
fn test_cli_response_content() {
    let r = fintrack::CliResponse::success();
    assert!(r.content().is_none());
    let r = fintrack::CliResponse::new(fintrack::ResponseContent::Message("hi".to_string()));
    assert!(matches!(r.content(), Some(fintrack::ResponseContent::Message(m)) if m == "hi"));
}

#[test]
fn test_global_context_paths() {
    let gctx = fintrack::GlobalContext::new("/home/user".to_string());
    assert_eq!(gctx.tracker_path().as_str(), "/home/user/.fintrack/tracker.json");
    assert_eq!(gctx.base_path().as_str(), "/home/user/.fintrack");
}
