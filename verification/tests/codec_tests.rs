use fintrack::{AddRequest, Category, CliError, Currency, TrackerData};
use fintrack::date::Date;

const NOW: &str = "2025-01-01T00:00:00Z";

fn today() -> Date {
    Date { day: 1, month: 1, year: 2025 }
}

fn add(t: &mut TrackerData, category: Category, amount: i64, desc: &str) {
    let req = AddRequest {
        category,
        amount,
        subcategory: None,
        description: Some(desc.to_string()),
        date: None,
    };
    t.add_record(&req, NOW, &today()).unwrap();
}

#[test]
fn test_init_creates_tracker_file() {
    let t = TrackerData::init(Currency::USD, 100000, NOW);
    let content = t.render_tracker();

    let data: serde_json::Value = serde_json::from_str(&content).unwrap();

    assert_eq!(data["currency"], "USD");
    assert_eq!(data["opening_balance"], 1000.0);
    assert_eq!(data["categories"]["income"], 1);
    assert_eq!(data["categories"]["expenses"], 2);
}

#[test]
fn test_init_with_defaults() {
    let t = TrackerData::init(Currency::NGN, 0, NOW);
    let content = t.render_tracker();

    let data: serde_json::Value = serde_json::from_str(&content).unwrap();

    assert_eq!(data["currency"], "NGN");
    assert_eq!(data["opening_balance"], 0.0);
    assert_eq!(data["subcategories_by_name"]["miscellaneous"], 1);
    assert_eq!(data["records"].as_array().unwrap().len(), 0);
    assert_eq!(data["next_record_id"], 1);
    assert_eq!(data["next_subcategory_id"], 2);
}

#[test]
fn test_export_to_json() {
    let mut t = TrackerData::init(Currency::USD, 100000, NOW);
    add(&mut t, Category::Income, 50000, "Salary");
    add(&mut t, Category::Expenses, 10000, "Food");

    let exported = t.render_tracker();
    let parsed = TrackerData::parse_tracker(&exported).unwrap();

    assert_eq!(parsed.records.len(), 2);
    assert_eq!(parsed.currency, Currency::USD);
    assert_eq!(parsed.opening_balance, 100000);
}

#[test]
fn test_export_to_csv() {
    let mut t = TrackerData::init(Currency::NGN, 0, NOW);
    add(&mut t, Category::Income, 25050, "Test, with \"quotes\" and commas");
    add(&mut t, Category::Expenses, 7525, "Normal description");

    let csv_content = t.render_csv();

    let lines: Vec<&str> = csv_content.lines().collect();
    assert!(lines.len() >= 3, "CSV should have header + 2 data rows");
    assert!(lines[0].contains("ID,Category,Subcategory,Amount,Currency,Date,Description"));
    assert!(lines[1].contains("income") || lines[2].contains("income"));
    assert!(lines[1].contains("expenses") || lines[2].contains("expenses"));
    assert!(lines[1].contains("250.5"));
    assert!(lines[1].contains("\"Test, with \"\"quotes\"\" and commas\""));
}

#[test]
fn test_tracker_round_trip() {
    let mut t = TrackerData::init(Currency::EUR, -12345, "2024-02-29T10:00:00+00:00");
    t.subcategory_add("Groceries", NOW).unwrap();
    t.subcategory_add("Rent_2", NOW).unwrap();
    let req = AddRequest {
        category: Category::Expenses,
        amount: 12345,
        subcategory: Some("groceries".to_string()),
        description: Some("weird \"desc\"\nwith\tescapes \\ and \u{1} control".to_string()),
        date: Some(Date { day: 29, month: 2, year: 2024 }),
    };
    t.add_record(&req, NOW, &today()).unwrap();
    let req2 = AddRequest {
        category: Category::Income,
        amount: 999999999,
        subcategory: None,
        description: None,
        date: None,
    };
    t.add_record(&req2, NOW, &today()).unwrap();

    let doc = t.render_tracker();
    let back = TrackerData::parse_tracker(&doc).unwrap();
    assert_eq!(back, t);

    let doc2 = back.render_tracker();
    assert_eq!(doc2, doc);
}

#[test]
fn test_rendered_document_is_valid_json() {
    let mut t = TrackerData::init(Currency::JPY, 42, NOW);
    add(&mut t, Category::Income, 100, "desc with \\ and \"qs\"");
    let doc = t.render_tracker();
    let v: serde_json::Value = serde_json::from_str(&doc).unwrap();
    assert_eq!(v["records"][0]["description"], "desc with \\ and \"qs\"");
    assert_eq!(v["records"][0]["amount"], 1.0);
    assert_eq!(v["version"], 1);
}

#[test]
fn test_parse_rejects_garbage() {
    let r = TrackerData::parse_tracker("garbage");
    assert!(matches!(r.unwrap_err(), CliError::InvalidJson(_)));

    let r = TrackerData::parse_tracker("");
    assert!(matches!(r.unwrap_err(), CliError::InvalidJson(_)));
}

#[test]
fn test_parse_rejects_broken_integrity() {
    // a record that references a missing subcategory must be rejected
    let mut t = TrackerData::init(Currency::USD, 0, NOW);
    add(&mut t, Category::Income, 100, "x");
    t.records[0].subcategory = 42; // break referential integrity behind the API
    let doc = t.render_tracker();
    let r = TrackerData::parse_tracker(&doc);
    assert!(matches!(r.unwrap_err(), CliError::InvalidJson(_)));
}

#[test]
fn test_parse_accepts_plain_integer_amounts() {
    let t = TrackerData::init(Currency::USD, 100000, NOW);
    let doc = t.render_tracker().replace("\"opening_balance\":1000.0", "\"opening_balance\":1000");
    let parsed = TrackerData::parse_tracker(&doc).unwrap();
    assert_eq!(parsed.opening_balance, 100000);
}
