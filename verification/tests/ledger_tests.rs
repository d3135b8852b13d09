use fintrack::{
    AddRequest, Category, CliError, Currency, TrackerData, UpdateRequest, ValidationErrorKind,
};
use fintrack::date::Date;

const NOW: &str = "2025-06-01T00:00:00Z";

fn today() -> Date {
    Date { day: 1, month: 6, year: 2025 }
}

fn init() -> TrackerData {
    TrackerData::init(Currency::NGN, 0, NOW)
}

fn add_income(t: &mut TrackerData, amount: i64, date: &str) {
    let d = fintrack::date::parse_date(date).unwrap();
    let req = AddRequest {
        category: Category::Income,
        amount,
        subcategory: None,
        description: None,
        date: Some(d),
    };
    t.add_record(&req, NOW, &today()).unwrap();
}

#[test]
fn test_add_record() {
    let mut t = init();

    let req = AddRequest {
        category: Category::Income,
        amount: 50000,
        subcategory: Some("miscellaneous".to_string()),
        description: None,
        date: None,
    };
    let result = t.add_record(&req, NOW, &today());

    assert!(result.is_ok());
    assert_eq!(t.records.len(), 1);
    assert_eq!(t.records[0].amount, 50000);
    assert_eq!(t.records[0].category, 1); // income
    assert_eq!(t.records[0].description, "");
}

#[test]
fn test_add_record_with_all_fields() {
    let mut t = init();

    let req = AddRequest {
        category: Category::Expenses,
        amount: 10050,
        subcategory: Some("miscellaneous".to_string()),
        description: Some("Test expense".to_string()),
        date: Some(Date { day: 15, month: 1, year: 2025 }),
    };
    let result = t.add_record(&req, NOW, &today());

    assert!(result.is_ok());
    assert_eq!(t.records.len(), 1);
    assert_eq!(t.records[0].amount, 10050);
    assert_eq!(t.records[0].category, 2); // expenses
    assert_eq!(t.records[0].description, "Test expense");
    assert_eq!(t.records[0].date, "15-01-2025");
}

#[test]
fn test_add_record_rejects_zero_amount() {
    let mut t = init();

    let req = AddRequest {
        category: Category::Income,
        amount: 0,
        subcategory: None,
        description: None,
        date: None,
    };
    let result = t.add_record(&req, NOW, &today());

    assert!(result.is_err());
    assert!(matches!(
        result.unwrap_err(),
        CliError::ValidationError(ValidationErrorKind::AmountTooSmall { .. })
    ));
    assert_eq!(t.records.len(), 0);
}

#[test]
fn test_add_record_rejects_negative_amount() {
    let mut t = init();

    let req = AddRequest {
        category: Category::Income,
        amount: -10000,
        subcategory: None,
        description: None,
        date: None,
    };
    let result = t.add_record(&req, NOW, &today());

    assert!(result.is_err());
    assert!(matches!(
        result.unwrap_err(),
        CliError::ValidationError(ValidationErrorKind::AmountTooSmall { .. })
    ));
    assert_eq!(t.records.len(), 0);
}

#[test]
fn test_add_record_rejects_invalid_subcategory() {
    let mut t = init();

    let req = AddRequest {
        category: Category::Income,
        amount: 10000,
        subcategory: Some("nonexistent".to_string()),
        description: None,
        date: None,
    };
    let result = t.add_record(&req, NOW, &today());

    assert!(result.is_err());
    assert!(matches!(
        result.unwrap_err(),
        CliError::ValidationError(ValidationErrorKind::SubcategoryNotFound { .. })
    ));
}

#[test]
fn test_update_record() {
    let mut t = init();
    add_income(&mut t, 10000, "01-06-2025");

    let req = UpdateRequest {
        record_id: 1,
        category: None,
        amount: Some(15000),
        subcategory: None,
        description: None,
        date: None,
    };
    let result = t.update_record(&req, NOW);

    assert!(result.is_ok());
    assert_eq!(t.records[0].amount, 15000);
}

#[test]
fn test_update_record_not_found() {
    let mut t = init();

    let req = UpdateRequest {
        record_id: 999,
        category: None,
        amount: Some(10000),
        subcategory: None,
        description: None,
        date: None,
    };
    let result = t.update_record(&req, NOW);

    assert!(result.is_err());
    assert!(matches!(
        result.unwrap_err(),
        CliError::ValidationError(ValidationErrorKind::RecordNotFound { id: 999 })
    ));
}

#[test]
fn test_update_record_rejects_zero_amount() {
    let mut t = init();
    add_income(&mut t, 10000, "01-06-2025");

    let req = UpdateRequest {
        record_id: 1,
        category: None,
        amount: Some(0),
        subcategory: None,
        description: None,
        date: None,
    };
    let result = t.update_record(&req, NOW);

    assert!(result.is_err());
    assert!(matches!(
        result.unwrap_err(),
        CliError::ValidationError(ValidationErrorKind::AmountTooSmall { .. })
    ));
    assert_eq!(t.records[0].amount, 10000);
}

#[test]
fn test_update_multiple_fields() {
    let mut t = init();
    t.subcategory_add("Salary", NOW).unwrap();
    add_income(&mut t, 10000, "01-01-2025");

    let req = UpdateRequest {
        record_id: 1,
        category: None,
        amount: Some(50000),
        subcategory: Some("Salary".to_string()),
        description: Some("Updated salary".to_string()),
        date: Some(Date { day: 15, month: 1, year: 2025 }),
    };
    let result = t.update_record(&req, NOW);

    assert!(result.is_ok());
    assert_eq!(t.records[0].amount, 50000);
    assert_eq!(t.records[0].description, "Updated salary");
    assert_eq!(t.records[0].date, "15-01-2025");
    assert_eq!(t.records[0].subcategory, 2); // Salary is ID 2
}

#[test]
fn test_delete_by_ids() {
    let mut t = init();
    for _i in 1..=5 {
        add_income(&mut t, 10000, "01-06-2025");
    }

    t.delete_by_ids(&vec![1, 3, 5], NOW);

    assert_eq!(t.records.len(), 2);
    assert_eq!(t.records[0].id, 2);
    assert_eq!(t.records[1].id, 4);
}

#[test]
fn test_delete_by_category() {
    let mut t = init();
    add_income(&mut t, 10000, "01-06-2025");
    let req = AddRequest {
        category: Category::Expenses,
        amount: 5000,
        subcategory: None,
        description: None,
        date: None,
    };
    t.add_record(&req, NOW, &today()).unwrap();
    add_income(&mut t, 20000, "01-06-2025");

    t.delete_by_category(Category::Income, NOW);

    assert_eq!(t.records.len(), 1);
    assert_eq!(t.records[0].category, 2); // only expenses left
}

#[test]
fn test_delete_nonexistent_ids() {
    let mut t = init();
    add_income(&mut t, 10000, "01-06-2025");

    t.delete_by_ids(&vec![999, 1000], NOW);

    assert_eq!(t.records.len(), 1);
}

#[test]
fn integration_tests_test_total_calculation() {
    let mut t = TrackerData::init(Currency::NGN, 100000, NOW);

    add_income(&mut t, 50000, "01-06-2025");
    let req = AddRequest {
        category: Category::Expenses,
        amount: 20000,
        subcategory: None,
        description: None,
        date: None,
    };
    t.add_record(&req, NOW, &today()).unwrap();
    add_income(&mut t, 30000, "01-06-2025");

    let total = t.total_summary();
    assert_eq!(total.opening_balance, 100000);
    assert_eq!(total.income_total, 80000);
    assert_eq!(total.expenses_total, 20000);
    assert_eq!(total.total(), 160000); // 1000 + 800 - 200, in cents
}

#[test]
fn test_total_with_empty_tracker() {
    let t = TrackerData::init(Currency::NGN, 250000, NOW);

    let total = t.total_summary();
    assert_eq!(total.opening_balance, 250000);
    assert_eq!(total.income_total, 0);
    assert_eq!(total.expenses_total, 0);
    assert_eq!(total.total(), 250000);
}

#[test]
fn test_add_with_future_date() {
    let mut t = init();

    let req = AddRequest {
        category: Category::Income,
        amount: 10000,
        subcategory: None,
        description: None,
        date: Some(Date { day: 31, month: 12, year: 2099 }),
    };
    let result = t.add_record(&req, NOW, &today());

    assert!(result.is_ok(), "Should accept future dates");
    assert_eq!(t.records[0].date, "31-12-2099");
}

#[test]
fn test_add_with_very_large_amount() {
    let mut t = init();

    let req = AddRequest {
        category: Category::Income,
        amount: 999999999, // 9999999.99 in cents
        subcategory: None,
        description: None,
        date: None,
    };
    let result = t.add_record(&req, NOW, &today());

    assert!(result.is_ok(), "Should accept large amounts");
    assert_eq!(t.records[0].amount, 999999999);
}

#[test]
fn test_record_ids_monotonic() {
    let mut t = init();
    for expect in 1..=5usize {
        let before = t.next_record_id;
        let req = AddRequest {
            category: Category::Income,
            amount: 10000,
            subcategory: None,
            description: None,
            date: None,
        };
        let rec = t.add_record(&req, NOW, &today()).unwrap();
        assert_eq!(rec.id, before);
        assert_eq!(rec.id, expect);
        assert_eq!(t.next_record_id, before + 1);
    }
}

#[test]
fn test_deleted_id_not_reused() {
    let mut t = init();
    add_income(&mut t, 10000, "01-06-2025");
    add_income(&mut t, 20000, "01-06-2025");

    t.delete_by_ids(&vec![2], NOW);
    assert_eq!(t.records.len(), 1);

    let req = AddRequest {
        category: Category::Income,
        amount: 30000,
        subcategory: None,
        description: None,
        date: None,
    };
    let rec = t.add_record(&req, NOW, &today()).unwrap();
    assert_eq!(rec.id, 3); // id 2 was deleted and is never handed out again
}

#[test]
fn test_invariant_after_mutations() {
    let mut t = init();
    assert!(t.wf_check());
    t.subcategory_add("Groceries", NOW).unwrap();
    add_income(&mut t, 10000, "02-06-2025");
    let req = AddRequest {
        category: Category::Expenses,
        amount: 2500,
        subcategory: Some("groceries".to_string()),
        description: None,
        date: None,
    };
    t.add_record(&req, NOW, &today()).unwrap();
    assert!(t.wf_check());
    let upd = UpdateRequest {
        record_id: 1,
        category: Some(Category::Expenses),
        amount: None,
        subcategory: None,
        description: None,
        date: None,
    };
    t.update_record(&upd, NOW).unwrap();
    assert!(t.wf_check());
    t.subcategory_rename("Groceries", "Food", NOW).unwrap();
    assert!(t.wf_check());
    t.delete_by_ids(&vec![1], NOW);
    assert!(t.wf_check());
    for r in &t.records {
        assert!(r.category == 1 || r.category == 2);
        assert!(t.subcategory_name(r.subcategory).is_some());
    }
}

#[test]
fn test_amount_too_large_rejected() {
    let mut t = init();
    let req = AddRequest {
        category: Category::Income,
        amount: i64::MAX,
        subcategory: None,
        description: None,
        date: None,
    };
    let result = t.add_record(&req, NOW, &today());
    assert!(matches!(
        result.unwrap_err(),
        CliError::ValidationError(ValidationErrorKind::InvalidAmount { .. })
    ));
    assert_eq!(t.records.len(), 0);
}

#[test]
fn test_init_now_stamps_both_timestamps() {
    let t = TrackerData::init_now(Currency::USD, 0);
    assert!(!t.created_at.is_empty());
    assert_eq!(t.created_at, t.last_modified);
}

#[test]
fn test_add_record_now_defaults_date() {
    let mut t = TrackerData::init_now(Currency::USD, 0);
    let req = AddRequest {
        category: Category::Income,
        amount: 10000,
        subcategory: None,
        description: None,
        date: None,
    };
    let rec = t.add_record_now(&req).unwrap();
    assert!(fintrack::date::parse_date(&rec.date).is_some());
}
