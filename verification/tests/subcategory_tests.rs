use fintrack::{AddRequest, Category, CliError, Currency, TrackerData, ValidationErrorKind};
use fintrack::date::Date;

const NOW: &str = "2025-06-01T00:00:00Z";

fn today() -> Date {
    Date { day: 1, month: 6, year: 2025 }
}

fn init() -> TrackerData {
    TrackerData::init(Currency::NGN, 0, NOW)
}

#[test]
fn test_subcategory_add() {
    let mut t = init();

    let result = t.subcategory_add("Groceries", NOW);
    assert!(result.is_ok());

    assert_eq!(t.subcategory_id("groceries"), Some(2));
    assert_eq!(t.subcategory_name(2), Some("Groceries".to_string()));
}

#[test]
fn test_subcategory_add_rejects_duplicate() {
    let mut t = init();

    t.subcategory_add("Groceries", NOW).unwrap();
    let result = t.subcategory_add("groceries", NOW); // Case-insensitive duplicate

    assert!(result.is_err());
    assert!(matches!(
        result.unwrap_err(),
        CliError::ValidationError(ValidationErrorKind::SubcategoryAlreadyExists { .. })
    ));
}

#[test]
fn test_subcategory_add_rejects_miscellaneous() {
    let mut t = init();

    let result = t.subcategory_add("Miscellaneous", NOW);

    assert!(result.is_err());
    assert!(matches!(
        result.unwrap_err(),
        CliError::ValidationError(ValidationErrorKind::CannotDeleteMiscellaneous)
    ));
}

#[test]
fn test_subcategory_add_rejects_invalid_name() {
    let mut t = init();

    let result = t.subcategory_add("9lives", NOW);
    assert!(matches!(
        result.unwrap_err(),
        CliError::ValidationError(ValidationErrorKind::InvalidName { .. })
    ));

    let result = t.subcategory_add("", NOW);
    assert!(matches!(
        result.unwrap_err(),
        CliError::ValidationError(ValidationErrorKind::InvalidName { .. })
    ));
}

#[test]
fn test_subcategory_list() {
    let mut t = init();

    t.subcategory_add("Groceries", NOW).unwrap();
    t.subcategory_add("Salary", NOW).unwrap();

    let subs = t.list_subcategories();
    assert_eq!(subs.len(), 3); // miscellaneous + 2 custom
    assert!(subs.iter().any(|(_, name)| name.to_lowercase() == "miscellaneous"));
    assert!(subs.iter().any(|(_, name)| name == "Groceries"));
    assert!(subs.iter().any(|(_, name)| name == "Salary"));
}

#[test]
fn test_subcategory_delete() {
    let mut t = init();

    t.subcategory_add("Groceries", NOW).unwrap();
    let result = t.subcategory_delete("Groceries", NOW);

    assert!(result.is_ok());
    assert_eq!(t.subcategory_id("groceries"), None);
}

#[test]
fn test_subcategory_delete_rejects_miscellaneous() {
    let mut t = init();

    let result = t.subcategory_delete("Miscellaneous", NOW);

    assert!(result.is_err());
    assert!(matches!(
        result.unwrap_err(),
        CliError::ValidationError(ValidationErrorKind::CannotDeleteMiscellaneous)
    ));
}

#[test]
fn test_subcategory_delete_rejects_when_has_records() {
    let mut t = init();

    t.subcategory_add("Groceries", NOW).unwrap();
    let req = AddRequest {
        category: Category::Expenses,
        amount: 10000,
        subcategory: Some("groceries".to_string()),
        description: None,
        date: None,
    };
    t.add_record(&req, NOW, &today()).unwrap();

    let result = t.subcategory_delete("Groceries", NOW);

    assert!(result.is_err());
    assert!(matches!(
        result.unwrap_err(),
        CliError::ValidationError(ValidationErrorKind::SubcategoryHasRecords { count: 1, .. })
    ));
}

#[test]
fn test_subcategory_rename() {
    let mut t = init();

    t.subcategory_add("Groceries", NOW).unwrap();
    let result = t.subcategory_rename("Groceries", "Food", NOW);

    assert!(result.is_ok());
    assert_eq!(t.subcategory_id("groceries"), None);
    assert_eq!(t.subcategory_id("food"), Some(2));
    assert_eq!(t.subcategory_name(2), Some("Food".to_string()));
}

#[test]
fn test_subcategory_rename_rejects_duplicate() {
    let mut t = init();

    t.subcategory_add("Groceries", NOW).unwrap();
    t.subcategory_add("Food", NOW).unwrap();

    let result = t.subcategory_rename("Groceries", "Food", NOW);

    assert!(result.is_err());
    assert!(matches!(
        result.unwrap_err(),
        CliError::ValidationError(ValidationErrorKind::SubcategoryAlreadyExists { .. })
    ));
}

#[test]
fn test_subcategory_rename_rejects_miscellaneous() {
    let mut t = init();

    let result = t.subcategory_rename("Miscellaneous", "Other", NOW);
    assert!(matches!(
        result.unwrap_err(),
        CliError::ValidationError(ValidationErrorKind::CannotDeleteMiscellaneous)
    ));
}

#[test]
fn test_subcategory_rename_rejects_missing() {
    let mut t = init();

    let result = t.subcategory_rename("Nope", "Other", NOW);
    assert!(matches!(
        result.unwrap_err(),
        CliError::ValidationError(ValidationErrorKind::SubcategoryNotFound { .. })
    ));
}

#[test]
fn test_rename_preserves_record_identity() {
    let mut t = init();

    t.subcategory_add("Groceries", NOW).unwrap();
    let req = AddRequest {
        category: Category::Expenses,
        amount: 2500,
        subcategory: Some("Groceries".to_string()),
        description: None,
        date: Some(Date { day: 5, month: 1, year: 2025 }),
    };
    let rec = t.add_record(&req, NOW, &today()).unwrap();
    assert_eq!(rec.subcategory, 2);

    t.subcategory_rename("Groceries", "Food", NOW).unwrap();

    // the record still carries subcategory id 2, which now displays as Food
    assert_eq!(t.records[0].subcategory, 2);
    assert_eq!(t.subcategory_name(t.records[0].subcategory), Some("Food".to_string()));
    // and a listing filtered by the new name returns it
    let filter = fintrack::ListFilter {
        first: None,
        last: None,
        start: None,
        end: None,
        category: None,
        subcategory: Some("Food".to_string()),
    };
    let listed = t.list_records(&filter);
    assert_eq!(listed.len(), 1);
    assert_eq!(listed[0].id, rec.id);
}

#[test]
fn test_delete_by_subcategory() {
    let mut t = init();

    t.subcategory_add("Groceries", NOW).unwrap();
    let req = AddRequest {
        category: Category::Expenses,
        amount: 2500,
        subcategory: Some("groceries".to_string()),
        description: None,
        date: None,
    };
    t.add_record(&req, NOW, &today()).unwrap();
    let req2 = AddRequest {
        category: Category::Income,
        amount: 10000,
        subcategory: None,
        description: None,
        date: None,
    };
    t.add_record(&req2, NOW, &today()).unwrap();

    let result = t.delete_by_subcategory("Groceries", NOW);
    assert!(result.is_ok());
    assert_eq!(t.records.len(), 1);
    assert_eq!(t.records[0].subcategory, 1);

    let result = t.delete_by_subcategory("nonexistent", NOW);
    assert!(matches!(
        result.unwrap_err(),
        CliError::ValidationError(ValidationErrorKind::SubcategoryNotFound { .. })
    ));
}
