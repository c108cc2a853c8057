use expense_tracker::amount::Amount;
use expense_tracker::date::Date;
use expense_tracker::db::{Database, LoadError, Snapshot, StoreError};
use expense_tracker::expense::{Expense, ValidationError};

fn setup() -> Database {
    Database::new()
}

fn amount(value: f64) -> Amount {
    Amount::parse(&format!("{}", value)).unwrap()
}

fn number(amount: &Amount) -> f64 {
    amount.to_text().parse().unwrap()
}

#[test]
fn test_insert_and_get_expense() {
    let mut db = setup();
    let expense = Expense::new(
        Date::from_ymd_opt(2023, 7, 28).unwrap(),
        "Test Expense",
        "Food",
        amount(50.0),
    )
    .unwrap();

    let id = db.insert_expense(&expense).unwrap();
    let retrieved = db.get_expense(id).unwrap();

    assert_eq!(retrieved.name, "Test Expense");
    assert_eq!(retrieved.category, "Food");
    assert_eq!(number(&retrieved.amount), 50.0);
    assert_eq!(retrieved.date, "2023-07-28");
}

#[test]
fn test_update_expense() {
    let mut db = setup();
    let mut expense = Expense::new(
        Date::from_ymd_opt(2023, 7, 28).unwrap(),
        "Initial Expense",
        "Food",
        amount(50.0),
    )
    .unwrap();

    let id = db.insert_expense(&expense).unwrap();
    expense.id = Some(id);
    expense.name = "Updated Expense".to_string();
    expense.amount = amount(75.0);

    assert_eq!(db.update_expense(&expense), Ok(true));
    let updated = db.get_expense(id).unwrap();

    assert_eq!(updated.name, "Updated Expense");
    assert_eq!(number(&updated.amount), 75.0);
}

#[test]
fn test_delete_expense() {
    let mut db = setup();
    let expense = Expense::new(
        Date::from_ymd_opt(2023, 7, 28).unwrap(),
        "To Be Deleted",
        "Food",
        amount(50.0),
    )
    .unwrap();

    let id = db.insert_expense(&expense).unwrap();
    assert!(db.delete_expense(id));

    let result = db.get_expense(id);
    assert!(result.is_none());
}

#[test]
fn test_list_expenses() {
    let mut db = setup();
    let expense1 = Expense::new(
        Date::from_ymd_opt(2023, 7, 28).unwrap(),
        "Expense 1",
        "Food",
        amount(50.0),
    )
    .unwrap();
    let expense2 = Expense::new(
        Date::from_ymd_opt(2023, 7, 29).unwrap(),
        "Expense 2",
        "Transport",
        amount(30.0),
    )
    .unwrap();

    db.insert_expense(&expense1).unwrap();
    db.insert_expense(&expense2).unwrap();

    let expenses = db.list_expenses();
    assert_eq!(expenses.len(), 2);
    assert!(expenses
        .iter()
        .any(|e| e.name == "Expense 1" && e.category == "Food"));
    assert!(expenses
        .iter()
        .any(|e| e.name == "Expense 2" && e.category == "Transport"));
}

#[test]
fn test_filter_by_category() {
    let mut db = setup();
    let expense1 = Expense::new(
        Date::from_ymd_opt(2023, 7, 28).unwrap(),
        "Expense 1",
        "Food",
        amount(50.0),
    )
    .unwrap();
    let expense2 = Expense::new(
        Date::from_ymd_opt(2023, 7, 29).unwrap(),
        "Expense 2",
        "Transport",
        amount(30.0),
    )
    .unwrap();

    db.insert_expense(&expense1).unwrap();
    db.insert_expense(&expense2).unwrap();

    let food_expenses = db.filter_by_category("Food");
    assert_eq!(food_expenses.len(), 1);
    assert_eq!(food_expenses[0].name, "Expense 1");

    let transport_expenses = db.filter_by_category("Transport");
    assert_eq!(transport_expenses.len(), 1);
    assert_eq!(transport_expenses[0].name, "Expense 2");
}

#[test]
fn test_filter_by_month() {
    let mut db = setup();
    let expense1 = Expense::new(
        Date::from_ymd_opt(2023, 7, 28).unwrap(),
        "July Expense",
        "Food",
        amount(50.0),
    )
    .unwrap();
    let expense2 = Expense::new(
        Date::from_ymd_opt(2023, 8, 1).unwrap(),
        "August Expense",
        "Transport",
        amount(30.0),
    )
    .unwrap();

    db.insert_expense(&expense1).unwrap();
    db.insert_expense(&expense2).unwrap();

    let july_expenses = db.filter_by_month(2023, 7);
    assert_eq!(july_expenses.len(), 1);
    assert_eq!(july_expenses[0].name, "July Expense");

    let august_expenses = db.filter_by_month(2023, 8);
    assert_eq!(august_expenses.len(), 1);
    assert_eq!(august_expenses[0].name, "August Expense");
}

#[test]
fn test_save_and_load_expenses() {
    let mut db = Database::new();

    let expense1 = Expense::new(
        Date::from_ymd_opt(2023, 7, 1).unwrap(),
        "Test 1",
        "Food",
        amount(50.0),
    )
    .unwrap();
    let expense2 = Expense::new(
        Date::from_ymd_opt(2023, 7, 2).unwrap(),
        "Test 2",
        "Transport",
        amount(30.0),
    )
    .unwrap();

    db.insert_expense(&expense1).unwrap();
    db.insert_expense(&expense2).unwrap();

    // What a save writes out is the list.
    let saved = db.list_expenses();

    db.clear_expenses();

    // What a load takes in is the list that was read.
    db.load_expenses(Snapshot::Records(saved)).unwrap();

    let loaded_expenses = db.list_expenses();
    assert_eq!(loaded_expenses.len(), 2);
    assert_eq!(loaded_expenses[0].name, "Test 1");
    assert_eq!(loaded_expenses[1].name, "Test 2");
}

#[test]
fn test_save_and_laod_expenses() {
    let mut db = Database::new();

    let expense1 = Expense::new(
        Date::from_ymd_opt(2023, 7, 1).unwrap(),
        "Test 1",
        "Food",
        amount(50.0),
    )
    .unwrap();
    let expense2 = Expense::new(
        Date::from_ymd_opt(2023, 7, 2).unwrap(),
        "Test 2",
        "Transport",
        amount(30.0),
    )
    .unwrap();

    db.insert_expense(&expense1).unwrap();
    db.insert_expense(&expense2).unwrap();

    let saved = db.list_expenses();
    db.clear_expenses();
    assert_eq!(db.import_expenses(&saved), Ok(2));

    let loaded_expenses = db.list_expenses();
    assert_eq!(loaded_expenses.len(), 2);
    assert_eq!(loaded_expenses[0].name, "Test 1");
    assert_eq!(loaded_expenses[1].name, "Test 2");
}

#[test]
fn test_db_operations() {
    let mut db = Database::new();

    let expense = Expense::new(
        Date::from_ymd_opt(2023, 7, 28).unwrap(),
        "Test Expense",
        "food",
        amount(100.0),
    )
    .unwrap();

    let id = db.insert_expense(&expense).unwrap();

    let retrieved = db.get_expense(id).unwrap();
    assert_eq!(retrieved.name, "Test Expense");

    let mut updated = retrieved;
    updated.amount = amount(150.0);
    db.update_expense(&updated).unwrap();

    let after_update = db.get_expense(id).unwrap();
    assert_eq!(number(&after_update.amount), 150.0);

    let all_expenses = db.list_expenses();
    assert!(!all_expenses.is_empty());

    db.delete_expense(id);

    assert!(db.get_expense(id).is_none());
}

fn record(date: (i32, u32, u32), name: &str, category: &str, value: f64) -> Expense {
    Expense::new(
        Date::from_ymd_opt(date.0, date.1, date.2).unwrap(),
        name,
        category,
        amount(value),
    )
    .unwrap()
}

#[test]
fn insert_returns_record_equal_in_all_fields() {
    let mut db = Database::new();
    let input = record((2024, 2, 29), "Coffee", "Food", 3.75);
    let id = db.insert_expense(&input).unwrap();
    let got = db.get_expense(id).unwrap();
    assert_eq!(got.id, Some(id));
    assert_eq!(got.date, input.date);
    assert_eq!(got.name, input.name);
    assert_eq!(got.category, input.category);
    assert_eq!(got.amount, input.amount);
}

#[test]
fn insert_does_not_read_the_id_of_its_argument() {
    let mut db = Database::new();
    let mut input = record((2024, 1, 1), "A", "B", 1.0);
    input.id = Some(99);
    let id = db.insert_expense(&input).unwrap();
    assert_eq!(id, 1);
    assert!(db.get_expense(99).is_none());
    assert_eq!(db.get_expense(1).unwrap().id, Some(1));
}

#[test]
fn identities_start_at_one_and_grow() {
    let mut db = Database::new();
    assert_eq!(db.last_id(), 0);
    assert_eq!(db.insert_expense(&record((2024, 1, 1), "a", "x", 1.0)), Ok(1));
    assert_eq!(db.insert_expense(&record((2024, 1, 2), "b", "x", 2.0)), Ok(2));
    assert_eq!(db.insert_expense(&record((2024, 1, 3), "c", "x", 3.0)), Ok(3));
    assert_eq!(db.last_id(), 3);
    assert_eq!(db.len(), 3);
}

#[test]
fn deleted_identity_is_never_used_again() {
    let mut db = Database::new();
    let a = db.insert_expense(&record((2024, 1, 1), "a", "x", 1.0)).unwrap();
    let b = db.insert_expense(&record((2024, 1, 2), "b", "x", 2.0)).unwrap();
    assert!(db.delete_expense(b));
    let c = db.insert_expense(&record((2024, 1, 3), "c", "x", 3.0)).unwrap();
    assert_eq!((a, b, c), (1, 2, 3));
    db.clear_expenses();
    assert_eq!(db.len(), 0);
    let d = db.insert_expense(&record((2024, 1, 4), "d", "x", 4.0)).unwrap();
    assert_eq!(d, 4);
}

#[test]
fn get_on_missing_id_is_none() {
    let mut db = Database::new();
    assert!(db.get_expense(1).is_none());
    assert!(db.get_expense(-1).is_none());
    db.insert_expense(&record((2024, 1, 1), "a", "x", 1.0)).unwrap();
    assert!(db.get_expense(2).is_none());
    assert!(db.get_expense(0).is_none());
}

#[test]
fn delete_shortens_list_by_exactly_one() {
    let mut db = Database::new();
    for day in 1..=5 {
        db.insert_expense(&record((2024, 1, day), "r", "x", 1.0)).unwrap();
    }
    assert_eq!(db.len(), 5);
    assert!(db.delete_expense(3));
    assert_eq!(db.len(), 4);
    assert!(db.get_expense(3).is_none());
    let ids: Vec<Option<i64>> = db.list_expenses().iter().map(|e| e.id).collect();
    assert_eq!(ids, vec![Some(1), Some(2), Some(4), Some(5)]);
}

#[test]
fn delete_on_missing_id_changes_nothing() {
    let mut db = Database::new();
    db.insert_expense(&record((2024, 1, 1), "a", "x", 1.0)).unwrap();
    assert!(!db.delete_expense(7));
    assert_eq!(db.len(), 1);
    assert!(db.delete_expense(1));
    assert!(!db.delete_expense(1));
    assert_eq!(db.len(), 0);
}

#[test]
fn update_reflects_every_changed_field() {
    let mut db = Database::new();
    db.insert_expense(&record((2024, 1, 1), "a", "x", 1.0)).unwrap();
    let id = db.insert_expense(&record((2024, 1, 2), "b", "y", 2.0)).unwrap();
    db.insert_expense(&record((2024, 1, 3), "c", "z", 3.0)).unwrap();

    let mut changed = record((2025, 12, 31), "new name", "new category", 99.5);
    changed.id = Some(id);
    assert_eq!(db.update_expense(&changed), Ok(true));

    let got = db.get_expense(id).unwrap();
    assert_eq!(got.id, Some(id));
    assert_eq!(got.date, "2025-12-31");
    assert_eq!(got.name, "new name");
    assert_eq!(got.category, "new category");
    assert_eq!(number(&got.amount), 99.5);

    assert_eq!(db.get_expense(1).unwrap().name, "a");
    assert_eq!(db.get_expense(3).unwrap().name, "c");
    assert_eq!(db.len(), 3);
}

#[test]
fn update_on_missing_id_affects_no_record() {
    let mut db = Database::new();
    db.insert_expense(&record((2024, 1, 1), "a", "x", 1.0)).unwrap();
    let mut other = record((2024, 1, 2), "b", "y", 2.0);
    assert_eq!(db.update_expense(&other), Ok(false));
    other.id = Some(5);
    assert_eq!(db.update_expense(&other), Ok(false));
    assert_eq!(db.get_expense(1).unwrap().name, "a");
    assert_eq!(db.len(), 1);
}

#[test]
fn store_refuses_negative_amount() {
    let mut db = Database::new();
    let mut bad = record((2024, 1, 1), "a", "x", 1.0);
    bad.amount = Amount::new(-1, 2);
    assert_eq!(
        db.insert_expense(&bad),
        Err(StoreError::Validation(ValidationError::NegativeAmount))
    );
    assert_eq!(db.len(), 0);
    assert_eq!(db.last_id(), 0);

    let id = db.insert_expense(&record((2024, 1, 1), "a", "x", 1.0)).unwrap();
    bad.id = Some(id);
    assert_eq!(
        db.update_expense(&bad),
        Err(StoreError::Validation(ValidationError::NegativeAmount))
    );
    assert_eq!(number(&db.get_expense(id).unwrap().amount), 1.0);
}

#[test]
fn store_accepts_amount_zero() {
    let mut db = Database::new();
    let zero = record((2024, 1, 1), "free", "x", 0.0);
    assert_eq!(db.insert_expense(&zero), Ok(1));
}

#[test]
fn store_is_full_when_identities_run_out() {
    let mut db = Database::with_last_id(i64::MAX - 1).unwrap();
    assert_eq!(db.insert_expense(&record((2024, 1, 1), "a", "x", 1.0)), Ok(i64::MAX));
    assert_eq!(
        db.insert_expense(&record((2024, 1, 2), "b", "x", 1.0)),
        Err(StoreError::Full)
    );
    assert_eq!(db.len(), 1);
    let two = vec![record((2024, 1, 1), "a", "x", 1.0)];
    assert_eq!(db.import_expenses(&two), Err(StoreError::Full));
    assert_eq!(db.import_expenses(&Vec::new()), Ok(0));
}

#[test]
fn with_last_id_refuses_negative() {
    assert!(Database::with_last_id(-1).is_none());
    let db = Database::with_last_id(10).unwrap();
    assert_eq!(db.last_id(), 10);
    assert_eq!(db.len(), 0);
}

#[test]
fn scenario_groceries_and_rent() {
    let mut db = Database::new();
    db.insert_expense(&record((2023, 7, 28), "Groceries", "Food", 50.0)).unwrap();
    db.insert_expense(&record((2023, 8, 1), "Rent", "Housing", 1200.0)).unwrap();

    let food = db.filter_by_category("Food");
    assert_eq!(food.len(), 1);
    assert_eq!(food[0].name, "Groceries");
    assert_eq!(food[0].id, Some(1));

    let july = db.filter_by_month(2023, 7);
    assert_eq!(july.len(), 1);
    assert_eq!(july[0].name, "Groceries");

    let august = db.filter_by_month(2023, 8);
    assert_eq!(august.len(), 1);
    assert_eq!(august[0].name, "Rent");
    assert_eq!(number(&august[0].amount), 1200.0);

    assert!(db.filter_by_category("food").is_empty());
    assert!(db.filter_by_month(2023, 9).is_empty());
}

fn names_in_month(dates: &[(i32, u32, u32)], year: i32, month: u32) -> Vec<String> {
    let mut db = Database::new();
    for d in dates {
        let name = format!("{}-{}-{}", d.0, d.1, d.2);
        db.insert_expense(&record(*d, &name, "x", 1.0)).unwrap();
    }
    db.filter_by_month(year, month).iter().map(|e| e.name.clone()).collect()
}

#[test]
fn month_filter_february_of_common_year() {
    let dates = [(2023, 1, 31), (2023, 2, 1), (2023, 2, 28), (2023, 3, 1)];
    assert_eq!(names_in_month(&dates, 2023, 2), vec!["2023-2-1", "2023-2-28"]);
}

#[test]
fn month_filter_february_of_leap_year() {
    let dates = [(2024, 1, 31), (2024, 2, 1), (2024, 2, 29), (2024, 3, 1)];
    assert_eq!(names_in_month(&dates, 2024, 2), vec!["2024-2-1", "2024-2-29"]);
}

#[test]
fn month_filter_thirty_day_month() {
    let dates = [(2023, 3, 31), (2023, 4, 1), (2023, 4, 30), (2023, 5, 1)];
    assert_eq!(names_in_month(&dates, 2023, 4), vec!["2023-4-1", "2023-4-30"]);
}

#[test]
fn month_filter_thirty_one_day_month() {
    let dates = [(2023, 11, 30), (2023, 12, 1), (2023, 12, 31), (2024, 1, 1)];
    assert_eq!(names_in_month(&dates, 2023, 12), vec!["2023-12-1", "2023-12-31"]);
}

#[test]
fn month_filter_tells_years_apart() {
    let dates = [(2022, 7, 15), (2023, 7, 15), (2024, 7, 15), (-2023, 7, 15), (12023, 7, 15)];
    assert_eq!(names_in_month(&dates, 2023, 7), vec!["2023-7-15"]);
    assert_eq!(names_in_month(&dates, -2023, 7), vec!["-2023-7-15"]);
    assert_eq!(names_in_month(&dates, 12023, 7), vec!["12023-7-15"]);
}

#[test]
fn month_filter_without_such_month_is_empty() {
    let dates = [(2023, 1, 31), (2023, 12, 1)];
    assert!(names_in_month(&dates, 2023, 0).is_empty());
    assert!(names_in_month(&dates, 2023, 13).is_empty());
}

#[test]
fn month_filter_compares_texts_in_every_year() {
    let mut db = Database::new();
    for (name, date) in [
        ("in", "+300000-07-15"),
        ("first", "+300000-07-01"),
        ("last", "+300000-07-31"),
        ("next", "+300000-08-01"),
        ("before", "+300000-06-30"),
        ("other year", "+300001-07-15"),
        ("plain", "2023-07-15"),
    ] {
        let mut typed = record((2023, 7, 1), name, "x", 1.0);
        typed.date = date.to_string();
        db.insert_expense(&typed).unwrap();
    }
    let names: Vec<String> =
        db.filter_by_month(300000, 7).iter().map(|e| e.name.clone()).collect();
    assert_eq!(names, vec!["in", "first", "last"]);
    let names: Vec<String> =
        db.filter_by_month(2023, 7).iter().map(|e| e.name.clone()).collect();
    assert_eq!(names, vec!["plain"]);
    assert!(db.filter_by_month(i32::MAX, 7).is_empty());
    assert!(db.filter_by_month(i32::MIN, 7).is_empty());
}

#[test]
fn month_filter_compares_dates_as_text() {
    let mut db = Database::new();
    let mut typed = record((2023, 7, 1), "typed", "x", 1.0);
    typed.date = "2023-07-15 evening".to_string();
    db.insert_expense(&typed).unwrap();
    let mut odd = record((2023, 7, 1), "odd", "x", 1.0);
    odd.date = "15/07/2023".to_string();
    db.insert_expense(&odd).unwrap();
    let names: Vec<String> = db.filter_by_month(2023, 7).iter().map(|e| e.name.clone()).collect();
    assert_eq!(names, vec!["typed"]);
}

#[test]
fn round_trip_keeps_contents_and_gives_new_identities() {
    let mut db = Database::new();
    db.insert_expense(&record((2023, 7, 1), "Test 1", "Food", 50.0)).unwrap();
    db.insert_expense(&record((2023, 7, 2), "Test 2", "Transport", 30.0)).unwrap();
    db.insert_expense(&record((2023, 7, 2), "Test 2", "Transport", 30.0)).unwrap();
    let before = db.list_expenses();

    let exported = db.list_expenses();
    db.clear_expenses();
    assert_eq!(db.load_expenses(Snapshot::Records(exported)), Ok(3));

    let after = db.list_expenses();
    assert_eq!(after.len(), before.len());
    for (old, new) in before.iter().zip(after.iter()) {
        assert_eq!(old.date, new.date);
        assert_eq!(old.name, new.name);
        assert_eq!(old.category, new.category);
        assert_eq!(old.amount, new.amount);
        assert_ne!(old.id, new.id);
    }
    let ids: Vec<Option<i64>> = after.iter().map(|e| e.id).collect();
    assert_eq!(ids, vec![Some(4), Some(5), Some(6)]);
}

#[test]
fn import_twice_doubles_the_list() {
    let mut db = Database::new();
    let records = vec![record((2023, 7, 1), "a", "x", 1.0), record((2023, 7, 2), "b", "y", 2.0)];
    assert_eq!(db.import_expenses(&records), Ok(2));
    assert_eq!(db.import_expenses(&records), Ok(2));
    let names: Vec<String> = db.list_expenses().iter().map(|e| e.name.clone()).collect();
    assert_eq!(names, vec!["a", "b", "a", "b"]);
}

#[test]
fn load_of_missing_file_is_no_failure() {
    let mut db = Database::new();
    db.insert_expense(&record((2023, 7, 1), "a", "x", 1.0)).unwrap();
    assert_eq!(db.load_expenses(Snapshot::Missing), Ok(0));
    assert_eq!(db.len(), 1);
}

#[test]
fn load_of_malformed_file_fails_and_changes_nothing() {
    let mut db = Database::new();
    db.insert_expense(&record((2023, 7, 1), "a", "x", 1.0)).unwrap();
    assert_eq!(db.load_expenses(Snapshot::Malformed), Err(LoadError::MalformedSnapshot));
    assert_eq!(db.len(), 1);
    assert_eq!(db.last_id(), 1);
}

#[test]
fn load_refuses_all_records_where_one_is_negative() {
    let mut db = Database::new();
    db.insert_expense(&record((2023, 7, 1), "kept", "x", 1.0)).unwrap();
    let mut bad = record((2023, 7, 2), "bad", "x", 1.0);
    bad.amount = Amount::new(-5, 0);
    let records = vec![record((2023, 7, 3), "good", "x", 2.0), bad];
    assert_eq!(
        db.load_expenses(Snapshot::Records(records)),
        Err(LoadError::Store(StoreError::Validation(ValidationError::NegativeAmount)))
    );
    assert_eq!(db.len(), 1);
    assert_eq!(db.last_id(), 1);
    assert_eq!(db.list_expenses()[0].name, "kept");
}
