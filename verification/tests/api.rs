use anna_ivanovna::api::{budget_ids, distribute_budget, Error, Page};
use anna_ivanovna::distribute::{Date, Income};
use anna_ivanovna::finance::Money;
use anna_ivanovna::planning::{Draft, Expense, ExpenseValue, IncomeSource, Plan};
use anna_ivanovna::finance::Percentage;

fn rub(v: f64) -> Money {
    Money::new_rub((v * 100.0).round() as i64)
}

fn ids(names: &[&str]) -> Vec<String> {
    names.iter().map(|n| n.to_string()).collect()
}

#[test]
fn test_empty_storage() {
    let page = budget_ids(ids(&[]), None, 10);
    assert!(page.items.is_empty());
    assert!(page.next_cursor.is_none());
}

#[test]
fn test_one_budget() {
    let page = budget_ids(ids(&["first_bdg"]), None, 10);
    assert_eq!(page.items.len(), 1);
    assert_eq!(page.items[0], "first_bdg");
    assert!(page.next_cursor.is_none());
}

#[test]
fn test_from_param() {
    let page = budget_ids(ids(&["a", "b", "c"]), Some("a".to_string()), 10);
    assert_eq!(page.items, vec!["b", "c"]);
    assert!(page.next_cursor.is_none());
}

#[test]
fn test_limit_param() {
    let page = budget_ids(ids(&["a", "b", "c"]), None, 2);
    assert_eq!(page.items, vec!["a", "b"]);
    assert_eq!(page.next_cursor, Some("c".to_string()));
}

#[test]
fn test_from_and_limit() {
    let page = budget_ids(ids(&["a", "b", "c"]), Some("a".to_string()), 1);
    assert_eq!(page.items, vec!["b"]);
    assert_eq!(page.next_cursor, Some("c".to_string()));
}

#[test]
fn test_limit_zero() {
    let page = budget_ids(ids(&["a", "b"]), None, 0);
    assert!(page.items.is_empty());
    assert_eq!(page.next_cursor, Some("a".to_string()));
}

#[test]
fn test_budget_ids_empty() {
    let page = budget_ids(ids(&[]), None, 10);
    assert!(page.items.is_empty());
    assert!(page.next_cursor.is_none());
}

#[test]
fn test_budget_ids_one() {
    let page = budget_ids(ids(&["first_bdg"]), None, 10);
    assert_eq!(page.items.len(), 1);
    assert_eq!(page.items[0], "first_bdg");
    assert!(page.next_cursor.is_none());
}

#[test]
fn test_budget_ids_from_param() {
    let page = budget_ids(ids(&["a", "b", "c"]), Some("a".to_string()), 10);
    assert_eq!(page.items, vec!["b", "c"]);
    assert!(page.next_cursor.is_none());
}

#[test]
fn test_budget_ids_limit_param() {
    let page = budget_ids(ids(&["a", "b", "c"]), None, 2);
    assert_eq!(page.items, vec!["a", "b"]);
    assert_eq!(page.next_cursor, Some("c".to_string()));
}

#[test]
fn test_budget_ids_from_and_limit() {
    let page = budget_ids(ids(&["a", "b", "c"]), Some("a".to_string()), 1);
    assert_eq!(page.items, vec!["b"]);
    assert_eq!(page.next_cursor, Some("c".to_string()));
}

#[test]
fn test_budget_ids_limit_zero() {
    let page = budget_ids(ids(&["a", "b"]), None, 0);
    assert!(page.items.is_empty());
    assert_eq!(page.next_cursor, Some("a".to_string()));
}

#[test]
fn vanished_cursor_restarts_from_the_beginning() {
    let page = budget_ids(ids(&["a", "b"]), Some("zzz".to_string()), 10);
    assert_eq!(page.items, vec!["a", "b"]);
    assert!(page.next_cursor.is_none());
}

#[test]
fn page_new_and_len() {
    let page: Page<String> = Page::new(ids(&["x", "y"]), Some("z".to_string()));
    assert_eq!(page.len(), 2);
    assert_eq!(page.next_cursor, Some("z".to_string()));
}

#[test]
fn distribute_budget_maps_errors() {
    let source = IncomeSource::new("Gold goose".to_string(), rub(1.0));
    let stranger = IncomeSource::new("Stranger".to_string(), rub(1.0));
    let expense = Expense::new(
        "Black Hole".to_string(),
        ExpenseValue::RATE {
            value: Percentage::from_int(10),
        },
        None,
    );
    let plan = Plan::try_from(Draft::build(&[source.clone()], &[expense])).unwrap();
    let good = Income::new(source, rub(1.0), Date::new(2025, 6, 21));
    let bad = Income::new(stranger, rub(1.0), Date::new(2025, 6, 21));
    assert!(distribute_budget(&plan, &good).is_ok());
    assert_eq!(distribute_budget(&plan, &bad), Err(Error::CantDistribute));
}
