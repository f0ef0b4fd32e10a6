use anna_ivanovna::distribute::{distribute, Budget, Date, Error, Income};
use anna_ivanovna::finance::{Money, Percentage};
use anna_ivanovna::planning::{Draft, Expense, ExpenseValue, IncomeSource, Plan};

fn rub(v: f64) -> Money {
    Money::new_rub((v * 100.0).round() as i64)
}

#[test]
fn income_from_unknown_source() {
    let source = IncomeSource::new("Gold goose".to_string(), rub(1.0));
    let source_1 = IncomeSource::new("Unknown".to_string(), rub(1.0));
    let expense = Expense::new(
        "Black Hole".to_string(),
        ExpenseValue::MONEY { value: rub(0.5) },
        None,
    );
    let draft = Draft::build(&[source], &[expense]);
    let plan = Plan::try_from(draft).unwrap();
    let income = Income::new(source_1, rub(1.0), Date::new(2025, 6, 21));
    assert_eq!(distribute(&plan, &income), Err(Error::UnknownSource));
}

#[test]
fn expense_is_money_and_less_than_incomes() {
    let source = IncomeSource::new("Gold goose".to_string(), rub(1.0));
    let expense = Expense::new(
        "Black Hole".to_string(),
        ExpenseValue::MONEY { value: rub(0.5) },
        None,
    );
    let draft = Draft::build(&[source.clone()], &[expense.clone()]);
    let plan = Plan::try_from(draft).unwrap();
    let income = Income::new_today(source, rub(1.0));
    let mut expected = Budget::new(income.clone());
    expected.calculate(expense.clone(), &Percentage::from_int(50));
    expected.rest = rub(0.5);
    assert_eq!(distribute(&plan, &income), Ok(expected));
}

#[test]
fn expense_is_money_and_more_than_incomes() {
    let source = IncomeSource::new("Gold goose".to_string(), rub(1.0));
    let expense = Expense::new(
        "Black Hole".to_string(),
        ExpenseValue::MONEY { value: rub(1.0) },
        None,
    );
    let draft = Draft::build(&[source.clone()], &[expense.clone()]);
    let income = Income::new_today(source, rub(0.5));
    let plan = Plan::try_from(draft).unwrap();
    let mut expected = Budget::new(income.clone());
    expected.calculate(expense.clone(), &Percentage::from_int(100));
    expected.rest = rub(0.0);
    assert_eq!(distribute(&plan, &income), Ok(expected));
}

#[test]
fn expense_is_full_by_rate() {
    let source = IncomeSource::new("Gold goose".to_string(), rub(1.0));
    let expense = Expense::new(
        "Black Hole".to_string(),
        ExpenseValue::RATE {
            value: Percentage::from_int(100),
        },
        None,
    );
    let draft = Draft::build(&[source.clone()], &[expense.clone()]);
    let income = Income::new_today(source, rub(1.0));
    let plan = Plan::try_from(draft).unwrap();
    let mut expected = Budget::new(income.clone());
    expected.calculate(expense.clone(), &Percentage::from_int(100));
    expected.rest = rub(0.0);
    assert_eq!(distribute(&plan, &income), Ok(expected));
}

#[test]
fn expense_is_half_by_rate() {
    let source = IncomeSource::new("Gold goose".to_string(), rub(1.0));
    let expense = Expense::new(
        "Black Hole".to_string(),
        ExpenseValue::RATE {
            value: Percentage::from_int(50),
        },
        None,
    );
    let draft = Draft::build(&[source.clone()], &[expense.clone()]);
    let income = Income::new_today(source, rub(1.0));
    let plan = Plan::try_from(draft).unwrap();
    let mut expected = Budget::new(income.clone());
    expected.calculate(expense.clone(), &Percentage::from_int(50));
    expected.rest = rub(0.5);
    assert_eq!(distribute(&plan, &income), Ok(expected));
}

#[test]
fn expense_is_zero_by_rate() {
    let source = IncomeSource::new("Gold goose".to_string(), rub(1.0));
    let expense = Expense::new(
        "Black Hole".to_string(),
        ExpenseValue::RATE {
            value: Percentage::from_int(0),
        },
        None,
    );
    let draft = Draft::build(&[source.clone()], &[expense.clone()]);
    let income = Income::new_today(source, rub(1.0));
    let plan = Plan::try_from(draft).unwrap();
    let mut expected = Budget::new(income.clone());
    expected.calculate(expense.clone(), &Percentage::from_int(0));
    expected.rest = rub(1.0);
    assert_eq!(distribute(&plan, &income), Ok(expected));
}

#[test]
fn expense_is_one_percent_by_rate() {
    let source = IncomeSource::new("Gold goose".to_string(), rub(1.0));
    let expense = Expense::new(
        "Black Hole".to_string(),
        ExpenseValue::RATE {
            value: Percentage::from_int(1),
        },
        None,
    );
    let draft = Draft::build(&[source.clone()], &[expense.clone()]);
    let income = Income::new_today(source, rub(1.0));
    let plan = Plan::try_from(draft).unwrap();
    let mut expected = Budget::new(income.clone());
    expected.calculate(expense.clone(), &Percentage::from_int(1));
    expected.rest = rub(0.99);
    assert_eq!(distribute(&plan, &income), Ok(expected));
}

#[test]
fn expenses_with_and_without_categories() {
    let source = IncomeSource::new("Gold goose".to_string(), rub(1.0));

    let expense_no_category = Expense::new(
        "Еда".to_string(),
        ExpenseValue::MONEY { value: rub(0.3) },
        None,
    );

    let expense_with_category = Expense::new(
        "Развлечения".to_string(),
        ExpenseValue::MONEY { value: rub(0.2) },
        Some("Досуг".to_string()),
    );

    let draft = Draft::build(
        &[source.clone()],
        &[expense_no_category.clone(), expense_with_category.clone()],
    );
    let income = Income::new_today(source, rub(1.0));
    let plan = Plan::try_from(draft).unwrap();

    let mut expected = Budget::new(income.clone());
    expected.calculate(expense_no_category.clone(), &Percentage::from_int(30));
    expected.calculate(expense_with_category.clone(), &Percentage::from_int(20));
    expected.rest = rub(0.5);

    assert_eq!(distribute(&plan, &income), Ok(expected));
}

#[test]
fn expense_with_category_only() {
    let source = IncomeSource::new("Gold goose".to_string(), rub(1.0));

    let expense = Expense::new(
        "Кино".to_string(),
        ExpenseValue::MONEY { value: rub(0.4) },
        Some("Развлечения".to_string()),
    );

    let draft = Draft::build(&[source.clone()], &[expense.clone()]);
    let income = Income::new_today(source, rub(1.0));
    let plan = Plan::try_from(draft).unwrap();

    let mut expected = Budget::new(income.clone());
    expected.calculate(expense.clone(), &Percentage::from_int(40));
    expected.rest = rub(0.6);

    assert_eq!(distribute(&plan, &income), Ok(expected));
}

#[test]
fn mixed_currency_income_is_rejected() {
    let source = IncomeSource::new("Gold goose".to_string(), rub(1.0));
    let expense = Expense::new(
        "Black Hole".to_string(),
        ExpenseValue::RATE {
            value: Percentage::from_int(10),
        },
        None,
    );
    let plan = Plan::try_from(Draft::build(&[source.clone()], &[expense])).unwrap();
    let usd = Money::new(100, anna_ivanovna::finance::Currency::USD);
    let income = Income::new(source, usd, Date::new(2025, 1, 1));
    assert_eq!(distribute(&plan, &income), Err(Error::MixedCurrency));
}

#[test]
fn new_today_gives_a_calendar_date() {
    let source = IncomeSource::new("Gold goose".to_string(), rub(1.0));
    let income = Income::new_today(source, rub(1.0));
    assert!((1..=12).contains(&income.date.month));
    assert!((1..=31).contains(&income.date.day));
}

#[test]
fn distribution_is_idempotent() {
    let source = IncomeSource::new("Gold goose".to_string(), rub(1.0));
    let food = Expense::new(
        "Food".to_string(),
        ExpenseValue::MONEY { value: rub(0.3) },
        None,
    );
    let fun = Expense::new(
        "Fun".to_string(),
        ExpenseValue::MONEY { value: rub(0.2) },
        Some("Leisure".to_string()),
    );
    let plan = Plan::try_from(Draft::build(&[source.clone()], &[food, fun])).unwrap();
    let income = Income::new(source, rub(1.0), Date::new(2025, 6, 21));
    let first = distribute(&plan, &income).unwrap();
    let second = distribute(&plan, &income).unwrap();
    assert_eq!(first, second);
}

#[test]
fn rest_is_income_minus_every_entry() {
    // one cent split at fifty-fifty: each share rounds half-to-even to zero
    let source = IncomeSource::new("Gold goose".to_string(), rub(1.0));
    let first = Expense::new(
        "First".to_string(),
        ExpenseValue::RATE {
            value: Percentage::from_int(50),
        },
        None,
    );
    let second = Expense::new(
        "Second".to_string(),
        ExpenseValue::RATE {
            value: Percentage::from_int(50),
        },
        Some("Halves".to_string()),
    );
    let plan = Plan::try_from(Draft::build(&[source.clone()], &[first, second])).unwrap();
    let income = Income::new(source, Money::new_rub(1), Date::new(2025, 6, 21));
    let budget = distribute(&plan, &income).unwrap();
    let mut allotted: i64 = 0;
    for entry in &budget.no_category {
        allotted += entry.amount.value;
    }
    for (_, entries) in &budget.categories {
        for entry in entries {
            allotted += entry.amount.value;
        }
    }
    assert_eq!(allotted, 0);
    assert_eq!(budget.rest, Money::new_rub(1));
}

#[test]
fn categories_and_entries_come_out_sorted() {
    let source = IncomeSource::new("Gold goose".to_string(), rub(10.0));
    let expenses = [
        Expense::new(
            "Zebra".to_string(),
            ExpenseValue::MONEY { value: rub(1.0) },
            Some("Zoo".to_string()),
        ),
        Expense::new(
            "Apple".to_string(),
            ExpenseValue::MONEY { value: rub(1.0) },
            Some("Food".to_string()),
        ),
        Expense::new(
            "Antelope".to_string(),
            ExpenseValue::MONEY { value: rub(1.0) },
            Some("Zoo".to_string()),
        ),
        Expense::new(
            "Banana".to_string(),
            ExpenseValue::MONEY { value: rub(1.0) },
            None,
        ),
    ];
    let plan = Plan::try_from(Draft::build(&[source.clone()], &expenses)).unwrap();
    let income = Income::new(source, rub(10.0), Date::new(2025, 6, 21));
    let budget = distribute(&plan, &income).unwrap();

    let labels: Vec<&str> = budget.categories.iter().map(|c| c.0.as_str()).collect();
    assert_eq!(labels, vec!["Food", "Zoo"]);
    let zoo: Vec<&str> = budget.categories[1]
        .1
        .iter()
        .map(|e| e.expense.name.as_str())
        .collect();
    assert_eq!(zoo, vec!["Antelope", "Zebra"]);
    let free: Vec<&str> = budget
        .no_category
        .iter()
        .map(|e| e.expense.name.as_str())
        .collect();
    assert_eq!(free, vec!["Banana"]);
}
