use anna_ivanovna::finance::{Currency, Money, Percentage};
use anna_ivanovna::planning::{Draft, Error, Expense, ExpenseValue, IncomeSource, Plan};

fn rub(v: f64) -> Money {
    Money::new_rub((v * 100.0).round() as i64)
}

#[test]
fn new_plan() {
    let draft = Draft::new();
    assert_eq!(draft.expenses, vec![]);
    assert_eq!(draft.sources, vec![]);
}

#[test]
fn add_source() {
    let mut draft = Draft::new();
    let source = IncomeSource::new("Gold goose".to_string(), Money::new(100, Currency::RUB));
    draft.add_source(source.clone());
    assert_eq!(draft.sources, vec![source]);
    assert_eq!(draft.expenses, vec![]);
}

#[test]
fn add_value_expense() {
    let mut draft = Draft::new();
    let expense = Expense::new(
        "Black hole".to_string(),
        ExpenseValue::MONEY {
            value: Money::new(100, Currency::RUB),
        },
        None,
    );
    draft.add_expense(expense.clone());
    assert_eq!(draft.expenses, vec![expense]);
    assert_eq!(draft.sources, vec![]);
}

#[test]
fn add_rate_expense() {
    let mut draft = Draft::new();
    let expense = Expense::new(
        "Black hole".to_string(),
        ExpenseValue::RATE {
            value: Percentage::from_int(10),
        },
        None,
    );
    draft.add_expense(expense.clone());
    assert_eq!(draft.expenses, vec![expense]);
    assert_eq!(draft.sources, vec![]);
}

#[test]
fn test_empty_draft() {
    let draft = Draft::new();
    assert_eq!(Plan::try_from(draft), Err(Error::EmptyPlan));
}

#[test]
fn no_expenses() {
    let draft = Draft::build(
        &[IncomeSource::new("Gold goose".to_string(), rub(1.0))],
        &[],
    );
    assert_eq!(Plan::try_from(draft), Err(Error::EmptyPlan));
}

#[test]
fn build_rate_plan_from_rate_expense() {
    let source = IncomeSource::new("Gold goose".to_string(), rub(1.0));
    let expense = Expense::new(
        "Black Hole".to_string(),
        ExpenseValue::RATE {
            value: Percentage::from_int(100),
        },
        None,
    );
    let draft = Draft::build(&[source.clone()], &[expense.clone()]);
    let res = Plan::try_from(draft).unwrap();
    let expected = vec![(expense.clone(), Percentage::from_int(100))];

    assert_eq!(
        res,
        Plan {
            sources: vec![source.clone()],
            budget: expected,
            rest: Percentage::from_int(0),
        }
    );
}

#[test]
fn build_plan_with_overhead_percent() {
    let source = IncomeSource::new("Gold goose".to_string(), rub(1.0));
    let expense = Expense::new(
        "Black Hole".to_string(),
        ExpenseValue::RATE {
            value: Percentage::from_int(101),
        },
        None,
    );
    let draft = Draft::build(&[source.clone()], &[expense.clone()]);
    assert_eq!(Plan::try_from(draft), Err(Error::TooBigExpenses));
}

#[test]
fn build_rate_with_overhead_total_percent() {
    let source = IncomeSource::new("Gold goose".to_string(), rub(1.0));
    let expense_1 = Expense::new(
        "Black Hole".to_string(),
        ExpenseValue::RATE {
            value: Percentage::from_int(100),
        },
        None,
    );
    let expense_2 = Expense::new(
        "Little bit".to_string(),
        ExpenseValue::MONEY {
            value: Money::new_rub(1),
        },
        None,
    );
    let draft = Draft::build(&[source.clone()], &[expense_1.clone(), expense_2.clone()]);
    assert_eq!(Plan::try_from(draft), Err(Error::TooBigExpenses));
}

#[test]
fn build_rate_when_has_rest() {
    let source = IncomeSource::new("Gold goose".to_string(), rub(1.0));
    let expense = Expense::new(
        "Black Hole".to_string(),
        ExpenseValue::RATE {
            value: Percentage::from_int(50),
        },
        None,
    );
    let draft = Draft::build(&[source.clone()], &[expense.clone()]);

    let expected = vec![(expense.clone(), Percentage::from_int(50))];
    assert_eq!(
        Plan::try_from(draft).unwrap(),
        Plan {
            sources: vec![source.clone()],
            budget: expected,
            rest: Percentage::half(),
        }
    );
}

#[test]
fn build_full_plan() {
    let source = IncomeSource::new("Gold goose".to_string(), rub(1.0));
    let expense_1 = Expense::new(
        "Black Hole".to_string(),
        ExpenseValue::MONEY { value: rub(0.25) },
        None,
    );
    let expense_2 = Expense::new(
        "Yet Another Black Hole".to_string(),
        ExpenseValue::MONEY { value: rub(0.5) },
        None,
    );
    let expense_3 = Expense::new(
        "Rate Black Hole".to_string(),
        ExpenseValue::RATE {
            value: Percentage::quarter(),
        },
        None,
    );
    let draft = Draft::build(
        &[source.clone()],
        &[expense_1.clone(), expense_2.clone(), expense_3.clone()],
    );
    let res = Plan::try_from(draft).unwrap();
    let expected = vec![
        (expense_1.clone(), Percentage::quarter()),
        (expense_2.clone(), Percentage::half()),
        (expense_3.clone(), Percentage::quarter()),
    ];

    assert_eq!(
        res,
        Plan {
            sources: vec![source.clone()],
            budget: expected,
            rest: Percentage::zero(),
        }
    );
}

#[test]
fn mixed_currency_sources_are_rejected() {
    let draft = Draft::build(
        &[
            IncomeSource::new("Wallet".to_string(), Money::new(100, Currency::RUB)),
            IncomeSource::new("Stash".to_string(), Money::new(100, Currency::USD)),
        ],
        &[Expense::new(
            "Anything".to_string(),
            ExpenseValue::RATE {
                value: Percentage::from_int(10),
            },
            None,
        )],
    );
    assert_eq!(Plan::try_from(draft), Err(Error::MixedCurrency));
}

#[test]
fn negative_money_expense_is_invalid() {
    let source = IncomeSource::new("Gold goose".to_string(), rub(1.0));
    let expense = Expense::new(
        "Refund".to_string(),
        ExpenseValue::MONEY {
            value: Money::new(-100, Currency::RUB),
        },
        None,
    );
    let draft = Draft::build(&[source], &[expense]);
    assert_eq!(Plan::try_from(draft), Err(Error::InvalidPlan));
}

#[test]
fn zero_income_with_money_expense_is_invalid() {
    let source = IncomeSource::new("Gold goose".to_string(), rub(0.0));
    let expense = Expense::new(
        "Rent".to_string(),
        ExpenseValue::MONEY { value: rub(0.5) },
        None,
    );
    let draft = Draft::build(&[source], &[expense]);
    assert_eq!(Plan::try_from(draft), Err(Error::InvalidPlan));
}

#[test]
fn plan_get_and_has_source() {
    let source = IncomeSource::new("Gold goose".to_string(), rub(1.0));
    let other = IncomeSource::new("Unknown".to_string(), rub(1.0));
    let expense = Expense::new(
        "Black Hole".to_string(),
        ExpenseValue::RATE {
            value: Percentage::from_int(40),
        },
        None,
    );
    let missing = Expense::new(
        "Nothing".to_string(),
        ExpenseValue::RATE {
            value: Percentage::from_int(1),
        },
        None,
    );
    let plan = Plan::try_from(Draft::build(&[source.clone()], &[expense.clone()])).unwrap();
    assert!(plan.has_source(&source));
    assert!(!plan.has_source(&other));
    assert_eq!(plan.get(&expense), Some(&Percentage::from_int(40)));
    assert_eq!(plan.get(&missing), None);
}

#[test]
fn plan_total_income_sums_sources() {
    let draft = Draft::build(
        &[
            IncomeSource::new("One".to_string(), rub(1.5)),
            IncomeSource::new("Two".to_string(), rub(2.25)),
        ],
        &[Expense::new(
            "Rent".to_string(),
            ExpenseValue::RATE {
                value: Percentage::from_int(10),
            },
            None,
        )],
    );
    let plan = Plan::try_from(draft).unwrap();
    assert_eq!(plan.total_income(), Money::new_rub(375));
}

#[test]
fn total_incomes_sums_sources() {
    let draft = Draft::build(
        &[
            IncomeSource::new("One".to_string(), rub(1.5)),
            IncomeSource::new("Two".to_string(), rub(2.25)),
        ],
        &[],
    );
    assert_eq!(draft.total_incomes(), Money::new_rub(375));
}
