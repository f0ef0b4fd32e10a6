use anna_ivanovna::finance::{Currency, Money, Percentage};
use anna_ivanovna::planning::{Error as PlanningError, ExpenseValue};
use anna_ivanovna::storage::{
    parse_decimal_cents, parse_money_str, parse_percentage_str, yaml_to_domain, Expense, Income,
    PlanDetails,
};

#[test]
fn decimals_parse_to_cents() {
    assert_eq!(parse_decimal_cents("1"), Some(100));
    assert_eq!(parse_decimal_cents("1.5"), Some(150));
    assert_eq!(parse_decimal_cents("1.50"), Some(150));
    assert_eq!(parse_decimal_cents("0.03"), Some(3));
    assert_eq!(parse_decimal_cents("100000"), Some(10_000_000));
    assert_eq!(parse_decimal_cents("10000000000.00"), Some(1_000_000_000_000));
}

#[test]
fn malformed_decimals_are_refused() {
    assert_eq!(parse_decimal_cents(""), None);
    assert_eq!(parse_decimal_cents("."), None);
    assert_eq!(parse_decimal_cents("1."), None);
    assert_eq!(parse_decimal_cents(".5"), None);
    assert_eq!(parse_decimal_cents("1.234"), None);
    assert_eq!(parse_decimal_cents("1.2.3"), None);
    assert_eq!(parse_decimal_cents("-1.0"), None);
    assert_eq!(parse_decimal_cents("abc"), None);
    assert_eq!(parse_decimal_cents("10000000000.01"), None);
    assert_eq!(parse_decimal_cents("1234567890123456"), None);
}

#[test]
fn percent_strings_parse() {
    assert_eq!(parse_percentage_str("50%"), Some(Percentage::from_int(50)));
    assert_eq!(parse_percentage_str("9.17%"), Some(Percentage::from(917)));
    assert_eq!(parse_percentage_str("50"), Some(Percentage::from_int(50)));
    assert_eq!(parse_percentage_str("x%"), None);
}

#[test]
fn money_strings_parse() {
    assert_eq!(parse_money_str("1.00₽"), Some(Money::new(100, Currency::RUB)));
    assert_eq!(parse_money_str("₽1.00"), Some(Money::new(100, Currency::RUB)));
    assert_eq!(parse_money_str("100"), Some(Money::new(10_000, Currency::RUB)));
    assert_eq!(parse_money_str("₽"), None);
}

#[test]
fn expense_values_parse_by_their_marker() {
    assert_eq!(
        ExpenseValue::from_str("50%"),
        Some(ExpenseValue::RATE {
            value: Percentage::from_int(50)
        })
    );
    assert_eq!(
        ExpenseValue::from_str("0.50₽"),
        Some(ExpenseValue::MONEY {
            value: Money::new(50, Currency::RUB)
        })
    );
    assert_eq!(ExpenseValue::from_str("0.50"), None);
    assert_eq!(ExpenseValue::from_str("50%%"), None);
}

#[test]
fn from_str_mirrors_the_parsers() {
    assert_eq!(Money::from_str("₽1.00"), Some(Money::new(100, Currency::RUB)));
    assert_eq!(Money::from_str("x"), None);
    assert_eq!(Percentage::from_str("9.17%"), Some(Percentage::from(917)));
    assert_eq!(Percentage::from_str("much"), None);
}

#[test]
fn a_document_becomes_a_plan() {
    let details = PlanDetails {
        incomes: vec![Income {
            source: "Salary".to_string(),
            value: "1.00₽".to_string(),
        }],
        expenses: vec![
            Expense {
                name: "Rent".to_string(),
                value: "0.50₽".to_string(),
                category: None,
            },
            Expense {
                name: "Fun".to_string(),
                value: "25%".to_string(),
                category: Some("Leisure".to_string()),
            },
        ],
    };
    let plan = yaml_to_domain(details).unwrap();
    assert_eq!(plan.sources.len(), 1);
    assert_eq!(plan.sources[0].name, "Salary");
    assert_eq!(plan.budget.len(), 2);
    assert_eq!(plan.budget[0].1, Percentage::half());
    assert_eq!(plan.budget[1].1, Percentage::quarter());
    assert_eq!(plan.rest, Percentage::quarter());
}

#[test]
fn an_undecodable_value_spoils_the_document() {
    let details = PlanDetails {
        incomes: vec![Income {
            source: "Salary".to_string(),
            value: "soon".to_string(),
        }],
        expenses: vec![],
    };
    assert_eq!(yaml_to_domain(details), Err(PlanningError::InvalidPlan));
}

#[test]
fn an_empty_document_is_an_empty_plan() {
    let details = PlanDetails {
        incomes: vec![Income {
            source: "Salary".to_string(),
            value: "1.00₽".to_string(),
        }],
        expenses: vec![],
    };
    assert_eq!(yaml_to_domain(details), Err(PlanningError::EmptyPlan));
}
