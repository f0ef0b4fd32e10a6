use anna_ivanovna::distribute::{distribute, entries_total, Date, Income};
use anna_ivanovna::finance::{Currency, Money, Percentage};
use anna_ivanovna::planning::{Draft, Expense, ExpenseValue, IncomeSource, Plan};
use anna_ivanovna::tree::{max_widths, PlanNode, TreeNode};

fn rub(v: f64) -> Money {
    Money::new_rub((v * 100.0).round() as i64)
}

#[test]
fn salary_and_rent_split_in_half() {
    let salary = IncomeSource::new("Salary".to_string(), rub(1.0));
    let rent = Expense::new(
        "Rent".to_string(),
        ExpenseValue::MONEY { value: rub(0.5) },
        None,
    );
    let plan = Plan::try_from(Draft::build(&[salary.clone()], &[rent.clone()])).unwrap();
    assert_eq!(plan.get(&rent), Some(&Percentage::half()));
    assert_eq!(plan.rest, Percentage::half());

    let income = Income::new(salary, rub(1.0), Date::new(2025, 6, 21));
    let budget = distribute(&plan, &income).unwrap();
    assert_eq!(budget.rest, rub(0.5));
    assert_eq!(budget.no_category.len(), 1);
    assert_eq!(budget.no_category[0].expense, rent);
    assert_eq!(budget.no_category[0].amount, rub(0.5));
    assert!(budget.categories.is_empty());
}

#[test]
fn food_and_fun_with_one_category() {
    let source = IncomeSource::new("Gold goose".to_string(), rub(1.0));
    let food = Expense::new(
        "Food".to_string(),
        ExpenseValue::MONEY { value: rub(0.3) },
        None,
    );
    let fun = Expense::new(
        "Fun".to_string(),
        ExpenseValue::MONEY { value: rub(0.2) },
        Some("Leisure".to_string()),
    );
    let plan =
        Plan::try_from(Draft::build(&[source.clone()], &[food.clone(), fun.clone()])).unwrap();
    let income = Income::new(source, rub(1.0), Date::new(2025, 6, 21));
    let budget = distribute(&plan, &income).unwrap();

    assert_eq!(budget.no_category.len(), 1);
    assert_eq!(budget.no_category[0].expense, food);
    assert_eq!(budget.no_category[0].amount, rub(0.3));
    assert_eq!(budget.categories.len(), 1);
    assert_eq!(budget.categories[0].0, "Leisure");
    assert_eq!(budget.categories[0].1.len(), 1);
    assert_eq!(budget.categories[0].1[0].expense, fun);
    assert_eq!(budget.categories[0].1[0].amount, rub(0.2));
    assert_eq!(budget.rest, rub(0.5));
}

#[test]
fn percentages_and_rest_make_one_hundred() {
    let source = IncomeSource::new("Gold goose".to_string(), rub(2.0));
    let expenses = [
        Expense::new(
            "Rent".to_string(),
            ExpenseValue::MONEY { value: rub(0.5) },
            None,
        ),
        Expense::new(
            "Food".to_string(),
            ExpenseValue::RATE {
                value: Percentage::from(1_250),
            },
            None,
        ),
    ];
    let plan = Plan::try_from(Draft::build(&[source], &expenses)).unwrap();
    let total: i64 = plan.budget.iter().map(|p| p.1.hundredths).sum();
    assert_eq!(total + plan.rest.hundredths, 10_000);
}

#[test]
fn category_projection_groups_and_sorts() {
    let source = IncomeSource::new("Gold goose".to_string(), rub(10.0));
    let expenses = [
        Expense::new(
            "Zebra".to_string(),
            ExpenseValue::MONEY { value: rub(1.0) },
            Some("Zoo".to_string()),
        ),
        Expense::new(
            "Apple".to_string(),
            ExpenseValue::MONEY { value: rub(2.0) },
            None,
        ),
        Expense::new(
            "Antelope".to_string(),
            ExpenseValue::MONEY { value: rub(1.5) },
            Some("Zoo".to_string()),
        ),
    ];
    let plan = Plan::try_from(Draft::build(&[source], &expenses)).unwrap();

    let groups = plan.categories();
    let labels: Vec<&str> = groups.iter().map(|g| g.0.as_str()).collect();
    assert_eq!(labels, vec!["Zoo", "Без категории"]);
    let zoo: Vec<&str> = groups[0].1.iter().map(|e| e.name.as_str()).collect();
    assert_eq!(zoo, vec!["Antelope", "Zebra"]);
    let rest: Vec<&str> = groups[1].1.iter().map(|e| e.name.as_str()).collect();
    assert_eq!(rest, vec!["Apple"]);

    let subtotals = plan.category_subtotals();
    assert_eq!(subtotals.len(), 2);
    assert_eq!(subtotals[0].0, "Zoo");
    // 10% + 15% of the expected income
    assert_eq!(subtotals[0].1, Percentage::from_int(25));
    assert_eq!(subtotals[1].1, Percentage::from_int(20));
}

#[test]
fn entries_total_sums_a_bucket() {
    let source = IncomeSource::new("Gold goose".to_string(), rub(1.0));
    let food = Expense::new(
        "Food".to_string(),
        ExpenseValue::MONEY { value: rub(0.3) },
        None,
    );
    let rent = Expense::new(
        "Rent".to_string(),
        ExpenseValue::MONEY { value: rub(0.25) },
        None,
    );
    let plan = Plan::try_from(Draft::build(&[source.clone()], &[food, rent])).unwrap();
    let income = Income::new(source, rub(1.0), Date::new(2025, 6, 21));
    let budget = distribute(&plan, &income).unwrap();
    let total = entries_total(&budget.no_category, Currency::RUB);
    assert_eq!(total, rub(0.55));
}

#[test]
fn tree_widths_measure_the_widest_lines() {
    let mut root = TreeNode::new(PlanNode::Title("plan".to_string()));
    root.add_child(TreeNode::new(PlanNode::Expense {
        name: "Rent".to_string(),
        amount: "0.50".to_string(),
        percent: "50%".to_string(),
    }));
    let mut category = TreeNode::new(PlanNode::Category("Leisure".to_string()));
    category.add_child(TreeNode::new(PlanNode::Expense {
        name: "Entertainment".to_string(),
        amount: "100.25".to_string(),
        percent: "".to_string(),
    }));
    category.add_child(TreeNode::new(PlanNode::Total {
        amount: "1000.00".to_string(),
        percent: "".to_string(),
    }));
    root.add_child(category);
    let (name_w, amount_w) = max_widths(&root);
    assert_eq!(name_w, "Entertainment".len());
    assert_eq!(amount_w, "1000.00".len());
}
