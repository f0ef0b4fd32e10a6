use anna_ivanovna::finance::{Currency, Money, Percentage};

#[test]
fn apply_to() {
    // amounts are in cents, the result in ten-thousandths of a cent
    assert_eq!(Percentage::from_int(50).apply_to(10_000), 50_000_000);
    assert_eq!(Percentage::from_int(12).apply_to(10_000), 12_000_000);
    assert_eq!(Percentage::from_int(1).apply_to(100), 10_000);
}

#[test]
fn of_matches_the_documented_examples() {
    assert_eq!(Percentage::of(100, 10_000), Percentage::one());
    assert_eq!(Percentage::of(10_000, 10_000), Percentage::one_hundred());
    assert_eq!(Percentage::of(0, 10_000), Percentage::zero());
    assert_eq!(Percentage::of(110, 1_200), Percentage::from(917));
    assert_eq!(Percentage::of(5_000, 10_000), Percentage::half());
    assert_eq!(Percentage::of(500, 10_000), Percentage::from_int(5));
    assert_eq!(Percentage::of(2_500_000, 10_000_000), Percentage::from_int(25));
}

#[test]
fn constants_agree_with_from_int() {
    assert_eq!(Percentage::one_hundred(), Percentage::from_int(100));
    assert_eq!(Percentage::half(), Percentage::from_int(50));
    assert_eq!(Percentage::quarter(), Percentage::from_int(25));
    assert_eq!(Percentage::one(), Percentage::from_int(1));
    assert_eq!(Percentage::zero(), Percentage::from_int(0));
}

#[test]
fn rounding_is_half_to_even() {
    // ten-thousandths of a cent to whole cents
    assert_eq!(Money::from_fraction(5_000, Currency::RUB).value, 0);
    assert_eq!(Money::from_fraction(15_000, Currency::RUB).value, 2);
    assert_eq!(Money::from_fraction(25_000, Currency::RUB).value, 2);
    assert_eq!(Money::from_fraction(35_000, Currency::RUB).value, 4);
    assert_eq!(Money::from_fraction(14_999, Currency::RUB).value, 1);
    assert_eq!(Money::from_fraction(-15_000, Currency::RUB).value, -2);
    assert_eq!(Money::from_fraction(-5_000, Currency::RUB).value, 0);
}

#[test]
fn money_arithmetic_keeps_the_currency() {
    let a = Money::new(150, Currency::RUB);
    let b = Money::new(75, Currency::RUB);
    assert_eq!(a.add(b), Money::new(225, Currency::RUB));
    assert_eq!(a.sub(b), Money::new(75, Currency::RUB));
    assert_eq!(Money::default(), Money::new(0, Currency::RUB));
}

#[test]
fn share_of_rounds_to_whole_cents() {
    let income = Money::new_rub(100);
    assert_eq!(Percentage::half().share_of(income), Money::new_rub(50));
    // half a cent rounds to the even cent
    assert_eq!(Percentage::from(50).share_of(income), Money::new_rub(0));
    assert_eq!(Percentage::from(150).share_of(income), Money::new_rub(2));
}

#[test]
fn percentage_arithmetic() {
    let a = Percentage::from_int(30);
    let b = Percentage::from_int(20);
    assert_eq!(a.add(b), Percentage::half());
    assert_eq!(Percentage::one_hundred().sub(a), Percentage::from_int(70));
}
