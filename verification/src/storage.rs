//! The textual form of a plan document, and its conversion to a `Plan`.
//!
//! A stored plan names its incomes and expenses with value strings such as
//! `"50%"` or `"100.50₽"`: a plain decimal of at most two fraction digits,
//! marked as a percentage or an amount of rubles.  The parsers here decide
//! that little grammar exactly; `yaml_to_domain` turns a whole parsed
//! document into a validated `Plan`.  Reading and writing the files
//! themselves is the storage collaborator's business, not this module's.

use vstd::prelude::*;

verus! {

use crate::finance::{Currency, Money, Percentage, CENT_LIMIT, PCT_LIMIT};
use crate::planning::{
    plan_outcome, Draft, Error as PlanningError, Expense as DomainExpense, ExpenseValue,
    IncomeSource, Plan,
};

/// What can go wrong around stored plans and budgets.  The reading and
/// parsing cases belong to the file collaborator; `PlanNotAdaptable` is
/// raised when a well-formed document does not make a valid plan.
#[derive(Debug, PartialEq, Eq, Structural, Copy, Clone)]
pub enum Error {
    CantReadPlan,
    CantParsePlan,
    PlanNotAdaptable,
    CantReadDistribute,
    CantParseDistribute,
}

/// One income line of a stored plan: a source name and a value string.
#[derive(Debug)]
pub struct Income {
    pub source: String,
    pub value: String,
}

/// One expense line of a stored plan: a name, a value string, and an
/// optional category.
#[derive(Debug)]
pub struct Expense {
    pub name: String,
    pub value: String,
    pub category: Option<String>,
}

/// The body of a stored plan document.
#[derive(Debug)]
pub struct PlanDetails {
    pub incomes: Vec<Income>,
    pub expenses: Vec<Expense>,
}

/// A decimal digit.
pub open spec fn is_digit(c: char) -> bool {
    ('0' as int) <= c as int <= ('9' as int)
}

/// The value of a decimal digit.
pub open spec fn digit_val(c: char) -> int {
    c as int - ('0' as int)
}

/// Every character of the sequence is a decimal digit.
pub open spec fn all_digits(s: Seq<char>) -> bool {
    forall|i: int| 0 <= i < s.len() ==> is_digit(#[trigger] s[i])
}

/// The number the digit sequence spells, most significant digit first.
pub open spec fn digits_value(s: Seq<char>) -> int
    decreases s.len(),
{
    if s.len() == 0 {
        0
    } else {
        digits_value(s.drop_last()) * 10 + digit_val(s.last())
    }
}

/// Ten to the `n`.
pub open spec fn pow10(n: nat) -> int
    decreases n,
{
    if n == 0 {
        1
    } else {
        10 * pow10((n - 1) as nat)
    }
}

/// The position of the first `'.'`, or the length if there is none.
pub open spec fn first_dot(s: Seq<char>) -> int
    decreases s.len(),
{
    if s.len() == 0 {
        0
    } else if s[0] == '.' {
        0
    } else {
        1 + first_dot(s.drop_first())
    }
}

/// The number of cents a decimal string stands for: digits, at most
/// fifteen characters, optionally a dot and one or two fraction digits,
/// within the representable range -- or nothing.
pub open spec fn spec_parse_cents(s: Seq<char>) -> Option<int> {
    let k = first_dot(s);
    if s.len() < 1 || s.len() > 15 {
        Option::None
    } else if k == s.len() {
        if all_digits(s) && digits_value(s) * 100 <= CENT_LIMIT {
            Option::Some(digits_value(s) * 100)
        } else {
            Option::None
        }
    } else {
        let ip = s.take(k);
        let fp = s.skip(k + 1);
        if 1 <= ip.len() && all_digits(ip) && (fp.len() == 1 || fp.len() == 2) && all_digits(fp)
            && digits_value(ip) * 100 + digits_value(fp) * (if fp.len() == 1 {
            10int
        } else {
            1int
        }) <= CENT_LIMIT {
            Option::Some(
                digits_value(ip) * 100 + digits_value(fp) * (if fp.len() == 1 {
                    10int
                } else {
                    1int
                }),
            )
        } else {
            Option::None
        }
    }
}

/// The percentage a value string stands for: a decimal in hundredths, with
/// one optional trailing percent sign.
pub open spec fn spec_parse_percentage(s: Seq<char>) -> Option<int> {
    let body = if s.len() > 0 && s.last() == '%' {
        s.drop_last()
    } else {
        s
    };
    match spec_parse_cents(body) {
        Option::Some(v) => if v <= PCT_LIMIT {
            Option::Some(v)
        } else {
            Option::None
        },
        Option::None => Option::None,
    }
}

/// The amount of rubles a value string stands for: a decimal in cents,
/// with one optional leading or trailing ruble sign.
pub open spec fn spec_parse_money(s: Seq<char>) -> Option<int> {
    let body = if s.len() > 0 && s[0] == '₽' {
        s.drop_first()
    } else if s.len() > 0 && s.last() == '₽' {
        s.drop_last()
    } else {
        s
    };
    spec_parse_cents(body)
}

/// The expense value a string stands for: a percentage when it mentions
/// `%`, else an amount when it mentions `₽`, else nothing.
pub open spec fn spec_parse_expense_value(s: Seq<char>) -> Option<ExpenseValue> {
    if s.contains('%') {
        match spec_parse_percentage(s) {
            Option::Some(h) => Option::Some(
                ExpenseValue::RATE { value: Percentage { hundredths: h as i64 } },
            ),
            Option::None => Option::None,
        }
    } else if s.contains('₽') {
        match spec_parse_money(s) {
            Option::Some(v) => Option::Some(
                ExpenseValue::MONEY {
                    value: Money { value: v as i64, currency: Currency::RUB },
                },
            ),
            Option::None => Option::None,
        }
    } else {
        Option::None
    }
}

/// A scan that found `'.'` at `i` after none before it found the first.
proof fn lemma_first_dot_at(s: Seq<char>, i: int)
    requires
        0 <= i <= s.len(),
        forall|j: int| 0 <= j < i ==> s[j] != '.',
        i < s.len() ==> s[i] == '.',
    ensures
        first_dot(s) == i,
    decreases i,
{
    if s.len() > 0 {
        if i == 0 {
        } else {
            assert forall|j: int| 0 <= j < i - 1 implies s.drop_first()[j] != '.' by {
                assert(s[j + 1] != '.');
            }
            lemma_first_dot_at(s.drop_first(), i - 1);
        }
    }
}

/// Finds the first `'.'` of the string, or its length.
#[verifier::loop_isolation(false)]
fn find_dot(s: &str, len: usize) -> (k: usize)
    requires
        len == s@.len(),
    ensures
        k as int == first_dot(s@),
        k <= len,
{
    let mut i: usize = 0;
    while i < len
        invariant
            i <= len,
            forall|j: int| 0 <= j < i ==> s@[j] != '.',
        decreases len - i,
    {
        if s.get_char(i) == '.' {
            proof {
                lemma_first_dot_at(s@, i as int);
            }
            return i;
        }
        i = i + 1;
    }
    proof {
        lemma_first_dot_at(s@, len as int);
    }
    len
}

/// Reads the digits of `s` between `from` and `to` as a number.
#[verifier::loop_isolation(false)]
fn parse_digits(s: &str, from: usize, to: usize) -> (r: Option<i64>)
    requires
        from <= to <= s@.len(),
        to - from <= 15,
    ensures
        match r {
            Option::Some(v) => all_digits(s@.subrange(from as int, to as int)) && v
                == digits_value(s@.subrange(from as int, to as int)) && 0 <= v < pow10(
                (to - from) as nat,
            ),
            Option::None => !all_digits(s@.subrange(from as int, to as int)),
        },
{
    let ghost whole = s@.subrange(from as int, to as int);
    let mut acc: i64 = 0;
    let mut i: usize = from;
    proof {
        reveal_with_fuel(pow10, 16);
        assert(pow10(15) == 1_000_000_000_000_000);
        lemma_pow10_increases((to - from) as nat, 15);
    }
    while i < to
        invariant
            from <= i <= to,
            forall|j: int| from <= j < i ==> is_digit(#[trigger] s@[j]),
            acc == digits_value(s@.subrange(from as int, i as int)),
            0 <= acc < pow10((i - from) as nat),
        decreases to - i,
    {
        let c: char = s.get_char(i);
        if c < '0' || c > '9' {
            proof {
                assert(whole[i - from] == s@[i as int]);
                assert(!is_digit(s@[i as int]));
            }
            return Option::None;
        }
        proof {
            assert(s@.subrange(from as int, i + 1 as int).drop_last() =~= s@.subrange(
                from as int,
                i as int,
            ));
            assert(pow10(((i + 1) - from) as nat) == 10 * pow10((i - from) as nat));
            lemma_pow10_increases(((i + 1) - from) as nat, 15);
        }
        acc = acc * 10 + (c as i64 - 48);
        i = i + 1;
    }
    proof {
        assert forall|j: int| 0 <= j < whole.len() implies is_digit(#[trigger] whole[j]) by {
            assert(whole[j] == s@[from + j]);
        }
    }
    Option::Some(acc)
}

/// Powers of ten grow with the exponent.
proof fn lemma_pow10_increases(a: nat, b: nat)
    requires
        a <= b,
    ensures
        pow10(a) <= pow10(b),
        pow10(a) >= 1,
    decreases b,
{
    if b > 0 {
        if a == b {
            lemma_pow10_increases((a - 1) as nat, (b - 1) as nat);
        } else {
            lemma_pow10_increases(a, (b - 1) as nat);
        }
    }
}

/// Parses a decimal string into cents: digits with an optional dot and one
/// or two fraction digits, at most fifteen characters in all.
pub fn parse_decimal_cents(s: &str) -> (r: Option<i64>)
    ensures
        match r {
            Option::Some(v) => spec_parse_cents(s@) == Option::Some(v as int) && 0 <= v
                <= CENT_LIMIT,
            Option::None => spec_parse_cents(s@) is None,
        },
{
    let len: usize = s.unicode_len();
    if len < 1 || len > 15 {
        return Option::None;
    }
    let k: usize = find_dot(s, len);
    if k == len {
        proof {
            assert(s@.subrange(0, len as int) =~= s@);
        }
        match parse_digits(s, 0, len) {
            Option::Some(v) => {
                if v <= CENT_LIMIT / 100 {
                    Option::Some(v * 100)
                } else {
                    Option::None
                }
            },
            Option::None => Option::None,
        }
    } else {
        let ghost ip = s@.take(k as int);
        let ghost fp = s@.skip(k + 1 as int);
        proof {
            assert(s@.subrange(0, k as int) =~= ip);
            assert(s@.subrange(k + 1 as int, len as int) =~= fp);
        }
        if k < 1 {
            return Option::None;
        }
        let flen: usize = len - (k + 1);
        if flen != 1 && flen != 2 {
            return Option::None;
        }
        let int_part: Option<i64> = parse_digits(s, 0, k);
        let frac_part: Option<i64> = parse_digits(s, k + 1, len);
        match (int_part, frac_part) {
            (Option::Some(a), Option::Some(b)) => {
                let scale: i64 = if flen == 1 {
                    10
                } else {
                    1
                };
                proof {
                    reveal_with_fuel(pow10, 16);
                    assert(pow10(14) == 100_000_000_000_000);
                    lemma_pow10_increases((k - 0) as nat, 14);
                    assert(pow10(2) == 100);
                    lemma_pow10_increases(flen as nat, 2);
                }
                let total: i64 = a * 100 + b * scale;
                if total <= CENT_LIMIT {
                    Option::Some(total)
                } else {
                    Option::None
                }
            },
            _ => Option::None,
        }
    }
}

/// Parses a percentage string: a decimal with one optional trailing `%`.
pub fn parse_percentage_str(s: &str) -> (r: Option<Percentage>)
    ensures
        match r {
            Option::Some(p) => spec_parse_percentage(s@) == Option::Some(p.hundredths as int),
            Option::None => spec_parse_percentage(s@) is None,
        },
{
    let len: usize = s.unicode_len();
    let body: &str = if len > 0 && s.get_char(len - 1) == '%' {
        proof {
            assert(s@.subrange(0, len - 1) =~= s@.drop_last());
        }
        s.substring_char(0, len - 1)
    } else {
        s
    };
    match parse_decimal_cents(body) {
        Option::Some(v) => {
            if v <= PCT_LIMIT {
                Option::Some(Percentage::from(v))
            } else {
                Option::None
            }
        },
        Option::None => Option::None,
    }
}

/// Parses a money string: a decimal with one optional leading or trailing
/// `₽`, always in rubles.
pub fn parse_money_str(s: &str) -> (r: Option<Money>)
    ensures
        match r {
            Option::Some(m) => spec_parse_money(s@) == Option::Some(m.value as int) && m.currency
                == Currency::RUB,
            Option::None => spec_parse_money(s@) is None,
        },
{
    let len: usize = s.unicode_len();
    let body: &str = if len > 0 && s.get_char(0) == '₽' {
        proof {
            assert(s@.subrange(1, len as int) =~= s@.drop_first());
        }
        s.substring_char(1, len)
    } else if len > 0 && s.get_char(len - 1) == '₽' {
        proof {
            assert(s@.subrange(0, len - 1) =~= s@.drop_last());
        }
        s.substring_char(0, len - 1)
    } else {
        s
    };
    match parse_decimal_cents(body) {
        Option::Some(v) => Option::Some(Money::new_rub(v)),
        Option::None => Option::None,
    }
}

/// Whether the string holds the character.
#[verifier::loop_isolation(false)]
fn str_contains_char(s: &str, c: char) -> (r: bool)
    ensures
        r == s@.contains(c),
{
    let len: usize = s.unicode_len();
    let mut i: usize = 0;
    while i < len
        invariant
            i <= len,
            forall|j: int| 0 <= j < i ==> s@[j] != c,
        decreases len - i,
    {
        if s.get_char(i) == c {
            return true;
        }
        i = i + 1;
    }
    proof {
        if s@.contains(c) {
            let j = choose|j: int| 0 <= j < s@.len() && s@[j] == c;
        }
    }
    false
}

impl Money {
    /// Parses a money string, as `parse_money_str` does.
    pub fn from_str(s: &str) -> (r: Option<Money>)
        ensures
            match r {
                Option::Some(m) => spec_parse_money(s@) == Option::Some(m.value as int)
                    && m.currency == Currency::RUB,
                Option::None => spec_parse_money(s@) is None,
            },
    {
        parse_money_str(s)
    }
}

impl Percentage {
    /// Parses a percentage string, as `parse_percentage_str` does.
    pub fn from_str(s: &str) -> (r: Option<Percentage>)
        ensures
            match r {
                Option::Some(p) => spec_parse_percentage(s@) == Option::Some(p.hundredths as int),
                Option::None => spec_parse_percentage(s@) is None,
            },
    {
        parse_percentage_str(s)
    }
}

impl ExpenseValue {
    /// Parses an expense value string: a percentage when it mentions `%`,
    /// an amount of rubles when it mentions `₽`.
    pub fn from_str(s: &str) -> (r: Option<ExpenseValue>)
        ensures
            r == spec_parse_expense_value(s@),
    {
        if str_contains_char(s, '%') {
            match parse_percentage_str(s) {
                Option::Some(p) => Option::Some(ExpenseValue::RATE { value: p }),
                Option::None => Option::None,
            }
        } else if str_contains_char(s, '₽') {
            match parse_money_str(s) {
                Option::Some(m) => Option::Some(ExpenseValue::MONEY { value: m }),
                Option::None => Option::None,
            }
        } else {
            Option::None
        }
    }
}

/// The income source one stored income line stands for, if its value
/// parses.
pub open spec fn spec_source_of(r: Income) -> Option<IncomeSource> {
    match spec_parse_money(r.value@) {
        Option::Some(v) => Option::Some(
            IncomeSource {
                name: r.source,
                expected: Money { value: v as i64, currency: Currency::RUB },
            },
        ),
        Option::None => Option::None,
    }
}

/// The expense one stored expense line stands for, if its value parses.
pub open spec fn spec_expense_of(r: Expense) -> Option<DomainExpense> {
    match spec_parse_expense_value(r.value@) {
        Option::Some(v) => Option::Some(
            DomainExpense { name: r.name, value: v, category: r.category },
        ),
        Option::None => Option::None,
    }
}

/// All income lines converted in order, or nothing on the first failure.
pub open spec fn spec_sources_of(rs: Seq<Income>) -> Option<Seq<IncomeSource>>
    decreases rs.len(),
{
    if rs.len() == 0 {
        Option::Some(Seq::empty())
    } else {
        match spec_sources_of(rs.drop_last()) {
            Option::Some(ss) => match spec_source_of(rs.last()) {
                Option::Some(s) => Option::Some(ss.push(s)),
                Option::None => Option::None,
            },
            Option::None => Option::None,
        }
    }
}

/// All expense lines converted in order, or nothing on the first failure.
pub open spec fn spec_expenses_of(rs: Seq<Expense>) -> Option<Seq<DomainExpense>>
    decreases rs.len(),
{
    if rs.len() == 0 {
        Option::Some(Seq::empty())
    } else {
        match spec_expenses_of(rs.drop_last()) {
            Option::Some(es) => match spec_expense_of(rs.last()) {
                Option::Some(e) => Option::Some(es.push(e)),
                Option::None => Option::None,
            },
            Option::None => Option::None,
        }
    }
}

/// Turns a parsed plan document into a validated `Plan`: every value
/// string is decoded, and the sources and expenses go through the same
/// construction as any draft.  An undecodable value makes the whole
/// document invalid.
#[verifier::loop_isolation(false)]
pub fn yaml_to_domain(yaml: PlanDetails) -> (r: Result<Plan, PlanningError>)
    ensures
        match (spec_sources_of(yaml.incomes@), spec_expenses_of(yaml.expenses@)) {
            (Option::Some(ss), Option::Some(es)) => match r {
                Result::Ok(p) => {
                    &&& plan_outcome(ss, es) matches Result::Ok(_)
                    &&& p.sources@ == ss
                    &&& crate::planning::pairs_of(p.budget@) == (plan_outcome(ss, es)->Ok_0).0
                    &&& p.rest.hundredths == (plan_outcome(ss, es)->Ok_0).1
                    &&& p.wf()
                },
                Result::Err(e) => plan_outcome(ss, es) matches Result::Err(e2) && e2 == e,
            },
            _ => r == Result::<Plan, PlanningError>::Err(PlanningError::InvalidPlan),
        },
{
    let PlanDetails { incomes, expenses } = yaml;
    let ghost incomes0 = incomes@;
    let ghost expenses0 = expenses@;

    let mut sources: Vec<IncomeSource> = Vec::new();
    let mut incomes = incomes;
    while incomes.len() > 0
        invariant
            sources@.len() + incomes@.len() == incomes0.len(),
            spec_sources_of(incomes0.take(sources@.len() as int)) == Option::Some(sources@),
            forall|j: int|
                0 <= j < incomes@.len() ==> (#[trigger] incomes@[j]) == incomes0[j
                    + sources@.len()],
        decreases incomes@.len(),
    {
        let ghost done = sources@.len() as int;
        let ghost left = incomes@;
        let rec = incomes.remove(0);
        proof {
            assert(incomes@ =~= left.drop_first());
            assert(incomes0.take(done + 1).drop_last() =~= incomes0.take(done));
            assert(incomes0.take(done + 1).last() == incomes0[done]);
        }
        let money = match parse_money_str(rec.value.as_str()) {
            Option::Some(m) => m,
            Option::None => {
                proof {
                    lemma_sources_of_none(incomes0, done + 1);
                }
                return Err(PlanningError::InvalidPlan);
            },
        };
        sources.push(IncomeSource::new(rec.source, money));
    }
    proof {
        assert(incomes0.take(sources@.len() as int) =~= incomes0);
    }

    let mut converted: Vec<DomainExpense> = Vec::new();
    let mut expenses = expenses;
    while expenses.len() > 0
        invariant
            spec_sources_of(incomes0) == Option::Some(sources@),
            converted@.len() + expenses@.len() == expenses0.len(),
            spec_expenses_of(expenses0.take(converted@.len() as int)) == Option::Some(converted@),
            forall|j: int|
                0 <= j < expenses@.len() ==> (#[trigger] expenses@[j]) == expenses0[j
                    + converted@.len()],
        decreases expenses@.len(),
    {
        let ghost done = converted@.len() as int;
        let ghost left = expenses@;
        let rec = expenses.remove(0);
        proof {
            assert(expenses@ =~= left.drop_first());
            assert(expenses0.take(done + 1).drop_last() =~= expenses0.take(done));
            assert(expenses0.take(done + 1).last() == expenses0[done]);
        }
        let value = match ExpenseValue::from_str(rec.value.as_str()) {
            Option::Some(v) => v,
            Option::None => {
                proof {
                    lemma_expenses_of_none(expenses0, done + 1);
                }
                return Err(PlanningError::InvalidPlan);
            },
        };
        converted.push(DomainExpense::new(rec.name, value, rec.category));
    }
    proof {
        assert(expenses0.take(converted@.len() as int) =~= expenses0);
    }

    Plan::try_from(Draft { sources, expenses: converted })
}

/// A conversion that failed on a prefix fails on the whole sequence.
proof fn lemma_sources_of_none(rs: Seq<Income>, i: int)
    requires
        0 <= i <= rs.len(),
        spec_sources_of(rs.take(i)) is None,
    ensures
        spec_sources_of(rs) is None,
    decreases rs.len() - i,
{
    if i < rs.len() {
        assert(rs.take(i + 1).drop_last() =~= rs.take(i));
        lemma_sources_of_none(rs, i + 1);
    } else {
        assert(rs.take(i) =~= rs);
    }
}

/// A conversion that failed on a prefix fails on the whole sequence.
proof fn lemma_expenses_of_none(rs: Seq<Expense>, i: int)
    requires
        0 <= i <= rs.len(),
        spec_expenses_of(rs.take(i)) is None,
    ensures
        spec_expenses_of(rs) is None,
    decreases rs.len() - i,
{
    if i < rs.len() {
        assert(rs.take(i + 1).drop_last() =~= rs.take(i));
        lemma_expenses_of_none(rs, i + 1);
    } else {
        assert(rs.take(i) =~= rs);
    }
}

} // verus!
