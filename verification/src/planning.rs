//! Draft validation and Plan construction.
//!
//! A `Draft` is a transient collection of income sources and planned
//! expenses.  `Plan::try_from` validates it and normalizes every expense
//! into a percentage of the total expected income; the percentages of an
//! accepted plan never exceed one hundred percent, and what is left is the
//! plan's `rest`.
//!
//! The whole construction is mirrored by the specification functions
//! `plan_outcome` and `build_state`, so the contract of `Plan::try_from`
//! pins down both the exact budget of an accepted plan and the exact error
//! of a rejected draft.

use vstd::prelude::*;

verus! {

use crate::finance::{
    Currency, Money, Percentage, round_half_even, CENT_LIMIT, FULL_PERCENT, PCT_LIMIT,
};

/// Largest number of income sources a draft may hold.
pub const MAX_SOURCES: usize = 100_000;

/// Largest number of expenses a draft may hold.
pub const MAX_EXPENSES: usize = 100_000;

/// A named origin of income with the amount expected from it.  The name is
/// the identity: two sources are equal exactly when their names are.
#[derive(Debug)]
pub struct IncomeSource {
    pub name: String,
    pub expected: Money,
}

impl IncomeSource {
    pub fn new(name: String, expected: Money) -> (s: IncomeSource)
        ensures
            s.name == name,
            s.expected == expected,
    {
        IncomeSource { name, expected }
    }

    pub fn expected(&self) -> (m: &Money)
        ensures
            m == self.expected,
    {
        &self.expected
    }
}

impl Clone for IncomeSource {
    fn clone(&self) -> (r: IncomeSource)
        ensures
            r == *self,
    {
        IncomeSource { name: self.name.clone(), expected: self.expected }
    }
}

impl PartialEq for IncomeSource {
    fn eq(&self, other: &Self) -> bool {
        self.name == other.name
    }
}

impl vstd::std_specs::cmp::PartialEqSpecImpl for IncomeSource {
    open spec fn obeys_eq_spec() -> bool {
        true
    }

    open spec fn eq_spec(&self, other: &Self) -> bool {
        self.name@ == other.name@
    }
}

/// Why a draft was rejected.
///
/// `EmptyPlan`: the draft has no sources or no expenses.
/// `TooBigExpenses`: the planned percentages would exceed one hundred.
/// `InvalidPlan`: a value lies outside the representable range.
/// `MixedCurrency`: the draft mixes currencies, which no plan may do.
#[derive(Debug, PartialEq, Eq, Structural, Copy, Clone)]
pub enum Error {
    EmptyPlan,
    TooBigExpenses,
    InvalidPlan,
    MixedCurrency,
}

/// How a draft expense is specified: as a percentage of the expected
/// income, or as a fixed amount of money.
#[derive(Debug, PartialEq, Eq, Structural, Copy, Clone, Hash)]
pub enum ExpenseValue {
    RATE { value: Percentage },
    MONEY { value: Money },
}

impl Default for ExpenseValue {
    fn default() -> (r: ExpenseValue)
        ensures
            r == (ExpenseValue::MONEY { value: Money { value: 0, currency: Currency::RUB } }),
    {
        ExpenseValue::MONEY { value: Money { value: 0, currency: Currency::RUB } }
    }
}

/// A planned expense: a name, how it is valued, and an optional category.
#[derive(Debug)]
pub struct Expense {
    pub name: String,
    pub value: ExpenseValue,
    pub category: Option<String>,
}

impl Expense {
    pub fn new(name: String, value: ExpenseValue, category: Option<String>) -> (e: Expense)
        ensures
            e.name == name,
            e.value == value,
            e.category == category,
    {
        Expense { name, value, category }
    }
}

impl Clone for Expense {
    fn clone(&self) -> (r: Expense)
        ensures
            r == *self,
    {
        Expense {
            name: self.name.clone(),
            value: self.value,
            category: match &self.category {
                Some(c) => Some(c.clone()),
                None => None,
            },
        }
    }
}

/// Equality of expenses, the identity the budget map is keyed by: equal
/// names, equal values, equal categories.
pub open spec fn expense_key_eq(a: Expense, b: Expense) -> bool {
    &&& a.name@ == b.name@
    &&& a.value == b.value
    &&& match (a.category, b.category) {
        (Option::None, Option::None) => true,
        (Option::Some(x), Option::Some(y)) => x@ == y@,
        _ => false,
    }
}

impl PartialEq for Expense {
    fn eq(&self, other: &Self) -> bool {
        let names_eq: bool = self.name == other.name;
        let values_eq: bool = self.value == other.value;
        let cats_eq: bool = match (&self.category, &other.category) {
            (Option::Some(x), Option::Some(y)) => *x == *y,
            (Option::None, Option::None) => true,
            _ => false,
        };
        names_eq && values_eq && cats_eq
    }
}

impl vstd::std_specs::cmp::PartialEqSpecImpl for Expense {
    open spec fn obeys_eq_spec() -> bool {
        true
    }

    open spec fn eq_spec(&self, other: &Self) -> bool {
        expense_key_eq(*self, *other)
    }
}

/// The transient builder: sources and expenses gathered before validation.
pub struct Draft {
    pub sources: Vec<IncomeSource>,
    pub expenses: Vec<Expense>,
}

impl Draft {
    pub fn new() -> (d: Draft)
        ensures
            d.sources@.len() == 0,
            d.expenses@.len() == 0,
    {
        Draft { sources: Vec::new(), expenses: Vec::new() }
    }

    pub fn add_source(&mut self, income_source: IncomeSource)
        ensures
            final(self).sources@ == old(self).sources@.push(income_source),
            final(self).expenses@ == old(self).expenses@,
    {
        self.sources.push(income_source);
    }

    pub fn add_expense(&mut self, expense: Expense)
        ensures
            final(self).sources@ == old(self).sources@,
            final(self).expenses@ == old(self).expenses@.push(expense),
    {
        self.expenses.push(expense);
    }

    pub fn build(sources: &[IncomeSource], expenses: &[Expense]) -> (d: Draft)
        ensures
            d.sources@ == sources@,
            d.expenses@ == expenses@,
    {
        let mut draft = Draft::new();
        let mut i: usize = 0;
        while i < sources.len()
            invariant
                i <= sources@.len(),
                draft.sources@ =~= sources@.take(i as int),
                draft.expenses@.len() == 0,
            decreases sources@.len() - i,
        {
            let s: &IncomeSource = &sources[i];
            draft.add_source(s.clone());
            proof {
                assert(draft.sources@ =~= sources@.take(i + 1 as int));
            }
            i = i + 1;
        }
        let mut j: usize = 0;
        while j < expenses.len()
            invariant
                j <= expenses@.len(),
                draft.sources@ =~= sources@.take(sources@.len() as int),
                draft.expenses@ =~= expenses@.take(j as int),
            decreases expenses@.len() - j,
        {
            let e: &Expense = &expenses[j];
            draft.add_expense(e.clone());
            proof {
                assert(draft.expenses@ =~= expenses@.take(j + 1 as int));
            }
            j = j + 1;
        }
        proof {
            assert(sources@.take(sources@.len() as int) =~= sources@);
            assert(expenses@.take(expenses@.len() as int) =~= expenses@);
        }
        draft
    }

    /// The sum of the expected amounts of all sources, which must share one
    /// currency; the bounds keep the sum representable.
    pub fn total_incomes(&self) -> (m: Money)
        requires
            self.sources@.len() <= MAX_SOURCES,
            forall|i: int|
                0 <= i < self.sources@.len() ==> (#[trigger] self.sources@[i]).expected.currency
                    == Currency::RUB,
            forall|i: int|
                0 <= i < self.sources@.len() ==> -CENT_LIMIT <= (
                #[trigger] self.sources@[i]).expected.value <= CENT_LIMIT,
        ensures
            m.value == sum_expected(self.sources@),
            m.currency == Currency::RUB,
    {
        let mut total: i64 = 0;
        let mut i: usize = 0;
        while i < self.sources.len()
            invariant
                i <= self.sources@.len(),
                self.sources@.len() <= MAX_SOURCES,
                forall|k: int|
                    0 <= k < self.sources@.len() ==> -CENT_LIMIT <= (
                    #[trigger] self.sources@[k]).expected.value <= CENT_LIMIT,
                total == sum_expected(self.sources@.take(i as int)),
                -(i as int) * CENT_LIMIT <= total <= (i as int) * CENT_LIMIT,
            decreases self.sources@.len() - i,
        {
            proof {
                assert(self.sources@.take(i + 1 as int).drop_last() =~= self.sources@.take(
                    i as int,
                ));
                lemma_mul_bounds_step(i as int, CENT_LIMIT as int);
            }
            total = total + self.sources[i].expected.value;
            i = i + 1;
        }
        proof {
            assert(self.sources@.take(self.sources@.len() as int) =~= self.sources@);
        }
        Money { value: total, currency: Currency::RUB }
    }
}

impl Default for Draft {
    fn default() -> (d: Draft)
        ensures
            d.sources@.len() == 0,
            d.expenses@.len() == 0,
    {
        Draft::new()
    }
}

proof fn lemma_mul_bounds_step(i: int, c: int)
    requires
        0 <= i,
        0 <= c,
    ensures
        (i + 1) * c == i * c + c,
{
    assert((i + 1) * c == i * c + c) by (nonlinear_arith);
}

/// The sum of the expected amounts of a sequence of sources, in cents.
pub open spec fn sum_expected(s: Seq<IncomeSource>) -> int
    decreases s.len(),
{
    if s.len() == 0 {
        0
    } else {
        sum_expected(s.drop_last()) + s.last().expected.value
    }
}

/// A single source is acceptable: it carries the plan's currency and a
/// representable, nonnegative expected amount.
pub open spec fn src_ok(s: IncomeSource, cur: Currency) -> bool {
    &&& s.expected.currency == cur
    &&& 0 <= s.expected.value <= CENT_LIMIT
}

/// What is wrong with the first unacceptable source, scanning in order.
pub open spec fn first_source_error(s: Seq<IncomeSource>, cur: Currency) -> Option<Error>
    decreases s.len(),
{
    if s.len() == 0 {
        Option::None
    } else {
        match first_source_error(s.drop_last(), cur) {
            Option::Some(e) => Option::Some(e),
            Option::None => {
                let x = s.last();
                if x.expected.currency != cur {
                    Option::Some(Error::MixedCurrency)
                } else if !(0 <= x.expected.value <= CENT_LIMIT) {
                    Option::Some(Error::InvalidPlan)
                } else {
                    Option::None
                }
            },
        }
    }
}

/// The percentage, in hundredths of a percent, that one expense stands for
/// against a total expected income of `total` cents.
pub open spec fn rate_of_expense(e: Expense, total: int) -> int {
    match e.value {
        ExpenseValue::RATE { value } => value.hundredths as int,
        ExpenseValue::MONEY { value } => round_half_even(value.value * FULL_PERCENT, total),
    }
}

/// What is wrong with one expense, if anything, checked in the order the
/// builder checks it.
pub open spec fn expense_error(e: Expense, total: int, cur: Currency) -> Option<Error> {
    match e.value {
        ExpenseValue::RATE { value } => if !(0 <= value.hundredths <= PCT_LIMIT) {
            Option::Some(Error::InvalidPlan)
        } else {
            Option::None
        },
        ExpenseValue::MONEY { value } => if value.currency != cur {
            Option::Some(Error::MixedCurrency)
        } else if !(0 <= value.value <= CENT_LIMIT) {
            Option::Some(Error::InvalidPlan)
        } else if total <= 0 {
            Option::Some(Error::InvalidPlan)
        } else if value.value * FULL_PERCENT > total * PCT_LIMIT {
            Option::Some(Error::TooBigExpenses)
        } else {
            Option::None
        },
    }
}

/// Whether some entry of the budget is keyed by an expense equal to `e`.
pub open spec fn bud_has_key(bud: Seq<(Expense, int)>, e: Expense) -> bool {
    exists|i: int| 0 <= i < bud.len() && expense_key_eq(bud[i].0, e)
}

/// The index of the entry keyed by `e`; meaningful when the keys are
/// distinct and `bud_has_key` holds.
pub open spec fn bud_key_index(bud: Seq<(Expense, int)>, e: Expense) -> int {
    choose|i: int| 0 <= i < bud.len() && expense_key_eq(bud[i].0, e)
}

/// Map insertion over the association list: replace the entry with an equal
/// key, or append a new entry.
pub open spec fn bud_insert(bud: Seq<(Expense, int)>, e: Expense, h: int) -> Seq<(Expense, int)> {
    if bud_has_key(bud, e) {
        bud.update(bud_key_index(bud, e), (e, h))
    } else {
        bud.push((e, h))
    }
}

/// The keys of the budget are pairwise distinct.
pub open spec fn bud_distinct(bud: Seq<(Expense, int)>) -> bool {
    forall|i: int, j: int|
        0 <= i < j < bud.len() ==> !expense_key_eq(#[trigger] bud[i].0, #[trigger] bud[j].0)
}

/// The sum of the percentages held in the budget, in hundredths of a
/// percent.
pub open spec fn bud_h_sum(bud: Seq<(Expense, int)>) -> int
    decreases bud.len(),
{
    if bud.len() == 0 {
        0
    } else {
        bud_h_sum(bud.drop_last()) + bud.last().1
    }
}

/// The expenses are pairwise distinct as budget keys.
pub open spec fn expenses_distinct(s: Seq<Expense>) -> bool {
    forall|i: int, j: int|
        0 <= i < j < s.len() ==> !expense_key_eq(#[trigger] s[i], #[trigger] s[j])
}

/// Processing the expenses in order against a total of `total` cents:
/// either the first error, or the built budget together with the running
/// total of percentages.
pub open spec fn build_state(expenses: Seq<Expense>, total: int, cur: Currency) -> Result<
    (Seq<(Expense, int)>, int),
    Error,
>
    decreases expenses.len(),
{
    if expenses.len() == 0 {
        Result::Ok((Seq::empty(), 0))
    } else {
        match build_state(expenses.drop_last(), total, cur) {
            Result::Err(e) => Result::Err(e),
            Result::Ok((bud, run)) => {
                let e = expenses.last();
                match expense_error(e, total, cur) {
                    Option::Some(err) => Result::Err(err),
                    Option::None => {
                        let h = rate_of_expense(e, total);
                        if run + h > FULL_PERCENT {
                            Result::Err(Error::TooBigExpenses)
                        } else {
                            Result::Ok((bud_insert(bud, e, h), run + h))
                        }
                    },
                }
            },
        }
    }
}

/// The exact outcome of building a plan from a draft: the budget as
/// `(expense, hundredths-of-a-percent)` pairs and the rest, or the error.
pub open spec fn plan_outcome(sources: Seq<IncomeSource>, expenses: Seq<Expense>) -> Result<
    (Seq<(Expense, int)>, int),
    Error,
> {
    if expenses.len() == 0 || sources.len() == 0 {
        Result::Err(Error::EmptyPlan)
    } else if sources.len() > MAX_SOURCES || expenses.len() > MAX_EXPENSES {
        Result::Err(Error::InvalidPlan)
    } else {
        let cur = sources[0].expected.currency;
        match first_source_error(sources, cur) {
            Option::Some(e) => Result::Err(e),
            Option::None => match build_state(expenses, sum_expected(sources), cur) {
                Result::Err(e) => Result::Err(e),
                Result::Ok((bud, run)) => Result::Ok((bud, FULL_PERCENT - run)),
            },
        }
    }
}

/// The budget pairs of a plan: each stored percentage as a plain integer.
pub open spec fn pairs_of(s: Seq<(Expense, Percentage)>) -> Seq<(Expense, int)> {
    Seq::new(s.len(), |i: int| (s[i].0, s[i].1.hundredths as int))
}

/// Whether some source in the sequence has the given name.
pub open spec fn spec_has_source(sources: Seq<IncomeSource>, name: Seq<char>) -> bool {
    exists|i: int| 0 <= i < sources.len() && (#[trigger] sources[i]).name@ == name
}

/// A validated, percentage-normalized budget plan.
#[derive(Debug, PartialEq)]
pub struct Plan {
    pub sources: Vec<IncomeSource>,
    /// The budget: each planned expense with its share of the income, an
    /// association list with pairwise distinct keys.
    pub budget: Vec<(Expense, Percentage)>,
    /// The share of the income that no expense claims.
    pub rest: Percentage,
}

impl Plan {
    /// The invariant of an accepted plan: acceptable sources of one
    /// currency, a budget of distinct keys whose percentages are between
    /// zero and one hundred percent and sum to at most one hundred, and a
    /// rest in the same range.
    pub open spec fn wf(&self) -> bool {
        &&& 1 <= self.sources@.len() <= MAX_SOURCES
        &&& forall|i: int|
            0 <= i < self.sources@.len() ==> src_ok(
                #[trigger] self.sources@[i],
                self.sources@[0].expected.currency,
            )
        &&& 1 <= self.budget@.len() <= MAX_EXPENSES
        &&& forall|i: int|
            0 <= i < self.budget@.len() ==> 0 <= (#[trigger] self.budget@[i]).1.hundredths
                <= FULL_PERCENT
        &&& bud_distinct(pairs_of(self.budget@))
        &&& bud_h_sum(pairs_of(self.budget@)) <= FULL_PERCENT
        &&& 0 <= self.rest.hundredths <= FULL_PERCENT
    }

    /// The currency every amount of the plan is in.
    pub open spec fn spec_currency(&self) -> Currency {
        self.sources@[0].expected.currency
    }

    /// Whether the plan has a source of this name; names are the identity
    /// of sources.
    #[verifier::loop_isolation(false)]
    pub fn has_source(&self, source: &IncomeSource) -> (r: bool)
        ensures
            r == spec_has_source(self.sources@, source.name@),
    {
        let mut i: usize = 0;
        while i < self.sources.len()
            invariant
                i <= self.sources@.len(),
                forall|k: int| 0 <= k < i ==> (#[trigger] self.sources@[k]).name@ != source.name@,
            decreases self.sources@.len() - i,
        {
            if self.sources[i] == *source {
                return true;
            }
            i = i + 1;
        }
        false
    }

    /// The total expected income of the plan's sources.
    #[verifier::loop_isolation(false)]
    pub fn total_income(&self) -> (m: Money)
        requires
            self.wf(),
        ensures
            m.value == sum_expected(self.sources@),
            m.currency == self.spec_currency(),
    {
        let mut total: i64 = 0;
        let len: usize = self.sources.len();
        let mut i: usize = 0;
        while i < len
            invariant
                i <= len,
                len == self.sources@.len(),
                total == sum_expected(self.sources@.take(i as int)),
                0 <= total <= (i as int) * CENT_LIMIT,
            decreases len - i,
        {
            proof {
                assert(self.sources@.take(i + 1 as int).drop_last() =~= self.sources@.take(
                    i as int,
                ));
                lemma_mul_bounds_step(i as int, CENT_LIMIT as int);
            }
            total = total + self.sources[i].expected.value;
            i = i + 1;
        }
        proof {
            assert(self.sources@.take(len as int) =~= self.sources@);
            assert((len as int) * CENT_LIMIT <= (MAX_SOURCES as int) * CENT_LIMIT)
                by (nonlinear_arith)
                requires
                    0 <= len as int <= MAX_SOURCES as int,
            ;
        }
        Money { value: total, currency: self.sources[0].expected.currency }
    }

    /// The percentage planned for this expense, if the plan holds it.
    #[verifier::loop_isolation(false)]
    pub fn get(&self, expense: &Expense) -> (r: Option<&Percentage>)
        requires
            self.wf(),
        ensures
            match r {
                Option::Some(p) => bud_has_key(pairs_of(self.budget@), *expense)
                    && p.hundredths == pairs_of(self.budget@)[bud_key_index(
                    pairs_of(self.budget@),
                    *expense,
                )].1,
                Option::None => !bud_has_key(pairs_of(self.budget@), *expense),
            },
    {
        let ghost pairs = pairs_of(self.budget@);
        let mut i: usize = 0;
        while i < self.budget.len()
            invariant
                i <= self.budget@.len(),
                pairs == pairs_of(self.budget@),
                forall|k: int| 0 <= k < i ==> !expense_key_eq(#[trigger] pairs[k].0, *expense),
            decreases self.budget@.len() - i,
        {
            if self.budget[i].0 == *expense {
                proof {
                    assert(expense_key_eq(pairs[i as int].0, *expense));
                    let ci = bud_key_index(pairs, *expense);
                    assert(expense_key_eq(pairs[ci].0, *expense));
                    lemma_key_eq_joint(pairs[ci].0, pairs[i as int].0, *expense);
                    lemma_key_eq_joint(pairs[i as int].0, pairs[ci].0, *expense);
                    if ci < i as int {
                        assert(!expense_key_eq(pairs[ci].0, pairs[i as int].0));
                    } else if ci > i as int {
                        assert(!expense_key_eq(pairs[i as int].0, pairs[ci].0));
                    }
                    assert(ci == i as int);
                }
                return Some(&self.budget[i].1);
            }
            i = i + 1;
        }
        None
    }
}

/// Two expenses equal to a third are equal to each other.
proof fn lemma_key_eq_joint(a: Expense, b: Expense, c: Expense)
    requires
        expense_key_eq(a, c),
        expense_key_eq(b, c),
    ensures
        expense_key_eq(a, b),
{
}

/// Replacing one entry changes the sum by the difference of that entry.
proof fn lemma_bud_h_sum_update(bud: Seq<(Expense, int)>, k: int, e: Expense, h: int)
    requires
        0 <= k < bud.len(),
    ensures
        bud_h_sum(bud.update(k, (e, h))) == bud_h_sum(bud) - bud[k].1 + h,
    decreases bud.len(),
{
    let upd = bud.update(k, (e, h));
    if k == bud.len() - 1 {
        assert(upd.drop_last() =~= bud.drop_last());
    } else {
        assert(upd.drop_last() =~= bud.drop_last().update(k, (e, h)));
        lemma_bud_h_sum_update(bud.drop_last(), k, e, h);
    }
}

/// What holds of an accepted build: distinct keys that are exactly the
/// processed expenses, percentages within range carrying their own rate,
/// and a running total of at most one hundred percent that the stored
/// percentages cannot exceed -- and equal exactly when the expenses were
/// distinct.
pub proof fn lemma_build_state_ok(expenses: Seq<Expense>, total: int, cur: Currency)
    requires
        build_state(expenses, total, cur) matches Result::Ok(_),
    ensures
        ({
            let (bud, run) = build_state(expenses, total, cur)->Ok_0;
            &&& 0 <= run <= FULL_PERCENT
            &&& bud_distinct(bud)
            &&& bud.len() <= expenses.len()
            &&& expenses.len() > 0 ==> bud.len() >= 1
            &&& forall|i: int| 0 <= i < bud.len() ==> 0 <= (#[trigger] bud[i]).1 <= FULL_PERCENT
            &&& forall|i: int|
                0 <= i < bud.len() ==> (#[trigger] bud[i]).1 == rate_of_expense(bud[i].0, total)
            &&& forall|x: Expense|
                bud_has_key(bud, x) <==> exists|i: int|
                    0 <= i < expenses.len() && expense_key_eq(#[trigger] expenses[i], x)
            &&& bud_h_sum(bud) <= run
            &&& expenses_distinct(expenses) ==> bud_h_sum(bud) == run
        }),
    decreases expenses.len(),
{
    if expenses.len() > 0 {
        let prefix = expenses.drop_last();
        lemma_build_state_ok(prefix, total, cur);
        let (bud0, run0) = build_state(prefix, total, cur)->Ok_0;
        let e = expenses.last();
        let h = rate_of_expense(e, total);
        let (bud, run) = build_state(expenses, total, cur)->Ok_0;
        assert(run == run0 + h);
        assert(0 <= h) by {
            match e.value {
                ExpenseValue::RATE { value } => {},
                ExpenseValue::MONEY { value } => {
                    crate::finance::lemma_round_half_even_nonneg_range(
                        value.value * FULL_PERCENT,
                        total,
                        PCT_LIMIT as int,
                    );
                    assert(value.value * FULL_PERCENT >= 0) by (nonlinear_arith)
                        requires
                            value.value >= 0,
                    ;
                    assert(value.value * FULL_PERCENT <= total * PCT_LIMIT);
                },
            }
        }
        if bud_has_key(bud0, e) {
            let k = bud_key_index(bud0, e);
            assert(expense_key_eq(bud0[k].0, e));
            assert(bud == bud0.update(k, (e, h)));
            assert(rate_of_expense(bud0[k].0, total) == h);
            lemma_bud_h_sum_update(bud0, k, e, h);
            assert(bud_h_sum(bud) == bud_h_sum(bud0));
            assert(bud_distinct(bud)) by {
                assert forall|i: int, j: int| 0 <= i < j < bud.len() implies !expense_key_eq(
                    bud[i].0,
                    bud[j].0,
                ) by {
                    if i == k || j == k {
                        if expense_key_eq(bud[i].0, bud[j].0) {
                            lemma_key_eq_joint(bud0[if i == k {
                                j
                            } else {
                                i
                            }].0, bud0[k].0, e);
                        }
                    }
                }
            }
            assert forall|x: Expense| bud_has_key(bud, x) implies exists|i: int|
                0 <= i < expenses.len() && expense_key_eq(#[trigger] expenses[i], x) by {
                let w = choose|w: int| 0 <= w < bud.len() && expense_key_eq(bud[w].0, x);
                if w == k {
                    assert(expense_key_eq(expenses[expenses.len() - 1], x));
                } else {
                    assert(bud_has_key(bud0, x));
                    let i = choose|i: int|
                        0 <= i < prefix.len() && expense_key_eq(#[trigger] prefix[i], x);
                    assert(expense_key_eq(expenses[i], x));
                }
            }
            assert forall|x: Expense|
                (exists|i: int|
                    0 <= i < expenses.len() && expense_key_eq(
                        #[trigger] expenses[i],
                        x,
                    )) implies bud_has_key(bud, x) by {
                let i = choose|i: int|
                    0 <= i < expenses.len() && expense_key_eq(#[trigger] expenses[i], x);
                if i < expenses.len() - 1 {
                    assert(expense_key_eq(prefix[i], x));
                    assert(bud_has_key(bud0, x));
                    let w = choose|w: int| 0 <= w < bud0.len() && expense_key_eq(bud0[w].0, x);
                    assert(expense_key_eq(bud[w].0, x) || w == k);
                    if w == k {
                        lemma_key_eq_joint(x, e, bud0[k].0);
                        assert(expense_key_eq(bud[k].0, x));
                    }
                } else {
                    lemma_key_eq_joint(x, e, e);
                    assert(expense_key_eq(bud[k].0, x));
                }
            }
            if expenses_distinct(expenses) {
                assert(exists|i: int|
                    0 <= i < prefix.len() && expense_key_eq(#[trigger] prefix[i], e));
                let i = choose|i: int| 0 <= i < prefix.len() && expense_key_eq(prefix[i], e);
                assert(!expense_key_eq(expenses[i], expenses[expenses.len() - 1]));
                assert(false);
            }
        } else {
            assert(bud == bud0.push((e, h)));
            assert(bud.drop_last() =~= bud0);
            assert(bud_h_sum(bud) == bud_h_sum(bud0) + h);
            assert(bud_distinct(bud)) by {
                assert forall|i: int, j: int| 0 <= i < j < bud.len() implies !expense_key_eq(
                    bud[i].0,
                    bud[j].0,
                ) by {
                    if j == bud.len() - 1 {
                        if expense_key_eq(bud[i].0, bud[j].0) {
                            assert(bud_has_key(bud0, e));
                        }
                    }
                }
            }
            assert forall|x: Expense| bud_has_key(bud, x) implies exists|i: int|
                0 <= i < expenses.len() && expense_key_eq(#[trigger] expenses[i], x) by {
                let w = choose|w: int| 0 <= w < bud.len() && expense_key_eq(bud[w].0, x);
                if w == bud.len() - 1 {
                    assert(expense_key_eq(expenses[expenses.len() - 1], x));
                } else {
                    assert(bud_has_key(bud0, x));
                    let i = choose|i: int|
                        0 <= i < prefix.len() && expense_key_eq(#[trigger] prefix[i], x);
                    assert(expense_key_eq(expenses[i], x));
                }
            }
            assert forall|x: Expense|
                (exists|i: int|
                    0 <= i < expenses.len() && expense_key_eq(
                        #[trigger] expenses[i],
                        x,
                    )) implies bud_has_key(bud, x) by {
                let i = choose|i: int|
                    0 <= i < expenses.len() && expense_key_eq(#[trigger] expenses[i], x);
                if i < expenses.len() - 1 {
                    assert(expense_key_eq(prefix[i], x));
                    assert(bud_has_key(bud0, x));
                    let w = choose|w: int| 0 <= w < bud0.len() && expense_key_eq(bud0[w].0, x);
                    assert(expense_key_eq(bud[w].0, x));
                } else {
                    assert(expense_key_eq(bud[bud.len() - 1].0, x));
                }
            }
            if expenses_distinct(expenses) {
                assert(expenses_distinct(prefix)) by {
                    assert forall|i: int, j: int| 0 <= i < j < prefix.len() implies !expense_key_eq(
                        prefix[i],
                        prefix[j],
                    ) by {
                        assert(!expense_key_eq(expenses[i], expenses[j]));
                    }
                }
            }
        }
        if expenses_distinct(expenses) {
            assert(expenses_distinct(prefix)) by {
                assert forall|i: int, j: int| 0 <= i < j < prefix.len() implies !expense_key_eq(
                    prefix[i],
                    prefix[j],
                ) by {
                    assert(!expense_key_eq(expenses[i], expenses[j]));
                }
            }
        }
    }
}

/// A source error found in a prefix stands for the whole sequence.
proof fn lemma_first_source_error_extend(s: Seq<IncomeSource>, cur: Currency, i: int)
    requires
        0 <= i <= s.len(),
        first_source_error(s.take(i), cur) matches Option::Some(_),
    ensures
        first_source_error(s, cur) == first_source_error(s.take(i), cur),
    decreases s.len() - i,
{
    if i < s.len() {
        assert(s.take(i + 1).drop_last() =~= s.take(i));
        lemma_first_source_error_extend(s, cur, i + 1);
    } else {
        assert(s.take(i) =~= s);
    }
}

/// A build error found in a prefix stands for the whole sequence.
proof fn lemma_build_state_extend(s: Seq<Expense>, total: int, cur: Currency, i: int)
    requires
        0 <= i <= s.len(),
        build_state(s.take(i), total, cur) matches Result::Err(_),
    ensures
        build_state(s, total, cur) == build_state(s.take(i), total, cur),
    decreases s.len() - i,
{
    if i < s.len() {
        assert(s.take(i + 1).drop_last() =~= s.take(i));
        lemma_build_state_extend(s, total, cur, i + 1);
    } else {
        assert(s.take(i) =~= s);
    }
}

impl Plan {
    /// Builds a plan from a draft.
    ///
    /// Every expense is normalized, in draft order, to a percentage of the
    /// total expected income: a fixed amount becomes its rounded share of
    /// the total, a rate is taken as given.  The running total must never
    /// exceed one hundred percent, and what remains of the hundred becomes
    /// the plan's rest.  The contract ties the result exactly to
    /// `plan_outcome`: which budget an accepted draft yields, and which
    /// error a rejected draft raises.
    #[verifier::loop_isolation(false)]
    pub fn try_from(draft: Draft) -> (r: Result<Plan, Error>)
        ensures
            match r {
                Result::Ok(p) => {
                    &&& plan_outcome(draft.sources@, draft.expenses@) matches Result::Ok(br)
                    &&& p.sources@ == draft.sources@
                    &&& pairs_of(p.budget@) == (plan_outcome(draft.sources@, draft.expenses@)->Ok_0).0
                    &&& p.rest.hundredths == (plan_outcome(draft.sources@, draft.expenses@)->Ok_0).1
                    &&& p.wf()
                },
                Result::Err(e) => plan_outcome(draft.sources@, draft.expenses@) matches Result::Err(e2) && e2 == e,
            },
    {
        if draft.expenses.len() == 0 || draft.sources.len() == 0 {
            return Err(Error::EmptyPlan);
        }
        if draft.sources.len() > MAX_SOURCES || draft.expenses.len() > MAX_EXPENSES {
            return Err(Error::InvalidPlan);
        }
        let cur: Currency = draft.sources[0].expected.currency;

        let srcs_len: usize = draft.sources.len();
        let mut i: usize = 0;
        while i < srcs_len
            invariant
                i <= srcs_len,
                srcs_len == draft.sources@.len(),
                cur == draft.sources@[0].expected.currency,
                first_source_error(draft.sources@.take(i as int), cur) matches Option::None,
                forall|k: int| 0 <= k < i ==> src_ok(#[trigger] draft.sources@[k], cur),
            decreases srcs_len - i,
        {
            let s: &IncomeSource = &draft.sources[i];
            proof {
                assert(draft.sources@.take(i + 1 as int).drop_last() =~= draft.sources@.take(
                    i as int,
                ));
            }
            if s.expected.currency != cur {
                proof {
                    assert(draft.sources@.take(i + 1 as int).last() == draft.sources@[i as int]);
                    assert(first_source_error(draft.sources@.take(i + 1 as int), cur)
                        == Option::Some(Error::MixedCurrency));
                    lemma_first_source_error_extend(draft.sources@, cur, i + 1);
                }
                return Err(Error::MixedCurrency);
            }
            if s.expected.value < 0 || s.expected.value > CENT_LIMIT {
                proof {
                    assert(draft.sources@.take(i + 1 as int).last() == draft.sources@[i as int]);
                    assert(first_source_error(draft.sources@.take(i + 1 as int), cur)
                        == Option::Some(Error::InvalidPlan));
                    lemma_first_source_error_extend(draft.sources@, cur, i + 1);
                }
                return Err(Error::InvalidPlan);
            }
            i = i + 1;
        }
        proof {
            assert(draft.sources@.take(srcs_len as int) =~= draft.sources@);
        }

        let mut total: i64 = 0;
        let mut i: usize = 0;
        while i < srcs_len
            invariant
                i <= srcs_len,
                srcs_len == draft.sources@.len(),
                srcs_len <= MAX_SOURCES,
                forall|k: int| 0 <= k < srcs_len ==> src_ok(#[trigger] draft.sources@[k], cur),
                total == sum_expected(draft.sources@.take(i as int)),
                0 <= total <= (i as int) * CENT_LIMIT,
            decreases srcs_len - i,
        {
            proof {
                assert(draft.sources@.take(i + 1 as int).drop_last() =~= draft.sources@.take(
                    i as int,
                ));
                lemma_mul_bounds_step(i as int, CENT_LIMIT as int);
            }
            total = total + draft.sources[i].expected.value;
            i = i + 1;
        }
        proof {
            assert(draft.sources@.take(srcs_len as int) =~= draft.sources@);
            assert((srcs_len as int) * CENT_LIMIT <= (MAX_SOURCES as int) * CENT_LIMIT) by (nonlinear_arith)
                requires
                    0 <= srcs_len as int <= MAX_SOURCES as int,
            ;
        }

        let exps_len: usize = draft.expenses.len();
        let mut budget: Vec<(Expense, Percentage)> = Vec::new();
        let mut running: i64 = 0;
        proof {
            assert(draft.expenses@.take(0) =~= Seq::<Expense>::empty());
            assert(pairs_of(budget@) =~= Seq::<(Expense, int)>::empty());
        }
        let mut i: usize = 0;
        while i < exps_len
            invariant
                i <= exps_len,
                exps_len == draft.expenses@.len(),
                exps_len <= MAX_EXPENSES,
                srcs_len == draft.sources@.len(),
                cur == draft.sources@[0].expected.currency,
                total == sum_expected(draft.sources@),
                0 <= total <= (MAX_SOURCES as int) * CENT_LIMIT,
                build_state(draft.expenses@.take(i as int), total as int, cur) == Result::Ok::<
                    (Seq<(Expense, int)>, int),
                    Error,
                >((pairs_of(budget@), running as int)),
                0 <= running <= FULL_PERCENT,
                budget@.len() <= i,
                i > 0 ==> budget@.len() >= 1,
                bud_distinct(pairs_of(budget@)),
            decreases exps_len - i,
        {
            let ghost prefix = draft.expenses@.take(i as int);
            let ghost longer = draft.expenses@.take(i + 1 as int);
            proof {
                assert(longer.drop_last() =~= prefix);
                assert(longer.last() == draft.expenses@[i as int]);
            }
            let e: &Expense = &draft.expenses[i];
            let h: i64 = match &e.value {
                ExpenseValue::RATE { value } => {
                    if value.hundredths < 0 || value.hundredths > PCT_LIMIT {
                        proof {
                            assert(expense_error(longer.last(), total as int, cur)
                                == Option::Some(Error::InvalidPlan));
                            assert(build_state(longer, total as int, cur) == Result::Err::<
                                (Seq<(Expense, int)>, int),
                                Error,
                            >(Error::InvalidPlan));
                            lemma_build_state_extend(draft.expenses@, total as int, cur, i + 1);
                        }
                        return Err(Error::InvalidPlan);
                    }
                    value.hundredths
                },
                ExpenseValue::MONEY { value } => {
                    if value.currency != cur {
                        proof {
                            assert(expense_error(longer.last(), total as int, cur)
                                == Option::Some(Error::MixedCurrency));
                            assert(build_state(longer, total as int, cur) == Result::Err::<
                                (Seq<(Expense, int)>, int),
                                Error,
                            >(Error::MixedCurrency));
                            lemma_build_state_extend(draft.expenses@, total as int, cur, i + 1);
                        }
                        return Err(Error::MixedCurrency);
                    }
                    if value.value < 0 || value.value > CENT_LIMIT {
                        proof {
                            assert(expense_error(longer.last(), total as int, cur)
                                == Option::Some(Error::InvalidPlan));
                            assert(build_state(longer, total as int, cur) == Result::Err::<
                                (Seq<(Expense, int)>, int),
                                Error,
                            >(Error::InvalidPlan));
                            lemma_build_state_extend(draft.expenses@, total as int, cur, i + 1);
                        }
                        return Err(Error::InvalidPlan);
                    }
                    if total <= 0 {
                        proof {
                            assert(expense_error(longer.last(), total as int, cur)
                                == Option::Some(Error::InvalidPlan));
                            assert(build_state(longer, total as int, cur) == Result::Err::<
                                (Seq<(Expense, int)>, int),
                                Error,
                            >(Error::InvalidPlan));
                            lemma_build_state_extend(draft.expenses@, total as int, cur, i + 1);
                        }
                        return Err(Error::InvalidPlan);
                    }
                    if (value.value as i128) * (FULL_PERCENT as i128) > (total as i128) * (
                    PCT_LIMIT as i128) {
                        proof {
                            assert(value.value * FULL_PERCENT > total * PCT_LIMIT);
                            assert(expense_error(longer.last(), total as int, cur)
                                == Option::Some(Error::TooBigExpenses));
                            assert(build_state(longer, total as int, cur) == Result::Err::<
                                (Seq<(Expense, int)>, int),
                                Error,
                            >(Error::TooBigExpenses));
                            lemma_build_state_extend(draft.expenses@, total as int, cur, i + 1);
                        }
                        return Err(Error::TooBigExpenses);
                    }
                    proof {
                        assert(value.value * FULL_PERCENT <= total * PCT_LIMIT);
                    }
                    Percentage::of(value.value, total).hundredths
                },
            };
            proof {
                assert(expense_error(draft.expenses@[i as int], total as int, cur) is None);
                assert(h as int == rate_of_expense(draft.expenses@[i as int], total as int));
                assert(0 <= h) by {
                    match draft.expenses@[i as int].value {
                        ExpenseValue::RATE { value } => {},
                        ExpenseValue::MONEY { value } => {
                            crate::finance::lemma_round_half_even_nonneg_range(
                                value.value * FULL_PERCENT,
                                total as int,
                                PCT_LIMIT as int,
                            );
                            assert(value.value * FULL_PERCENT >= 0) by (nonlinear_arith)
                                requires
                                    value.value >= 0,
                            ;
                        },
                    }
                }
            }
            if running + h > FULL_PERCENT {
                proof {
                    assert(build_state(longer, total as int, cur) == Result::Err::<
                        (Seq<(Expense, int)>, int),
                        Error,
                    >(Error::TooBigExpenses));
                    lemma_build_state_extend(draft.expenses@, total as int, cur, i + 1);
                }
                return Err(Error::TooBigExpenses);
            }
            running = running + h;
            bud_insert_exec(&mut budget, e, h);
            i = i + 1;
        }
        proof {
            assert(draft.expenses@.take(exps_len as int) =~= draft.expenses@);
        }
        let rest = Percentage::from(FULL_PERCENT - running);
        proof {
            lemma_build_state_ok(draft.expenses@, total as int, cur);
            let bud = build_state(draft.expenses@, total as int, cur)->Ok_0.0;
            assert(bud == pairs_of(budget@));
            assert forall|k: int| 0 <= k < budget@.len() implies 0 <= (
            #[trigger] budget@[k]).1.hundredths <= FULL_PERCENT by {
                assert(bud[k].1 == budget@[k].1.hundredths as int);
                assert(0 <= bud[k].1 <= FULL_PERCENT);
            }
        }
        Ok(Plan { sources: draft.sources, budget, rest })
    }
}

/// Inserts one expense with its percentage into the budget with map
/// semantics: the entry with an equal key is replaced, otherwise a new
/// entry is appended.
#[verifier::loop_isolation(false)]
fn bud_insert_exec(budget: &mut Vec<(Expense, Percentage)>, e: &Expense, h: i64)
    requires
        0 <= h <= PCT_LIMIT,
        bud_distinct(pairs_of(old(budget)@)),
    ensures
        pairs_of(final(budget)@) == bud_insert(pairs_of(old(budget)@), *e, h as int),
        final(budget)@.len() <= old(budget)@.len() + 1,
        final(budget)@.len() >= 1,
        final(budget)@.len() >= old(budget)@.len(),
        bud_distinct(pairs_of(final(budget)@)),
{
    let ghost pairs0 = pairs_of(budget@);
    let mut j: usize = 0;
    while j < budget.len()
        invariant
            j <= budget@.len(),
            pairs0 == pairs_of(budget@),
            bud_distinct(pairs0),
            0 <= h <= PCT_LIMIT,
            forall|k: int| 0 <= k < j ==> !expense_key_eq(#[trigger] pairs0[k].0, *e),
        decreases budget@.len() - j,
    {
        if budget[j].0 == *e {
            budget.set(j, (e.clone(), Percentage::from(h)));
            proof {
                assert(expense_key_eq(pairs0[j as int].0, *e));
                assert(bud_has_key(pairs0, *e));
                let ci = bud_key_index(pairs0, *e);
                assert(expense_key_eq(pairs0[ci].0, *e));
                if ci != j as int {
                    lemma_key_eq_joint(pairs0[ci].0, pairs0[j as int].0, *e);
                    lemma_key_eq_joint(pairs0[j as int].0, pairs0[ci].0, *e);
                    if ci < j as int {
                        assert(!expense_key_eq(pairs0[ci].0, pairs0[j as int].0));
                    } else {
                        assert(!expense_key_eq(pairs0[j as int].0, pairs0[ci].0));
                    }
                    assert(false);
                }
                assert(pairs_of(budget@) =~= pairs0.update(j as int, (*e, h as int)));
                assert forall|a: int, b: int|
                    0 <= a < b < pairs_of(budget@).len() implies !expense_key_eq(
                    pairs_of(budget@)[a].0,
                    pairs_of(budget@)[b].0,
                ) by {
                    let np = pairs_of(budget@);
                    if expense_key_eq(np[a].0, np[b].0) {
                        if a == j as int {
                            lemma_key_eq_joint(pairs0[b].0, pairs0[j as int].0, *e);
                        } else if b == j as int {
                            lemma_key_eq_joint(pairs0[a].0, pairs0[j as int].0, *e);
                        }
                    }
                }
            }
            return;
        }
        j = j + 1;
    }
    budget.push((e.clone(), Percentage::from(h)));
    proof {
        assert(!bud_has_key(pairs0, *e));
        assert(pairs_of(budget@) =~= pairs0.push((*e, h as int)));
        let np = pairs_of(budget@);
        assert forall|a: int, b: int| 0 <= a < b < np.len() implies !expense_key_eq(
            np[a].0,
            np[b].0,
        ) by {
            if b == np.len() - 1 {
                if expense_key_eq(np[a].0, np[b].0) {
                    assert(expense_key_eq(pairs0[a].0, *e));
                }
            }
        }
    }
}

/// A draft with no sources or no expenses is rejected as `EmptyPlan`, and
/// only such a draft is.
pub proof fn lemma_empty_draft_rejected(draft: Draft)
    ensures
        (plan_outcome(draft.sources@, draft.expenses@) matches Result::Err(e) && e == Error::EmptyPlan) <==> (
        draft.sources@.len() == 0 || draft.expenses@.len() == 0),
{
    if draft.sources@.len() > 0 && draft.expenses@.len() > 0 {
        let cur = draft.sources@[0].expected.currency;
        lemma_first_source_error_not_empty(draft.sources@, cur);
        lemma_build_state_not_empty(draft.expenses@, sum_expected(draft.sources@), cur);
    }
}

/// Source validation never reports `EmptyPlan`.
proof fn lemma_first_source_error_not_empty(s: Seq<IncomeSource>, cur: Currency)
    ensures
        first_source_error(s, cur) != Option::Some(Error::EmptyPlan),
    decreases s.len(),
{
    if s.len() > 0 {
        lemma_first_source_error_not_empty(s.drop_last(), cur);
    }
}

/// Expense processing never reports `EmptyPlan`.
proof fn lemma_build_state_not_empty(s: Seq<Expense>, total: int, cur: Currency)
    ensures
        build_state(s, total, cur) != Result::Err::<(Seq<(Expense, int)>, int), Error>(
            Error::EmptyPlan,
        ),
    decreases s.len(),
{
    if s.len() > 0 {
        lemma_build_state_not_empty(s.drop_last(), total, cur);
    }
}

/// For any accepted plan built from pairwise distinct expenses, the
/// percentages in the budget and the rest sum to exactly one hundred
/// percent.
pub proof fn lemma_plan_total_is_full(draft: Draft, p: Plan)
    requires
        plan_outcome(draft.sources@, draft.expenses@) matches Result::Ok(_),
        pairs_of(p.budget@) == (plan_outcome(draft.sources@, draft.expenses@)->Ok_0).0,
        p.rest.hundredths == (plan_outcome(draft.sources@, draft.expenses@)->Ok_0).1,
        expenses_distinct(draft.expenses@),
    ensures
        bud_h_sum(pairs_of(p.budget@)) + p.rest.hundredths == FULL_PERCENT,
{
    let cur = draft.sources@[0].expected.currency;
    let total = sum_expected(draft.sources@);
    lemma_build_state_ok(draft.expenses@, total, cur);
}

} // verus!
