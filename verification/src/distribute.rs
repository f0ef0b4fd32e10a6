//! Applying a plan to one concrete income.
//!
//! `distribute` carves one `Income` up according to a `Plan`: every planned
//! expense receives its percentage of the income, rounded to whole cents
//! half-to-even, entries are grouped by category, every list that a caller
//! sees is sorted by name, and what the entries do not claim remains as the
//! budget's rest.  The specification functions in this module compute the
//! exact result, so the contract of `distribute` determines the budget down
//! to every entry.

use vstd::prelude::*;

use chrono::Datelike;

verus! {

use crate::finance::{
    Currency, Money, Percentage, round_half_even, CENT_LIMIT, FULL_PERCENT, MONEY_ABS_LIMIT,
};
use crate::planning::{spec_has_source, Expense, IncomeSource, Plan, MAX_EXPENSES};
use crate::text::{insert_label, lex_lt, sort_labels, str_lt};

/// Why a distribution was refused.
///
/// `UnknownSource`: the income names a source absent from the plan.
/// `MixedCurrency`: the income's currency is not the plan's.
#[derive(Debug, PartialEq, Eq, Structural, Copy, Clone)]
pub enum Error {
    EmptyPlan,
    UnknownSource,
    MixedCurrency,
}

/// A calendar date, plain year, month and day.
#[derive(Debug, PartialEq, Eq, Structural, Copy, Clone, Hash)]
pub struct Date {
    pub year: i32,
    pub month: u32,
    pub day: u32,
}

impl Date {
    pub fn new(year: i32, month: u32, day: u32) -> (d: Date)
        ensures
            d.year == year,
            d.month == month,
            d.day == day,
    {
        Date { year, month, day }
    }
}

/// Relies on chrono's `Utc::now` and the `Datelike` view of `NaiveDate`:
/// `month()` is between 1 and 12 and `day()` between 1 and 31.  The result
/// depends on the clock, so nothing more is promised.
#[verifier::external_body]
fn current_date() -> (d: Date)
    ensures
        1 <= d.month <= 12,
        1 <= d.day <= 31,
{
    let now = chrono::Utc::now().date_naive();
    Date { year: now.year(), month: now.month(), day: now.day() }
}

/// A dated amount of money attributed to one income source.
#[derive(Debug, PartialEq)]
pub struct Income {
    pub source: IncomeSource,
    pub amount: Money,
    pub date: Date,
}

impl Income {
    pub fn new(source: IncomeSource, money: Money, date: Date) -> (r: Income)
        ensures
            r.source == source,
            r.amount == money,
            r.date == date,
    {
        Income { source, amount: money, date }
    }

    /// An income received today, dated by the system clock.
    pub fn new_today(source: IncomeSource, money: Money) -> (r: Income)
        ensures
            r.source == source,
            r.amount == money,
            1 <= r.date.month <= 12,
            1 <= r.date.day <= 31,
    {
        Income { source, amount: money, date: current_date() }
    }
}

impl Clone for Income {
    fn clone(&self) -> (r: Income)
        ensures
            r == *self,
    {
        Income { source: self.source.clone(), amount: self.amount, date: self.date }
    }
}

/// One line of a budget: an expense and the money allotted to it.
#[derive(Debug, PartialEq)]
pub struct BudgetEntry {
    pub expense: Expense,
    pub amount: Money,
}

impl BudgetEntry {
    pub fn new(expense: Expense, amount: Money) -> (r: BudgetEntry)
        ensures
            r.expense == expense,
            r.amount == amount,
    {
        BudgetEntry { expense, amount }
    }
}

impl Clone for BudgetEntry {
    fn clone(&self) -> (r: BudgetEntry)
        ensures
            r == *self,
    {
        BudgetEntry { expense: self.expense.clone(), amount: self.amount }
    }
}

/// The allocation of one income across a plan's expenses: entries without a
/// category, entries grouped by category name, and the unclaimed rest.
#[derive(Debug, PartialEq)]
pub struct Budget {
    pub income: Income,
    pub rest: Money,
    pub no_category: Vec<BudgetEntry>,
    /// The categorized entries, an association list keyed by category name
    /// with pairwise distinct keys.
    pub categories: Vec<(String, Vec<BudgetEntry>)>,
}

/// The money one entry receives: the percentage applied to the income and
/// rounded to whole cents, half to even, in the income's currency.
pub open spec fn entry_cents(amount: int, hundredths: int) -> int {
    round_half_even(amount * hundredths, FULL_PERCENT as int)
}

/// The `Money` of one entry, as `calculate` mints it.
pub open spec fn spec_entry_money(amount: Money, rate: Percentage) -> Money {
    Money {
        value: entry_cents(amount.value as int, rate.hundredths as int) as i64,
        currency: amount.currency,
    }
}

/// Whether some bucket of the association list is keyed by this label.
pub open spec fn has_label(cats: Seq<(String, Vec<BudgetEntry>)>, lbl: Seq<char>) -> bool {
    exists|i: int| 0 <= i < cats.len() && (#[trigger] cats[i]).0@ == lbl
}

/// The index of the bucket keyed by this label; meaningful when the labels
/// are distinct and `has_label` holds.
pub open spec fn label_index(cats: Seq<(String, Vec<BudgetEntry>)>, lbl: Seq<char>) -> int {
    choose|i: int| 0 <= i < cats.len() && (#[trigger] cats[i]).0@ == lbl
}

/// The bucket labels are pairwise distinct.
pub open spec fn labels_distinct(cats: Seq<(String, Vec<BudgetEntry>)>) -> bool {
    forall|i: int, j: int|
        0 <= i < j < cats.len() ==> (#[trigger] cats[i]).0@ != (#[trigger] cats[j]).0@
}

impl Budget {
    /// A budget with nothing allotted yet: the whole income remains.
    pub fn new(income: Income) -> (b: Budget)
        ensures
            b.rest == income.amount,
            b.income == income,
            b.no_category@.len() == 0,
            b.categories@.len() == 0,
    {
        Budget { rest: income.amount, income, no_category: Vec::new(), categories: Vec::new() }
    }

    /// Allots one expense its share of the income: the entry is appended to
    /// the bucket its category names (created at the end of the list when
    /// new), or to the uncategorized entries, and the share is taken from
    /// the rest.
    #[verifier::loop_isolation(false)]
    pub fn calculate(&mut self, expense: Expense, rate: &Percentage)
        requires
            0 <= rate.hundredths <= FULL_PERCENT,
            -CENT_LIMIT <= old(self).income.amount.value <= CENT_LIMIT,
            old(self).rest.currency == old(self).income.amount.currency,
            -(MONEY_ABS_LIMIT - CENT_LIMIT) <= old(self).rest.value <= MONEY_ABS_LIMIT
                - CENT_LIMIT,
            labels_distinct(old(self).categories@),
        ensures
            ({
                let entry = BudgetEntry {
                    expense: expense,
                    amount: spec_entry_money(old(self).income.amount, *rate),
                };
                &&& final(self).income == old(self).income
                &&& final(self).rest == (Money {
                    value: (old(self).rest.value - entry.amount.value) as i64,
                    currency: old(self).rest.currency,
                })
                &&& labels_distinct(final(self).categories@)
                &&& match expense.category {
                    Option::None => {
                        &&& final(self).no_category@ == old(self).no_category@.push(entry)
                        &&& final(self).categories@ == old(self).categories@
                    },
                    Option::Some(c) => {
                        &&& final(self).no_category@ == old(self).no_category@
                        &&& if has_label(old(self).categories@, c@) {
                            let j = label_index(old(self).categories@, c@);
                            &&& final(self).categories@.len() == old(self).categories@.len()
                            &&& forall|k: int|
                                0 <= k < old(self).categories@.len() && k != j
                                    ==> final(self).categories@[k] == old(self).categories@[k]
                            &&& final(self).categories@[j].0 == old(self).categories@[j].0
                            &&& final(self).categories@[j].1@ == old(self).categories@[j].1@.push(
                                entry,
                            )
                        } else {
                            &&& final(self).categories@.len() == old(self).categories@.len() + 1
                            &&& forall|k: int|
                                0 <= k < old(self).categories@.len() ==> final(self).categories@[k]
                                    == old(self).categories@[k]
                            &&& final(self).categories@.last().0 == c
                            &&& final(self).categories@.last().1@ == seq![entry]
                        }
                    },
                }
            }),
    {
        let amount: i64 = self.income.amount.value;
        let micro: i128 = rate.apply_to(amount);
        proof {
            crate::finance::lemma_round_half_even_scale_bound(
                amount as int,
                rate.hundredths as int,
                FULL_PERCENT as int,
            );
        }
        let money: Money = Money::from_fraction(micro, self.income.amount.currency);
        let label_opt: Option<String> = match &expense.category {
            Option::Some(c) => Option::Some(c.clone()),
            Option::None => Option::None,
        };
        let entry = BudgetEntry::new(expense, money);
        match label_opt {
            Option::Some(label) => {
                match find_label(&self.categories, &label) {
                    Option::Some(j) => {
                        let (lbl, mut bucket) = self.categories.remove(j);
                        bucket.push(entry);
                        self.categories.insert(j, (lbl, bucket));
                        proof {
                            assert(self.categories@ =~= old(self).categories@.update(
                                j as int,
                                self.categories@[j as int],
                            ));
                        }
                    },
                    Option::None => {
                        let mut bucket: Vec<BudgetEntry> = Vec::new();
                        bucket.push(entry);
                        self.categories.push((label, bucket));
                        proof {
                            assert(self.categories@.last().1@ =~= seq![
                                BudgetEntry {
                                    expense: expense,
                                    amount: spec_entry_money(old(self).income.amount, *rate),
                                },
                            ]);
                        }
                    },
                }
            },
            Option::None => {
                self.no_category.push(entry);
            },
        }
        self.rest = self.rest.sub(money);
    }
}

/// The index of the bucket labelled `label`, scanning in order.
#[verifier::loop_isolation(false)]
fn find_label(cats: &Vec<(String, Vec<BudgetEntry>)>, label: &String) -> (r: Option<usize>)
    requires
        labels_distinct(cats@),
    ensures
        match r {
            Option::Some(j) => has_label(cats@, label@) && j as int == label_index(cats@, label@)
                && j < cats@.len() && cats@[j as int].0@ == label@,
            Option::None => !has_label(cats@, label@),
        },
{
    let mut j: usize = 0;
    while j < cats.len()
        invariant
            j <= cats@.len(),
            forall|k: int| 0 <= k < j ==> (#[trigger] cats@[k]).0@ != label@,
        decreases cats@.len() - j,
    {
        if cats[j].0 == *label {
            proof {
                let ci = label_index(cats@, label@);
                assert(cats@[ci].0@ == label@);
                if ci < j as int {
                    assert(cats@[ci].0@ != cats@[j as int].0@);
                } else if ci > j as int {
                    assert(cats@[j as int].0@ != cats@[ci].0@);
                }
            }
            return Option::Some(j);
        }
        j = j + 1;
    }
    Option::None
}

/// The entries of a budget before grouping: every planned expense with its
/// rounded share of `amount`, in plan order.
pub open spec fn raw_entries(bud: Seq<(Expense, Percentage)>, amount: int, cur: Currency) -> Seq<
    BudgetEntry,
> {
    Seq::new(
        bud.len(),
        |i: int|
            BudgetEntry {
                expense: bud[i].0,
                amount: Money {
                    value: entry_cents(amount, bud[i].1.hundredths as int) as i64,
                    currency: cur,
                },
            },
    )
}

/// The entries without a category, in order.
pub open spec fn uncategorized(s: Seq<BudgetEntry>) -> Seq<BudgetEntry>
    decreases s.len(),
{
    if s.len() == 0 {
        Seq::empty()
    } else {
        let rest = uncategorized(s.drop_last());
        if s.last().expense.category is None {
            rest.push(s.last())
        } else {
            rest
        }
    }
}

/// The entries whose category is named `lbl`, in order.
pub open spec fn with_label(s: Seq<BudgetEntry>, lbl: Seq<char>) -> Seq<BudgetEntry>
    decreases s.len(),
{
    if s.len() == 0 {
        Seq::empty()
    } else {
        let rest = with_label(s.drop_last(), lbl);
        match s.last().expense.category {
            Option::Some(c) => if c@ == lbl {
                rest.push(s.last())
            } else {
                rest
            },
            Option::None => rest,
        }
    }
}

/// The category names of the entries, each at its first occurrence.
pub open spec fn labels_in_order(s: Seq<BudgetEntry>) -> Seq<Seq<char>>
    decreases s.len(),
{
    if s.len() == 0 {
        Seq::empty()
    } else {
        let rest = labels_in_order(s.drop_last());
        match s.last().expense.category {
            Option::Some(c) => if rest.contains(c@) {
                rest
            } else {
                rest.push(c@)
            },
            Option::None => rest,
        }
    }
}

/// Stable insertion into a name-sorted sequence of entries: the new entry
/// goes before the first entry whose name is strictly greater.
pub open spec fn insert_by_name(x: BudgetEntry, s: Seq<BudgetEntry>) -> Seq<BudgetEntry>
    decreases s.len(),
{
    if s.len() == 0 {
        seq![x]
    } else if lex_lt(x.expense.name@, s[0].expense.name@) {
        seq![x] + s
    } else {
        seq![s[0]] + insert_by_name(x, s.drop_first())
    }
}

/// Stable insertion sort of entries, ascending by expense name.
pub open spec fn sort_by_name(s: Seq<BudgetEntry>) -> Seq<BudgetEntry>
    decreases s.len(),
{
    if s.len() == 0 {
        s
    } else {
        insert_by_name(s.last(), sort_by_name(s.drop_last()))
    }
}

/// The labels of an association list of buckets.
pub open spec fn labels_of(s: Seq<(String, Vec<BudgetEntry>)>) -> Seq<Seq<char>> {
    Seq::new(s.len(), |i: int| s[i].0@)
}

/// The sum of the amounts of a sequence of entries, in cents.
pub open spec fn entries_sum(s: Seq<BudgetEntry>) -> int
    decreases s.len(),
{
    if s.len() == 0 {
        0
    } else {
        entries_sum(s.drop_last()) + s.last().amount.value
    }
}

/// What `distribute` returns on success, determined entry by entry: the
/// income itself, the rest equation, the uncategorized entries sorted by
/// name, and one bucket per category label in label order, each sorted by
/// name.
pub open spec fn distribute_ok(plan: Plan, income: Income, b: Budget) -> bool {
    let raw = raw_entries(plan.budget@, income.amount.value as int, income.amount.currency);
    let labels = sort_labels(labels_in_order(raw));
    &&& b.income == income
    &&& b.rest == (Money {
        value: (income.amount.value - entries_sum(raw)) as i64,
        currency: income.amount.currency,
    })
    &&& b.no_category@ == sort_by_name(uncategorized(raw))
    &&& b.categories@.len() == labels.len()
    &&& forall|i: int| 0 <= i < labels.len() ==> (#[trigger] b.categories@[i]).0@ == labels[i]
    &&& forall|i: int|
        0 <= i < labels.len() ==> (#[trigger] b.categories@[i]).1@ == sort_by_name(
            with_label(raw, b.categories@[i].0@),
        )
}

/// Inserts one entry into a name-sorted vector of entries.
#[verifier::loop_isolation(false)]
fn insert_entry(x: BudgetEntry, v: Vec<BudgetEntry>) -> (r: Vec<BudgetEntry>)
    ensures
        r@ == insert_by_name(x, v@),
    decreases v@.len(),
{
    let ghost v0 = v@;
    let mut v = v;
    if v.len() == 0 {
        v.push(x);
        proof {
            assert(v@ =~= seq![x]);
        }
        v
    } else if str_lt(x.expense.name.as_str(), v[0].expense.name.as_str()) {
        let mut r: Vec<BudgetEntry> = Vec::new();
        r.push(x);
        r.append(&mut v);
        proof {
            assert(r@ =~= seq![x] + v0);
        }
        r
    } else {
        let first = v.remove(0);
        proof {
            assert(v@ =~= v0.drop_first());
        }
        let mut rest = insert_entry(x, v);
        let mut r: Vec<BudgetEntry> = Vec::new();
        r.push(first);
        r.append(&mut rest);
        proof {
            assert(r@ =~= seq![first] + insert_by_name(x, v0.drop_first()));
        }
        r
    }
}

/// Sorts a vector of entries ascending by expense name.
#[verifier::loop_isolation(false)]
fn sort_entries(v: Vec<BudgetEntry>) -> (r: Vec<BudgetEntry>)
    ensures
        r@ == sort_by_name(v@),
    decreases v@.len(),
{
    let ghost v0 = v@;
    let mut v = v;
    match v.pop() {
        Option::None => {
            proof {
                assert(v0.len() == 0);
            }
            v
        },
        Option::Some(last) => {
            let sorted = sort_entries(v);
            insert_entry(last, sorted)
        },
    }
}

/// Inserts one bucket into a vector of buckets sorted by label.  The result
/// holds the given buckets themselves: each element is the inserted bucket
/// or one of the old ones.
#[verifier::loop_isolation(false)]
fn insert_cat(x: (String, Vec<BudgetEntry>), v: Vec<(String, Vec<BudgetEntry>)>) -> (r: Vec<
    (String, Vec<BudgetEntry>),
>)
    ensures
        labels_of(r@) == insert_label(x.0@, labels_of(v@)),
        forall|i: int|
            0 <= i < r@.len() ==> (#[trigger] r@[i]) == x || exists|j: int|
                0 <= j < v@.len() && r@[i] == v@[j],
    decreases v@.len(),
{
    let ghost v0 = v@;
    let mut v = v;
    if v.len() == 0 {
        v.push(x);
        proof {
            assert(labels_of(v@) =~= seq![x.0@]);
            assert(insert_label(x.0@, labels_of(v0)) =~= seq![x.0@]);
        }
        v
    } else {
        let cmp: bool = str_lt(x.0.as_str(), v[0].0.as_str());
        proof {
            assert(labels_of(v0)[0] == v0[0].0@);
        }
        if cmp {
            let mut r: Vec<(String, Vec<BudgetEntry>)> = Vec::new();
            r.push(x);
            r.append(&mut v);
            proof {
                assert(labels_of(r@) =~= seq![x.0@] + labels_of(v0));
                assert(insert_label(x.0@, labels_of(v0)) =~= seq![x.0@] + labels_of(v0));
            }
            r
        } else {
            let first = v.remove(0);
            proof {
                assert(v@ =~= v0.drop_first());
                assert(labels_of(v0.drop_first()) =~= labels_of(v0).drop_first());
            }
            let mut rest = insert_cat(x, v);
            let ghost rest0 = rest@;
            let mut r: Vec<(String, Vec<BudgetEntry>)> = Vec::new();
            r.push(first);
            r.append(&mut rest);
            proof {
                assert(labels_of(r@) =~= seq![first.0@] + labels_of(rest0));
                assert(insert_label(x.0@, labels_of(v0)) =~= seq![labels_of(v0)[0]] + insert_label(
                    x.0@,
                    labels_of(v0).drop_first(),
                ));
                assert(r@[0] == v0[0]);
                assert forall|i: int| 0 <= i < r@.len() implies (#[trigger] r@[i]) == x || exists|
                    j: int,
                |
                    0 <= j < v0.len() && r@[i] == v0[j] by {
                    if i == 0 {
                        assert(r@[0] == v0[0]);
                    } else {
                        assert(r@[i] == rest0[i - 1]);
                        if rest0[i - 1] == x {
                        } else {
                            let j = choose|j: int|
                                0 <= j < v0.drop_first().len() && rest0[i - 1]
                                    == v0.drop_first()[j];
                            assert(r@[i] == v0[j + 1]);
                        }
                    }
                }
            }
            r
        }
    }
}

/// Sorts the buckets of an association list ascending by label.
#[verifier::loop_isolation(false)]
fn sort_cats(v: Vec<(String, Vec<BudgetEntry>)>) -> (r: Vec<(String, Vec<BudgetEntry>)>)
    ensures
        labels_of(r@) == sort_labels(labels_of(v@)),
        forall|i: int|
            0 <= i < r@.len() ==> exists|j: int| 0 <= j < v@.len() && (#[trigger] r@[i]) == v@[j],
    decreases v@.len(),
{
    let ghost v0 = v@;
    let mut v = v;
    match v.pop() {
        Option::None => {
            proof {
                assert(v0.len() == 0);
                assert(labels_of(v@) =~= sort_labels(labels_of(v0)));
            }
            v
        },
        Option::Some(last) => {
            proof {
                assert(labels_of(v@) =~= labels_of(v0).drop_last());
                assert(labels_of(v0).last() == last.0@);
            }
            let sorted = sort_cats(v);
            let ghost sorted0 = sorted@;
            let r = insert_cat(last, sorted);
            proof {
                assert forall|i: int| 0 <= i < r@.len() implies exists|j: int|
                    0 <= j < v0.len() && (#[trigger] r@[i]) == v0[j] by {
                    if r@[i] == last {
                        assert(r@[i] == v0[v0.len() - 1]);
                    } else {
                        let j = choose|j: int| 0 <= j < sorted0.len() && r@[i] == sorted0[j];
                        let k = choose|k: int|
                            0 <= k < v0.drop_last().len() && sorted0[j] == v0.drop_last()[k];
                        assert(r@[i] == v0[k]);
                    }
                }
            }
            r
        },
    }
}

/// A label that never occurred labels no entries.
proof fn lemma_no_label_empty(s: Seq<BudgetEntry>, lbl: Seq<char>)
    requires
        !labels_in_order(s).contains(lbl),
    ensures
        with_label(s, lbl).len() == 0,
    decreases s.len(),
{
    if s.len() > 0 {
        assert forall|x: Seq<char>|
            labels_in_order(s.drop_last()).contains(x) implies labels_in_order(s).contains(
            x,
        ) by {
            let i = choose|i: int|
                0 <= i < labels_in_order(s.drop_last()).len() && labels_in_order(s.drop_last())[i]
                    == x;
            match s.last().expense.category {
                Option::Some(c) => {
                    if !labels_in_order(s.drop_last()).contains(c@) {
                        assert(labels_in_order(s)[i] == x);
                    }
                },
                Option::None => {},
            }
        }
        lemma_no_label_empty(s.drop_last(), lbl);
        match s.last().expense.category {
            Option::Some(c) => {
                if c@ == lbl {
                    assert(labels_in_order(s).contains(lbl)) by {
                        if labels_in_order(s.drop_last()).contains(c@) {
                        } else {
                            assert(labels_in_order(s).last() == c@);
                        }
                    }
                }
            },
            Option::None => {},
        }
    }
}

proof fn lemma_step_times(i: int, c: int)
    requires
        0 <= i,
        0 <= c,
    ensures
        (i + 1) * c == i * c + c,
{
    assert((i + 1) * c == i * c + c) by (nonlinear_arith);
}

/// Distributes one income according to the plan.
///
/// The income's source must be one of the plan's, by name, else
/// `UnknownSource` and no budget at all; its currency must be the plan's,
/// else `MixedCurrency`.  On success the returned budget is exactly what
/// `distribute_ok` describes: every planned expense receives its rounded
/// share of the income, entries are grouped by category with the groups and
/// their members sorted by name, and the rest is the income minus the sum
/// of all entries.
#[verifier::loop_isolation(false)]
pub fn distribute(plan: &Plan, income: &Income) -> (r: Result<Budget, Error>)
    requires
        plan.wf(),
        -CENT_LIMIT <= income.amount.value <= CENT_LIMIT,
    ensures
        match r {
            Result::Ok(b) => spec_has_source(plan.sources@, income.source.name@)
                && income.amount.currency == plan.spec_currency() && distribute_ok(
                *plan,
                *income,
                b,
            ),
            Result::Err(e) => match e {
                Error::UnknownSource => !spec_has_source(plan.sources@, income.source.name@),
                Error::MixedCurrency => spec_has_source(plan.sources@, income.source.name@)
                    && income.amount.currency != plan.spec_currency(),
                Error::EmptyPlan => false,
            },
        },
        !spec_has_source(plan.sources@, income.source.name@) ==> r == Result::<Budget, Error>::Err(
            Error::UnknownSource,
        ),
{
    if !plan.has_source(&income.source) {
        return Err(Error::UnknownSource);
    }
    let cur: Currency = plan.sources[0].expected.currency;
    if income.amount.currency != cur {
        return Err(Error::MixedCurrency);
    }

    let mut d = Budget::new(income.clone());
    let ghost raw = raw_entries(plan.budget@, income.amount.value as int, income.amount.currency);
    let budget_len: usize = plan.budget.len();
    let mut i: usize = 0;
    while i < budget_len
        invariant
            i <= budget_len,
            d.income == *income,
            d.rest.currency == income.amount.currency,
            d.rest.value == income.amount.value - entries_sum(raw.take(i as int)),
            -(i as int) * CENT_LIMIT <= entries_sum(raw.take(i as int)) <= (i as int) * CENT_LIMIT,
            d.no_category@ == uncategorized(raw.take(i as int)),
            labels_of(d.categories@) == labels_in_order(raw.take(i as int)),
            labels_distinct(d.categories@),
            forall|j: int|
                0 <= j < d.categories@.len() ==> (#[trigger] d.categories@[j]).1@ == with_label(
                    raw.take(i as int),
                    d.categories@[j].0@,
                ),
        decreases budget_len - i,
    {
        let ghost prefix = raw.take(i as int);
        let ghost longer = raw.take(i + 1 as int);
        let ghost cats0 = d.categories@;
        proof {
            assert(longer.drop_last() =~= prefix);
            assert(longer.last() == raw[i as int]);
            crate::finance::lemma_round_half_even_scale_bound(
                income.amount.value as int,
                plan.budget@[i as int].1.hundredths as int,
                FULL_PERCENT as int,
            );
            lemma_step_times(i as int, CENT_LIMIT as int);
        }
        let e: Expense = plan.budget[i].0.clone();
        let rate: &Percentage = &plan.budget[i].1;
        d.calculate(e, rate);
        proof {
            let entry = BudgetEntry {
                expense: plan.budget@[i as int].0,
                amount: spec_entry_money(income.amount, plan.budget@[i as int].1),
            };
            assert(raw[i as int] == entry);
            assert(entries_sum(longer) == entries_sum(prefix) + entry.amount.value);
            match plan.budget@[i as int].0.category {
                Option::Some(c) => {
                    assert(labels_in_order(prefix).contains(c@) == has_label(cats0, c@)) by {
                        if labels_in_order(prefix).contains(c@) {
                            let k = choose|k: int|
                                0 <= k < labels_in_order(prefix).len() && labels_in_order(prefix)[k]
                                    == c@;
                            assert(labels_of(cats0)[k] == c@);
                            assert(cats0[k].0@ == c@);
                        }
                        if has_label(cats0, c@) {
                            let k = label_index(cats0, c@);
                            assert(labels_of(cats0)[k] == c@);
                        }
                    }
                    if has_label(cats0, c@) {
                        let j = label_index(cats0, c@);
                        assert(cats0[j].0@ == c@);
                        assert(labels_in_order(longer) =~= labels_in_order(prefix));
                        assert(labels_of(d.categories@) =~= labels_of(cats0));
                        assert forall|k: int| 0 <= k < d.categories@.len() implies (
                        #[trigger] d.categories@[k]).1@ == with_label(
                            longer,
                            d.categories@[k].0@,
                        ) by {
                            if k != j {
                                assert(d.categories@[k] == cats0[k]);
                                assert(cats0[k].0@ != c@) by {
                                    if k < j {
                                        assert(cats0[k].0@ != cats0[j].0@);
                                    } else {
                                        assert(cats0[j].0@ != cats0[k].0@);
                                    }
                                }
                                assert(with_label(longer, cats0[k].0@) =~= with_label(
                                    prefix,
                                    cats0[k].0@,
                                ));
                            } else {
                                assert(d.categories@[j].1@ == cats0[j].1@.push(entry));
                                assert(with_label(longer, c@) =~= with_label(prefix, c@).push(
                                    entry,
                                ));
                            }
                        }
                    } else {
                        assert(!labels_in_order(prefix).contains(c@));
                        assert(labels_in_order(longer) =~= labels_in_order(prefix).push(c@));
                        assert(labels_of(d.categories@) =~= labels_of(cats0).push(c@));
                        lemma_no_label_empty(prefix, c@);
                        assert(with_label(prefix, c@) =~= Seq::<BudgetEntry>::empty());
                        assert forall|k: int| 0 <= k < d.categories@.len() implies (
                        #[trigger] d.categories@[k]).1@ == with_label(
                            longer,
                            d.categories@[k].0@,
                        ) by {
                            if k < cats0.len() {
                                assert(d.categories@[k] == cats0[k]);
                                assert(cats0[k].0@ != c@) by {
                                    assert(labels_of(cats0)[k] == cats0[k].0@);
                                    assert(labels_in_order(prefix).contains(labels_of(cats0)[k]));
                                }
                                assert(with_label(longer, cats0[k].0@) =~= with_label(
                                    prefix,
                                    cats0[k].0@,
                                ));
                            } else {
                                assert(d.categories@[k] == d.categories@.last());
                                assert(d.categories@.last().0 == c);
                                assert(d.categories@.last().1@ == seq![entry]);
                                assert(with_label(longer, c@) =~= with_label(prefix, c@).push(
                                    entry,
                                ));
                                assert(with_label(longer, c@) =~= seq![entry]);
                            }
                        }
                        assert(labels_distinct(d.categories@)) by {
                            assert forall|a: int, b: int|
                                0 <= a < b < d.categories@.len() implies (
                            #[trigger] d.categories@[a]).0@ != (#[trigger] d.categories@[b]).0@ by {
                                if b == d.categories@.len() - 1 {
                                    assert(labels_of(cats0)[a] == cats0[a].0@);
                                    assert(labels_in_order(prefix).contains(labels_of(cats0)[a]));
                                }
                            }
                        }
                    }
                },
                Option::None => {
                    assert(uncategorized(longer) =~= uncategorized(prefix).push(entry));
                    assert(labels_in_order(longer) =~= labels_in_order(prefix));
                    assert forall|k: int| 0 <= k < d.categories@.len() implies (
                    #[trigger] d.categories@[k]).1@ == with_label(longer, d.categories@[k].0@) by {
                        assert(d.categories@[k] == cats0[k]);
                        assert(with_label(longer, cats0[k].0@) =~= with_label(
                            prefix,
                            cats0[k].0@,
                        ));
                    }
                },
            }
        }
        i = i + 1;
    }
    proof {
        assert(raw.take(budget_len as int) =~= raw);
    }

    let Budget { income: budget_income, rest, no_category, categories } = d;
    let no_category = sort_entries(no_category);
    let ghost cats_built = categories@;
    let mut categories = categories;
    let mut sorted_buckets: Vec<(String, Vec<BudgetEntry>)> = Vec::new();
    while categories.len() > 0
        invariant
            sorted_buckets@.len() + categories@.len() == cats_built.len(),
            forall|j: int|
                0 <= j < sorted_buckets@.len() ==> (#[trigger] sorted_buckets@[j]).0
                    == cats_built[j].0,
            forall|j: int|
                0 <= j < sorted_buckets@.len() ==> (#[trigger] sorted_buckets@[j]).1@
                    == sort_by_name(cats_built[j].1@),
            forall|j: int|
                0 <= j < categories@.len() ==> (#[trigger] categories@[j]) == cats_built[j
                    + sorted_buckets@.len()],
        decreases categories@.len(),
    {
        let ghost cats_left = categories@;
        let (lbl, bucket) = categories.remove(0);
        proof {
            assert(categories@ =~= cats_left.drop_first());
        }
        let sorted_bucket = sort_entries(bucket);
        sorted_buckets.push((lbl, sorted_bucket));
    }
    let categories = sort_cats(sorted_buckets);
    proof {
        let labels = sort_labels(labels_in_order(raw));
        assert(labels_of(sorted_buckets@) =~= labels_of(cats_built));
        assert(labels_of(categories@) == labels);
        assert forall|k: int| 0 <= k < labels.len() implies (#[trigger] categories@[k]).0@
            == labels[k] by {
            assert(labels_of(categories@)[k] == categories@[k].0@);
        }
        assert forall|k: int| 0 <= k < labels.len() implies (#[trigger] categories@[k]).1@
            == sort_by_name(with_label(raw, categories@[k].0@)) by {
            let j = choose|j: int|
                0 <= j < sorted_buckets@.len() && categories@[k] == sorted_buckets@[j];
            assert(sorted_buckets@[j].1@ == sort_by_name(cats_built[j].1@));
            assert(cats_built[j].1@ == with_label(raw, cats_built[j].0@));
            assert(categories@[k].0 == cats_built[j].0);
        }
    }
    Ok(Budget { income: budget_income, rest, no_category, categories })
}

/// A sequence of entries ascending by expense name.
pub open spec fn entries_sorted(s: Seq<BudgetEntry>) -> bool {
    forall|i: int, j: int|
        0 <= i < j < s.len() ==> !lex_lt(
            (#[trigger] s[j]).expense.name@,
            (#[trigger] s[i]).expense.name@,
        )
}

/// A sequence of labels ascending.
pub open spec fn labels_sorted(s: Seq<Seq<char>>) -> bool {
    forall|i: int, j: int| 0 <= i < j < s.len() ==> !lex_lt(#[trigger] s[j], #[trigger] s[i])
}

/// Insertion keeps the elements of the input beside the inserted one.
proof fn lemma_insert_by_name_elements(x: BudgetEntry, s: Seq<BudgetEntry>)
    ensures
        insert_by_name(x, s).len() == s.len() + 1,
        forall|i: int|
            0 <= i < insert_by_name(x, s).len() ==> #[trigger] insert_by_name(x, s)[i] == x
                || exists|j: int| 0 <= j < s.len() && insert_by_name(x, s)[i] == s[j],
    decreases s.len(),
{
    let r = insert_by_name(x, s);
    if s.len() == 0 {
        assert(r =~= seq![x]);
    } else if lex_lt(x.expense.name@, s[0].expense.name@) {
        assert(r =~= seq![x] + s);
        assert forall|i: int| 0 <= i < r.len() implies #[trigger] r[i] == x || exists|j: int|
            0 <= j < s.len() && r[i] == s[j] by {
            if i > 0 {
                assert(r[i] == s[i - 1]);
            }
        }
    } else {
        lemma_insert_by_name_elements(x, s.drop_first());
        let rest = insert_by_name(x, s.drop_first());
        assert(r =~= seq![s[0]] + rest);
        assert forall|i: int| 0 <= i < r.len() implies #[trigger] r[i] == x || exists|j: int|
            0 <= j < s.len() && r[i] == s[j] by {
            if i == 0 {
                assert(r[0] == s[0]);
            } else {
                assert(r[i] == rest[i - 1]);
                if rest[i - 1] == x {
                } else {
                    let j = choose|j: int|
                        0 <= j < s.drop_first().len() && rest[i - 1] == s.drop_first()[j];
                    assert(r[i] == s[j + 1]);
                }
            }
        }
    }
}

/// Insertion into an ascending sequence keeps it ascending.
proof fn lemma_insert_by_name_sorted(x: BudgetEntry, s: Seq<BudgetEntry>)
    requires
        entries_sorted(s),
    ensures
        entries_sorted(insert_by_name(x, s)),
    decreases s.len(),
{
    let r = insert_by_name(x, s);
    if s.len() == 0 {
        assert(r =~= seq![x]);
    } else if lex_lt(x.expense.name@, s[0].expense.name@) {
        assert(r =~= seq![x] + s);
        assert forall|i: int, j: int| 0 <= i < j < r.len() implies !lex_lt(
            r[j].expense.name@,
            r[i].expense.name@,
        ) by {
            if i == 0 {
                assert(r[0] == x);
                assert(r[j] == s[j - 1]);
                if lex_lt(s[j - 1].expense.name@, x.expense.name@) {
                    crate::text::lemma_lex_lt_transitive(
                        s[j - 1].expense.name@,
                        x.expense.name@,
                        s[0].expense.name@,
                    );
                    crate::text::lemma_lex_lt_asymmetric(
                        s[j - 1].expense.name@,
                        s[0].expense.name@,
                    );
                    if j > 1 {
                        assert(!lex_lt(s[j - 1].expense.name@, s[0].expense.name@));
                    }
                }
            } else {
                assert(r[i] == s[i - 1]);
                assert(r[j] == s[j - 1]);
                assert(!lex_lt(s[j - 1].expense.name@, s[i - 1].expense.name@));
            }
        }
    } else {
        assert(entries_sorted(s.drop_first())) by {
            assert forall|i: int, j: int| 0 <= i < j < s.drop_first().len() implies !lex_lt(
                s.drop_first()[j].expense.name@,
                s.drop_first()[i].expense.name@,
            ) by {
                assert(s.drop_first()[i] == s[i + 1]);
                assert(s.drop_first()[j] == s[j + 1]);
            }
        }
        lemma_insert_by_name_sorted(x, s.drop_first());
        lemma_insert_by_name_elements(x, s.drop_first());
        let rest = insert_by_name(x, s.drop_first());
        assert(r =~= seq![s[0]] + rest);
        assert forall|i: int, j: int| 0 <= i < j < r.len() implies !lex_lt(
            r[j].expense.name@,
            r[i].expense.name@,
        ) by {
            if i == 0 {
                assert(r[0] == s[0]);
                assert(r[j] == rest[j - 1]);
                if rest[j - 1] == x {
                    assert(!lex_lt(x.expense.name@, s[0].expense.name@));
                } else {
                    let k = choose|k: int|
                        0 <= k < s.drop_first().len() && rest[j - 1] == s.drop_first()[k];
                    assert(s.drop_first()[k] == s[k + 1]);
                    assert(!lex_lt(s[k + 1].expense.name@, s[0].expense.name@));
                }
            } else {
                assert(r[i] == rest[i - 1]);
                assert(r[j] == rest[j - 1]);
                assert(!lex_lt(rest[j - 1].expense.name@, rest[i - 1].expense.name@));
            }
        }
    }
}

/// What `distribute` sorts comes out ascending by expense name.
pub proof fn lemma_sort_by_name_sorted(s: Seq<BudgetEntry>)
    ensures
        entries_sorted(sort_by_name(s)),
    decreases s.len(),
{
    if s.len() > 0 {
        lemma_sort_by_name_sorted(s.drop_last());
        lemma_insert_by_name_sorted(s.last(), sort_by_name(s.drop_last()));
    }
}

/// Insertion keeps the labels of the input beside the inserted one.
proof fn lemma_insert_label_elements(x: Seq<char>, s: Seq<Seq<char>>)
    ensures
        insert_label(x, s).len() == s.len() + 1,
        forall|i: int|
            0 <= i < insert_label(x, s).len() ==> #[trigger] insert_label(x, s)[i] == x || exists|
                j: int,
            | 0 <= j < s.len() && insert_label(x, s)[i] == s[j],
    decreases s.len(),
{
    let r = insert_label(x, s);
    if s.len() == 0 {
        assert(r =~= seq![x]);
    } else if lex_lt(x, s[0]) {
        assert(r =~= seq![x] + s);
        assert forall|i: int| 0 <= i < r.len() implies #[trigger] r[i] == x || exists|j: int|
            0 <= j < s.len() && r[i] == s[j] by {
            if i > 0 {
                assert(r[i] == s[i - 1]);
            }
        }
    } else {
        lemma_insert_label_elements(x, s.drop_first());
        let rest = insert_label(x, s.drop_first());
        assert(r =~= seq![s[0]] + rest);
        assert forall|i: int| 0 <= i < r.len() implies #[trigger] r[i] == x || exists|j: int|
            0 <= j < s.len() && r[i] == s[j] by {
            if i == 0 {
                assert(r[0] == s[0]);
            } else {
                assert(r[i] == rest[i - 1]);
                if rest[i - 1] == x {
                } else {
                    let j = choose|j: int|
                        0 <= j < s.drop_first().len() && rest[i - 1] == s.drop_first()[j];
                    assert(r[i] == s[j + 1]);
                }
            }
        }
    }
}

/// Insertion into an ascending label sequence keeps it ascending.
proof fn lemma_insert_label_sorted(x: Seq<char>, s: Seq<Seq<char>>)
    requires
        labels_sorted(s),
    ensures
        labels_sorted(insert_label(x, s)),
    decreases s.len(),
{
    let r = insert_label(x, s);
    if s.len() == 0 {
        assert(r =~= seq![x]);
    } else if lex_lt(x, s[0]) {
        assert(r =~= seq![x] + s);
        assert forall|i: int, j: int| 0 <= i < j < r.len() implies !lex_lt(r[j], r[i]) by {
            if i == 0 {
                assert(r[0] == x);
                assert(r[j] == s[j - 1]);
                if lex_lt(s[j - 1], x) {
                    crate::text::lemma_lex_lt_transitive(s[j - 1], x, s[0]);
                    crate::text::lemma_lex_lt_asymmetric(s[j - 1], s[0]);
                    if j > 1 {
                        assert(!lex_lt(s[j - 1], s[0]));
                    }
                }
            } else {
                assert(r[i] == s[i - 1]);
                assert(r[j] == s[j - 1]);
                assert(!lex_lt(s[j - 1], s[i - 1]));
            }
        }
    } else {
        assert(labels_sorted(s.drop_first())) by {
            assert forall|i: int, j: int| 0 <= i < j < s.drop_first().len() implies !lex_lt(
                s.drop_first()[j],
                s.drop_first()[i],
            ) by {
                assert(s.drop_first()[i] == s[i + 1]);
                assert(s.drop_first()[j] == s[j + 1]);
            }
        }
        lemma_insert_label_sorted(x, s.drop_first());
        lemma_insert_label_elements(x, s.drop_first());
        let rest = insert_label(x, s.drop_first());
        assert(r =~= seq![s[0]] + rest);
        assert forall|i: int, j: int| 0 <= i < j < r.len() implies !lex_lt(r[j], r[i]) by {
            if i == 0 {
                assert(r[0] == s[0]);
                assert(r[j] == rest[j - 1]);
                if rest[j - 1] == x {
                    assert(!lex_lt(x, s[0]));
                } else {
                    let k = choose|k: int|
                        0 <= k < s.drop_first().len() && rest[j - 1] == s.drop_first()[k];
                    assert(s.drop_first()[k] == s[k + 1]);
                    assert(!lex_lt(s[k + 1], s[0]));
                }
            } else {
                assert(r[i] == rest[i - 1]);
                assert(r[j] == rest[j - 1]);
                assert(!lex_lt(rest[j - 1], rest[i - 1]));
            }
        }
    }
}

/// The category labels of a distributed budget come out ascending.
pub proof fn lemma_sort_labels_sorted(s: Seq<Seq<char>>)
    ensures
        labels_sorted(sort_labels(s)),
    decreases s.len(),
{
    if s.len() > 0 {
        lemma_sort_labels_sorted(s.drop_last());
        lemma_insert_label_sorted(s.last(), sort_labels(s.drop_last()));
    }
}

/// Everything a distributed budget exposes is sorted: the uncategorized
/// entries and every category's entries ascending by expense name, and
/// the categories ascending by label.
pub proof fn lemma_budget_lists_sorted(plan: Plan, income: Income, b: Budget)
    requires
        distribute_ok(plan, income, b),
    ensures
        entries_sorted(b.no_category@),
        forall|i: int|
            0 <= i < b.categories@.len() ==> entries_sorted((#[trigger] b.categories@[i]).1@),
        forall|i: int, j: int|
            0 <= i < j < b.categories@.len() ==> !lex_lt(
                (#[trigger] b.categories@[j]).0@,
                (#[trigger] b.categories@[i]).0@,
            ),
{
    let raw = raw_entries(plan.budget@, income.amount.value as int, income.amount.currency);
    let labels = sort_labels(labels_in_order(raw));
    lemma_sort_by_name_sorted(uncategorized(raw));
    assert forall|i: int| 0 <= i < b.categories@.len() implies entries_sorted(
        (#[trigger] b.categories@[i]).1@,
    ) by {
        lemma_sort_by_name_sorted(with_label(raw, b.categories@[i].0@));
    }
    lemma_sort_labels_sorted(labels_in_order(raw));
    assert forall|i: int, j: int| 0 <= i < j < b.categories@.len() implies !lex_lt(
        (#[trigger] b.categories@[j]).0@,
        (#[trigger] b.categories@[i]).0@,
    ) by {
        assert(b.categories@[i].0@ == labels[i]);
        assert(b.categories@[j].0@ == labels[j]);
        assert(!lex_lt(labels[j], labels[i]));
    }
}

/// Inserting an entry adds its amount to the sum.
proof fn lemma_insert_sum(x: BudgetEntry, s: Seq<BudgetEntry>)
    ensures
        entries_sum(insert_by_name(x, s)) == x.amount.value + entries_sum(s),
    decreases s.len(),
{
    if s.len() == 0 {
        let r = insert_by_name(x, s);
        assert(r =~= seq![x]);
        assert(r.drop_last() =~= Seq::<BudgetEntry>::empty());
        assert(entries_sum(r.drop_last()) == 0);
        assert(entries_sum(r) == entries_sum(r.drop_last()) + r.last().amount.value);
    } else if lex_lt(x.expense.name@, s[0].expense.name@) {
        let r = seq![x] + s;
        lemma_prepend_sum(x, s);
    } else {
        let r = seq![s[0]] + insert_by_name(x, s.drop_first());
        lemma_insert_sum(x, s.drop_first());
        lemma_prepend_sum(s[0], insert_by_name(x, s.drop_first()));
        lemma_prepend_sum(s[0], s.drop_first());
        assert(seq![s[0]] + s.drop_first() =~= s);
    }
}

/// Appending an entry adds its amount to the sum.
proof fn lemma_push_sum(s: Seq<BudgetEntry>, e: BudgetEntry)
    ensures
        entries_sum(s.push(e)) == entries_sum(s) + e.amount.value,
{
    assert(s.push(e).drop_last() =~= s);
    assert(s.push(e).last() == e);
}

/// Prepending an entry adds its amount to the sum.
proof fn lemma_prepend_sum(x: BudgetEntry, s: Seq<BudgetEntry>)
    ensures
        entries_sum(seq![x] + s) == x.amount.value + entries_sum(s),
    decreases s.len(),
{
    let r = seq![x] + s;
    if s.len() == 0 {
        assert(r =~= seq![x]);
        assert(r.drop_last() =~= Seq::<BudgetEntry>::empty());
        assert(entries_sum(r.drop_last()) == 0);
        assert(r.last() == x);
        assert(entries_sum(r) == entries_sum(r.drop_last()) + r.last().amount.value);
        assert(entries_sum(s) == 0);
    } else {
        assert(r.drop_last() =~= seq![x] + s.drop_last());
        assert(r.last() == s.last());
        lemma_prepend_sum(x, s.drop_last());
        assert(entries_sum(r) == entries_sum(r.drop_last()) + r.last().amount.value);
        assert(entries_sum(s) == entries_sum(s.drop_last()) + s.last().amount.value);
    }
}

/// Sorting does not change the sum of the entries.
pub proof fn lemma_sort_sum(s: Seq<BudgetEntry>)
    ensures
        entries_sum(sort_by_name(s)) == entries_sum(s),
    decreases s.len(),
{
    if s.len() > 0 {
        lemma_sort_sum(s.drop_last());
        lemma_insert_sum(s.last(), sort_by_name(s.drop_last()));
    }
}

/// The sum of the shares of one income over a sequence of labels.
pub open spec fn labels_sum(labels: Seq<Seq<char>>, s: Seq<BudgetEntry>) -> int
    decreases labels.len(),
{
    if labels.len() == 0 {
        0
    } else {
        labels_sum(labels.drop_last(), s) + entries_sum(with_label(s, labels.last()))
    }
}

/// The labels of a sequence of entries are pairwise distinct.
proof fn lemma_labels_in_order_distinct(s: Seq<BudgetEntry>)
    ensures
        forall|i: int, j: int|
            0 <= i < j < labels_in_order(s).len() ==> labels_in_order(s)[i] != labels_in_order(
                s,
            )[j],
    decreases s.len(),
{
    if s.len() > 0 {
        lemma_labels_in_order_distinct(s.drop_last());
        let rest = labels_in_order(s.drop_last());
        let l = labels_in_order(s);
        assert forall|i: int, j: int| 0 <= i < j < l.len() implies l[i] != l[j] by {
            if j >= rest.len() {
                match s.last().expense.category {
                    Option::Some(c) => {
                        if !rest.contains(c@) {
                            assert(l[i] == rest[i]);
                        }
                    },
                    Option::None => {},
                }
            }
        }
    }
}

/// How one more entry changes the sum over a set of distinct labels: it
/// adds its amount if its label is among them.
proof fn lemma_labels_sum_step(labels: Seq<Seq<char>>, s: Seq<BudgetEntry>)
    requires
        s.len() > 0,
        forall|i: int, j: int| 0 <= i < j < labels.len() ==> labels[i] != labels[j],
    ensures
        labels_sum(labels, s) == labels_sum(labels, s.drop_last()) + (
        match s.last().expense.category {
            Option::Some(c) => if labels.contains(c@) {
                s.last().amount.value as int
            } else {
                0
            },
            Option::None => 0,
        }),
    decreases labels.len(),
{
    if labels.len() > 0 {
        assert forall|i: int, j: int|
            0 <= i < j < labels.drop_last().len() implies labels.drop_last()[i]
            != labels.drop_last()[j] by {
            assert(labels[i] == labels.drop_last()[i]);
            assert(labels[j] == labels.drop_last()[j]);
        }
        lemma_labels_sum_step(labels.drop_last(), s);
        let last_lbl = labels.last();
        assert(labels_sum(labels, s) == labels_sum(labels.drop_last(), s) + entries_sum(
            with_label(s, last_lbl),
        ));
        assert(labels_sum(labels, s.drop_last()) == labels_sum(labels.drop_last(), s.drop_last())
            + entries_sum(with_label(s.drop_last(), last_lbl)));
        match s.last().expense.category {
            Option::Some(c) => {
                if c@ == last_lbl {
                    assert(with_label(s, last_lbl) =~= with_label(s.drop_last(), last_lbl).push(
                        s.last(),
                    ));
                    lemma_push_sum(with_label(s.drop_last(), last_lbl), s.last());
                    assert(!labels.drop_last().contains(c@)) by {
                        if labels.drop_last().contains(c@) {
                            let i = choose|i: int|
                                0 <= i < labels.drop_last().len() && labels.drop_last()[i] == c@;
                            assert(labels[i] == labels[labels.len() - 1]);
                        }
                    }
                    assert(labels.contains(c@)) by {
                        assert(labels[labels.len() - 1] == c@);
                    }
                } else {
                    assert(with_label(s, last_lbl) =~= with_label(s.drop_last(), last_lbl));
                    if labels.contains(c@) {
                        assert(labels.drop_last().contains(c@)) by {
                            let i = choose|i: int| 0 <= i < labels.len() && labels[i] == c@;
                            assert(labels.drop_last()[i] == c@);
                        }
                    } else {
                        if labels.drop_last().contains(c@) {
                            let i = choose|i: int|
                                0 <= i < labels.drop_last().len() && labels.drop_last()[i] == c@;
                            assert(labels[i] == c@);
                        }
                    }
                }
            },
            Option::None => {
                assert(with_label(s, last_lbl) =~= with_label(s.drop_last(), last_lbl));
            },
        }
    }
}

/// Every entry is counted exactly once: the whole sum splits into the
/// uncategorized entries and the per-label sums.
proof fn lemma_partition_sum(s: Seq<BudgetEntry>)
    ensures
        entries_sum(s) == entries_sum(uncategorized(s)) + labels_sum(labels_in_order(s), s),
    decreases s.len(),
{
    if s.len() > 0 {
        let prev = s.drop_last();
        lemma_partition_sum(prev);
        lemma_labels_in_order_distinct(prev);
        let l0 = labels_in_order(prev);
        // the sums over the old labels move unchanged from `prev` to `s`
        // except for the last entry's own label
        match s.last().expense.category {
            Option::None => {
                assert(uncategorized(s) =~= uncategorized(prev).push(s.last()));
                lemma_push_sum(uncategorized(prev), s.last());
                assert(labels_in_order(s) == l0);
                lemma_labels_sum_step(l0, s);
                lemma_labels_sum_unchanged_entries(l0, s, prev);
            },
            Option::Some(c) => {
                assert(uncategorized(s) =~= uncategorized(prev));
                if l0.contains(c@) {
                    assert(labels_in_order(s) == l0);
                    lemma_labels_sum_step(l0, s);
                    lemma_labels_sum_unchanged_entries(l0, s, prev);
                } else {
                    assert(labels_in_order(s) == l0.push(c@));
                    assert(labels_sum(l0.push(c@), s) == labels_sum(l0, s) + entries_sum(
                        with_label(s, c@),
                    )) by {
                        assert(l0.push(c@).drop_last() =~= l0);
                        assert(l0.push(c@).last() == c@);
                    }
                    lemma_labels_sum_step(l0, s);
                    lemma_labels_sum_unchanged_entries(l0, s, prev);
                    lemma_no_label_empty(prev, c@);
                    assert(with_label(s, c@) =~= with_label(prev, c@).push(s.last()));
                    assert(with_label(prev, c@) =~= Seq::<BudgetEntry>::empty());
                    assert(entries_sum(Seq::<BudgetEntry>::empty()) == 0);
                    lemma_push_sum(with_label(prev, c@), s.last());
                    assert(entries_sum(with_label(s, c@)) == s.last().amount.value);
                }
            },
        }
    }
}

/// Bridging step for `lemma_partition_sum`: relates the label sums over a
/// sequence and its one-shorter prefix.
proof fn lemma_labels_sum_unchanged_entries(
    labels: Seq<Seq<char>>,
    s: Seq<BudgetEntry>,
    prev: Seq<BudgetEntry>,
)
    requires
        s.len() > 0,
        prev == s.drop_last(),
    ensures
        labels_sum(labels, prev) == labels_sum(labels, s.drop_last()),
{
}

/// Inserting a label adds that label's share to the sum.
proof fn lemma_labels_sum_insert(x: Seq<char>, labels: Seq<Seq<char>>, s: Seq<BudgetEntry>)
    ensures
        labels_sum(insert_label(x, labels), s) == entries_sum(with_label(s, x)) + labels_sum(
            labels,
            s,
        ),
    decreases labels.len(),
{
    if labels.len() == 0 {
        let r = insert_label(x, labels);
        assert(r =~= seq![x]);
        assert(r.drop_last() =~= Seq::<Seq<char>>::empty());
        assert(labels_sum(r.drop_last(), s) == 0);
        assert(labels_sum(r, s) == labels_sum(r.drop_last(), s) + entries_sum(
            with_label(s, r.last()),
        ));
    } else if lex_lt(x, labels[0]) {
        lemma_labels_sum_prepend(x, labels, s);
    } else {
        lemma_labels_sum_insert(x, labels.drop_first(), s);
        lemma_labels_sum_prepend(labels[0], insert_label(x, labels.drop_first()), s);
        lemma_labels_sum_prepend(labels[0], labels.drop_first(), s);
        assert(seq![labels[0]] + labels.drop_first() =~= labels);
    }
}

/// Prepending a label adds that label's share to the sum.
proof fn lemma_labels_sum_prepend(x: Seq<char>, labels: Seq<Seq<char>>, s: Seq<BudgetEntry>)
    ensures
        labels_sum(seq![x] + labels, s) == entries_sum(with_label(s, x)) + labels_sum(labels, s),
    decreases labels.len(),
{
    let r = seq![x] + labels;
    if labels.len() == 0 {
        assert(r =~= seq![x]);
        assert(r.drop_last() =~= Seq::<Seq<char>>::empty());
        assert(labels_sum(r.drop_last(), s) == 0);
        assert(r.last() == x);
        assert(labels_sum(r, s) == labels_sum(r.drop_last(), s) + entries_sum(
            with_label(s, r.last()),
        ));
    } else {
        assert(r.drop_last() =~= seq![x] + labels.drop_last());
        assert(r.last() == labels.last());
        lemma_labels_sum_prepend(x, labels.drop_last(), s);
        assert(labels_sum(r, s) == labels_sum(r.drop_last(), s) + entries_sum(
            with_label(s, r.last()),
        ));
        assert(labels_sum(labels, s) == labels_sum(labels.drop_last(), s) + entries_sum(
            with_label(s, labels.last()),
        ));
    }
}

/// Sorting the labels does not change the sum over them.
proof fn lemma_labels_sum_sorted(labels: Seq<Seq<char>>, s: Seq<BudgetEntry>)
    ensures
        labels_sum(sort_labels(labels), s) == labels_sum(labels, s),
    decreases labels.len(),
{
    if labels.len() > 0 {
        lemma_labels_sum_sorted(labels.drop_last(), s);
        lemma_labels_sum_insert(labels.last(), sort_labels(labels.drop_last()), s);
    }
}

/// The sum of all categorized entries of a budget, bucket by bucket.
pub open spec fn cats_total(cats: Seq<(String, Vec<BudgetEntry>)>) -> int
    decreases cats.len(),
{
    if cats.len() == 0 {
        0
    } else {
        cats_total(cats.drop_last()) + entries_sum(cats.last().1@)
    }
}

/// The bucket sums of a distributed budget equal the per-label sums.
proof fn lemma_cats_total(
    cats: Seq<(String, Vec<BudgetEntry>)>,
    labels: Seq<Seq<char>>,
    raw: Seq<BudgetEntry>,
)
    requires
        cats.len() == labels.len(),
        forall|i: int| 0 <= i < cats.len() ==> (#[trigger] cats[i]).0@ == labels[i],
        forall|i: int|
            0 <= i < cats.len() ==> (#[trigger] cats[i]).1@ == sort_by_name(
                with_label(raw, cats[i].0@),
            ),
    ensures
        cats_total(cats) == labels_sum(labels, raw),
    decreases cats.len(),
{
    if cats.len() > 0 {
        lemma_cats_total(cats.drop_last(), labels.drop_last(), raw);
        lemma_sort_sum(with_label(raw, cats.last().0@));
        assert(cats.last().0@ == labels.last());
    }
}

/// The amount of every raw entry is bounded by the income.
proof fn lemma_raw_entries_bounded(bud: Seq<(Expense, Percentage)>, amount: int, cur: Currency)
    requires
        -CENT_LIMIT <= amount <= CENT_LIMIT,
        forall|i: int|
            0 <= i < bud.len() ==> 0 <= (#[trigger] bud[i]).1.hundredths <= FULL_PERCENT,
    ensures
        forall|i: int|
            0 <= i < bud.len() ==> -CENT_LIMIT <= (#[trigger] raw_entries(
                bud,
                amount,
                cur,
            )[i]).amount.value <= CENT_LIMIT,
{
    let raw = raw_entries(bud, amount, cur);
    assert forall|i: int| 0 <= i < bud.len() implies -CENT_LIMIT <= (
    #[trigger] raw[i]).amount.value <= CENT_LIMIT by {
        crate::finance::lemma_round_half_even_scale_bound(
            amount,
            bud[i].1.hundredths as int,
            FULL_PERCENT as int,
        );
    }
}

/// The sum of bounded entries is bounded by their number.
proof fn lemma_entries_sum_bounded(s: Seq<BudgetEntry>, bound: int)
    requires
        0 <= bound,
        forall|i: int|
            0 <= i < s.len() ==> -bound <= (#[trigger] s[i]).amount.value <= bound,
    ensures
        -(s.len() as int) * bound <= entries_sum(s) <= (s.len() as int) * bound,
    decreases s.len(),
{
    if s.len() > 0 {
        assert forall|i: int|
            0 <= i < s.drop_last().len() implies -bound <= (
        #[trigger] s.drop_last()[i]).amount.value <= bound by {
            assert(s.drop_last()[i] == s[i]);
        }
        lemma_entries_sum_bounded(s.drop_last(), bound);
        lemma_step_times(s.len() - 1, bound);
        assert(s[s.len() - 1] == s.last());
        let n = s.len() as int;
        assert(-(n) * bound == -(n * bound)) by (nonlinear_arith);
        assert(-((n - 1) as int) * bound == -((n - 1) * bound)) by (nonlinear_arith);
    }
}

/// For every budget that `distribute` yields, the rest is exactly the
/// income minus the sum of every entry the budget holds, categorized or
/// not.
pub proof fn lemma_budget_rest_exact(plan: Plan, income: Income, b: Budget)
    requires
        plan.wf(),
        -CENT_LIMIT <= income.amount.value <= CENT_LIMIT,
        distribute_ok(plan, income, b),
    ensures
        b.rest.value == income.amount.value - (entries_sum(b.no_category@) + cats_total(
            b.categories@,
        )),
{
    let raw = raw_entries(plan.budget@, income.amount.value as int, income.amount.currency);
    let labels = sort_labels(labels_in_order(raw));
    lemma_raw_entries_bounded(plan.budget@, income.amount.value as int, income.amount.currency);
    lemma_entries_sum_bounded(raw, CENT_LIMIT as int);
    assert((raw.len() as int) * CENT_LIMIT <= (MAX_EXPENSES as int) * CENT_LIMIT) by (nonlinear_arith)
        requires
            0 <= raw.len() as int <= MAX_EXPENSES as int,
    ;
    lemma_sort_sum(uncategorized(raw));
    lemma_partition_sum(raw);
    lemma_labels_sum_sorted(labels_in_order(raw), raw);
    lemma_cats_total(b.categories@, labels, raw);
}

/// The total of a list of budget entries: each category's subtotal is the
/// sum of its members.
#[verifier::loop_isolation(false)]
pub fn entries_total(entries: &Vec<BudgetEntry>, currency: Currency) -> (m: Money)
    requires
        entries@.len() <= MAX_EXPENSES,
        forall|i: int| 0 <= i < entries@.len() ==> (#[trigger] entries@[i]).amount.currency == currency,
        forall|i: int|
            0 <= i < entries@.len() ==> -CENT_LIMIT <= (#[trigger] entries@[i]).amount.value
                <= CENT_LIMIT,
    ensures
        m.value == entries_sum(entries@),
        m.currency == currency,
{
    let mut total: i64 = 0;
    let len: usize = entries.len();
    let mut i: usize = 0;
    while i < len
        invariant
            i <= len,
            len == entries@.len(),
            total == entries_sum(entries@.take(i as int)),
            -(i as int) * CENT_LIMIT <= total <= (i as int) * CENT_LIMIT,
        decreases len - i,
    {
        proof {
            assert(entries@.take(i + 1 as int).drop_last() =~= entries@.take(i as int));
            lemma_step_times(i as int, CENT_LIMIT as int);
        }
        total = total + entries[i].amount.value;
        i = i + 1;
    }
    proof {
        assert(entries@.take(len as int) =~= entries@);
        assert((len as int) * CENT_LIMIT <= (MAX_EXPENSES as int) * CENT_LIMIT) by (nonlinear_arith)
            requires
                0 <= len as int <= MAX_EXPENSES as int,
        ;
    }
    Money { value: total, currency }
}

/// Distribution is deterministic: two budgets obtained from the same plan
/// and income agree in every part, down to each entry.
pub proof fn lemma_distribute_deterministic(plan: Plan, income: Income, b1: Budget, b2: Budget)
    requires
        distribute_ok(plan, income, b1),
        distribute_ok(plan, income, b2),
    ensures
        b1.income == b2.income,
        b1.rest == b2.rest,
        b1.no_category@ == b2.no_category@,
        b1.categories@.len() == b2.categories@.len(),
        forall|i: int|
            0 <= i < b1.categories@.len() ==> (#[trigger] b1.categories@[i]).0@
                == b2.categories@[i].0@,
        forall|i: int|
            0 <= i < b1.categories@.len() ==> (#[trigger] b1.categories@[i]).1@
                == b2.categories@[i].1@,
{
    let raw = raw_entries(plan.budget@, income.amount.value as int, income.amount.currency);
    let labels = sort_labels(labels_in_order(raw));
    assert forall|i: int| 0 <= i < b1.categories@.len() implies (#[trigger] b1.categories@[i]).1@
        == b2.categories@[i].1@ by {
        assert(b1.categories@[i].0@ == labels[i]);
        assert(b2.categories@[i].0@ == labels[i]);
    }
}

} // verus!
