//! The thin surface between the engine and its storage collaborator.
//!
//! Stored budgets are addressed by string ids, listed in pages behind a
//! cursor: `from` is the last id already seen, `limit` bounds the page,
//! and `next_cursor` is set only when more ids remain.  The cursor
//! arithmetic itself is `budget_ids`, a pure function over the full
//! ordered id listing; fetching that listing, and the budgets themselves,
//! is the collaborator's part.

use vstd::prelude::*;

verus! {

use crate::distribute::{distribute, distribute_ok, Budget, Income};
use crate::finance::CENT_LIMIT;
use crate::planning::{spec_has_source, Plan};

/// The identity of one stored budget.
pub type BudgetId = String;

/// The last id a reader has already seen.
pub type Cursor = String;

/// Why an api call failed.
#[derive(Debug, PartialEq, Eq, Structural, Copy, Clone)]
pub enum Error {
    CantDistribute,
    CantSaveBudget,
}

/// A stored budget together with its id.
#[derive(Debug)]
pub struct StorageBudget {
    pub id: BudgetId,
    pub budget: Budget,
}

impl From<(BudgetId, Budget)> for StorageBudget {
    fn from(value: (BudgetId, Budget)) -> (r: StorageBudget) {
        StorageBudget { id: value.0, budget: value.1 }
    }
}

impl vstd::std_specs::convert::FromSpecImpl<(BudgetId, Budget)> for StorageBudget {
    open spec fn obeys_from_spec() -> bool {
        true
    }

    open spec fn from_spec(value: (BudgetId, Budget)) -> StorageBudget {
        StorageBudget { id: value.0, budget: value.1 }
    }
}

/// One page of results: the items and, when more remain, the cursor to
/// continue from.
#[derive(Debug)]
pub struct Page<T> {
    pub items: Vec<T>,
    pub next_cursor: Option<Cursor>,
}

impl<T> Page<T> {
    pub fn new(items: Vec<T>, next_cursor: Option<Cursor>) -> (p: Page<T>)
        ensures
            p.items == items,
            p.next_cursor == next_cursor,
    {
        Page { items, next_cursor }
    }

    pub fn len(&self) -> (n: usize)
        ensures
            n == self.items@.len(),
    {
        self.items.len()
    }
}

/// Distributes an income, folding every engine error into
/// `CantDistribute`.
pub fn distribute_budget(plan: &Plan, income: &Income) -> (r: Result<Budget, Error>)
    requires
        plan.wf(),
        -CENT_LIMIT <= income.amount.value <= CENT_LIMIT,
    ensures
        match r {
            Result::Ok(b) => spec_has_source(plan.sources@, income.source.name@)
                && income.amount.currency == plan.spec_currency() && distribute_ok(
                *plan,
                *income,
                b,
            ),
            Result::Err(e) => e == Error::CantDistribute && (!spec_has_source(
                plan.sources@,
                income.source.name@,
            ) || income.amount.currency != plan.spec_currency()),
        },
{
    match distribute(plan, income) {
        Result::Ok(b) => Result::Ok(b),
        Result::Err(_) => Result::Err(Error::CantDistribute),
    }
}

/// The position of the first id whose text is `cursor`, or the length.
pub open spec fn first_match(ids: Seq<String>, cursor: Seq<char>) -> int
    decreases ids.len(),
{
    if ids.len() == 0 {
        0
    } else if ids[0]@ == cursor {
        0
    } else {
        1 + first_match(ids.drop_first(), cursor)
    }
}

/// Where a page begins: just after the cursor's id, or at the start when
/// there is no cursor or its id has vanished.
pub open spec fn page_start(ids: Seq<String>, from: Option<Cursor>) -> int {
    match from {
        Option::None => 0,
        Option::Some(c) => {
            let k = first_match(ids, c@);
            if k == ids.len() {
                0
            } else {
                k + 1
            }
        },
    }
}

/// A scan that found the cursor at `i` after no earlier match found the
/// first.
proof fn lemma_first_match_at(ids: Seq<String>, cursor: Seq<char>, i: int)
    requires
        0 <= i <= ids.len(),
        forall|j: int| 0 <= j < i ==> (#[trigger] ids[j])@ != cursor,
        i < ids.len() ==> ids[i]@ == cursor,
    ensures
        first_match(ids, cursor) == i,
    decreases i,
{
    if ids.len() > 0 {
        if i == 0 {
        } else {
            assert forall|j: int| 0 <= j < i - 1 implies (#[trigger] ids.drop_first()[j])@
                != cursor by {
                assert(ids[j + 1]@ != cursor);
            }
            lemma_first_match_at(ids.drop_first(), cursor, i - 1);
        }
    }
}

/// One page of the given id listing, which the caller supplies in its
/// storage order: the ids after the cursor, at most `limit` of them, and
/// the id a next page would start after, if any remain.
#[verifier::loop_isolation(false)]
pub fn budget_ids(ids: Vec<BudgetId>, from: Option<Cursor>, limit: usize) -> (r: Page<BudgetId>)
    ensures
        ({
            let start = page_start(ids@, from);
            let end = if start + limit < ids@.len() {
                start + limit
            } else {
                ids@.len() as int
            };
            &&& r.items@.len() == end - start
            &&& forall|i: int| 0 <= i < end - start ==> (#[trigger] r.items@[i]) == ids@[start + i]
            &&& match r.next_cursor {
                Option::Some(c) => start + limit < ids@.len() && c == ids@[start + limit],
                Option::None => start + limit >= ids@.len(),
            }
        }),
{
    let len: usize = ids.len();
    let start: usize = match &from {
        Option::None => 0,
        Option::Some(c) => {
            let mut j: usize = 0;
            let mut found_at: usize = len;
            while j < len
                invariant
                    j <= len,
                    len == ids@.len(),
                    found_at == len || found_at < j,
                    found_at == len ==> forall|k: int| 0 <= k < j ==> (#[trigger] ids@[k])@ != c@,
                    found_at < len ==> ids@[found_at as int]@ == c@ && forall|k: int|
                        0 <= k < found_at ==> (#[trigger] ids@[k])@ != c@,
                decreases len - j,
            {
                if found_at == len {
                    if ids[j] == *c {
                        found_at = j;
                    }
                }
                j = j + 1;
            }
            proof {
                if found_at == len {
                    lemma_first_match_at(ids@, c@, len as int);
                } else {
                    lemma_first_match_at(ids@, c@, found_at as int);
                }
            }
            if found_at == len {
                0
            } else {
                found_at + 1
            }
        },
    };
    let mut items: Vec<BudgetId> = Vec::new();
    let mut i: usize = start;
    let end: usize = if limit < len - start {
        start + limit
    } else {
        len
    };
    while i < end
        invariant
            start <= i <= end <= len,
            len == ids@.len(),
            items@.len() == i - start,
            forall|k: int| 0 <= k < i - start ==> (#[trigger] items@[k]) == ids@[start + k],
        decreases end - i,
    {
        items.push(ids[i].clone());
        i = i + 1;
    }
    let next_cursor: Option<Cursor> = if end < len {
        Option::Some(ids[end].clone())
    } else {
        Option::None
    };
    Page { items, next_cursor }
}

} // verus!
