//! The category projection: a read-only grouping of a plan's expenses by
//! category name.
//!
//! Expenses without a category are gathered under the one uncategorized
//! label.  Groups come out sorted by category name and the members of each
//! group sorted by expense name, so every rendering surface can reuse this
//! one query; `category_subtotals` adds each group's share of the income.

use vstd::prelude::*;

verus! {

use crate::finance::{Percentage, FULL_PERCENT, PCT_LIMIT};
use crate::planning::{Expense, Plan, MAX_EXPENSES};
use crate::text::{insert_label, lex_lt, sort_labels, str_lt};

/// The label an expense is grouped under: its category name, or the
/// uncategorized label.
pub open spec fn group_label(e: Expense) -> Seq<char> {
    match e.category {
        Option::Some(c) => c@,
        Option::None => "Без категории"@,
    }
}

/// Stable insertion into a name-sorted sequence of budget pairs.
pub open spec fn insert_pair_by_name(x: (Expense, Percentage), s: Seq<(Expense, Percentage)>) -> Seq<
    (Expense, Percentage),
>
    decreases s.len(),
{
    if s.len() == 0 {
        seq![x]
    } else if lex_lt(x.0.name@, s[0].0.name@) {
        seq![x] + s
    } else {
        seq![s[0]] + insert_pair_by_name(x, s.drop_first())
    }
}

/// Stable insertion sort of budget pairs, ascending by expense name.
pub open spec fn sort_pairs_by_name(s: Seq<(Expense, Percentage)>) -> Seq<(Expense, Percentage)>
    decreases s.len(),
{
    if s.len() == 0 {
        s
    } else {
        insert_pair_by_name(s.last(), sort_pairs_by_name(s.drop_last()))
    }
}

/// The group labels of the pairs, each at its first occurrence.
pub open spec fn pair_labels_in_order(s: Seq<(Expense, Percentage)>) -> Seq<Seq<char>>
    decreases s.len(),
{
    if s.len() == 0 {
        Seq::empty()
    } else {
        let rest = pair_labels_in_order(s.drop_last());
        if rest.contains(group_label(s.last().0)) {
            rest
        } else {
            rest.push(group_label(s.last().0))
        }
    }
}

/// The pairs grouped under `lbl`, in order.
pub open spec fn pairs_with_label(s: Seq<(Expense, Percentage)>, lbl: Seq<char>) -> Seq<
    (Expense, Percentage),
>
    decreases s.len(),
{
    if s.len() == 0 {
        Seq::empty()
    } else {
        let rest = pairs_with_label(s.drop_last(), lbl);
        if group_label(s.last().0) == lbl {
            rest.push(s.last())
        } else {
            rest
        }
    }
}

/// The sum of the percentages of a sequence of pairs, in hundredths of a
/// percent.
pub open spec fn pair_h_sum(s: Seq<(Expense, Percentage)>) -> int
    decreases s.len(),
{
    if s.len() == 0 {
        0
    } else {
        pair_h_sum(s.drop_last()) + s.last().1.hundredths
    }
}

/// The labels of a sequence of groups.
pub open spec fn group_labels_of(s: Seq<(String, Vec<(Expense, Percentage)>)>) -> Seq<Seq<char>> {
    Seq::new(s.len(), |i: int| s[i].0@)
}

/// What the projection yields: one group per category label in label
/// order, holding that label's pairs sorted by expense name.
pub open spec fn groups_ok(plan: Plan, r: Seq<(String, Vec<(Expense, Percentage)>)>) -> bool {
    let sorted = sort_pairs_by_name(plan.budget@);
    let labels = sort_labels(pair_labels_in_order(sorted));
    &&& r.len() == labels.len()
    &&& forall|i: int| 0 <= i < labels.len() ==> (#[trigger] r[i]).0@ == labels[i]
    &&& forall|i: int|
        0 <= i < labels.len() ==> (#[trigger] r[i]).1@ == pairs_with_label(sorted, r[i].0@)
}

/// Inserts one pair into a name-sorted vector of pairs.
#[verifier::loop_isolation(false)]
fn insert_pair(x: (Expense, Percentage), v: Vec<(Expense, Percentage)>) -> (r: Vec<
    (Expense, Percentage),
>)
    ensures
        r@ == insert_pair_by_name(x, v@),
    decreases v@.len(),
{
    let ghost v0 = v@;
    let mut v = v;
    if v.len() == 0 {
        v.push(x);
        proof {
            assert(v@ =~= seq![x]);
        }
        v
    } else if str_lt(x.0.name.as_str(), v[0].0.name.as_str()) {
        let mut r: Vec<(Expense, Percentage)> = Vec::new();
        r.push(x);
        r.append(&mut v);
        proof {
            assert(r@ =~= seq![x] + v0);
        }
        r
    } else {
        let first = v.remove(0);
        proof {
            assert(v@ =~= v0.drop_first());
        }
        let mut rest = insert_pair(x, v);
        let mut r: Vec<(Expense, Percentage)> = Vec::new();
        r.push(first);
        r.append(&mut rest);
        proof {
            assert(r@ =~= seq![first] + insert_pair_by_name(x, v0.drop_first()));
        }
        r
    }
}

/// Sorts a vector of pairs ascending by expense name.
#[verifier::loop_isolation(false)]
fn sort_pairs(v: Vec<(Expense, Percentage)>) -> (r: Vec<(Expense, Percentage)>)
    ensures
        r@ == sort_pairs_by_name(v@),
    decreases v@.len(),
{
    let ghost v0 = v@;
    let mut v = v;
    match v.pop() {
        Option::None => {
            proof {
                assert(v0.len() == 0);
            }
            v
        },
        Option::Some(last) => {
            let sorted = sort_pairs(v);
            insert_pair(last, sorted)
        },
    }
}

/// Whether some group carries this label.
pub open spec fn group_has_label(s: Seq<(String, Vec<(Expense, Percentage)>)>, lbl: Seq<char>) -> bool {
    exists|i: int| 0 <= i < s.len() && (#[trigger] s[i]).0@ == lbl
}

/// The index of the group carrying this label.
pub open spec fn group_label_index(
    s: Seq<(String, Vec<(Expense, Percentage)>)>,
    lbl: Seq<char>,
) -> int {
    choose|i: int| 0 <= i < s.len() && (#[trigger] s[i]).0@ == lbl
}

/// The group labels are pairwise distinct.
pub open spec fn group_labels_distinct(s: Seq<(String, Vec<(Expense, Percentage)>)>) -> bool {
    forall|i: int, j: int| 0 <= i < j < s.len() ==> (#[trigger] s[i]).0@ != (#[trigger] s[j]).0@
}

/// The index of the group labelled `label`, scanning in order.
#[verifier::loop_isolation(false)]
fn find_group(groups: &Vec<(String, Vec<(Expense, Percentage)>)>, label: &String) -> (r: Option<
    usize,
>)
    requires
        group_labels_distinct(groups@),
    ensures
        match r {
            Option::Some(j) => group_has_label(groups@, label@) && j as int == group_label_index(
                groups@,
                label@,
            ) && j < groups@.len() && groups@[j as int].0@ == label@,
            Option::None => !group_has_label(groups@, label@),
        },
{
    let mut j: usize = 0;
    while j < groups.len()
        invariant
            j <= groups@.len(),
            forall|k: int| 0 <= k < j ==> (#[trigger] groups@[k]).0@ != label@,
        decreases groups@.len() - j,
    {
        if groups[j].0 == *label {
            proof {
                let ci = group_label_index(groups@, label@);
                assert(groups@[ci].0@ == label@);
                if ci < j as int {
                    assert(groups@[ci].0@ != groups@[j as int].0@);
                } else if ci > j as int {
                    assert(groups@[j as int].0@ != groups@[ci].0@);
                }
            }
            return Option::Some(j);
        }
        j = j + 1;
    }
    Option::None
}

/// Inserts one group into a vector of groups sorted by label.
#[verifier::loop_isolation(false)]
fn insert_group(
    x: (String, Vec<(Expense, Percentage)>),
    v: Vec<(String, Vec<(Expense, Percentage)>)>,
) -> (r: Vec<(String, Vec<(Expense, Percentage)>)>)
    ensures
        group_labels_of(r@) == insert_label(x.0@, group_labels_of(v@)),
        forall|i: int|
            0 <= i < r@.len() ==> (#[trigger] r@[i]) == x || exists|j: int|
                0 <= j < v@.len() && r@[i] == v@[j],
    decreases v@.len(),
{
    let ghost v0 = v@;
    let mut v = v;
    if v.len() == 0 {
        v.push(x);
        proof {
            assert(group_labels_of(v@) =~= seq![x.0@]);
            assert(insert_label(x.0@, group_labels_of(v0)) =~= seq![x.0@]);
        }
        v
    } else {
        let cmp: bool = str_lt(x.0.as_str(), v[0].0.as_str());
        proof {
            assert(group_labels_of(v0)[0] == v0[0].0@);
        }
        if cmp {
            let mut r: Vec<(String, Vec<(Expense, Percentage)>)> = Vec::new();
            r.push(x);
            r.append(&mut v);
            proof {
                assert(group_labels_of(r@) =~= seq![x.0@] + group_labels_of(v0));
                assert(insert_label(x.0@, group_labels_of(v0)) =~= seq![x.0@] + group_labels_of(
                    v0,
                ));
            }
            r
        } else {
            let first = v.remove(0);
            proof {
                assert(v@ =~= v0.drop_first());
                assert(group_labels_of(v0.drop_first()) =~= group_labels_of(v0).drop_first());
            }
            let mut rest = insert_group(x, v);
            let ghost rest0 = rest@;
            let mut r: Vec<(String, Vec<(Expense, Percentage)>)> = Vec::new();
            r.push(first);
            r.append(&mut rest);
            proof {
                assert(group_labels_of(r@) =~= seq![first.0@] + group_labels_of(rest0));
                assert(insert_label(x.0@, group_labels_of(v0)) =~= seq![group_labels_of(v0)[0]]
                    + insert_label(x.0@, group_labels_of(v0).drop_first()));
                assert(r@[0] == v0[0]);
                assert forall|i: int| 0 <= i < r@.len() implies (#[trigger] r@[i]) == x || exists|
                    j: int,
                |
                    0 <= j < v0.len() && r@[i] == v0[j] by {
                    if i == 0 {
                        assert(r@[0] == v0[0]);
                    } else {
                        assert(r@[i] == rest0[i - 1]);
                        if rest0[i - 1] == x {
                        } else {
                            let j = choose|j: int|
                                0 <= j < v0.drop_first().len() && rest0[i - 1]
                                    == v0.drop_first()[j];
                            assert(r@[i] == v0[j + 1]);
                        }
                    }
                }
            }
            r
        }
    }
}

/// Sorts a vector of groups ascending by label.
#[verifier::loop_isolation(false)]
fn sort_groups(v: Vec<(String, Vec<(Expense, Percentage)>)>) -> (r: Vec<
    (String, Vec<(Expense, Percentage)>),
>)
    ensures
        group_labels_of(r@) == sort_labels(group_labels_of(v@)),
        forall|i: int|
            0 <= i < r@.len() ==> exists|j: int| 0 <= j < v@.len() && (#[trigger] r@[i]) == v@[j],
    decreases v@.len(),
{
    let ghost v0 = v@;
    let mut v = v;
    match v.pop() {
        Option::None => {
            proof {
                assert(v0.len() == 0);
                assert(group_labels_of(v@) =~= sort_labels(group_labels_of(v0)));
            }
            v
        },
        Option::Some(last) => {
            proof {
                assert(group_labels_of(v@) =~= group_labels_of(v0).drop_last());
                assert(group_labels_of(v0).last() == last.0@);
            }
            let sorted = sort_groups(v);
            let ghost sorted0 = sorted@;
            let r = insert_group(last, sorted);
            proof {
                assert forall|i: int| 0 <= i < r@.len() implies exists|j: int|
                    0 <= j < v0.len() && (#[trigger] r@[i]) == v0[j] by {
                    if r@[i] == last {
                        assert(r@[i] == v0[v0.len() - 1]);
                    } else {
                        let j = choose|j: int| 0 <= j < sorted0.len() && r@[i] == sorted0[j];
                        let k = choose|k: int|
                            0 <= k < v0.drop_last().len() && sorted0[j] == v0.drop_last()[k];
                        assert(r@[i] == v0[k]);
                    }
                }
            }
            r
        },
    }
}

/// A label never used groups no pairs.
proof fn lemma_no_group_label_empty(s: Seq<(Expense, Percentage)>, lbl: Seq<char>)
    requires
        !pair_labels_in_order(s).contains(lbl),
    ensures
        pairs_with_label(s, lbl).len() == 0,
    decreases s.len(),
{
    if s.len() > 0 {
        assert forall|x: Seq<char>|
            pair_labels_in_order(s.drop_last()).contains(x) implies pair_labels_in_order(
            s,
        ).contains(x) by {
            let i = choose|i: int|
                0 <= i < pair_labels_in_order(s.drop_last()).len() && pair_labels_in_order(
                    s.drop_last(),
                )[i] == x;
            if !pair_labels_in_order(s.drop_last()).contains(group_label(s.last().0)) {
                assert(pair_labels_in_order(s)[i] == x);
            }
        }
        lemma_no_group_label_empty(s.drop_last(), lbl);
        if group_label(s.last().0) == lbl {
            assert(pair_labels_in_order(s).contains(lbl)) by {
                if !pair_labels_in_order(s.drop_last()).contains(lbl) {
                    assert(pair_labels_in_order(s).last() == lbl);
                }
            }
        }
    }
}

impl Plan {
    /// Groups the plan's budget by category: one group per label, labels
    /// ascending, each group's pairs ascending by expense name, expenses
    /// without a category under the uncategorized label.
    #[verifier::loop_isolation(false)]
    pub fn categories_full(&self) -> (r: Vec<(String, Vec<(Expense, Percentage)>)>)
        ensures
            groups_ok(*self, r@),
    {
        let mut pairs: Vec<(Expense, Percentage)> = Vec::new();
        let budget_len: usize = self.budget.len();
        let mut i: usize = 0;
        while i < budget_len
            invariant
                i <= budget_len,
                budget_len == self.budget@.len(),
                pairs@ =~= self.budget@.take(i as int),
            decreases budget_len - i,
        {
            pairs.push((self.budget[i].0.clone(), self.budget[i].1));
            proof {
                assert(pairs@ =~= self.budget@.take(i + 1 as int));
            }
            i = i + 1;
        }
        proof {
            assert(self.budget@.take(budget_len as int) =~= self.budget@);
        }
        let sorted = sort_pairs(pairs);
        let ghost sorted_seq = sorted@;

        let mut groups: Vec<(String, Vec<(Expense, Percentage)>)> = Vec::new();
        let sorted_len: usize = sorted.len();
        let mut i: usize = 0;
        while i < sorted_len
            invariant
                i <= sorted_len,
                sorted_len == sorted@.len(),
                sorted@ == sorted_seq,
                group_labels_of(groups@) == pair_labels_in_order(sorted_seq.take(i as int)),
                group_labels_distinct(groups@),
                forall|j: int|
                    0 <= j < groups@.len() ==> (#[trigger] groups@[j]).1@ == pairs_with_label(
                        sorted_seq.take(i as int),
                        groups@[j].0@,
                    ),
            decreases sorted_len - i,
        {
            let ghost prefix = sorted_seq.take(i as int);
            let ghost longer = sorted_seq.take(i + 1 as int);
            let ghost groups0 = groups@;
            proof {
                assert(longer.drop_last() =~= prefix);
                assert(longer.last() == sorted_seq[i as int]);
            }
            let p: (Expense, Percentage) = (sorted[i].0.clone(), sorted[i].1);
            let label: String = match &p.0.category {
                Option::Some(c) => c.clone(),
                Option::None => String::from_str("Без категории"),
            };
            proof {
                assert(label@ == group_label(sorted_seq[i as int].0));
            }
            match find_group(&groups, &label) {
                Option::Some(j) => {
                    let (lbl, mut bucket) = groups.remove(j);
                    bucket.push(p);
                    groups.insert(j, (lbl, bucket));
                    proof {
                        assert(groups@ =~= groups0.update(j as int, groups@[j as int]));
                        let jj = j as int;
                        assert(groups0[jj].0@ == label@);
                        assert(pair_labels_in_order(longer) =~= pair_labels_in_order(prefix)) by {
                            assert(pair_labels_in_order(prefix).contains(
                                group_label(sorted_seq[i as int].0),
                            )) by {
                                assert(group_labels_of(groups0)[jj] == groups0[jj].0@);
                            }
                        }
                        assert(group_labels_of(groups@) =~= group_labels_of(groups0));
                        assert forall|k: int| 0 <= k < groups@.len() implies (
                        #[trigger] groups@[k]).1@ == pairs_with_label(
                            longer,
                            groups@[k].0@,
                        ) by {
                            if k != jj {
                                assert(groups@[k] == groups0[k]);
                                assert(groups0[k].0@ != label@) by {
                                    if k < jj {
                                        assert(groups0[k].0@ != groups0[jj].0@);
                                    } else {
                                        assert(groups0[jj].0@ != groups0[k].0@);
                                    }
                                }
                                assert(pairs_with_label(longer, groups0[k].0@) =~= pairs_with_label(
                                    prefix,
                                    groups0[k].0@,
                                ));
                            } else {
                                assert(groups@[jj].1@ == groups0[jj].1@.push(
                                    sorted_seq[i as int],
                                ));
                                assert(pairs_with_label(longer, label@) =~= pairs_with_label(
                                    prefix,
                                    label@,
                                ).push(sorted_seq[i as int]));
                            }
                        }
                    }
                },
                Option::None => {
                    let mut bucket: Vec<(Expense, Percentage)> = Vec::new();
                    bucket.push(p);
                    groups.push((label, bucket));
                    proof {
                        assert(!pair_labels_in_order(prefix).contains(
                            group_label(sorted_seq[i as int].0),
                        )) by {
                            if pair_labels_in_order(prefix).contains(
                                group_label(sorted_seq[i as int].0),
                            ) {
                                let k = choose|k: int|
                                    0 <= k < pair_labels_in_order(prefix).len()
                                        && pair_labels_in_order(prefix)[k] == group_label(
                                        sorted_seq[i as int].0,
                                    );
                                assert(groups0[k].0@ == group_label(sorted_seq[i as int].0));
                            }
                        }
                        assert(pair_labels_in_order(longer) =~= pair_labels_in_order(prefix).push(
                            group_label(sorted_seq[i as int].0),
                        ));
                        assert(group_labels_of(groups@) =~= group_labels_of(groups0).push(label@));
                        lemma_no_group_label_empty(prefix, label@);
                        assert(pairs_with_label(prefix, label@) =~= Seq::<
                            (Expense, Percentage),
                        >::empty());
                        assert forall|k: int| 0 <= k < groups@.len() implies (
                        #[trigger] groups@[k]).1@ == pairs_with_label(
                            longer,
                            groups@[k].0@,
                        ) by {
                            if k < groups0.len() {
                                assert(groups@[k] == groups0[k]);
                                assert(groups0[k].0@ != label@) by {
                                    assert(group_labels_of(groups0)[k] == groups0[k].0@);
                                    assert(pair_labels_in_order(prefix).contains(
                                        group_labels_of(groups0)[k],
                                    ));
                                }
                                assert(pairs_with_label(longer, groups0[k].0@) =~= pairs_with_label(
                                    prefix,
                                    groups0[k].0@,
                                ));
                            } else {
                                assert(groups@[k] == groups@.last());
                                assert(groups@.last().0 == label);
                                assert(groups@.last().1@ =~= seq![sorted_seq[i as int]]);
                                assert(pairs_with_label(longer, label@) =~= pairs_with_label(
                                    prefix,
                                    label@,
                                ).push(sorted_seq[i as int]));
                                assert(pairs_with_label(longer, label@) =~= seq![
                                    sorted_seq[i as int],
                                ]);
                            }
                        }
                        assert(group_labels_distinct(groups@)) by {
                            assert forall|a: int, b: int|
                                0 <= a < b < groups@.len() implies (#[trigger] groups@[a]).0@ != (
                            #[trigger] groups@[b]).0@ by {
                                if b == groups@.len() - 1 {
                                    assert(group_labels_of(groups0)[a] == groups0[a].0@);
                                    assert(pair_labels_in_order(prefix).contains(
                                        group_labels_of(groups0)[a],
                                    ));
                                }
                            }
                        }
                    }
                },
            }
            i = i + 1;
        }
        proof {
            assert(sorted_seq.take(sorted_len as int) =~= sorted_seq);
        }
        let ghost pre_sort = groups@;
        let groups = sort_groups(groups);
        proof {
            let labels = sort_labels(pair_labels_in_order(sorted_seq));
            assert forall|k: int| 0 <= k < labels.len() implies (#[trigger] groups@[k]).0@
                == labels[k] by {
                assert(group_labels_of(groups@)[k] == groups@[k].0@);
            }
            assert forall|k: int| 0 <= k < labels.len() implies (#[trigger] groups@[k]).1@
                == pairs_with_label(sorted_seq, groups@[k].0@) by {
                let j = choose|j: int| 0 <= j < pre_sort.len() && groups@[k] == pre_sort[j];
                assert(pre_sort[j].1@ == pairs_with_label(sorted_seq, pre_sort[j].0@));
            }
        }
        groups
    }

    /// The category grouping with members only: one entry per category
    /// label in label order, holding that label's expenses sorted by name.
    #[verifier::loop_isolation(false)]
    pub fn categories(&self) -> (r: Vec<(String, Vec<Expense>)>)
        ensures
            ({
                let sorted = sort_pairs_by_name(self.budget@);
                let labels = sort_labels(pair_labels_in_order(sorted));
                &&& r@.len() == labels.len()
                &&& forall|i: int| 0 <= i < labels.len() ==> (#[trigger] r@[i]).0@ == labels[i]
                &&& forall|i: int|
                    0 <= i < labels.len() ==> (#[trigger] r@[i]).1@ == expenses_of(
                        pairs_with_label(sorted, r@[i].0@),
                    )
            }),
    {
        let groups = self.categories_full();
        let ghost groups0 = groups@;
        let mut groups = groups;
        let mut r: Vec<(String, Vec<Expense>)> = Vec::new();
        while groups.len() > 0
            invariant
                r@.len() + groups@.len() == groups0.len(),
                forall|j: int| 0 <= j < r@.len() ==> (#[trigger] r@[j]).0 == groups0[j].0,
                forall|j: int|
                    0 <= j < r@.len() ==> (#[trigger] r@[j]).1@ == expenses_of(groups0[j].1@),
                forall|j: int|
                    0 <= j < groups@.len() ==> (#[trigger] groups@[j]) == groups0[j + r@.len()],
            decreases groups@.len(),
        {
            let ghost left = groups@;
            let (lbl, bucket) = groups.remove(0);
            proof {
                assert(groups@ =~= left.drop_first());
            }
            let ghost bucket0 = bucket@;
            let mut bucket = bucket;
            let mut members: Vec<Expense> = Vec::new();
            while bucket.len() > 0
                invariant
                    members@.len() + bucket@.len() == bucket0.len(),
                    forall|k: int| 0 <= k < members@.len() ==> (#[trigger] members@[k]) == bucket0[k].0,
                    forall|k: int|
                        0 <= k < bucket@.len() ==> (#[trigger] bucket@[k]) == bucket0[k
                            + members@.len()],
                decreases bucket@.len(),
            {
                let ghost bleft = bucket@;
                let (e, _) = bucket.remove(0);
                proof {
                    assert(bucket@ =~= bleft.drop_first());
                }
                members.push(e);
            }
            proof {
                assert(members@ =~= expenses_of(bucket0));
            }
            r.push((lbl, members));
        }
        r
    }

    /// The share of the expected income that each category claims: the sum
    /// of its members' percentages, one entry per label in label order.
    #[verifier::loop_isolation(false)]
    pub fn category_subtotals(&self) -> (r: Vec<(String, Percentage)>)
        requires
            self.wf(),
        ensures
            ({
                let sorted = sort_pairs_by_name(self.budget@);
                let labels = sort_labels(pair_labels_in_order(sorted));
                &&& r@.len() == labels.len()
                &&& forall|i: int| 0 <= i < labels.len() ==> (#[trigger] r@[i]).0@ == labels[i]
                &&& forall|i: int|
                    0 <= i < labels.len() ==> (#[trigger] r@[i]).1.hundredths == pair_h_sum(
                        pairs_with_label(sorted, r@[i].0@),
                    )
            }),
    {
        let ghost sorted_spec = sort_pairs_by_name(self.budget@);
        proof {
            lemma_sort_pairs_len(self.budget@);
            lemma_sort_pairs_elements(self.budget@);
        }
        let groups = self.categories_full();
        let ghost groups0 = groups@;
        let mut groups = groups;
        let mut r: Vec<(String, Percentage)> = Vec::new();
        while groups.len() > 0
            invariant
                self.wf(),
                r@.len() + groups@.len() == groups0.len(),
                forall|j: int| 0 <= j < r@.len() ==> (#[trigger] r@[j]).0 == groups0[j].0,
                forall|j: int|
                    0 <= j < r@.len() ==> (#[trigger] r@[j]).1.hundredths == pair_h_sum(
                        groups0[j].1@,
                    ),
                forall|j: int|
                    0 <= j < groups@.len() ==> (#[trigger] groups@[j]) == groups0[j + r@.len()],
            decreases groups@.len(),
        {
            let ghost left = groups@;
            let (lbl, bucket) = groups.remove(0);
            proof {
                assert(groups@ =~= left.drop_first());
                let gi = r@.len() as int;
                assert(bucket@ == pairs_with_label(sorted_spec, groups0[gi].0@));
                lemma_with_label_len(sorted_spec, groups0[gi].0@);
                lemma_with_label_elements(sorted_spec, groups0[gi].0@);
                assert forall|k: int| 0 <= k < bucket@.len() implies 0 <= (
                #[trigger] bucket@[k]).1.hundredths <= FULL_PERCENT by {
                    let a = choose|a: int| 0 <= a < sorted_spec.len() && bucket@[k] == sorted_spec[a];
                    let b = choose|b: int|
                        0 <= b < self.budget@.len() && sorted_spec[a] == self.budget@[b];
                }
            }
            let ghost bucket0 = bucket@;
            let bucket_len: usize = bucket.len();
            let mut total: i64 = 0;
            let mut k: usize = 0;
            while k < bucket_len
                invariant
                    k <= bucket_len,
                    bucket_len == bucket@.len(),
                    bucket@ == bucket0,
                    bucket_len <= MAX_EXPENSES,
                    forall|a: int|
                        0 <= a < bucket@.len() ==> 0 <= (#[trigger] bucket@[a]).1.hundredths
                            <= FULL_PERCENT,
                    total == pair_h_sum(bucket0.take(k as int)),
                    0 <= total <= (k as int) * FULL_PERCENT,
                decreases bucket_len - k,
            {
                proof {
                    assert(bucket0.take(k + 1 as int).drop_last() =~= bucket0.take(k as int));
                    lemma_times_step(k as int, FULL_PERCENT as int);
                }
                total = total + bucket[k].1.hundredths;
                k = k + 1;
            }
            proof {
                assert(bucket0.take(bucket_len as int) =~= bucket0);
                assert((bucket_len as int) * FULL_PERCENT <= (MAX_EXPENSES as int) * FULL_PERCENT)
                    by (nonlinear_arith)
                    requires
                        0 <= bucket_len as int <= MAX_EXPENSES as int,
                ;
            }
            r.push((lbl, Percentage::from(total)));
        }
        r
    }
}

/// The expenses of a sequence of budget pairs, in order.
pub open spec fn expenses_of(s: Seq<(Expense, Percentage)>) -> Seq<Expense> {
    Seq::new(s.len(), |i: int| s[i].0)
}

proof fn lemma_times_step(i: int, c: int)
    requires
        0 <= i,
        0 <= c,
    ensures
        (i + 1) * c == i * c + c,
{
    assert((i + 1) * c == i * c + c) by (nonlinear_arith);
}

/// Insertion keeps the length and the elements of the input.
proof fn lemma_insert_pair_elements(x: (Expense, Percentage), s: Seq<(Expense, Percentage)>)
    ensures
        insert_pair_by_name(x, s).len() == s.len() + 1,
        forall|i: int|
            0 <= i < insert_pair_by_name(x, s).len() ==> #[trigger] insert_pair_by_name(x, s)[i]
                == x || exists|j: int| 0 <= j < s.len() && insert_pair_by_name(x, s)[i] == s[j],
    decreases s.len(),
{
    let r = insert_pair_by_name(x, s);
    if s.len() == 0 {
        assert(r =~= seq![x]);
    } else if lex_lt(x.0.name@, s[0].0.name@) {
        assert(r =~= seq![x] + s);
        assert forall|i: int| 0 <= i < r.len() implies #[trigger] r[i] == x || exists|j: int|
            0 <= j < s.len() && r[i] == s[j] by {
            if i > 0 {
                assert(r[i] == s[i - 1]);
            }
        }
    } else {
        lemma_insert_pair_elements(x, s.drop_first());
        let rest = insert_pair_by_name(x, s.drop_first());
        assert(r =~= seq![s[0]] + rest);
        assert forall|i: int| 0 <= i < r.len() implies #[trigger] r[i] == x || exists|j: int|
            0 <= j < s.len() && r[i] == s[j] by {
            if i == 0 {
                assert(r[0] == s[0]);
            } else {
                assert(r[i] == rest[i - 1]);
                if rest[i - 1] == x {
                } else {
                    let j = choose|j: int|
                        0 <= j < s.drop_first().len() && rest[i - 1] == s.drop_first()[j];
                    assert(r[i] == s[j + 1]);
                }
            }
        }
    }
}

/// Sorting keeps the length and the elements of the input.
proof fn lemma_sort_pairs_len(s: Seq<(Expense, Percentage)>)
    ensures
        sort_pairs_by_name(s).len() == s.len(),
    decreases s.len(),
{
    if s.len() > 0 {
        lemma_sort_pairs_len(s.drop_last());
        lemma_insert_pair_elements(s.last(), sort_pairs_by_name(s.drop_last()));
    }
}

/// Every element of the sorted sequence is an element of the input.
proof fn lemma_sort_pairs_elements(s: Seq<(Expense, Percentage)>)
    ensures
        forall|i: int|
            0 <= i < sort_pairs_by_name(s).len() ==> exists|j: int|
                0 <= j < s.len() && #[trigger] sort_pairs_by_name(s)[i] == s[j],
    decreases s.len(),
{
    let r = sort_pairs_by_name(s);
    if s.len() > 0 {
        lemma_sort_pairs_elements(s.drop_last());
        let rest = sort_pairs_by_name(s.drop_last());
        lemma_insert_pair_elements(s.last(), rest);
        assert forall|i: int| 0 <= i < r.len() implies exists|j: int|
            0 <= j < s.len() && #[trigger] r[i] == s[j] by {
            if r[i] == s.last() {
                assert(r[i] == s[s.len() - 1]);
            } else {
                let a = choose|a: int| 0 <= a < rest.len() && r[i] == rest[a];
                let b = choose|b: int| 0 <= b < s.drop_last().len() && rest[a] == s.drop_last()[b];
                assert(r[i] == s[b]);
            }
        }
    }
}

/// A label's group is no longer than the sequence it is drawn from.
proof fn lemma_with_label_len(s: Seq<(Expense, Percentage)>, lbl: Seq<char>)
    ensures
        pairs_with_label(s, lbl).len() <= s.len(),
    decreases s.len(),
{
    if s.len() > 0 {
        lemma_with_label_len(s.drop_last(), lbl);
    }
}

/// Every element of a label's group is an element of the sequence.
proof fn lemma_with_label_elements(s: Seq<(Expense, Percentage)>, lbl: Seq<char>)
    ensures
        forall|i: int|
            0 <= i < pairs_with_label(s, lbl).len() ==> exists|j: int|
                0 <= j < s.len() && #[trigger] pairs_with_label(s, lbl)[i] == s[j],
    decreases s.len(),
{
    let r = pairs_with_label(s, lbl);
    if s.len() > 0 {
        lemma_with_label_elements(s.drop_last(), lbl);
        let rest = pairs_with_label(s.drop_last(), lbl);
        assert forall|i: int| 0 <= i < r.len() implies exists|j: int|
            0 <= j < s.len() && #[trigger] r[i] == s[j] by {
            if i < rest.len() {
                assert(r[i] == rest[i]);
                let b = choose|b: int| 0 <= b < s.drop_last().len() && rest[i] == s.drop_last()[b];
                assert(r[i] == s[b]);
            } else {
                assert(r[i] == s[s.len() - 1]);
            }
        }
    }
}

} // verus!
