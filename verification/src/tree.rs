//! A plain tree of presentation nodes for plans and budgets.
//!
//! Rendering draws a plan or a budget as a tree of labelled lines;
//! `max_widths` measures the widest expense name and amount over a whole
//! tree, so that a renderer can align its columns.

use vstd::prelude::*;

verus! {

/// One line of a rendered plan or budget.
#[derive(Debug, Clone)]
pub enum PlanNode {
    Title(String),
    Category(String),
    Expense { name: String, amount: String, percent: String },
    Total { amount: String, percent: String },
    Other(String),
}

/// A tree of values: a node and its subtrees.
#[derive(Debug)]
pub struct TreeNode<T> {
    pub value: T,
    pub children: Vec<TreeNode<T>>,
}

impl<T> TreeNode<T> {
    pub fn new(value: T) -> (t: TreeNode<T>)
        ensures
            t.value == value,
            t.children@.len() == 0,
    {
        TreeNode { value, children: Vec::new() }
    }

    pub fn with_children(value: T, children: Vec<TreeNode<T>>) -> (t: TreeNode<T>)
        ensures
            t.value == value,
            t.children == children,
    {
        TreeNode { value, children }
    }

    pub fn add_child(&mut self, child: TreeNode<T>)
        ensures
            final(self).value == old(self).value,
            final(self).children@ == old(self).children@.push(child),
    {
        self.children.push(child);
    }
}

/// The width of the name a node itself shows.
pub open spec fn node_name_width(v: PlanNode) -> int {
    match v {
        PlanNode::Expense { name, amount, percent } => name@.len() as int,
        _ => 0,
    }
}

/// The width of the amount a node itself shows.
pub open spec fn node_amount_width(v: PlanNode) -> int {
    match v {
        PlanNode::Expense { name, amount, percent } => amount@.len() as int,
        PlanNode::Total { amount, percent } => amount@.len() as int,
        _ => 0,
    }
}

/// The widest name over a subtree.
pub open spec fn tree_name_width(t: TreeNode<PlanNode>) -> int
    decreases t, t.children@.len() + 1,
{
    max_int(node_name_width(t.value), forest_name_width(t, t.children@.len() as int))
}

/// The widest name over the first `k` subtrees of `t`.
pub open spec fn forest_name_width(t: TreeNode<PlanNode>, k: int) -> int
    decreases t, k,
{
    if k <= 0 || k > t.children@.len() {
        0
    } else {
        max_int(forest_name_width(t, k - 1), tree_name_width(t.children@[k - 1]))
    }
}

/// The widest amount over a subtree.
pub open spec fn tree_amount_width(t: TreeNode<PlanNode>) -> int
    decreases t, t.children@.len() + 1,
{
    max_int(node_amount_width(t.value), forest_amount_width(t, t.children@.len() as int))
}

/// The widest amount over the first `k` subtrees of `t`.
pub open spec fn forest_amount_width(t: TreeNode<PlanNode>, k: int) -> int
    decreases t, k,
{
    if k <= 0 || k > t.children@.len() {
        0
    } else {
        max_int(forest_amount_width(t, k - 1), tree_amount_width(t.children@[k - 1]))
    }
}

/// The larger of two widths.
pub open spec fn max_int(a: int, b: int) -> int {
    if a >= b {
        a
    } else {
        b
    }
}

/// The widest expense name and the widest amount anywhere in the tree, for
/// aligning rendered columns.
#[verifier::loop_isolation(false)]
pub fn max_widths(tree: &TreeNode<PlanNode>) -> (r: (usize, usize))
    ensures
        r.0 == tree_name_width(*tree),
        r.1 == tree_amount_width(*tree),
    decreases *tree,
{
    let mut name_w: usize = match &tree.value {
        PlanNode::Expense { name, amount, percent } => name.unicode_len(),
        _ => 0,
    };
    let mut amount_w: usize = match &tree.value {
        PlanNode::Expense { name, amount, percent } => amount.unicode_len(),
        PlanNode::Total { amount, percent } => amount.unicode_len(),
        _ => 0,
    };
    let n: usize = tree.children.len();
    let mut i: usize = 0;
    while i < n
        invariant
            i <= n,
            n == tree.children@.len(),
            name_w == max_int(node_name_width(tree.value), forest_name_width(*tree, i as int)),
            amount_w == max_int(
                node_amount_width(tree.value),
                forest_amount_width(*tree, i as int),
            ),
        decreases n - i,
    {
        let child: &TreeNode<PlanNode> = &tree.children[i];
        let (cn, ca) = max_widths(child);
        if cn > name_w {
            name_w = cn;
        }
        if ca > amount_w {
            amount_w = ca;
        }
        i = i + 1;
    }
    (name_w, amount_w)
}

} // verus!
