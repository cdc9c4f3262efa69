//! The decision tree itself: nodes, the recursive builder with its stopping
//! rules, traversal, and the classifier facade with fit and predict.

pub mod utils;

use crate::data::Data;
use crate::model;
use crate::tree::utils::Distribution;
use vstd::prelude::*;

verus! {

/// The errors the classifier surfaces to its caller.
#[derive(Clone, Copy, Debug, PartialEq, Eq)]
pub enum TreeError {
    /// Row count of the features disagrees with the label count, or a
    /// feature row is too short for the tree's splits.
    ShapeMismatch,
    /// Training was asked for on an empty dataset.
    EmptyInput,
    /// Prediction was asked for before any model was fit.
    Unfitted,
}

/// A node of the fitted tree: a leaf carries the class distribution of its
/// training subset; an internal node routes a row left when its `feature`
/// entry is at most `threshold`, else right.
#[derive(Debug, PartialEq, Eq)]
pub enum Node {
    Leaf { value: Distribution },
    Internal { feature: usize, threshold: u64, left: Box<Node>, right: Box<Node> },
}

impl Node {
    pub fn is_leaf(&self) -> (r: bool)
        ensures
            r == (self is Leaf),
    {
        match self {
            Node::Leaf { .. } => true,
            Node::Internal { .. } => false,
        }
    }
}

/// Every leaf distribution of the tree is well formed.
pub open spec fn tree_ok(node: Node) -> bool
    decreases node,
{
    match node {
        Node::Leaf { value } => value.wf(),
        Node::Internal { left, right, .. } => tree_ok(*left) && tree_ok(*right),
    }
}

/// A stopping rule fires: the depth budget is spent, the sample is too
/// small to split, or it is already pure.
pub open spec fn stop_now(y: Seq<u8>, depth: int, max_depth: int, min_split: int) -> bool {
    depth > max_depth || (y.len() as int) < min_split || model::num_classes(y) == 1
}

/// The tree that the recursive builder grows from `(x, y)` at `depth`:
/// a leaf with the exact class distribution of `y` where a stopping rule
/// fires or where the best split routes every row left; otherwise an
/// internal node carrying the best split and the two subtrees built from
/// the partition it induces.
pub open spec fn wf_build(
    x: Seq<Seq<u64>>,
    y: Seq<u8>,
    depth: int,
    max_depth: int,
    min_split: int,
    node: Node,
) -> bool
    decreases node,
{
    match node {
        Node::Leaf { value } => {
            &&& value.is_dist_of(y)
            &&& (stop_now(y, depth, max_depth, min_split) || exists|f: int, t: u64|
                #[trigger] model::is_best_split(x, y, f, t) && model::all_true(
                    model::le_mask(x, f, t),
                ))
        },
        Node::Internal { feature, threshold, left, right } => {
            let m = model::le_mask(x, feature as int, threshold);
            &&& !stop_now(y, depth, max_depth, min_split)
            &&& model::is_best_split(x, y, feature as int, threshold)
            &&& !model::all_true(m)
            &&& wf_build(
                model::filter_mask(x, m, true),
                model::filter_mask(y, m, true),
                depth + 1,
                max_depth,
                min_split,
                *left,
            )
            &&& wf_build(
                model::filter_mask(x, m, false),
                model::filter_mask(y, m, false),
                depth + 1,
                max_depth,
                min_split,
                *right,
            )
        },
    }
}

/// Routes one feature row down the tree: left where the split column's
/// entry is at most the threshold, right otherwise; the reached leaf's
/// distribution is the answer. A row too short for a split it meets gives
/// nothing.
pub open spec fn traverse_spec(node: Node, row: Seq<u64>) -> Option<Distribution>
    decreases node,
{
    match node {
        Node::Leaf { value } => Some(value),
        Node::Internal { feature, threshold, left, right } => {
            if feature as int >= row.len() {
                None
            } else if row[feature as int] <= threshold {
                traverse_spec(*left, row)
            } else {
                traverse_spec(*right, row)
            }
        },
    }
}

/// The CART-style classifier: hyperparameters fixed at construction, and
/// the root of the fitted tree, absent until `fit` succeeds.
#[derive(Debug, PartialEq, Eq)]
pub struct DecisionTreeClassifier {
    root: Option<Box<Node>>,
    pub max_depth: usize,
    pub min_samples_split: usize,
}

impl DecisionTreeClassifier {
    /// The depth budget, as given at construction.
    pub closed spec fn spec_max_depth(self) -> int {
        self.max_depth as int
    }

    /// The smallest sample size still split, as given at construction.
    pub closed spec fn spec_min_samples_split(self) -> int {
        self.min_samples_split as int
    }

    /// The fitted tree, if any.
    pub closed spec fn fitted_root(self) -> Option<Node> {
        match self.root {
            Some(node) => Some(*node),
            None => None,
        }
    }

    /// Every tree this classifier holds has well-formed leaf
    /// distributions; constructors establish it and every method keeps it.
    pub closed spec fn wf(self) -> bool {
        match self.root {
            Some(node) => tree_ok(*node),
            None => true,
        }
    }

    pub fn new(max_depth: usize, min_samples_split: usize) -> (r: DecisionTreeClassifier)
        ensures
            r.spec_max_depth() == max_depth,
            r.spec_min_samples_split() == min_samples_split,
            r.fitted_root() is None,
            r.wf(),
    {
        DecisionTreeClassifier { root: None, max_depth, min_samples_split }
    }

    /// Whether a stopping rule fires for `y` at `depth`.
    fn should_stop(&self, depth: usize, y: &Vec<u8>) -> (r: bool)
        ensures
            r == stop_now(y@, depth as int, self.max_depth as int, self.min_samples_split as int),
    {
        let n_samples = y.len();
        let d = utils::get_probabilities(y);
        let n_classes = d.entries.len();
        depth > self.max_depth || n_samples < self.min_samples_split || n_classes == 1
    }

    /// Grows the tree for `(x, y)` at `depth` by recursive descent.
    fn build_tree(&self, x: &Data, y: &Vec<u8>, depth: usize) -> (node: Node)
        requires
            x.wf(),
            y@.len() == x@.len(),
            x.rows >= 1,
            x.cols >= 1,
            y@.len() < 0x20_0000,
            self.max_depth < usize::MAX,
        ensures
            wf_build(
                x@,
                y@,
                depth as int,
                self.max_depth as int,
                self.min_samples_split as int,
                node,
            ),
        decreases self.max_depth + 1 - depth,
    {
        if self.should_stop(depth, y) {
            let value = utils::get_probabilities(y);
            return Node::Leaf { value };
        }
        let (best_feature, best_threshold) = utils::find_best_split(x, y);
        let left_idx = x.lt_eq(best_feature, best_threshold);
        let mut all_left = true;
        let mut i: usize = 0;
        while i < left_idx.len()
            invariant
                i <= left_idx@.len(),
                all_left <==> (forall|j: int| 0 <= j < i ==> #[trigger] left_idx@[j]),
            decreases left_idx.len() - i,
        {
            if !left_idx[i] {
                all_left = false;
            }
            i = i + 1;
        }
        if all_left {
            let value = utils::get_probabilities(y);
            proof {
                assert(model::all_true(left_idx@));
            }
            return Node::Leaf { value };
        }
        let ghost m = model::le_mask(x@, best_feature as int, best_threshold);
        proof {
            let f = best_feature as int;
            let wi = choose|i: int| 0 <= i < x@.len() && x@[i][f] == best_threshold;
            assert(left_idx@[wi] == true);
            model::lemma_filter_mask_pos(x@, left_idx@, true, wi);
            let wj = choose|j: int| 0 <= j < left_idx@.len() && !left_idx@[j];
            model::lemma_filter_mask_pos(x@, left_idx@, false, wj);
            model::lemma_filter_mask_split(x@, left_idx@);
        }
        let split = utils::get_split(x, y, left_idx);
        let left_node = self.build_tree(&split.left_data.0, &split.left_data.1, depth + 1);
        let right_node = self.build_tree(&split.right_data.0, &split.right_data.1, depth + 1);
        Node::Internal {
            feature: best_feature,
            threshold: best_threshold,
            left: Box::new(left_node),
            right: Box::new(right_node),
        }
    }

    /// Validates the dataset shape and replaces the model with the tree
    /// grown from `(x, y)`: rejects a row/label count mismatch, then an
    /// empty dataset; on success the previous model is discarded wholesale.
    pub fn fit(&mut self, x: &Data, y: &Vec<u8>) -> (r: Result<(), TreeError>)
        requires
            x.wf(),
            x.cols >= 1,
            x@.len() < 0x20_0000,
            old(self).wf(),
            old(self).spec_max_depth() < usize::MAX,
        ensures
            final(self).spec_max_depth() == old(self).spec_max_depth(),
            final(self).spec_min_samples_split() == old(self).spec_min_samples_split(),
            final(self).wf(),
            r is Ok <==> (x@.len() == y@.len() && x@.len() >= 1),
            x@.len() != y@.len() ==> r == Result::<(), TreeError>::Err(TreeError::ShapeMismatch)
                && *final(self) == *old(self),
            x@.len() == y@.len() && x@.len() == 0 ==> r == Result::<(), TreeError>::Err(
                TreeError::EmptyInput,
            ) && *final(self) == *old(self),
            r is Ok ==> (final(self).fitted_root() matches Some(root) && wf_build(
                x@,
                y@,
                0,
                old(self).spec_max_depth(),
                old(self).spec_min_samples_split(),
                root,
            )),
    {
        if x.rows != y.len() {
            return Err(TreeError::ShapeMismatch);
        }
        if x.rows == 0 {
            return Err(TreeError::EmptyInput);
        }
        let node = self.build_tree(x, y, 0);
        proof {
            lemma_wf_build_tree_ok(
                x@,
                y@,
                0,
                self.max_depth as int,
                self.min_samples_split as int,
                node,
            );
        }
        self.root = Some(Box::new(node));
        Ok(())
    }

    /// Routes one feature row from the root to a leaf and hands back that
    /// leaf's distribution.
    fn traverse_tree(&self, x: &Vec<u64>) -> (r: Result<Distribution, TreeError>)
        requires
            self.fitted_root() is Some,
        ensures
            match traverse_spec(self.fitted_root().unwrap(), x@) {
                Some(d) => r matches Ok(out) && out.entries@ == d.entries@ && out.total == d.total,
                None => r == Result::<Distribution, TreeError>::Err(TreeError::ShapeMismatch),
            },
    {
        match &self.root {
            Some(node) => traverse_node(node, x),
            None => Err(TreeError::Unfitted),
        }
    }

    /// One distribution per row of `x`, in row order: the leaf reached by
    /// traversing the fitted tree with that row. Fails with `Unfitted`
    /// before any successful `fit`, and with `ShapeMismatch` when a row is
    /// too short for a split the traversal meets.
    pub fn predict_proba(&self, x: &Data) -> (r: Result<Vec<Distribution>, TreeError>)
        requires
            x.wf(),
        ensures
            match self.fitted_root() {
                None => r == Result::<Vec<Distribution>, TreeError>::Err(TreeError::Unfitted),
                Some(root) => match r {
                    Ok(ds) => ds@.len() == x@.len() && forall|i: int|
                        0 <= i < x@.len() ==> ((#[trigger] traverse_spec(root, x@[i])) matches Some(
                            d,
                        ) && ds@[i].entries@ == d.entries@ && ds@[i].total == d.total),
                    Err(e) => e == TreeError::ShapeMismatch && exists|i: int|
                        0 <= i < x@.len() && (#[trigger] traverse_spec(root, x@[i])) is None,
                },
            },
    {
        if self.root.is_none() {
            return Err(TreeError::Unfitted);
        }
        proof {
            crate::data::lemma_table_view(x.data);
        }
        let mut out: Vec<Distribution> = Vec::new();
        let mut i: usize = 0;
        while i < x.rows
            invariant
                x.wf(),
                self.fitted_root() is Some,
                x.data@.len() == x@.len(),
                forall|k: int| 0 <= k < x@.len() ==> #[trigger] x.data@[k]@ == x@[k],
                i <= x@.len(),
                out@.len() == i,
                forall|k: int|
                    0 <= k < i ==> ((#[trigger] traverse_spec(
                        self.fitted_root().unwrap(),
                        x@[k],
                    )) matches Some(d) && out@[k].entries@ == d.entries@ && out@[k].total
                        == d.total),
            decreases x.rows - i,
        {
            match self.traverse_tree(&x.data[i]) {
                Ok(d) => {
                    out.push(d);
                },
                Err(_) => {
                    return Err(TreeError::ShapeMismatch);
                },
            }
            i = i + 1;
        }
        Ok(out)
    }

    /// One class code per row of `x`, in row order: the class of maximal
    /// probability in the row's leaf distribution, ties broken by the
    /// smallest class code. Fails as `predict_proba` does.
    pub fn predict(&self, x: &Data) -> (r: Result<Vec<u8>, TreeError>)
        requires
            x.wf(),
            self.wf(),
        ensures
            match self.fitted_root() {
                None => r == Result::<Vec<u8>, TreeError>::Err(TreeError::Unfitted),
                Some(root) => match r {
                    Ok(cs) => cs@.len() == x@.len() && forall|i: int|
                        0 <= i < x@.len() ==> ((#[trigger] traverse_spec(root, x@[i])) matches Some(
                            d,
                        ) && is_argmax(d.entries@, cs@[i])),
                    Err(e) => e == TreeError::ShapeMismatch && exists|i: int|
                        0 <= i < x@.len() && (#[trigger] traverse_spec(root, x@[i])) is None,
                },
            },
    {
        if self.root.is_none() {
            return Err(TreeError::Unfitted);
        }
        proof {
            crate::data::lemma_table_view(x.data);
        }
        let mut out: Vec<u8> = Vec::new();
        let mut i: usize = 0;
        while i < x.rows
            invariant
                x.wf(),
                self.wf(),
                self.fitted_root() is Some,
                x.data@.len() == x@.len(),
                forall|k: int| 0 <= k < x@.len() ==> #[trigger] x.data@[k]@ == x@[k],
                i <= x@.len(),
                out@.len() == i,
                forall|k: int|
                    0 <= k < i ==> ((#[trigger] traverse_spec(
                        self.fitted_root().unwrap(),
                        x@[k],
                    )) matches Some(d) && is_argmax(d.entries@, out@[k])),
            decreases x.rows - i,
        {
            match self.traverse_tree(&x.data[i]) {
                Ok(d) => {
                    proof {
                        lemma_traverse_ok(self.fitted_root().unwrap(), x@[i as int]);
                    }
                    let c = argmax_class(&d.entries);
                    out.push(c);
                },
                Err(_) => {
                    return Err(TreeError::ShapeMismatch);
                },
            }
            i = i + 1;
        }
        Ok(out)
    }
}

/// Recursive descent of one row through a subtree.
fn traverse_node(node: &Node, row: &Vec<u64>) -> (r: Result<Distribution, TreeError>)
    ensures
        match traverse_spec(*node, row@) {
            Some(d) => r matches Ok(out) && out.entries@ == d.entries@ && out.total == d.total,
            None => r == Result::<Distribution, TreeError>::Err(TreeError::ShapeMismatch),
        },
    decreases *node,
{
    match node {
        Node::Leaf { value } => Ok(value.duplicate()),
        Node::Internal { feature, threshold, left, right } => {
            if *feature >= row.len() {
                Err(TreeError::ShapeMismatch)
            } else if row[*feature] <= *threshold {
                traverse_node(&**left, row)
            } else {
                traverse_node(&**right, row)
            }
        },
    }
}

/// `c` carries a maximal count in `s`, and is the smallest class code
/// among those that do.
pub open spec fn is_argmax(s: Seq<(u8, u64)>, c: u8) -> bool {
    exists|k: int| 0 <= k < s.len() && (#[trigger] s[k]).0 == c && is_max_at(s, k)
}

/// The count at `k` is maximal in `s`, and every other maximal entry has a
/// class code at least `s[k].0`.
pub open spec fn is_max_at(s: Seq<(u8, u64)>, k: int) -> bool {
    forall|l: int|
        0 <= l < s.len() ==> ((#[trigger] s[l]).1 < s[k].1 || (s[l].1 == s[k].1 && s[k].0
            <= s[l].0))
}

/// The class of maximal count, ties broken by the smallest class code.
fn argmax_class(entries: &Vec<(u8, u64)>) -> (r: u8)
    requires
        entries@.len() >= 1,
    ensures
        is_argmax(entries@, r),
{
    let mut best_k: usize = 0;
    let mut i: usize = 1;
    while i < entries.len()
        invariant
            entries@.len() >= 1,
            best_k < i,
            1 <= i <= entries@.len(),
            forall|l: int|
                0 <= l < i ==> ((#[trigger] entries@[l]).1 < entries@[best_k as int].1 || (
                entries@[l].1 == entries@[best_k as int].1 && entries@[best_k as int].0
                    <= entries@[l].0)),
        decreases entries.len() - i,
    {
        if entries[i].1 > entries[best_k].1 || (entries[i].1 == entries[best_k].1 && entries[i].0
            < entries[best_k].0) {
            best_k = i;
        }
        i = i + 1;
    }
    entries[best_k].0
}

/// A well-formed tree hands out only well-formed leaf distributions.
pub proof fn lemma_traverse_ok(node: Node, row: Seq<u64>)
    requires
        tree_ok(node),
        traverse_spec(node, row) is Some,
    ensures
        traverse_spec(node, row).unwrap().wf(),
    decreases node,
{
    match node {
        Node::Leaf { .. } => {},
        Node::Internal { feature, threshold, left, right } => {
            if (feature as int) < row.len() {
                if row[feature as int] <= threshold {
                    lemma_traverse_ok(*left, row);
                } else {
                    lemma_traverse_ok(*right, row);
                }
            }
        },
    }
}

/// Height of a tree: a leaf has height zero, an internal node one more
/// than its taller subtree.
pub open spec fn height(node: Node) -> int
    decreases node,
{
    match node {
        Node::Leaf { .. } => 0,
        Node::Internal { left, right, .. } => 1 + if height(*left) >= height(*right) {
            height(*left)
        } else {
            height(*right)
        },
    }
}

/// Depth law: the builder splits only while `depth <= max_depth`, so no
/// leaf of a tree built at `depth` lies deeper than `max_depth + 1`.
pub proof fn lemma_leaf_depth_bound(
    x: Seq<Seq<u64>>,
    y: Seq<u8>,
    depth: int,
    max_depth: int,
    min_split: int,
    node: Node,
)
    requires
        wf_build(x, y, depth, max_depth, min_split, node),
        depth <= max_depth + 1,
    ensures
        depth + height(node) <= max_depth + 1,
    decreases node,
{
    match node {
        Node::Leaf { .. } => {},
        Node::Internal { feature, threshold, left, right } => {
            let m = model::le_mask(x, feature as int, threshold);
            lemma_leaf_depth_bound(
                model::filter_mask(x, m, true),
                model::filter_mask(y, m, true),
                depth + 1,
                max_depth,
                min_split,
                *left,
            );
            lemma_leaf_depth_bound(
                model::filter_mask(x, m, false),
                model::filter_mask(y, m, false),
                depth + 1,
                max_depth,
                min_split,
                *right,
            );
        },
    }
}

/// Sample-count tracking through a build: every internal node's label
/// subset has at least `min_split` samples, recursively down the tree.
/// (A leaf may hold fewer: the rule stops splitting small subsets, it
/// does not forbid a split from producing one.)
pub open spec fn internal_counts_ok(
    x: Seq<Seq<u64>>,
    y: Seq<u8>,
    min_split: int,
    node: Node,
) -> bool
    decreases node,
{
    match node {
        Node::Leaf { .. } => true,
        Node::Internal { feature, threshold, left, right } => {
            let m = model::le_mask(x, feature as int, threshold);
            &&& y.len() >= min_split
            &&& internal_counts_ok(
                model::filter_mask(x, m, true),
                model::filter_mask(y, m, true),
                min_split,
                *left,
            )
            &&& internal_counts_ok(
                model::filter_mask(x, m, false),
                model::filter_mask(y, m, false),
                min_split,
                *right,
            )
        },
    }
}

/// Sample-count law: a build never splits a node whose label subset is
/// smaller than `min_split`.
pub proof fn lemma_internal_min_samples(
    x: Seq<Seq<u64>>,
    y: Seq<u8>,
    depth: int,
    max_depth: int,
    min_split: int,
    node: Node,
)
    requires
        wf_build(x, y, depth, max_depth, min_split, node),
    ensures
        internal_counts_ok(x, y, min_split, node),
    decreases node,
{
    match node {
        Node::Leaf { .. } => {},
        Node::Internal { feature, threshold, left, right } => {
            let m = model::le_mask(x, feature as int, threshold);
            lemma_internal_min_samples(
                model::filter_mask(x, m, true),
                model::filter_mask(y, m, true),
                depth + 1,
                max_depth,
                min_split,
                *left,
            );
            lemma_internal_min_samples(
                model::filter_mask(x, m, false),
                model::filter_mask(y, m, false),
                depth + 1,
                max_depth,
                min_split,
                *right,
            );
        },
    }
}

/// Purity law: a label subset of one distinct class always builds a leaf,
/// whatever the depth, and that leaf's distribution has exactly one key,
/// carrying every sample — its probability is one.
pub proof fn lemma_single_class_leaf(
    x: Seq<Seq<u64>>,
    y: Seq<u8>,
    depth: int,
    max_depth: int,
    min_split: int,
    node: Node,
)
    requires
        wf_build(x, y, depth, max_depth, min_split, node),
        model::single_class(y),
        y.len() <= u64::MAX,
    ensures
        (node matches Node::Leaf { value } && value.entries@ == seq![(y[0], y.len() as u64)]
            && value.total == y.len()),
{
    model::lemma_single_class_iff(y);
}

/// Trees equal in content: the same splits and, at each leaf, the same
/// recorded distribution.
pub open spec fn node_equiv(a: Node, b: Node) -> bool
    decreases a,
{
    match (a, b) {
        (Node::Leaf { value: va }, Node::Leaf { value: vb }) => va.entries@ == vb.entries@
            && va.total == vb.total,
        (
            Node::Internal { feature: fa, threshold: ta, left: la, right: ra },
            Node::Internal { feature: fb, threshold: tb, left: lb, right: rb },
        ) => fa == fb && ta == tb && node_equiv(*la, *lb) && node_equiv(*ra, *rb),
        _ => false,
    }
}

/// Determinism law: for one dataset and one pair of hyperparameters there
/// is only one buildable tree — the split search breaks ties by scan
/// order, so refitting with the same data reproduces the same model.
pub proof fn lemma_build_deterministic(
    x: Seq<Seq<u64>>,
    y: Seq<u8>,
    depth: int,
    max_depth: int,
    min_split: int,
    n1: Node,
    n2: Node,
)
    requires
        wf_build(x, y, depth, max_depth, min_split, n1),
        wf_build(x, y, depth, max_depth, min_split, n2),
        x.len() == y.len(),
        y.len() >= 1,
    ensures
        node_equiv(n1, n2),
    decreases n1,
{
    if !stop_now(y, depth, max_depth, min_split) {
        match (n1, n2) {
            (Node::Leaf { .. }, Node::Leaf { .. }) => {},
            (Node::Leaf { .. }, Node::Internal { feature, threshold, .. }) => {
                let (f, t) = choose|f: int, t: u64|
                    #[trigger] model::is_best_split(x, y, f, t) && model::all_true(
                        model::le_mask(x, f, t),
                    );
                model::lemma_best_split_unique(x, y, f, t, feature as int, threshold);
                assert(false);
            },
            (Node::Internal { feature, threshold, .. }, Node::Leaf { .. }) => {
                let (f, t) = choose|f: int, t: u64|
                    #[trigger] model::is_best_split(x, y, f, t) && model::all_true(
                        model::le_mask(x, f, t),
                    );
                model::lemma_best_split_unique(x, y, f, t, feature as int, threshold);
                assert(false);
            },
            (
                Node::Internal { feature: f1, threshold: t1, left: l1, right: r1 },
                Node::Internal { feature: f2, threshold: t2, left: l2, right: r2 },
            ) => {
                model::lemma_best_split_unique(x, y, f1 as int, t1, f2 as int, t2);
                let m = model::le_mask(x, f1 as int, t1);
                model::lemma_split_shape(x, y, f1 as int, t1);
                lemma_build_deterministic(
                    model::filter_mask(x, m, true),
                    model::filter_mask(y, m, true),
                    depth + 1,
                    max_depth,
                    min_split,
                    *l1,
                    *l2,
                );
                lemma_build_deterministic(
                    model::filter_mask(x, m, false),
                    model::filter_mask(y, m, false),
                    depth + 1,
                    max_depth,
                    min_split,
                    *r1,
                    *r2,
                );
            },
        }
    }
}

/// Refit law: two classifiers with the same hyperparameters fitted on the
/// same data hold trees equal in content.
pub proof fn lemma_fit_deterministic(
    m1: DecisionTreeClassifier,
    m2: DecisionTreeClassifier,
    x: Seq<Seq<u64>>,
    y: Seq<u8>,
)
    requires
        m1.spec_max_depth() == m2.spec_max_depth(),
        m1.spec_min_samples_split() == m2.spec_min_samples_split(),
        m1.fitted_root() is Some,
        m2.fitted_root() is Some,
        wf_build(
            x,
            y,
            0,
            m1.spec_max_depth(),
            m1.spec_min_samples_split(),
            m1.fitted_root().unwrap(),
        ),
        wf_build(
            x,
            y,
            0,
            m2.spec_max_depth(),
            m2.spec_min_samples_split(),
            m2.fitted_root().unwrap(),
        ),
        x.len() == y.len(),
        y.len() >= 1,
    ensures
        node_equiv(m1.fitted_root().unwrap(), m2.fitted_root().unwrap()),
{
    lemma_build_deterministic(
        x,
        y,
        0,
        m1.spec_max_depth(),
        m1.spec_min_samples_split(),
        m1.fitted_root().unwrap(),
        m2.fitted_root().unwrap(),
    );
}

/// A tree built from a non-empty dataset has only well-formed leaf
/// distributions.
pub proof fn lemma_wf_build_tree_ok(
    x: Seq<Seq<u64>>,
    y: Seq<u8>,
    depth: int,
    max_depth: int,
    min_split: int,
    node: Node,
)
    requires
        wf_build(x, y, depth, max_depth, min_split, node),
        x.len() == y.len(),
        1 <= y.len() <= u64::MAX,
    ensures
        tree_ok(node),
    decreases node,
{
    match node {
        Node::Leaf { value } => {
            model::lemma_dist_total(y, 256);
            model::lemma_counts_total(y);
            utils::lemma_dist_of_wf(value, y);
        },
        Node::Internal { feature, threshold, left, right } => {
            let m = model::le_mask(x, feature as int, threshold);
            model::lemma_split_shape(x, y, feature as int, threshold);
            lemma_wf_build_tree_ok(
                model::filter_mask(x, m, true),
                model::filter_mask(y, m, true),
                depth + 1,
                max_depth,
                min_split,
                *left,
            );
            lemma_wf_build_tree_ok(
                model::filter_mask(x, m, false),
                model::filter_mask(y, m, false),
                depth + 1,
                max_depth,
                min_split,
                *right,
            );
        },
    }
}

} // verus!
