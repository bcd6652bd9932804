//! The isolation forest: trees that split a sample at random until its rows are apart.
//!
//! A split value is a random double between two others and comes from the caller. A forest under
//! construction therefore asks for it: `next_split` grows trees until a split value is needed and
//! says between which two numbers it has to lie, and `give_split` takes it and goes on.

use rand::rngs::StdRng;
use vstd::prelude::*;
use vstd::arithmetic::power2::{
    lemma2_to64, lemma_pow2_strictly_increases, lemma_pow2_unfold, pow2,
};

use crate::counting::{count, lemma_count_range, lemma_count_same};
use crate::double::{lemma_order_key, Double, INFINITE, SIGN};
use crate::draws::{draw_usize, drawn_usize, seeded, started};

verus! {

/// The number of trees in a forest.
pub const IF_N_TREES: usize = 100;

/// The largest sample that a tree is grown from.
pub const IF_MAX_SAMPLES: usize = 256;

/// Marks a node without children.
pub const NO_CHILD: usize = usize::MAX;

/// How often a node tries to split before it becomes a leaf.
pub const SPLIT_TRIES: usize = 10;

/// A node of a tree. A leaf has no children, and its `size` is the number of sample rows in it.
#[derive(Clone, Copy, Debug, PartialEq, Eq, Structural)]
pub struct IfNode {
    pub feat: usize,
    pub split: Double,
    pub left: usize,
    pub right: usize,
    pub size: usize,
}

/// A tree, its nodes in one vector.
#[derive(Debug)]
pub struct IfTree {
    pub nodes: Vec<IfNode>,
    pub root: usize,
}

impl IfNode {
    pub open spec fn leaf(self) -> bool {
        self.left == NO_CHILD
    }

    /// Does a row go to the left child?
    pub open spec fn goes_left(self, x: Seq<Double>) -> bool {
        self.split.above(x[self.feat as int])
    }

    pub open spec fn child(self, low: bool) -> int {
        if low {
            self.left as int
        } else {
            self.right as int
        }
    }
}

/// Nodes may have been added and linked, but those that were there split and count as before.
pub open spec fn kept(before: Seq<IfNode>, after: Seq<IfNode>) -> bool {
    &&& before.len() <= after.len()
    &&& forall|i: int|
        #![trigger before[i]]
        #![trigger after[i]]
        0 <= i < before.len() ==> {
            &&& after[i].feat == before[i].feat
            &&& after[i].split == before[i].split
            &&& after[i].size == before[i].size
        }
}

/// The numbers in the rows of a table.
pub open spec fn numbers(rows: Seq<Vec<Double>>) -> Seq<Seq<Double>> {
    Seq::new(rows.len(), |i: int| rows[i]@)
}

/// Rows of the same width.
pub open spec fn table(rows: Seq<Seq<Double>>, dim: nat) -> bool {
    forall|i: int| 0 <= i < rows.len() ==> (#[trigger] rows[i]).len() == dim
}

/// Every row has the column `feat`.
pub open spec fn wide(rows: Seq<Seq<Double>>, feat: int) -> bool {
    forall|i: int| 0 <= i < rows.len() ==> feat < (#[trigger] rows[i]).len()
}

/// The members of a sample whose row lies below a split value (or, with `low` false, does not).
pub open spec fn part(
    rows: Seq<Seq<Double>>,
    sample: Seq<usize>,
    feat: int,
    split: Double,
    low: bool,
) -> Seq<usize>
    decreases sample.len(),
{
    if sample.len() == 0 {
        Seq::empty()
    } else {
        let rest = part(rows, sample.drop_last(), feat, split, low);
        if split.above(rows[sample.last() as int][feat]) == low {
            rest.push(sample.last())
        } else {
            rest
        }
    }
}

/// A column does not tell the rows of a sample apart: all its numbers are equal.
pub open spec fn flat(rows: Seq<Seq<Double>>, sample: Seq<usize>, feat: int) -> bool {
    forall|j: int, k: int|
        #![trigger sample[j], sample[k]]
        0 <= j < sample.len() && 0 <= k < sample.len() && !rows[sample[j] as int][feat].nan()
            && !rows[sample[k] as int][feat].nan() ==> rows[sample[j] as int][feat].value()
            == rows[sample[k] as int][feat].value()
}

/// A try to split: the column that was drawn, and whether the split value that was given for it
/// missed the range of the column.
pub struct Attempt {
    pub feat: usize,
    pub missed: bool,
}

/// A try that did not split a sample: its column does not tell the rows apart, or the split value
/// missed.
pub open spec fn vain(
    rows: Seq<Seq<Double>>,
    sample: Seq<usize>,
    dim: nat,
    attempt: Attempt,
) -> bool {
    attempt.feat < dim && (attempt.missed || flat(rows, sample, attempt.feat as int))
}

/// As many tries as a node has, all in vain.
pub open spec fn worn_out(
    rows: Seq<Seq<Double>>,
    sample: Seq<usize>,
    dim: nat,
    tries: Seq<Attempt>,
) -> bool {
    &&& tries.len() == SPLIT_TRIES
    &&& forall|k: int| 0 <= k < tries.len() ==> vain(rows, sample, dim, #[trigger] tries[k])
}

/// No split value missed the range that it was asked for.
pub open spec fn unmissed(tries: Seq<Seq<Attempt>>) -> bool {
    forall|i: int, k: int|
        0 <= i < tries.len() && 0 <= k < tries[i].len() ==> !(#[trigger] tries[i][k]).missed
}

/// The subtree at node `at` splits the sample step by step: an inner node parts its sample into
/// two that are not empty, a leaf knows how many rows it holds, and no node lies deeper than
/// `limit`. A leaf of two rows or more lies at the limit, or all its tries, `tries[at]`, were in
/// vain.
pub open spec fn grown(
    nodes: Seq<IfNode>,
    rows: Seq<Seq<Double>>,
    dim: nat,
    at: int,
    sample: Seq<usize>,
    depth: nat,
    limit: nat,
    tries: Seq<Seq<Attempt>>,
) -> bool
    decreases nodes.len() - at,
{
    let node = nodes[at];
    let low = part(rows, sample, node.feat as int, node.split, true);
    let high = part(rows, sample, node.feat as int, node.split, false);
    &&& 0 <= at < nodes.len()
    &&& depth <= limit
    &&& if node.leaf() {
        &&& node.right == NO_CHILD
        &&& node.size == sample.len()
        &&& depth == limit || sample.len() <= 1 || worn_out(rows, sample, dim, tries[at])
    } else {
        &&& at < node.left < nodes.len()
        &&& at < node.right < nodes.len()
        &&& node.feat < dim
        &&& node.size == 0
        &&& depth < limit
        &&& low.len() > 0
        &&& high.len() > 0
        &&& grown(nodes, rows, dim, node.left as int, low, depth + 1, limit, tries)
        &&& grown(nodes, rows, dim, node.right as int, high, depth + 1, limit, tries)
    }
}

/// Children come after their parents, and every split is on a column of the table.
pub open spec fn well_formed(nodes: Seq<IfNode>, dim: nat) -> bool {
    forall|i: int|
        #![trigger nodes[i]]
        0 <= i < nodes.len() && !nodes[i].leaf() ==> {
            &&& i < nodes[i].left < nodes.len()
            &&& i < nodes[i].right < nodes.len()
            &&& nodes[i].feat < dim
        }
}

/// Node `i` has `c` for its left (or, with `low` false, right) child.
pub open spec fn child_of(nodes: Seq<IfNode>, i: int, low: bool, c: int) -> bool {
    0 <= i < nodes.len() && !nodes[i].leaf() && nodes[i].child(low) == c
}

/// Some node has `c` for a child.
pub open spec fn has_parent(nodes: Seq<IfNode>, c: int) -> bool {
    exists|i: int, low: bool| child_of(nodes, i, low, c)
}

/// The nodes form one binary tree: each but the first is the child of exactly one node, on one
/// side, and leaves have no children.
pub open spec fn one_tree(nodes: Seq<IfNode>) -> bool {
    &&& forall|c: int| 0 < c < nodes.len() ==> #[trigger] has_parent(nodes, c)
    &&& forall|c: int, i: int, low: bool, j: int, other: bool|
        #[trigger] child_of(nodes, i, low, c) && #[trigger] child_of(nodes, j, other, c) ==> i == j
            && low == other
    &&& forall|i: int|
        0 <= i < nodes.len() && (#[trigger] nodes[i]).leaf() ==> nodes[i].right == NO_CHILD
}

/// The sizes of all leaves together.
pub open spec fn leaf_rows(nodes: Seq<IfNode>) -> nat
    decreases nodes.len(),
{
    if nodes.len() == 0 {
        0
    } else {
        leaf_rows(nodes.drop_last()) + if nodes.last().leaf() {
            nodes.last().size as nat
        } else {
            0
        }
    }
}

/// The leaf that a row comes to from node `at`.
pub open spec fn leaf_of(nodes: Seq<IfNode>, at: int, x: Seq<Double>) -> int
    decreases nodes.len() - at,
{
    let next = nodes[at].child(nodes[at].goes_left(x));
    if 0 <= at < nodes.len() && !nodes[at].leaf() && at < next < nodes.len() {
        leaf_of(nodes, next, x)
    } else {
        at
    }
}

/// The number of steps from node `at` to that leaf.
pub open spec fn steps(nodes: Seq<IfNode>, at: int, x: Seq<Double>) -> nat
    decreases nodes.len() - at,
{
    let next = nodes[at].child(nodes[at].goes_left(x));
    if 0 <= at < nodes.len() && !nodes[at].leaf() && at < next < nodes.len() {
        1 + steps(nodes, next, x)
    } else {
        0
    }
}

/// Follows a row through a tree: the number of steps to its leaf, and the leaf's size.
pub fn tree_path_length(t: &IfTree, x: &Vec<Double>) -> (r: (usize, usize))
    requires
        t.root < t.nodes@.len(),
        well_formed(t.nodes@, x@.len()),
    ensures
        r.0 == steps(t.nodes@, t.root as int, x@),
        r.1 == t.nodes@[leaf_of(t.nodes@, t.root as int, x@)].size,
{
    let mut cur = t.root;
    let mut d: usize = 0;
    while t.nodes[cur].left != NO_CHILD
        invariant
            cur < t.nodes@.len(),
            d <= cur,
            well_formed(t.nodes@, x@.len()),
            d + steps(t.nodes@, cur as int, x@) == steps(t.nodes@, t.root as int, x@),
            leaf_of(t.nodes@, cur as int, x@) == leaf_of(t.nodes@, t.root as int, x@),
        decreases t.nodes@.len() - cur,
    {
        let node = t.nodes[cur];
        assert(!t.nodes@[cur as int].leaf());
        cur = if node.split.gt(x[node.feat]) {
            node.left
        } else {
            node.right
        };
        d = d + 1;
    }
    (d, t.nodes[cur].size)
}

/// The depth limit for a sample of `n` rows: the logarithm to base 2 of `n` (of 2, if there are
/// fewer rows), rounded up.
pub fn depth_limit(n: usize) -> (r: usize)
    ensures
        limit_for(n as nat, r as nat),
{
    let mut r: usize = 1;
    let mut p: u128 = 2;
    proof {
        lemma2_to64();
    }
    while p < n as u128
        invariant
            1 <= r,
            r <= p,
            p == pow2(r as nat),
            r > 1 ==> pow2((r - 1) as nat) < n,
            p < 2 * usize::MAX as u128,
        decreases 2 * usize::MAX as u128 - p,
    {
        proof {
            lemma_pow2_unfold((r + 1) as nat);
        }
        p = p * 2;
        r = r + 1;
    }
    r
}

/// A part of a sample that still has to be put into the tree.
struct Task {
    sample: Vec<usize>,
    depth: usize,
    /// The parent node, and whether this is its left part. The root has no parent.
    parent: usize,
    low: bool,
}

/// A request for a split value: the column, and the range of the value.
#[derive(Clone, Copy, Debug, PartialEq, Eq, Structural)]
pub struct Asked {
    pub feat: usize,
    pub lo: Double,
    pub hi: Double,
}

/// A part of a sample that has no node yet.
#[verifier::ext_equal]
pub struct Part {
    pub sample: Seq<usize>,
    pub depth: int,
    /// The parent node, and whether this is its left part. The root has no parent.
    pub parent: usize,
    pub low: bool,
}

/// How far a tree has grown.
#[verifier::ext_equal]
pub struct Growth {
    pub nodes: Seq<IfNode>,
    /// The parts without a node. The last one is the next to get one.
    pub parts: Seq<Part>,
    /// The tries that the last part has begun.
    pub tries: int,
    /// The split value that is waited for.
    pub asked: Option<Asked>,
}

impl Growth {
    /// The tries of the last part that have been in vain.
    pub open spec fn vain_tries(self) -> int {
        if self.asked is Some {
            self.tries - 1
        } else {
            self.tries
        }
    }

    /// The split value leaves one side of the last part empty.
    pub open spec fn missed_by(self, rows: Seq<Seq<Double>>, split: Double) -> bool {
        let sample = self.parts.last().sample;
        let feat = self.asked->0.feat as int;
        part(rows, sample, feat, split, true).len() == 0 || part(
            rows,
            sample,
            feat,
            split,
            false,
        ).len() == 0
    }
}

/// A tree of which only the sample is known.
pub open spec fn sown(sample: Seq<usize>) -> Growth {
    Growth {
        nodes: Seq::empty(),
        parts: seq![Part { sample, depth: 0, parent: NO_CHILD, low: true }],
        tries: 0,
        asked: None,
    }
}

/// The node that holds so many rows and splits no further.
pub open spec fn leaf_node(size: nat) -> IfNode {
    IfNode {
        feat: 0,
        split: Double { bits: 0 },
        left: NO_CHILD,
        right: NO_CHILD,
        size: size as usize,
    }
}

/// A node has got a child on one side.
pub open spec fn with_child(nodes: Seq<IfNode>, at: int, low: bool, child: usize) -> Seq<IfNode> {
    if at >= nodes.len() {
        nodes
    } else if low {
        nodes.update(at, IfNode { left: child, ..nodes[at] })
    } else {
        nodes.update(at, IfNode { right: child, ..nodes[at] })
    }
}

/// The last part has got a node.
pub open spec fn with_node(g: Growth, node: IfNode) -> Growth {
    let top = g.parts.last();
    Growth {
        nodes: with_child(g.nodes, top.parent as int, top.low, g.nodes.len() as usize).push(node),
        parts: g.parts.drop_last(),
        tries: 0,
        asked: None,
    }
}

/// The last part has become a leaf.
pub open spec fn with_leaf(g: Growth) -> Growth {
    with_node(g, leaf_node(g.parts.last().sample.len()))
}

/// The split value that was asked for has been given. If it leaves one side empty, the try was in
/// vain; otherwise the last part has become an inner node and left two parts behind.
pub open spec fn with_split(g: Growth, rows: Seq<Seq<Double>>, split: Double) -> Growth {
    if g.missed_by(rows, split) {
        Growth { asked: None, ..g }
    } else {
        let top = g.parts.last();
        let feat = g.asked->0.feat;
        let node = IfNode { feat, split, left: NO_CHILD, right: NO_CHILD, size: 0 };
        let h = with_node(g, node);
        let high = Part {
            sample: part(rows, top.sample, feat as int, split, false),
            depth: top.depth + 1,
            parent: g.nodes.len() as usize,
            low: false,
        };
        let low = Part {
            sample: part(rows, top.sample, feat as int, split, true),
            depth: top.depth + 1,
            parent: g.nodes.len() as usize,
            low: true,
        };
        Growth { parts: h.parts.push(high).push(low), ..h }
    }
}

/// The smallest and the largest number of a column over a sample, the first of equal ones.
pub open spec fn extremes(rows: Seq<Seq<Double>>, sample: Seq<usize>, feat: int) -> (
    Double,
    Double,
)
    decreases sample.len(),
{
    if sample.len() == 0 {
        (Double { bits: INFINITE }, Double { bits: (SIGN + INFINITE) as u64 })
    } else {
        let (lo, hi) = extremes(rows, sample.drop_last(), feat);
        let v = rows[sample.last() as int][feat];
        (
            if lo.above(v) {
                v
            } else {
                lo
            },
            if v.above(hi) {
                v
            } else {
                hi
            },
        )
    }
}

/// What comes of a column, after `earlier` tries in vain.
pub open spec fn outcome_of_try(
    rows: Seq<Seq<Double>>,
    sample: Seq<usize>,
    feat: int,
    earlier: int,
) -> Try {
    let (lo, hi) = extremes(rows, sample, feat);
    if hi.above(lo) {
        Try::Ask { lo, hi }
    } else if earlier + 1 >= SPLIT_TRIES {
        Try::Leaf
    } else {
        Try::Again
    }
}

/// How far a tree grows until a split value is needed or every part has its node, and the generator
/// that the draws of columns leave behind. A part becomes a leaf at the depth limit, with a single
/// row, or after its last try.
pub open spec fn advanced(
    g: Growth,
    source: StdRng,
    rows: Seq<Seq<Double>>,
    dim: usize,
    limit: int,
) -> (Growth, StdRng)
    decreases g.parts.len(), SPLIT_TRIES - g.tries,
{
    let top = g.parts.last();
    if g.parts.len() == 0 {
        (g, source)
    } else if top.depth >= limit || top.sample.len() <= 1 || g.tries >= SPLIT_TRIES {
        advanced(with_leaf(g), source, rows, dim, limit)
    } else {
        let (feat, next) = drawn_usize(source, 0, dim, usize::BITS);
        let h = Growth { tries: g.tries + 1, ..g };
        match outcome_of_try(rows, top.sample, feat as int, g.tries) {
            Try::Ask { lo, hi } => (Growth { asked: Some(Asked { feat, lo, hi }), ..h }, next),
            Try::Again => advanced(h, next, rows, dim, limit),
            Try::Leaf => advanced(with_leaf(h), next, rows, dim, limit),
        }
    }
}

impl Task {
    spec fn as_part(self) -> Part {
        Part {
            sample: self.sample@,
            depth: self.depth as int,
            parent: self.parent,
            low: self.low,
        }
    }
}

/// How many nodes can come out of a sample at most.
spec fn weight(n: nat) -> nat {
    if n == 0 {
        1
    } else {
        (2 * n - 1) as nat
    }
}

spec fn weights(stack: Seq<Task>) -> nat
    decreases stack.len(),
{
    if stack.len() == 0 {
        0
    } else {
        weights(stack.drop_last()) + weight(stack.last().sample@.len())
    }
}

/// The rows in the tasks of a stack.
spec fn task_rows(stack: Seq<Task>) -> nat
    decreases stack.len(),
{
    if stack.len() == 0 {
        0
    } else {
        task_rows(stack.drop_last()) + stack.last().sample@.len()
    }
}

/// The sizes of all nodes together.
spec fn sizes(nodes: Seq<IfNode>) -> nat
    decreases nodes.len(),
{
    if nodes.len() == 0 {
        0
    } else {
        sizes(nodes.drop_last()) + nodes.last().size as nat
    }
}

proof fn lemma_sizes_same(a: Seq<IfNode>, b: Seq<IfNode>)
    requires
        a.len() == b.len(),
        forall|i: int| 0 <= i < a.len() ==> (#[trigger] a[i]).size == b[i].size,
    ensures
        sizes(a) == sizes(b),
    decreases a.len(),
{
    if a.len() > 0 {
        assert forall|i: int| 0 <= i < a.drop_last().len() implies (
        #[trigger] a.drop_last()[i]).size == b.drop_last()[i].size by {
            assert(a.drop_last()[i] == a[i]);
        }
        assert(a[a.len() - 1].size == b[a.len() - 1].size);
        lemma_sizes_same(a.drop_last(), b.drop_last());
    }
}

proof fn lemma_sizes_in_leaves(nodes: Seq<IfNode>)
    requires
        forall|i: int| 0 <= i < nodes.len() && !(#[trigger] nodes[i]).leaf() ==> nodes[i].size == 0,
    ensures
        leaf_rows(nodes) == sizes(nodes),
    decreases nodes.len(),
{
    if nodes.len() > 0 {
        let short = nodes.drop_last();
        assert forall|i: int| 0 <= i < short.len() && !(#[trigger] short[i]).leaf() implies
            short[i].size == 0 by {
            assert(short[i] == nodes[i]);
        }
        assert(nodes[nodes.len() - 1] == nodes.last());
        lemma_sizes_in_leaves(short);
    }
}

/// The members of a sample are rows of the table.
pub open spec fn rows_exist(rows: Seq<Seq<Double>>, sample: Seq<usize>) -> bool {
    forall|i: int| 0 <= i < sample.len() ==> sample[i] < rows.len()
}

/// A tree under construction.
struct TreeBuilder {
    nodes: Vec<IfNode>,
    stack: Vec<Task>,
    limit: usize,
    /// The tries that the task on top of the stack has used.
    tries: usize,
    /// The column for which a split value was asked, and its range.
    asked: Option<Asked>,
    /// The sample that came to each node.
    reach: Ghost<Seq<Seq<usize>>>,
    /// The depth of each node.
    depths: Ghost<Seq<nat>>,
    /// Whether each node is an inner node.
    inner: Ghost<Seq<bool>>,
    /// The sample of the whole tree.
    sample: Ghost<Seq<usize>>,
    /// The parent of each node, and whether the node is its left child.
    parents: Ghost<Seq<(int, bool)>>,
    /// The tries in vain of the task on top of the stack.
    tried: Ghost<Seq<Attempt>>,
    /// The tries in vain of each node.
    attempts: Ghost<Seq<Seq<Attempt>>>,
}

impl TreeBuilder {
    /// How far the tree has grown.
    spec fn growth(&self) -> Growth {
        Growth {
            nodes: self.nodes@,
            parts: Seq::new(self.stack@.len(), |t: int| self.stack@[t].as_part()),
            tries: self.tries as int,
            asked: self.asked,
        }
    }

    /// The sample that the tree is grown from.
    spec fn whole(&self) -> Seq<usize> {
        self.sample@
    }

    spec fn depth_limit(&self) -> nat {
        self.limit as nat
    }

    /// Waits for a split value.
    spec fn waiting(&self) -> bool {
        self.asked is Some
    }

    /// Every part of the sample is in the tree.
    spec fn complete(&self) -> bool {
        self.stack@.len() == 0
    }

    spec fn link_fine(&self, rows: Seq<Seq<Double>>, i: int, low: bool) -> bool {
        let node = self.nodes@[i];
        let c = node.child(low);
        if c == NO_CHILD {
            exists|t: int|
                0 <= t < self.stack@.len() && (#[trigger] self.stack@[t]).parent == i
                    && self.stack@[t].low == low
        } else {
            &&& i < c < self.nodes@.len()
            &&& self.parents@[c] == (i, low)
            &&& self.reach@[c] == part(rows, self.reach@[i], node.feat as int, node.split, low)
            &&& self.depths@[c] == self.depths@[i] + 1
        }
    }

    spec fn leaf_allowed(
        &self,
        rows: Seq<Seq<Double>>,
        dim: nat,
        sample: Seq<usize>,
        depth: nat,
        tries: Seq<Attempt>,
    ) -> bool {
        depth == self.limit || sample.len() <= 1 || worn_out(rows, sample, dim, tries)
    }

    /// The tries of the top task so far.
    spec fn tried_fine(&self, rows: Seq<Seq<Double>>, dim: nat) -> bool {
        &&& self.tried@.len() == self.tries - if self.asked is Some {
            1int
        } else {
            0int
        }
        &&& self.tries <= SPLIT_TRIES
        &&& forall|k: int|
            0 <= k < self.tried@.len() ==> vain(
                rows,
                self.stack@.last().sample@,
                dim,
                #[trigger] self.tried@[k],
            )
    }

    /// No split value missed.
    spec fn calm(&self) -> bool {
        &&& unmissed(self.attempts@)
        &&& forall|k: int| 0 <= k < self.tried@.len() ==> !(#[trigger] self.tried@[k]).missed
    }

    /// What a pending request says of the top task.
    spec fn asked_fine(&self, rows: Seq<Seq<Double>>, dim: nat) -> bool {
        self.asked matches Some(a) ==> {
            &&& a.feat < dim
            &&& self.stack@.len() > 0
            &&& self.stack@.last().depth < self.limit
            &&& bounds(rows, self.stack@.last().sample@, a.feat as int, a.lo, a.hi)
            &&& a.hi.above(a.lo)
        }
    }

    spec fn node_fine(&self, rows: Seq<Seq<Double>>, dim: nat, i: int) -> bool {
        let node = self.nodes@[i];
        &&& rows_exist(rows, self.reach@[i])
        &&& self.depths@[i] <= self.limit
        &&& if self.inner@[i] {
            &&& self.depths@[i] < self.limit
            &&& node.feat < dim
            &&& node.size == 0
            &&& part(rows, self.reach@[i], node.feat as int, node.split, true).len() > 0
            &&& part(rows, self.reach@[i], node.feat as int, node.split, false).len() > 0
            &&& self.link_fine(rows, i, true)
            &&& self.link_fine(rows, i, false)
        } else {
            &&& node.left == NO_CHILD
            &&& node.right == NO_CHILD
            &&& node.size == self.reach@[i].len()
            &&& self.leaf_allowed(
                rows,
                dim,
                self.reach@[i],
                self.depths@[i],
                self.attempts@[i],
            )
        }
    }

    /// The parent of a node other than the root.
    spec fn parent_fine(&self, c: int) -> bool {
        let (i, low) = self.parents@[c];
        0 <= i < c && self.inner@[i] && self.nodes@[i].child(low) == c
    }

    spec fn task_fine(&self, rows: Seq<Seq<Double>>, task: Task) -> bool {
        &&& rows_exist(rows, task.sample@)
        &&& task.depth <= self.limit
        &&& if self.nodes@.len() == 0 {
            &&& task.parent == NO_CHILD
            &&& task.sample@ == self.sample@
            &&& task.depth == 0
        } else {
            let node = self.nodes@[task.parent as int];
            &&& task.parent < self.nodes@.len()
            &&& self.inner@[task.parent as int]
            &&& node.child(task.low) == NO_CHILD
            &&& task.sample@ == part(
                rows,
                self.reach@[task.parent as int],
                node.feat as int,
                node.split,
                task.low,
            )
            &&& task.sample@.len() > 0
            &&& task.depth == self.depths@[task.parent as int] + 1
        }
    }

    spec fn inv(&self, rows: Seq<Seq<Double>>, dim: nat) -> bool {
        &&& table(rows, dim)
        &&& dim > 0
        &&& self.reach@.len() == self.nodes@.len()
        &&& self.depths@.len() == self.nodes@.len()
        &&& self.inner@.len() == self.nodes@.len()
        &&& self.attempts@.len() == self.nodes@.len()
        &&& forall|i: int|
            0 <= i < self.nodes@.len() ==> #[trigger] self.node_fine(rows, dim, i)
        &&& forall|t: int|
            #![trigger self.stack@[t]]
            0 <= t < self.stack@.len() ==> self.task_fine(rows, self.stack@[t])
        &&& self.parents@.len() == self.nodes@.len()
        &&& forall|c: int| 0 < c < self.nodes@.len() ==> #[trigger] self.parent_fine(c)
        &&& forall|r: int, t: int|
            0 <= r < t < self.stack@.len() ==> (#[trigger] self.stack@[r]).parent != (
            #[trigger] self.stack@[t]).parent || self.stack@[r].low != self.stack@[t].low
        &&& sizes(self.nodes@) + task_rows(self.stack@) == self.sample@.len()
        &&& self.nodes@.len() == 0 ==> self.stack@.len() == 1
        &&& self.nodes@.len() > 0 ==> self.reach@[0] == self.sample@ && self.depths@[0] == 0
        &&& self.nodes@.len() + weights(self.stack@) <= weight(self.sample@.len())
        &&& weight(self.sample@.len()) < usize::MAX
        &&& self.asked_fine(rows, dim)
        &&& self.tries > 0 ==> self.stack@.len() > 0
        &&& self.tried_fine(rows, dim)
    }

    /// Starts a tree for the given members of the table.
    fn new(
        rows: &Vec<Vec<Double>>,
        Ghost(dim): Ghost<nat>,
        sample: Vec<usize>,
        limit: usize,
    ) -> (r: TreeBuilder)
        requires
            table(numbers(rows@), dim),
            dim > 0,
            forall|i: int| 0 <= i < sample@.len() ==> sample@[i] < numbers(rows@).len(),
            sample@.len() <= usize::MAX / 2,
        ensures
            r.inv(numbers(rows@), dim),
            r.whole() == sample@,
            r.depth_limit() == limit,
            r.calm(),
            !r.waiting(),
            r.growth() == sown(sample@),
    {
        let ghost whole = sample@;
        let mut stack: Vec<Task> = Vec::new();
        stack.push(Task { sample, depth: 0, parent: NO_CHILD, low: true });
        proof {
            reveal_with_fuel(weights, 2);
            reveal_with_fuel(task_rows, 2);
        }
        let r = TreeBuilder {
            nodes: Vec::new(),
            stack,
            limit,
            tries: 0,
            asked: None,
            reach: Ghost(Seq::empty()),
            depths: Ghost(Seq::empty()),
            inner: Ghost(Seq::empty()),
            sample: Ghost(whole),
            parents: Ghost(Seq::empty()),
            tried: Ghost(Seq::empty()),
            attempts: Ghost(Seq::empty()),
        };
        assert(r.growth() =~= sown(whole));
        r
    }

    /// The tree after the top task became the node `node` and left `added` behind.
    spec fn attached(
        &self,
        before: &TreeBuilder,
        node: IfNode,
        is_inner: bool,
        added: Seq<Task>,
    ) -> bool {
        let top = before.stack@.last();
        let m = before.nodes@.len();
        &&& before.stack@.len() > 0
        &&& self.stack@ == before.stack@.drop_last() + added
        &&& self.nodes@.len() == m + 1
        &&& self.nodes@[m as int] == node
        &&& forall|i: int|
            #![trigger self.nodes@[i]]
            0 <= i < m ==> self.nodes@[i] == if i != top.parent {
                before.nodes@[i]
            } else if top.low {
                IfNode { left: m as usize, ..before.nodes@[i] }
            } else {
                IfNode { right: m as usize, ..before.nodes@[i] }
            }
        &&& self.limit == before.limit
        &&& self.sample@ == before.sample@
        &&& self.reach@ == before.reach@.push(top.sample@)
        &&& self.depths@ == before.depths@.push(top.depth as nat)
        &&& self.inner@ == before.inner@.push(is_inner)
        &&& self.parents@ == before.parents@.push((top.parent as int, top.low))
        &&& self.attempts@ == before.attempts@.push(before.tried@)
        &&& self.tried@.len() == 0
        &&& self.asked is None
        &&& self.tries == 0
    }

    proof fn lemma_attached(
        &self,
        before: &TreeBuilder,
        rows: Seq<Seq<Double>>,
        dim: nat,
        node: IfNode,
        is_inner: bool,
        added: Seq<Task>,
    )
        requires
            before.inv(rows, dim),
            self.attached(before, node, is_inner, added),
            node.left == NO_CHILD,
            node.right == NO_CHILD,
            !is_inner ==> {
                let top = before.stack@.last();
                &&& node.size == top.sample@.len()
                &&& added.len() == 0
                &&& before.leaf_allowed(rows, dim, top.sample@, top.depth as nat, before.tried@)
            },
            is_inner ==> {
                let top = before.stack@.last();
                &&& top.depth < before.limit
                &&& node.feat < dim
                &&& node.size == 0
                &&& added.len() == 2
                &&& added[0].low == false
                &&& added[1].low == true
                &&& forall|t: int|
                    #![trigger added[t]]
                    0 <= t < 2 ==> {
                        &&& added[t].parent == before.nodes@.len()
                        &&& added[t].depth == top.depth + 1
                        &&& added[t].sample@ == part(
                            rows,
                            top.sample@,
                            node.feat as int,
                            node.split,
                            added[t].low,
                        )
                        &&& added[t].sample@.len() > 0
                    }
                &&& added[0].sample@.len() + added[1].sample@.len() == top.sample@.len()
            },
        ensures
            self.inv(rows, dim),
    {
        let top = before.stack@.last();
        let m = before.nodes@.len() as int;
        assert(before.task_fine(rows, before.stack@[before.stack@.len() - 1]));
        // The weights of the tasks.
        assert(before.nodes@.len() + weights(before.stack@) <= weight(before.sample@.len()));
        assert(weights(before.stack@) == weights(before.stack@.drop_last()) + weight(
            top.sample@.len(),
        ));
        if is_inner {
            let s1 = before.stack@.drop_last().push(added[0]);
            assert(self.stack@ =~= s1.push(added[1]));
            assert(self.stack@.drop_last() =~= s1);
            assert(s1.drop_last() =~= before.stack@.drop_last());
            assert(weights(self.stack@) == weights(s1) + weight(added[1].sample@.len()));
            assert(weights(s1) == weights(before.stack@.drop_last()) + weight(
                added[0].sample@.len(),
            ));
            assert(task_rows(self.stack@) == task_rows(s1) + added[1].sample@.len());
            assert(task_rows(s1) == task_rows(before.stack@.drop_last())
                + added[0].sample@.len());
        } else {
            assert(self.stack@ =~= before.stack@.drop_last());
        }
        // The sizes.
        assert(self.nodes@.drop_last().len() == m);
        assert forall|i: int| 0 <= i < m implies (#[trigger] self.nodes@.drop_last()[i]).size
            == before.nodes@[i].size by {
            assert(self.nodes@.drop_last()[i] == self.nodes@[i]);
        }
        lemma_sizes_same(self.nodes@.drop_last(), before.nodes@);
        assert(sizes(self.nodes@) == sizes(before.nodes@) + node.size);
        // The parents.
        assert(m < NO_CHILD);
        assert forall|c: int| 0 < c < self.nodes@.len() implies #[trigger] self.parent_fine(c) by {
            if c < m {
                assert(before.parent_fine(c));
                let (i, low) = before.parents@[c];
                assert(self.nodes@[i].child(low) == c);
            }
        }
        assert forall|r: int, t: int| 0 <= r < t < self.stack@.len() implies (
        #[trigger] self.stack@[r]).parent != (#[trigger] self.stack@[t]).parent
            || self.stack@[r].low != self.stack@[t].low by {
            let kept = before.stack@.len() - 1;
            if t < kept {
                assert(self.stack@[r] == before.stack@[r] && self.stack@[t] == before.stack@[t]);
            } else {
                assert(self.stack@[t] == added[t - kept]);
                if r < kept {
                    assert(self.stack@[r] == before.stack@[r]);
                    assert(before.task_fine(rows, before.stack@[r]));
                } else {
                    assert(self.stack@[r] == added[r - kept]);
                }
            }
        }
        // The tasks.
        let kept = before.stack@.len() - 1;
        assert forall|t: int| 0 <= t < self.stack@.len() implies self.task_fine(
            rows,
            #[trigger] self.stack@[t],
        ) by {
            if t < kept {
                assert(self.stack@[t] == before.stack@[t]);
                assert(before.task_fine(rows, before.stack@[t]));
                assert(m > 0);
                let own = before.stack@[before.stack@.len() - 1];
                assert(before.stack@[t].parent != own.parent || before.stack@[t].low != own.low);
            } else {
                assert(self.stack@[t] == added[t - kept]);
                lemma_part_exists(
                    rows,
                    top.sample@,
                    node.feat as int,
                    node.split,
                    added[t - kept].low,
                );
            }
        }
        // The nodes.
        assert forall|i: int| 0 <= i < self.nodes@.len() implies #[trigger] self.node_fine(
            rows,
            dim,
            i,
        ) by {
            if i < m {
                assert(before.node_fine(rows, dim, i));
                assert(self.reach@[i] == before.reach@[i]);
                if before.inner@[i] {
                    self.lemma_link(before, rows, dim, node, is_inner, added, i, true);
                    self.lemma_link(before, rows, dim, node, is_inner, added, i, false);
                } else {
                    assert(i != top.parent);
                }
            } else {
                if is_inner {
                    assert(self.stack@[kept + 0] == added[0]);
                    assert(self.stack@[kept + 1] == added[1]);
                    assert(self.link_fine(rows, i, true));
                    assert(self.link_fine(rows, i, false));
                }
            }
        }
    }

    proof fn lemma_link(
        &self,
        before: &TreeBuilder,
        rows: Seq<Seq<Double>>,
        dim: nat,
        node: IfNode,
        is_inner: bool,
        added: Seq<Task>,
        i: int,
        low: bool,
    )
        requires
            before.inv(rows, dim),
            self.attached(before, node, is_inner, added),
            0 <= i < before.nodes@.len(),
            before.inner@[i],
        ensures
            self.link_fine(rows, i, low),
    {
        let top = before.stack@.last();
        let m = before.nodes@.len() as int;
        assert(before.node_fine(rows, dim, i));
        assert(before.link_fine(rows, i, low));
        assert(before.task_fine(rows, before.stack@[before.stack@.len() - 1]));
        assert(self.nodes@[i].feat == before.nodes@[i].feat);
        assert(m < NO_CHILD);
        if i == top.parent && low == top.low {
            assert(self.nodes@[i].child(low) == m);
        } else {
            assert(self.nodes@[i].child(low) == before.nodes@[i].child(low));
            if before.nodes@[i].child(low) == NO_CHILD {
                let t = choose|t: int|
                    0 <= t < before.stack@.len() && (#[trigger] before.stack@[t]).parent == i
                        && before.stack@[t].low == low;
                assert(t < before.stack@.len() - 1);
                assert(self.stack@[t] == before.stack@[t]);
            }
        }
    }
}

proof fn lemma_part_exists(
    rows: Seq<Seq<Double>>,
    sample: Seq<usize>,
    feat: int,
    split: Double,
    low: bool,
)
    requires
        rows_exist(rows, sample),
    ensures
        rows_exist(rows, part(rows, sample, feat, split, low)),
    decreases sample.len(),
{
    if sample.len() > 0 {
        lemma_part_exists(rows, sample.drop_last(), feat, split, low);
    }
}

/// Parts a sample at a split value.
fn parted(
    rows: &Vec<Vec<Double>>,
    Ghost(dim): Ghost<nat>,
    sample: &Vec<usize>,
    feat: usize,
    split: Double,
) -> (r: (Vec<usize>, Vec<usize>))
    requires
        table(numbers(rows@), dim),
        feat < dim,
        rows_exist(numbers(rows@), sample@),
    ensures
        r.0@ == part(numbers(rows@), sample@, feat as int, split, true),
        r.1@ == part(numbers(rows@), sample@, feat as int, split, false),
        r.0@.len() + r.1@.len() == sample@.len(),
{
    let mut low: Vec<usize> = Vec::new();
    let mut high: Vec<usize> = Vec::new();
    for k in 0..sample.len()
        invariant
            table(numbers(rows@), dim),
            feat < dim,
            rows_exist(numbers(rows@), sample@),
            k <= sample@.len(),
            low@ == part(numbers(rows@), sample@.take(k as int), feat as int, split, true),
            high@ == part(numbers(rows@), sample@.take(k as int), feat as int, split, false),
            low@.len() + high@.len() == k,
    {
        let i = sample[k];
        assert(sample@.take(k + 1).drop_last() =~= sample@.take(k as int));
        assert(numbers(rows@)[i as int].len() == dim);
        if split.gt(rows[i][feat]) {
            low.push(i);
        } else {
            high.push(i);
        }
    }
    assert(sample@.take(sample@.len() as int) =~= sample@);
    (low, high)
}

/// The smallest and the largest number of a column over a sample, NaNs left out. Without any
/// number to look at, the answer is from infinity to minus infinity.
pub open spec fn bounds(
    rows: Seq<Seq<Double>>,
    sample: Seq<usize>,
    feat: int,
    lo: Double,
    hi: Double,
) -> bool {
    &&& !lo.nan()
    &&& !hi.nan()
    &&& forall|k: int|
        #![trigger sample[k]]
        0 <= k < sample.len() && !rows[sample[k] as int][feat].nan() ==> lo.value()
            <= rows[sample[k] as int][feat].value() <= hi.value()
    &&& lo.bits == INFINITE || exists|k: int|
        0 <= k < sample.len() && rows[(#[trigger] sample[k]) as int][feat] == lo
    &&& hi.bits == SIGN + INFINITE || exists|k: int|
        0 <= k < sample.len() && rows[(#[trigger] sample[k]) as int][feat] == hi
}

fn bounds_of(rows: &Vec<Vec<Double>>, sample: &Vec<usize>, feat: usize) -> (r: (Double, Double))
    requires
        wide(numbers(rows@), feat as int),
        rows_exist(numbers(rows@), sample@),
    ensures
        bounds(numbers(rows@), sample@, feat as int, r.0, r.1),
        r == extremes(numbers(rows@), sample@, feat as int),
{
    let mut lo = Double { bits: INFINITE };
    let mut hi = Double { bits: SIGN + INFINITE };
    for k in 0..sample.len()
        invariant
            wide(numbers(rows@), feat as int),
            rows_exist(numbers(rows@), sample@),
            k <= sample@.len(),
            bounds(numbers(rows@), sample@.take(k as int), feat as int, lo, hi),
            (lo, hi) == extremes(numbers(rows@), sample@.take(k as int), feat as int),
    {
        let ghost (lo0, hi0) = (lo, hi);
        let ghost so_far = sample@.take(k as int);
        let ghost next = sample@.take(k + 1);
        let i = sample[k];
        assert(feat < numbers(rows@)[i as int].len());
        let v = rows[i][feat];
        proof {
            lemma_order_bounds(v);
        }
        if lo.gt(v) {
            lo = v;
        }
        if v.gt(hi) {
            hi = v;
        }
        proof {
            assert(next[k as int] == i);
            assert(next.drop_last() =~= so_far);
            assert forall|j: int| 0 <= j < so_far.len() implies so_far[j]
                == #[trigger] next[j] by {}
            assert forall|j: int|
                #![trigger next[j]]
                0 <= j < next.len() && !numbers(rows@)[next[j] as int][feat as int].nan() implies lo.value()
                <= numbers(rows@)[next[j] as int][feat as int].value() <= hi.value() by {
                if j < k {
                    assert(so_far[j] == next[j]);
                }
            }
            if lo == lo0 && lo.bits != INFINITE {
                let j = choose|j: int|
                    0 <= j < so_far.len() && numbers(rows@)[(#[trigger] so_far[j]) as int][feat as int]
                        == lo;
                assert(next[j] == so_far[j]);
            }
            if hi == hi0 && hi.bits != SIGN + INFINITE {
                let j = choose|j: int|
                    0 <= j < so_far.len() && numbers(rows@)[(#[trigger] so_far[j]) as int][feat as int]
                        == hi;
                assert(next[j] == so_far[j]);
            }
        }
    }
    assert(sample@.take(sample@.len() as int) =~= sample@);
    (lo, hi)
}

proof fn lemma_part_member(
    rows: Seq<Seq<Double>>,
    sample: Seq<usize>,
    feat: int,
    split: Double,
    low: bool,
    k: int,
)
    requires
        0 <= k < sample.len(),
        split.above(rows[sample[k] as int][feat]) == low,
    ensures
        part(rows, sample, feat, split, low).len() > 0,
    decreases sample.len(),
{
    if k < sample.len() - 1 {
        assert(sample.drop_last()[k] == sample[k]);
        lemma_part_member(rows, sample.drop_last(), feat, split, low, k);
    }
}

/// A split value above the smallest and not above the largest number leaves no side empty.
proof fn lemma_in_range_parts(
    rows: Seq<Seq<Double>>,
    sample: Seq<usize>,
    feat: int,
    split: Double,
    lo: Double,
    hi: Double,
)
    requires
        bounds(rows, sample, feat, lo, hi),
        hi.above(lo),
        split.above(lo),
        !split.above(hi),
    ensures
        part(rows, sample, feat, split, true).len() > 0,
        part(rows, sample, feat, split, false).len() > 0,
{
    lemma_order_bounds(lo);
    lemma_order_bounds(hi);
    assert(lo.bits != INFINITE);
    assert(hi.bits != SIGN + INFINITE);
    let k = choose|k: int|
        0 <= k < sample.len() && rows[(#[trigger] sample[k]) as int][feat] == lo;
    lemma_part_member(rows, sample, feat, split, true, k);
    let j = choose|j: int|
        0 <= j < sample.len() && rows[(#[trigger] sample[j]) as int][feat] == hi;
    lemma_part_member(rows, sample, feat, split, false, j);
}

/// What comes of a column that was drawn to split a node.
#[derive(Clone, Copy, Debug, PartialEq, Eq, Structural)]
pub enum Try {
    /// A split value between these two numbers is needed.
    Ask { lo: Double, hi: Double },
    /// The column does not tell the rows apart; another is drawn.
    Again,
    /// It does not, and no try is left: the node becomes a leaf.
    Leaf,
}

/// Draws a conclusion from a column, after `earlier` tries in vain.
pub fn settle_try(
    rows: &Vec<Vec<Double>>,
    sample: &Vec<usize>,
    feat: usize,
    earlier: usize,
) -> (r: Try)
    requires
        wide(numbers(rows@), feat as int),
        rows_exist(numbers(rows@), sample@),
    ensures
        flat(numbers(rows@), sample@, feat as int) <==> !(r is Ask),
        r matches Try::Ask { lo, hi } ==> hi.above(lo) && bounds(
            numbers(rows@),
            sample@,
            feat as int,
            lo,
            hi,
        ),
        r is Again ==> earlier + 1 < SPLIT_TRIES,
        r is Leaf ==> earlier + 1 >= SPLIT_TRIES,
        r == outcome_of_try(numbers(rows@), sample@, feat as int, earlier as int),
{
    let (lo, hi) = bounds_of(rows, sample, feat);
    if hi.gt(lo) {
        proof {
            lemma_order_bounds(lo);
            lemma_order_bounds(hi);
            assert(lo.bits != INFINITE);
            assert(hi.bits != SIGN + INFINITE);
            let k = choose|k: int|
                0 <= k < sample@.len() && numbers(rows@)[(#[trigger] sample@[k]) as int][feat as int] == lo;
            let j = choose|j: int|
                0 <= j < sample@.len() && numbers(rows@)[(#[trigger] sample@[j]) as int][feat as int] == hi;
            assert(numbers(rows@)[sample@[k] as int][feat as int].value() < numbers(rows@)[sample@[j] as int][
            feat as int].value());
        }
        Try::Ask { lo, hi }
    } else if earlier >= SPLIT_TRIES - 1 {
        Try::Leaf
    } else {
        Try::Again
    }
}

/// Every number lies between the infinities.
proof fn lemma_order_bounds(v: Double)
    ensures
        !v.nan() ==> (Double { bits: (SIGN + INFINITE) as u64 }).value() <= v.value() <= (
        Double { bits: INFINITE }).value(),
{
    lemma_order_key(v, Double { bits: INFINITE });
    lemma_order_key(Double { bits: (SIGN + INFINITE) as u64 }, v);
}

impl TreeBuilder {
    /// Takes the top task off the stack, adds a node for it and links its parent.
    fn attach(&mut self, node: IfNode)
        requires
            old(self).stack@.len() > 0,
            old(self).nodes@.len() < usize::MAX,
            old(self).stack@.last().parent < old(self).nodes@.len()
                || old(self).stack@.last().parent == NO_CHILD,
        ensures
            final(self).stack@ == old(self).stack@.drop_last(),
            final(self).nodes@.len() == old(self).nodes@.len() + 1,
            final(self).nodes@.last() == node,
            forall|i: int|
                #![trigger final(self).nodes@[i]]
                0 <= i < old(self).nodes@.len() ==> final(self).nodes@[i] == if i
                    != old(self).stack@.last().parent {
                    old(self).nodes@[i]
                } else if old(self).stack@.last().low {
                    IfNode { left: old(self).nodes@.len() as usize, ..old(self).nodes@[i] }
                } else {
                    IfNode { right: old(self).nodes@.len() as usize, ..old(self).nodes@[i] }
                },
            final(self).limit == old(self).limit,
            final(self).sample == old(self).sample,
            final(self).reach == old(self).reach,
            final(self).depths == old(self).depths,
            final(self).inner == old(self).inner,
            final(self).parents == old(self).parents,
            final(self).tried == old(self).tried,
            final(self).attempts == old(self).attempts,
            final(self).asked is None,
            final(self).tries == 0,
            final(self).growth() == with_node(old(self).growth(), node),
    {
        let m = self.nodes.len();
        self.asked = None;
        self.tries = 0;
        if let Some(task) = self.stack.pop() {
            if task.parent != NO_CHILD {
                let parent = self.nodes[task.parent];
                let linked = if task.low {
                    IfNode { left: m, ..parent }
                } else {
                    IfNode { right: m, ..parent }
                };
                self.nodes.set(task.parent, linked);
            }
        }
        self.nodes.push(node);
        assert(self.growth() =~= with_node(old(self).growth(), node));
    }

    proof fn lemma_same(&self, before: &TreeBuilder, rows: Seq<Seq<Double>>, dim: nat)
        requires
            before.inv(rows, dim),
            self.nodes == before.nodes,
            self.stack == before.stack,
            self.limit == before.limit,
            self.reach == before.reach,
            self.depths == before.depths,
            self.inner == before.inner,
            self.sample == before.sample,
            self.parents == before.parents,
            self.attempts == before.attempts,
            self.asked_fine(rows, dim),
            self.tries > 0 ==> self.stack@.len() > 0,
            self.tried_fine(rows, dim),
        ensures
            self.inv(rows, dim),
    {
        assert forall|i: int| 0 <= i < self.nodes@.len() implies #[trigger] self.node_fine(
            rows,
            dim,
            i,
        ) by {
            assert(before.node_fine(rows, dim, i));
            if self.inner@[i] {
                assert(before.link_fine(rows, i, true));
                assert(before.link_fine(rows, i, false));
                assert(self.link_fine(rows, i, true));
                assert(self.link_fine(rows, i, false));
            }
        }
        assert forall|t: int| 0 <= t < self.stack@.len() implies self.task_fine(
            rows,
            #[trigger] self.stack@[t],
        ) by {
            assert(before.task_fine(rows, before.stack@[t]));
        }
        assert forall|c: int| 0 < c < self.nodes@.len() implies #[trigger] self.parent_fine(c) by {
            assert(before.parent_fine(c));
        }
    }

    /// Makes the top task a leaf.
    fn make_leaf(&mut self, rows: &Vec<Vec<Double>>, Ghost(dim): Ghost<nat>)
        requires
            old(self).inv(numbers(rows@), dim),
            old(self).stack@.len() > 0,
            old(self).leaf_allowed(
                numbers(rows@),
                dim,
                old(self).stack@.last().sample@,
                old(self).stack@.last().depth as nat,
                old(self).tried@,
            ),
        ensures
            final(self).inv(numbers(rows@), dim),
            final(self).whole() == old(self).whole(),
            final(self).limit == old(self).limit,
            old(self).calm() ==> final(self).calm(),
            final(self).tried@.len() == 0,
            final(self).asked is None,
            final(self).stack@.len() == old(self).stack@.len() - 1,
            final(self).growth() == with_leaf(old(self).growth()),
            kept(old(self).nodes@, final(self).nodes@),
    {
        let ghost before = *self;
        let ghost top = self.stack@.last();
        let size = self.stack[self.stack.len() - 1].sample.len();
        proof {
            assert(self.task_fine(numbers(rows@), self.stack@[self.stack@.len() - 1]));
            assert(weights(self.stack@) >= weight(top.sample@.len()) >= 1);
        }
        let node = IfNode {
            feat: 0,
            split: Double { bits: 0 },
            left: NO_CHILD,
            right: NO_CHILD,
            size,
        };
        self.attach(node);
        proof {
            self.reach@ = self.reach@.push(top.sample@);
            self.depths@ = self.depths@.push(top.depth as nat);
            self.inner@ = self.inner@.push(false);
            self.parents@ = self.parents@.push((top.parent as int, top.low));
            self.attempts@ = self.attempts@.push(self.tried@);
            self.tried@ = Seq::empty();
            assert(self.stack@ =~= before.stack@.drop_last() + Seq::<Task>::empty());
            self.lemma_attached(&before, numbers(rows@), dim, node, false, Seq::empty());
        }
    }

    /// Goes on until a split value is needed, and says between which two numbers it has to lie;
    /// or until the tree is complete.
    fn advance(&mut self, rng: &mut StdRng, rows: &Vec<Vec<Double>>, dim: usize) -> (r: Option<
        (Double, Double),
    >)
        requires
            old(self).inv(numbers(rows@), dim as nat),
            old(self).asked is None,
        ensures
            final(self).inv(numbers(rows@), dim as nat),
            final(self).whole() == old(self).whole(),
            final(self).limit == old(self).limit,
            old(self).calm() ==> final(self).calm(),
            kept(old(self).nodes@, final(self).nodes@),
            (final(self).growth(), *final(rng)) == advanced(
                old(self).growth(),
                *old(rng),
                numbers(rows@),
                dim,
                old(self).limit as int,
            ),
            r is None <==> final(self).complete(),
            r is None ==> final(self).asked is None,
            r matches Some((lo, hi)) ==> {
                &&& final(self).asked is Some
                &&& final(self).asked->0.lo == lo
                &&& final(self).asked->0.hi == hi
            },
    {
        while self.stack.len() > 0
            invariant
                self.inv(numbers(rows@), dim as nat),
                self.whole() == old(self).whole(),
                self.limit == old(self).limit,
                old(self).calm() ==> self.calm(),
                self.asked is None,
                kept(old(self).nodes@, self.nodes@),
                advanced(self.growth(), *rng, numbers(rows@), dim, self.limit as int) == advanced(
                    old(self).growth(),
                    *old(rng),
                    numbers(rows@),
                    dim,
                    old(self).limit as int,
                ),
            decreases self.stack@.len(), SPLIT_TRIES - self.tries,
        {
            let top = self.stack.len() - 1;
            assert(self.task_fine(numbers(rows@), self.stack@[top as int]));
            if self.stack[top].depth >= self.limit || self.stack[top].sample.len() <= 1
                || self.tries >= SPLIT_TRIES {
                self.make_leaf(rows, Ghost(dim as nat));
            } else {
                let feat = draw_usize(rng, 0, dim);
                let ghost before = *self;
                let settled = settle_try(rows, &self.stack[top].sample, feat, self.tries);
                self.tries = self.tries + 1;
                match settled {
                    Try::Ask { lo, hi } => {
                        self.asked = Some(Asked { feat, lo, hi });
                        proof {
                            self.lemma_same(&before, numbers(rows@), dim as nat);
                        }
                        return Some((lo, hi));
                    },
                    Try::Again => {
                        proof {
                            self.tried@ = self.tried@.push(Attempt { feat, missed: false });
                            self.lemma_same(&before, numbers(rows@), dim as nat);
                        }
                    },
                    Try::Leaf => {
                        proof {
                            self.tried@ = self.tried@.push(Attempt { feat, missed: false });
                            self.lemma_same(&before, numbers(rows@), dim as nat);
                        }
                        self.make_leaf(rows, Ghost(dim as nat));
                    },
                }
            }
        }
        None
    }

    /// Takes the split value that was asked for. Should it leave one side empty, the node tries
    /// again.
    fn answer(&mut self, rows: &Vec<Vec<Double>>, Ghost(dim): Ghost<nat>, split: Double)
        requires
            old(self).inv(numbers(rows@), dim),
            old(self).asked is Some,
        ensures
            final(self).inv(numbers(rows@), dim),
            final(self).whole() == old(self).whole(),
            final(self).limit == old(self).limit,
            final(self).asked is None,
            final(self).growth() == with_split(old(self).growth(), numbers(rows@), split),
            split.above(old(self).asked->0.lo) && !split.above(old(self).asked->0.hi) && old(
                self,
            ).calm() ==> final(self).calm(),
            kept(old(self).nodes@, final(self).nodes@),
            !old(self).growth().missed_by(numbers(rows@), split) ==> {
                let m = old(self).nodes@.len() as int;
                &&& final(self).nodes@.len() == m + 1
                &&& final(self).nodes@[m].feat == old(self).asked->0.feat
                &&& final(self).nodes@[m].split == split
            },
    {
        let feat = match &self.asked {
            Some(a) => a.feat,
            None => {
                return;
            },
        };
        let ghost before = *self;
        let ghost top = self.stack@.last();
        let t = self.stack.len() - 1;
        proof {
            assert(self.task_fine(numbers(rows@), self.stack@[t as int]));
            assert(weights(self.stack@) >= weight(top.sample@.len()) >= 1);
        }
        let (low, high) = parted(rows, Ghost(dim), &self.stack[t].sample, feat, split);
        if low.len() == 0 || high.len() == 0 {
            self.asked = None;
            proof {
                if split.above(before.asked->0.lo) && !split.above(before.asked->0.hi) {
                    lemma_in_range_parts(
                        numbers(rows@),
                        top.sample@,
                        feat as int,
                        split,
                        before.asked->0.lo,
                        before.asked->0.hi,
                    );
                }
                self.tried@ = self.tried@.push(Attempt { feat, missed: true });
                self.lemma_same(&before, numbers(rows@), dim);
            }
            return;
        }
        let depth = self.stack[t].depth + 1;
        let m = self.nodes.len();
        let node = IfNode { feat, split, left: NO_CHILD, right: NO_CHILD, size: 0 };
        self.attach(node);
        self.stack.push(Task { sample: high, depth, parent: m, low: false });
        self.stack.push(Task { sample: low, depth, parent: m, low: true });
        proof {
            let added = seq![
                Task { sample: high, depth, parent: m, low: false },
                Task { sample: low, depth, parent: m, low: true },
            ];
            self.reach@ = self.reach@.push(top.sample@);
            self.depths@ = self.depths@.push(top.depth as nat);
            self.inner@ = self.inner@.push(true);
            self.parents@ = self.parents@.push((top.parent as int, top.low));
            self.attempts@ = self.attempts@.push(self.tried@);
            self.tried@ = Seq::empty();
            assert(self.stack@ =~= before.stack@.drop_last() + added);
            self.lemma_attached(&before, numbers(rows@), dim, node, true, added);
        }
    }

    proof fn lemma_range(&self, rows: Seq<Seq<Double>>, dim: nat)
        requires
            self.inv(rows, dim),
            dim == width(rows),
            self.asked is Some,
        ensures
            column_range(rows, self.asked->0.lo, self.asked->0.hi),
    {
        assert(self.task_fine(rows, self.stack@[self.stack@.len() - 1]));
    }

    /// The finished tree.
    fn finish(self, rows: &Vec<Vec<Double>>, Ghost(dim): Ghost<nat>) -> (r: IfTree)
        requires
            self.inv(numbers(rows@), dim),
            self.complete(),
        ensures
            r.root == 0,
            grown(r.nodes@, numbers(rows@), dim, 0, self.whole(), 0, self.depth_limit(), self.attempts@),
            well_formed(r.nodes@, dim),
            r.nodes@.len() > 0,
            r.nodes@ == self.nodes@,
            one_tree(r.nodes@),
            leaf_rows(r.nodes@) == self.whole().len(),
    {
        proof {
            self.lemma_grown(numbers(rows@), dim, 0);
            self.lemma_one_tree(numbers(rows@), dim);
            assert forall|i: int|
                #![trigger self.nodes@[i]]
                0 <= i < self.nodes@.len() && !self.nodes@[i].leaf() implies {
                &&& i < self.nodes@[i].left < self.nodes@.len()
                &&& i < self.nodes@[i].right < self.nodes@.len()
                &&& self.nodes@[i].feat < dim
            } by {
                assert(self.node_fine(numbers(rows@), dim, i));
                assert(self.link_fine(numbers(rows@), i, true));
                assert(self.link_fine(numbers(rows@), i, false));
            }
        }
        IfTree { nodes: self.nodes, root: 0 }
    }

    proof fn lemma_one_tree(&self, rows: Seq<Seq<Double>>, dim: nat)
        requires
            self.inv(rows, dim),
            self.stack@.len() == 0,
        ensures
            one_tree(self.nodes@),
            leaf_rows(self.nodes@) == self.sample@.len(),
    {
        let nodes = self.nodes@;
        assert forall|i: int| 0 <= i < nodes.len() implies (#[trigger] nodes[i]).leaf()
            == !self.inner@[i] by {
            assert(self.node_fine(rows, dim, i));
            if self.inner@[i] {
                assert(self.link_fine(rows, i, true));
            }
        }
        assert forall|i: int| 0 <= i < nodes.len() implies if (#[trigger] nodes[i]).leaf() {
            nodes[i].right == NO_CHILD
        } else {
            nodes[i].size == 0
        } by {
            assert(self.node_fine(rows, dim, i));
        }
        lemma_sizes_in_leaves(nodes);
        assert forall|c: int| 0 < c < nodes.len() implies #[trigger] has_parent(nodes, c) by {
            assert(self.parent_fine(c));
            let (i, low) = self.parents@[c];
            assert(nodes[i].child(low) == c);
            assert(child_of(nodes, i, low, c));
        }
        assert forall|c: int, i: int, low: bool, j: int, other: bool|
            #[trigger] child_of(nodes, i, low, c) && #[trigger] child_of(
                nodes,
                j,
                other,
                c,
            ) implies i == j && low == other by {
            assert(self.node_fine(rows, dim, i));
            assert(self.node_fine(rows, dim, j));
            assert(self.link_fine(rows, i, low));
            assert(self.link_fine(rows, j, other));
        }
    }

    proof fn lemma_grown(&self, rows: Seq<Seq<Double>>, dim: nat, at: int)
        requires
            self.inv(rows, dim),
            self.stack@.len() == 0,
            0 <= at < self.nodes@.len(),
        ensures
            grown(
                self.nodes@,
                rows,
                dim,
                at,
                self.reach@[at],
                self.depths@[at],
                self.limit as nat,
                self.attempts@,
            ),
        decreases self.nodes@.len() - at,
    {
        assert(self.node_fine(rows, dim, at));
        if self.inner@[at] {
            assert(self.link_fine(rows, at, true));
            assert(self.link_fine(rows, at, false));
            self.lemma_grown(rows, dim, self.nodes@[at].left as int);
            self.lemma_grown(rows, dim, self.nodes@[at].right as int);
        }
    }
}

/// A sample of `size` of the first `n` indexes, none of them twice.
pub open spec fn subsample_of(sample: Seq<usize>, n: nat, size: nat) -> bool {
    &&& sample.len() == size
    &&& forall|i: int| 0 <= i < sample.len() ==> sample[i] < n
    &&& forall|i: int, j: int| 0 <= i < j < sample.len() ==> sample[i] != sample[j]
}

/// The first `n` indexes after a shuffle has settled the first `drawn.len()` places: place `i`
/// is exchanged with place `drawn[i]`.
pub open spec fn shuffled(n: nat, drawn: Seq<usize>) -> Seq<usize>
    decreases drawn.len(),
{
    if drawn.len() == 0 {
        Seq::new(n, |i: int| i as usize)
    } else {
        let before = shuffled(n, drawn.drop_last());
        let i = drawn.len() - 1;
        let j = drawn.last() as int;
        before.update(i, before[j]).update(j, before[i])
    }
}

/// Each place is exchanged with itself or a later one.
pub open spec fn exchanges(n: nat, drawn: Seq<usize>) -> bool {
    &&& drawn.len() <= n
    &&& forall|i: int| 0 <= i < drawn.len() ==> i <= (#[trigger] drawn[i]) < n
}

/// The sample that a shuffle with the given exchanges settles.
pub fn sample_from(n: usize, drawn: &Vec<usize>) -> (r: Vec<usize>)
    requires
        exchanges(n as nat, drawn@),
    ensures
        r@ == shuffled(n as nat, drawn@).take(drawn@.len() as int),
        subsample_of(r@, n as nat, drawn@.len()),
{
    let mut idx: Vec<usize> = Vec::new();
    for i in 0..n
        invariant
            idx@.len() == i,
            forall|k: int| 0 <= k < i ==> idx@[k] == k,
    {
        idx.push(i);
    }
    assert(idx@ =~= shuffled(n as nat, drawn@.take(0)));
    for i in 0..drawn.len()
        invariant
            i <= drawn@.len(),
            exchanges(n as nat, drawn@),
            idx@ == shuffled(n as nat, drawn@.take(i as int)),
            subsample_of(idx@, n as nat, n as nat),
    {
        let j = drawn[i];
        assert(i <= drawn@[i as int] < n);
        assert(drawn@.take(i + 1).drop_last() =~= drawn@.take(i as int));
        let at_i = idx[i];
        let at_j = idx[j];
        idx.set(i, at_j);
        idx.set(j, at_i);
    }
    assert(drawn@.take(drawn@.len() as int) =~= drawn@);
    idx.truncate(drawn.len());
    idx
}

/// The first `count` exchanges of a shuffle of `n` places, drawn from a generator, and the
/// generator that the draws leave behind.
pub open spec fn exchanges_from(source: StdRng, n: usize, count: nat) -> (Seq<usize>, StdRng)
    decreases count,
{
    if count == 0 {
        (Seq::empty(), source)
    } else {
        let (drawn, next) = exchanges_from(source, n, (count - 1) as nat);
        let (j, last) = drawn_usize(next, (count - 1) as usize, n, usize::BITS);
        (drawn.push(j), last)
    }
}

/// The sample of `size` of the first `n` indexes that is drawn from a generator, and the generator
/// that the draws leave behind.
pub open spec fn sample_drawn(source: StdRng, n: usize, size: nat) -> (Seq<usize>, StdRng) {
    let (drawn, next) = exchanges_from(source, n, size);
    (shuffled(n as nat, drawn).take(size as int), next)
}

/// Draws a sample of `size` of the first `n` indexes: a shuffle that stops after `size` places.
pub fn subsample(rng: &mut StdRng, n: usize, size: usize) -> (r: Vec<usize>)
    requires
        size <= n,
    ensures
        subsample_of(r@, n as nat, size as nat),
        exists|drawn: Seq<usize>| #[trigger]
            exchanges(n as nat, drawn) && drawn.len() == size && r@ == shuffled(
                n as nat,
                drawn,
            ).take(size as int),
        (r@, *final(rng)) == sample_drawn(*old(rng), n, size as nat),
{
    let mut drawn: Vec<usize> = Vec::new();
    for i in 0..size
        invariant
            size <= n,
            drawn@.len() == i,
            forall|k: int| 0 <= k < i ==> k <= (#[trigger] drawn@[k]) < n,
            (drawn@, *rng) == exchanges_from(*old(rng), n, i as nat),
    {
        drawn.push(draw_usize(rng, i, n));
    }
    assert(exchanges(n as nat, drawn@));
    sample_from(n, &drawn)
}

/// What sets the seeds of the users' forests apart from the users' numbers.
pub const SEED_MASK: u64 = 0x9E37_79B9_7F4A_7C15;

/// The seed of a user's forest.
pub open spec fn seed_of(user: u32) -> u64 {
    (user as u64) ^ SEED_MASK
}

/// The seed of a user's forest.
pub fn forest_seed(user: u32) -> (r: u64)
    ensures
        r == (user as u64) ^ SEED_MASK,
        r == seed_of(user),
{
    user as u64 ^ SEED_MASK
}

/// Different users have different seeds, so that their forests are drawn independently.
pub proof fn law_seeds_differ(a: u32, b: u32)
    requires
        a != b,
    ensures
        (a as u64) ^ SEED_MASK != (b as u64) ^ SEED_MASK,
{
    assert((a as u64) ^ 0x9E37_79B9_7F4A_7C15 != (b as u64) ^ 0x9E37_79B9_7F4A_7C15) by (bit_vector)
        requires
            a != b,
    ;
}

/// Two users' seeds differ in the bits in which the users' numbers differ, and in no others.
pub proof fn law_seeds_follow_the_users(a: u32, b: u32)
    ensures
        seed_of(a) ^ seed_of(b) == (a as u64) ^ (b as u64),
        seed_of(a) == seed_of(b) <==> a == b,
        seed_of(a) ^ 0x9E37_79B9_7F4A_7C15 == a as u64,
{
    assert(((a as u64) ^ 0x9E37_79B9_7F4A_7C15) ^ ((b as u64) ^ 0x9E37_79B9_7F4A_7C15) == (a as u64)
        ^ (b as u64)) by (bit_vector);
    assert(((a as u64) ^ 0x9E37_79B9_7F4A_7C15) ^ 0x9E37_79B9_7F4A_7C15 == a as u64)
        by (bit_vector);
    if a != b {
        law_seeds_differ(a, b);
    }
}

/// A forest, and the size of the samples that its trees were grown from.
#[derive(Debug)]
pub struct IsolationForest {
    pub trees: Vec<IfTree>,
    pub sub: usize,
}

/// The nodes of the trees of a forest.
pub open spec fn trees_of(f: IsolationForest) -> Seq<Seq<IfNode>> {
    Seq::new(f.trees@.len(), |t: int| f.trees@[t].nodes@)
}

/// The width of a table; one, if it has no rows.
pub open spec fn width(rows: Seq<Seq<Double>>) -> nat {
    if rows.len() == 0 {
        1
    } else {
        rows[0].len()
    }
}

/// The size of the samples from a table of `n` rows.
pub open spec fn sample_size(n: nat) -> nat {
    if n <= IF_MAX_SAMPLES {
        n
    } else {
        IF_MAX_SAMPLES as nat
    }
}

/// The depth limit for a sample of `n` rows.
pub open spec fn limit_for(n: nat, limit: nat) -> bool {
    &&& 1 <= limit
    &&& pow2(limit) >= n
    &&& limit > 1 ==> pow2((limit - 1) as nat) < n
}

/// There is only one depth limit for a sample.
pub proof fn law_one_limit(n: nat, a: nat, b: nat)
    requires
        limit_for(n, a),
        limit_for(n, b),
    ensures
        a == b,
{
    if a < b {
        if a < b - 1 {
            lemma_pow2_strictly_increases(a, (b - 1) as nat);
        }
    } else if b < a {
        if b < a - 1 {
            lemma_pow2_strictly_increases(b, (a - 1) as nat);
        }
    }
}

/// The depth limit for the samples of a table.
pub open spec fn limit_of(rows: Seq<Seq<Double>>) -> nat {
    choose|limit: nat| limit_for(sample_size(rows.len()), limit)
}

/// How far a forest has grown.
#[verifier::ext_equal]
pub struct Training {
    /// The generator of all draws.
    pub source: StdRng,
    /// The nodes of each finished tree.
    pub trees: Seq<Seq<IfNode>>,
    /// The tree that waits for a split value.
    pub current: Option<Growth>,
}

/// A forest without a tree.
pub open spec fn untrained(seed: u64) -> Training {
    Training { source: started(seed), trees: Seq::empty(), current: None }
}

/// How far a forest grows until a split value is needed or the forest is complete.
pub open spec fn trained_on(t: Training, rows: Seq<Seq<Double>>) -> Training
    decreases IF_N_TREES - t.trees.len(),
{
    if t.trees.len() >= IF_N_TREES {
        t
    } else {
        let (sample, next) = sample_drawn(
            t.source,
            rows.len() as usize,
            sample_size(rows.len()),
        );
        let (g, source) = advanced(
            sown(sample),
            next,
            rows,
            width(rows) as usize,
            limit_of(rows) as int,
        );
        if g.parts.len() == 0 {
            trained_on(Training { source, trees: t.trees.push(g.nodes), ..t }, rows)
        } else {
            Training { source, current: Some(g), ..t }
        }
    }
}

/// How far a forest grows that is given the split value it waits for.
pub open spec fn trained_with(t: Training, rows: Seq<Seq<Double>>, split: Double) -> Training {
    let (g, source) = advanced(
        with_split(t.current->0, rows, split),
        t.source,
        rows,
        width(rows) as usize,
        limit_of(rows) as int,
    );
    if g.parts.len() == 0 {
        trained_on(Training { source, trees: t.trees.push(g.nodes), current: None }, rows)
    } else {
        Training { source, current: Some(g), ..t }
    }
}

/// The nodes of a tree so far.
pub open spec fn nodes_at(t: Training, tree: int) -> Seq<IfNode> {
    if 0 <= tree < t.trees.len() {
        t.trees[tree]
    } else if tree == t.trees.len() && t.current is Some {
        t.current->0.nodes
    } else {
        Seq::empty()
    }
}

/// The last part of a tree still waits for a split value, with more tries in vain than before.
pub open spec fn tried_again(g: Growth, tree: nat, after: Training) -> bool {
    &&& after.trees.len() == tree
    &&& after.current matches Some(h) && h.nodes == g.nodes && h.parts == g.parts
        && g.vain_tries() < h.vain_tries() < SPLIT_TRIES
}

/// The last part of a tree has become a leaf.
pub open spec fn given_up(g: Growth, nodes: Seq<IfNode>) -> bool {
    &&& nodes.len() > g.nodes.len()
    &&& nodes[g.nodes.len() as int] == leaf_node(g.parts.last().sample.len())
}

/// What comes of the last part of a tree after a split value that left one side empty: another
/// split value is waited for, as long as tries are left, or the part has become a leaf.
pub open spec fn after_a_miss(g: Growth, tree: nat, after: Training) -> bool {
    ||| given_up(g, nodes_at(after, tree as int))
    ||| g.vain_tries() + 1 < SPLIT_TRIES && tried_again(g, tree, after)
}

/// A split value that leaves one side empty is counted as a try in vain, and changes nothing else.
pub proof fn law_a_miss_counts(g: Growth, rows: Seq<Seq<Double>>, split: Double)
    requires
        g.asked is Some,
        g.missed_by(rows, split),
    ensures
        with_split(g, rows, split).vain_tries() == g.vain_tries() + 1,
        with_split(g, rows, split).nodes == g.nodes,
        with_split(g, rows, split).parts == g.parts,
{
}

/// A part that has had all its tries in vain becomes a leaf.
pub proof fn law_last_try_makes_a_leaf(
    g: Growth,
    source: StdRng,
    rows: Seq<Seq<Double>>,
    dim: usize,
    limit: int,
)
    requires
        g.parts.len() > 0,
        g.vain_tries() >= SPLIT_TRIES,
    ensures
        advanced(g, source, rows, dim, limit) == advanced(with_leaf(g), source, rows, dim, limit),
{
}

/// A node that no open part hangs on stays as it is.
proof fn lemma_node_stays(
    g: Growth,
    source: StdRng,
    rows: Seq<Seq<Double>>,
    dim: usize,
    limit: int,
    m: int,
)
    requires
        0 <= m < g.nodes.len(),
        forall|p: int| 0 <= p < g.parts.len() ==> (#[trigger] g.parts[p]).parent != m,
    ensures
        advanced(g, source, rows, dim, limit).0.nodes.len() >= g.nodes.len(),
        advanced(g, source, rows, dim, limit).0.nodes[m] == g.nodes[m],
    decreases g.parts.len(), SPLIT_TRIES - g.tries,
{
    if g.parts.len() > 0 {
        let top = g.parts.last();
        assert(top == g.parts[g.parts.len() - 1]);
        let (feat, next) = drawn_usize(source, 0, dim, usize::BITS);
        let h = Growth { tries: g.tries + 1, ..g };
        if top.depth >= limit || top.sample.len() <= 1 || g.tries >= SPLIT_TRIES {
            lemma_node_stays(with_leaf(g), source, rows, dim, limit, m);
        } else {
            match outcome_of_try(rows, top.sample, feat as int, g.tries) {
                Try::Ask { lo, hi } => {},
                Try::Again => {
                    lemma_node_stays(h, next, rows, dim, limit, m);
                },
                Try::Leaf => {
                    lemma_node_stays(with_leaf(h), next, rows, dim, limit, m);
                },
            }
        }
    }
}

spec fn top_settled(g: Growth, h: Growth) -> bool {
    ||| given_up(g, h.nodes)
    ||| g.tries < SPLIT_TRIES && h.nodes == g.nodes && h.parts == g.parts && h.asked is Some
        && g.tries < h.tries <= SPLIT_TRIES
}

/// The last part either waits for a split value or has become a leaf.
proof fn lemma_top_settles(
    g: Growth,
    source: StdRng,
    rows: Seq<Seq<Double>>,
    dim: usize,
    limit: int,
)
    requires
        g.parts.len() > 0,
        g.asked is None,
        0 <= g.tries <= SPLIT_TRIES,
        forall|p: int|
            0 <= p < g.parts.len() ==> (#[trigger] g.parts[p]).parent != g.nodes.len(),
    ensures
        top_settled(g, advanced(g, source, rows, dim, limit).0),
    decreases SPLIT_TRIES - g.tries,
{
    let top = g.parts.last();
    let m = g.nodes.len() as int;
    let (feat, next) = drawn_usize(source, 0, dim, usize::BITS);
    let h = Growth { tries: g.tries + 1, ..g };
    if top.depth >= limit || top.sample.len() <= 1 || g.tries >= SPLIT_TRIES {
        lemma_node_stays(with_leaf(g), source, rows, dim, limit, m);
    } else {
        match outcome_of_try(rows, top.sample, feat as int, g.tries) {
            Try::Ask { lo, hi } => {},
            Try::Again => {
                lemma_top_settles(h, next, rows, dim, limit);
            },
            Try::Leaf => {
                lemma_node_stays(with_leaf(h), next, rows, dim, limit, m);
            },
        }
    }
}

/// Finished trees stay as they are.
proof fn lemma_trees_stay(t: Training, rows: Seq<Seq<Double>>, tree: int)
    requires
        0 <= tree < t.trees.len(),
    ensures
        trained_on(t, rows).trees.len() >= t.trees.len(),
        trained_on(t, rows).trees[tree] == t.trees[tree],
    decreases IF_N_TREES - t.trees.len(),
{
    if t.trees.len() < IF_N_TREES {
        let (sample, next) = sample_drawn(
            t.source,
            rows.len() as usize,
            sample_size(rows.len()),
        );
        let (g, source) = advanced(
            sown(sample),
            next,
            rows,
            width(rows) as usize,
            limit_of(rows) as int,
        );
        if g.parts.len() == 0 {
            lemma_trees_stay(
                Training { source, trees: t.trees.push(g.nodes), ..t },
                rows,
                tree,
            );
        }
    }
}

/// What comes of a part whose split value leaves one side empty.
proof fn lemma_missed(t: Training, rows: Seq<Seq<Double>>, split: Double)
    requires
        t.current is Some,
        t.current->0.asked is Some,
        t.current->0.parts.len() > 0,
        1 <= t.current->0.tries <= SPLIT_TRIES,
        forall|p: int|
            0 <= p < t.current->0.parts.len() ==> (#[trigger] t.current->0.parts[p]).parent
                != t.current->0.nodes.len(),
        t.current->0.missed_by(rows, split),
    ensures
        after_a_miss(t.current->0, t.trees.len(), trained_with(t, rows, split)),
{
    let g = with_split(t.current->0, rows, split);
    let dim = width(rows) as usize;
    let limit = limit_of(rows) as int;
    lemma_top_settles(g, t.source, rows, dim, limit);
    let (h, source) = advanced(g, t.source, rows, dim, limit);
    if h.parts.len() == 0 {
        let trees = t.trees.push(h.nodes);
        lemma_trees_stay(Training { source, trees, current: None }, rows, t.trees.len() as int);
    }
}

/// A tree grown from a sample of the table.
pub open spec fn isolation_tree(
    t: IfTree,
    rows: Seq<Seq<Double>>,
    sample: Seq<usize>,
    limit: nat,
    tries: Seq<Seq<Attempt>>,
) -> bool {
    &&& t.root == 0
    &&& t.nodes@.len() > 0
    &&& well_formed(t.nodes@, width(rows))
    &&& subsample_of(sample, rows.len(), sample_size(rows.len()))
    &&& limit_for(sample_size(rows.len()), limit)
    &&& one_tree(t.nodes@)
    &&& leaf_rows(t.nodes@) == sample.len()
    &&& grown(t.nodes@, rows, width(rows), 0, sample, 0, limit, tries)
}

/// A tree grown from some sample of the table, with the given tries in vain.
pub open spec fn some_isolation_tree(
    t: IfTree,
    rows: Seq<Seq<Double>>,
    tries: Seq<Seq<Attempt>>,
) -> bool {
    exists|sample: Seq<usize>, limit: nat| isolation_tree(t, rows, sample, limit, tries)
}

/// A forest grown from a table, with the tries in vain of each tree.
pub open spec fn isolation_forest(
    f: IsolationForest,
    rows: Seq<Seq<Double>>,
    tries: Seq<Seq<Seq<Attempt>>>,
) -> bool {
    &&& f.sub == sample_size(rows.len())
    &&& f.trees@.len() == IF_N_TREES
    &&& tries.len() == IF_N_TREES
    &&& forall|t: int|
        0 <= t < f.trees@.len() ==> some_isolation_tree(#[trigger] f.trees@[t], rows, tries[t])
}

/// Two numbers, the second larger, that are the smallest and the largest of a column over some
/// rows of the table.
pub open spec fn column_range(rows: Seq<Seq<Double>>, lo: Double, hi: Double) -> bool {
    &&& hi.above(lo)
    &&& exists|sample: Seq<usize>, feat: int|
        {
            &&& #[trigger] bounds(rows, sample, feat, lo, hi)
            &&& 0 <= feat < width(rows)
            &&& forall|k: int| 0 <= k < sample.len() ==> sample[k] < rows.len()
        }
}

/// A forest under construction.
pub struct ForestTrainer {
    /// The source of all draws. Each split value that is asked for is drawn from it.
    pub rng: StdRng,
    rows: Vec<Vec<Double>>,
    dim: usize,
    sub: usize,
    limit: usize,
    trees: Vec<IfTree>,
    current: Option<TreeBuilder>,
    samples: Ghost<Seq<Seq<usize>>>,
    tries: Ghost<Seq<Seq<Seq<Attempt>>>>,
}

impl ForestTrainer {
    /// The source of all draws.
    pub closed spec fn source(&self) -> StdRng {
        self.rng
    }

    /// How far the forest has grown.
    pub closed spec fn training(&self) -> Training {
        Training {
            source: self.rng,
            trees: Seq::new(self.trees@.len(), |t: int| self.trees@[t].nodes@),
            current: match self.current {
                Some(b) => Some(b.growth()),
                None => None,
            },
        }
    }

    pub closed spec fn table_rows(&self) -> Seq<Seq<Double>> {
        numbers(self.rows@)
    }

    /// Waits for a split value.
    pub closed spec fn waiting(&self) -> bool {
        self.current is Some
    }

    pub closed spec fn complete(&self) -> bool {
        self.trees@.len() == IF_N_TREES
    }

    /// The number of finished trees.
    pub closed spec fn finished(&self) -> nat {
        self.trees@.len()
    }

    /// The nodes of a tree so far.
    pub closed spec fn nodes_of(&self, t: int) -> Seq<IfNode> {
        if 0 <= t < self.trees@.len() {
            self.trees@[t].nodes@
        } else if t == self.trees@.len() && self.current is Some {
            self.current->0.nodes@
        } else {
            Seq::empty()
        }
    }

    /// The column for which a split value was asked.
    pub closed spec fn asked_feat(&self) -> int {
        self.current->0.asked->0.feat as int
    }

    /// The range of the split value that was asked for.
    pub closed spec fn range(&self) -> (Double, Double) {
        (self.current->0.asked->0.lo, self.current->0.asked->0.hi)
    }

    /// The tries in vain of the finished trees.
    pub closed spec fn attempts(&self) -> Seq<Seq<Seq<Attempt>>> {
        self.tries@
    }

    /// No split value missed the range that it was asked for.
    pub closed spec fn calm(&self) -> bool {
        &&& forall|t: int| 0 <= t < self.tries@.len() ==> unmissed(#[trigger] self.tries@[t])
        &&& self.current matches Some(b) ==> b.calm()
    }

    pub closed spec fn inv(&self) -> bool {
        &&& self.dim == width(numbers(self.rows@))
        &&& self.dim > 0
        &&& table(numbers(self.rows@), self.dim as nat)
        &&& self.sub == sample_size(numbers(self.rows@).len())
        &&& limit_for(self.sub as nat, self.limit as nat)
        &&& self.trees@.len() <= IF_N_TREES
        &&& self.samples@.len() == self.trees@.len()
        &&& self.tries@.len() == self.trees@.len()
        &&& forall|t: int|
            #![trigger self.trees@[t]]
            0 <= t < self.trees@.len() ==> isolation_tree(
                self.trees@[t],
                numbers(self.rows@),
                self.samples@[t],
                self.limit as nat,
                self.tries@[t],
            )
        &&& self.current matches Some(b) ==> {
            &&& self.trees@.len() < IF_N_TREES
            &&& b.inv(numbers(self.rows@), self.dim as nat)
            &&& b.asked is Some
            &&& b.limit == self.limit
            &&& subsample_of(b.whole(), numbers(self.rows@).len(), self.sub as nat)
        }
    }

    proof fn lemma_limit(&self)
        requires
            self.inv(),
        ensures
            self.limit == limit_of(self.table_rows()),
    {
        law_one_limit(self.sub as nat, self.limit as nat, limit_of(self.table_rows()));
    }

    /// What a split value does to the tree that waits for it.
    proof fn lemma_split(&self, split: Double)
        requires
            self.inv(),
            self.waiting(),
        ensures
            ({
                let g = self.training().current->0;
                let t = self.finished();
                let after = trained_with(self.training(), self.table_rows(), split);
                &&& g.missed_by(self.table_rows(), split) ==> after_a_miss(g, t, after)
                &&& split.above(self.range().0) && !split.above(self.range().1) ==> !g.missed_by(
                    self.table_rows(),
                    split,
                )
            }),
    {
        let b = self.current->0;
        let g = self.training().current->0;
        let rows = self.table_rows();
        assert(g.parts.last() == b.stack@.last().as_part());
        assert forall|p: int| 0 <= p < g.parts.len() implies (#[trigger] g.parts[p]).parent
            != g.nodes.len() by {
            assert(b.task_fine(rows, b.stack@[p]));
        }
        if g.missed_by(rows, split) {
            lemma_missed(self.training(), rows, split);
        }
        if split.above(self.range().0) && !split.above(self.range().1) {
            lemma_in_range_parts(
                rows,
                b.stack@.last().sample@,
                b.asked->0.feat as int,
                split,
                b.asked->0.lo,
                b.asked->0.hi,
            );
        }
    }

    /// Starts a forest for a table whose rows have the same width.
    pub fn new(rows: Vec<Vec<Double>>, seed: u64) -> (r: ForestTrainer)
        requires
            table(numbers(rows@), width(numbers(rows@))),
            width(numbers(rows@)) > 0,
        ensures
            r.inv(),
            r.table_rows() == numbers(rows@),
            !r.waiting(),
            r.calm(),
            r.source() == started(seed),
            r.training() == untrained(seed),
    {
        let n = rows.len();
        let dim = if n == 0 { 1 } else { rows[0].len() };
        let sub = if n <= IF_MAX_SAMPLES { n } else { IF_MAX_SAMPLES };
        let limit = depth_limit(sub);
        let r = ForestTrainer {
            rng: seeded(seed),
            rows,
            dim,
            sub,
            limit,
            trees: Vec::new(),
            current: None,
            samples: Ghost(Seq::empty()),
            tries: Ghost(Seq::empty()),
        };
        assert(r.training() =~= untrained(seed));
        r
    }

    /// Grows trees until a split value is needed, and says between which two numbers, the second
    /// larger than the first, it has to lie; or until the forest is complete.
    pub fn next_split(&mut self) -> (r: Option<(Double, Double)>)
        requires
            old(self).inv(),
            !old(self).waiting(),
        ensures
            final(self).inv(),
            final(self).table_rows() == old(self).table_rows(),
            final(self).training() == trained_on(old(self).training(), old(self).table_rows()),
            r is None <==> final(self).complete(),
            r is Some <==> final(self).waiting(),
            r matches Some((lo, hi)) ==> final(self).range() == (lo, hi) && column_range(
                old(self).table_rows(),
                lo,
                hi,
            ),
            old(self).calm() ==> final(self).calm(),
            forall|t: int| #[trigger] kept(old(self).nodes_of(t), final(self).nodes_of(t)),
    {
        while self.trees.len() < IF_N_TREES
            invariant
                self.inv(),
                self.table_rows() == old(self).table_rows(),
                !self.waiting(),
                old(self).calm() ==> self.calm(),
                forall|t: int| #[trigger] kept(old(self).nodes_of(t), self.nodes_of(t)),
                trained_on(self.training(), self.table_rows()) == trained_on(
                    old(self).training(),
                    self.table_rows(),
                ),
            decreases IF_N_TREES - self.trees@.len(),
        {
            let ghost before = *self;
            proof {
                self.lemma_limit();
            }
            let sample = subsample(&mut self.rng, self.rows.len(), self.sub);
            let mut builder = TreeBuilder::new(
                &self.rows,
                Ghost(self.dim as nat),
                sample,
                self.limit,
            );
            match builder.advance(&mut self.rng, &self.rows, self.dim) {
                Some(range) => {
                    proof {
                        builder.lemma_range(numbers(self.rows@), self.dim as nat);
                    }
                    self.current = Some(builder);
                    proof {
                        assert(self.training() =~= trained_on(
                            before.training(),
                            self.table_rows(),
                        ));
                        assert forall|t: int| #[trigger]
                            kept(old(self).nodes_of(t), self.nodes_of(t)) by {
                            assert(kept(old(self).nodes_of(t), before.nodes_of(t)));
                        }
                    }
                    return Some(range);
                },
                None => {
                    let ghost (whole, tries) = (builder.whole(), builder.attempts@);
                    let tree = builder.finish(&self.rows, Ghost(self.dim as nat));
                    self.trees.push(tree);
                    proof {
                        self.samples@ = self.samples@.push(whole);
                        self.tries@ = self.tries@.push(tries);
                        assert(self.training().trees =~= before.training().trees.push(
                            tree.nodes@,
                        ));
                        assert forall|t: int| #[trigger]
                            kept(old(self).nodes_of(t), self.nodes_of(t)) by {
                            assert(kept(old(self).nodes_of(t), before.nodes_of(t)));
                        }
                    }
                },
            }
        }
        None
    }

    /// Takes the split value that was asked for, and goes on like `next_split`.
    pub fn give_split(&mut self, split: Double) -> (r: Option<(Double, Double)>)
        requires
            old(self).inv(),
            old(self).waiting(),
        ensures
            final(self).inv(),
            final(self).table_rows() == old(self).table_rows(),
            final(self).training() == trained_with(
                old(self).training(),
                old(self).table_rows(),
                split,
            ),
            r is None <==> final(self).complete(),
            r is Some <==> final(self).waiting(),
            r matches Some((lo, hi)) ==> final(self).range() == (lo, hi) && column_range(
                old(self).table_rows(),
                lo,
                hi,
            ),
            split.above(old(self).range().0) && !split.above(old(self).range().1) && old(
                self,
            ).calm() ==> final(self).calm(),
            forall|t: int| #[trigger] kept(old(self).nodes_of(t), final(self).nodes_of(t)),
            old(self).training().current->0.missed_by(old(self).table_rows(), split)
                ==> after_a_miss(
                old(self).training().current->0,
                old(self).finished(),
                final(self).training(),
            ),
            !old(self).training().current->0.missed_by(old(self).table_rows(), split) ==> {
                let t = old(self).finished() as int;
                let m = old(self).nodes_of(t).len() as int;
                &&& final(self).nodes_of(t).len() > m
                &&& final(self).nodes_of(t)[m].feat == old(self).asked_feat()
                &&& final(self).nodes_of(t)[m].split == split
            },
            split.above(old(self).range().0) && !split.above(old(self).range().1)
                ==> !old(self).training().current->0.missed_by(old(self).table_rows(), split),
    {
        let ghost before = *self;
        proof {
            self.lemma_limit();
            self.lemma_split(split);
        }
        if let Some(taken) = self.current.take() {
            let mut builder = taken;
            builder.answer(&self.rows, Ghost(self.dim as nat), split);
            match builder.advance(&mut self.rng, &self.rows, self.dim) {
                Some(range) => {
                    proof {
                        builder.lemma_range(numbers(self.rows@), self.dim as nat);
                    }
                    self.current = Some(builder);
                    assert(kept(before.current->0.nodes@, self.current->0.nodes@));
                    return Some(range);
                },
                None => {
                    let ghost (whole, tries) = (builder.whole(), builder.attempts@);
                    let tree = builder.finish(&self.rows, Ghost(self.dim as nat));
                    self.trees.push(tree);
                    proof {
                        self.samples@ = self.samples@.push(whole);
                        self.tries@ = self.tries@.push(tries);
                        assert(self.training().trees =~= before.training().trees.push(
                            tree.nodes@,
                        ));
                    }
                },
            }
            proof {
                let t = before.trees@.len() as int;
                assert(kept(before.nodes_of(t), self.nodes_of(t)));
                assert forall|t: int| #[trigger] kept(before.nodes_of(t), self.nodes_of(t)) by {}
            }
        }
        let ghost middle = *self;
        let r = self.next_split();
        proof {
            assert forall|t: int| #[trigger] kept(before.nodes_of(t), self.nodes_of(t)) by {
                assert(kept(before.nodes_of(t), middle.nodes_of(t)));
                assert(kept(middle.nodes_of(t), self.nodes_of(t)));
            }
            let t = before.trees@.len() as int;
            assert(kept(middle.nodes_of(t), self.nodes_of(t)));
        }
        r
    }

    /// The finished forest.
    pub fn finish(self) -> (r: IsolationForest)
        requires
            self.inv(),
            self.complete(),
        ensures
            isolation_forest(r, self.table_rows(), self.attempts()),
            self.calm() ==> forall|t: int|
                0 <= t < IF_N_TREES ==> unmissed(#[trigger] self.attempts()[t]),
            forall|t: int|
                0 <= t < IF_N_TREES ==> (#[trigger] r.trees@[t]).nodes@ == self.nodes_of(t),
            trees_of(r) == self.training().trees,
    {
        proof {
            assert forall|t: int| 0 <= t < self.trees@.len() implies some_isolation_tree(
                #[trigger] self.trees@[t],
                numbers(self.rows@),
                self.tries@[t],
            ) by {
                assert(isolation_tree(
                    self.trees@[t],
                    numbers(self.rows@),
                    self.samples@[t],
                    self.limit as nat,
                    self.tries@[t],
                ));
            }
        }
        let ghost trees = self.training().trees;
        let r = IsolationForest { trees: self.trees, sub: self.sub };
        assert(trees_of(r) =~= trees);
        r
    }
}

/// What holds of every forest in the making: it has at most a hundred trees, and the part that
/// waits for a split value has had fewer tries in vain than would make it a leaf. How far the
/// forest has grown is told by its parts.
pub proof fn law_forest_in_the_making(f: ForestTrainer)
    requires
        f.inv(),
    ensures
        table(f.table_rows(), width(f.table_rows())),
        f.finished() <= IF_N_TREES,
        f.complete() <==> f.finished() == IF_N_TREES,
        f.waiting() ==> !f.complete(),
        f.training().source == f.source(),
        f.training().trees.len() == f.finished(),
        f.waiting() <==> f.training().current is Some,
        forall|t: int| #[trigger] f.nodes_of(t) == nodes_at(f.training(), t),
        f.training().current matches Some(g) ==> {
            &&& g.parts.len() > 0
            &&& 0 <= g.vain_tries() < SPLIT_TRIES
            &&& g.asked is Some
            &&& g.asked->0.feat == f.asked_feat()
            &&& (g.asked->0.lo, g.asked->0.hi) == f.range()
        },
{
}

/// What a caller does with each request: from the range and the generator of all draws it finds
/// the split value, and leaves a generator behind.
pub open spec fn one_split(
    t: Training,
    rows: Seq<Seq<Double>>,
    caller: spec_fn(Double, Double, StdRng) -> (Double, StdRng),
) -> Training {
    let asked = t.current->0.asked->0;
    let (split, source) = caller(asked.lo, asked.hi, t.source);
    trained_with(Training { source, ..t }, rows, split)
}

/// The stages of a forest from its first request to its last tree, one split value after the
/// other.
pub open spec fn training_stages(
    rows: Seq<Seq<Double>>,
    seed: u64,
    caller: spec_fn(Double, Double, StdRng) -> (Double, StdRng),
    run: Seq<Training>,
) -> bool {
    &&& run.len() > 0
    &&& run[0] == trained_on(untrained(seed), rows)
    &&& forall|i: int|
        0 <= i < run.len() - 1 ==> {
            &&& #[trigger] run[i + 1] == one_split(run[i], rows, caller)
            &&& run[i].current is Some
        }
    &&& run.last().current is None
}

proof fn lemma_same_training(
    rows: Seq<Seq<Double>>,
    seed: u64,
    caller: spec_fn(Double, Double, StdRng) -> (Double, StdRng),
    a: Seq<Training>,
    b: Seq<Training>,
    i: int,
)
    requires
        training_stages(rows, seed, caller, a),
        training_stages(rows, seed, caller, b),
        0 <= i < a.len(),
        i < b.len(),
    ensures
        a[i] == b[i],
    decreases i,
{
    if i > 0 {
        lemma_same_training(rows, seed, caller, a, b, i - 1);
        assert(a[(i - 1) + 1] == one_split(a[i - 1], rows, caller));
        assert(b[(i - 1) + 1] == one_split(b[i - 1], rows, caller));
    }
}

/// A fixed seed gives the same forest: two forests that are trained on the same numbers, for a
/// caller that answers equal requests equally, have the same trees.
pub proof fn law_same_seed_same_forest(
    rows: Seq<Seq<Double>>,
    seed: u64,
    caller: spec_fn(Double, Double, StdRng) -> (Double, StdRng),
    a: Seq<Training>,
    b: Seq<Training>,
    forest_a: IsolationForest,
    forest_b: IsolationForest,
)
    requires
        training_stages(rows, seed, caller, a),
        training_stages(rows, seed, caller, b),
        trees_of(forest_a) == a.last().trees,
        trees_of(forest_b) == b.last().trees,
    ensures
        a == b,
        trees_of(forest_a) == trees_of(forest_b),
{
    if a.len() < b.len() {
        let i = a.len() - 1;
        lemma_same_training(rows, seed, caller, a, b, i);
        assert(b[i + 1] == one_split(b[i], rows, caller));
    }
    if b.len() < a.len() {
        let i = b.len() - 1;
        lemma_same_training(rows, seed, caller, a, b, i);
        assert(a[i + 1] == one_split(a[i], rows, caller));
    }
    assert forall|i: int| 0 <= i < a.len() implies a[i] == b[i] by {
        lemma_same_training(rows, seed, caller, a, b, i);
    }
    assert(a =~= b);
}

/// The tree does not tell two rows apart: they take the same turn at every node on their way.
pub open spec fn together(nodes: Seq<IfNode>, at: int, x: Seq<Double>, y: Seq<Double>) -> bool
    decreases nodes.len() - at,
{
    let next = nodes[at].child(nodes[at].goes_left(x));
    if 0 <= at < nodes.len() && !nodes[at].leaf() && at < next < nodes.len() {
        nodes[at].goes_left(x) == nodes[at].goes_left(y) && together(nodes, next, x, y)
    } else {
        true
    }
}

/// No path through a tree is longer than the depth limit.
pub proof fn law_paths_are_limited(
    nodes: Seq<IfNode>,
    rows: Seq<Seq<Double>>,
    dim: nat,
    at: int,
    sample: Seq<usize>,
    depth: nat,
    limit: nat,
    tries: Seq<Seq<Attempt>>,
    x: Seq<Double>,
)
    requires
        grown(nodes, rows, dim, at, sample, depth, limit, tries),
    ensures
        depth + steps(nodes, at, x) <= limit,
        0 <= leaf_of(nodes, at, x) < nodes.len(),
        nodes[leaf_of(nodes, at, x)].leaf(),
    decreases nodes.len() - at,
{
    let node = nodes[at];
    if !node.leaf() {
        let low = node.goes_left(x);
        let next = part(rows, sample, node.feat as int, node.split, low);
        law_paths_are_limited(nodes, rows, dim, node.child(low), next, depth + 1, limit, tries, x);
    }
}

proof fn lemma_count_in_part(
    rows: Seq<Seq<Double>>,
    sample: Seq<usize>,
    feat: int,
    split: Double,
    low: bool,
    q: spec_fn(usize) -> bool,
)
    ensures
        count(
            part(rows, sample, feat, split, low).len(),
            |k: int| q(part(rows, sample, feat, split, low)[k]),
        ) == count(
            sample.len(),
            |k: int| split.above(rows[sample[k] as int][feat]) == low && q(sample[k]),
        ),
    decreases sample.len(),
{
    if sample.len() > 0 {
        let shorter = sample.drop_last();
        let rest = part(rows, shorter, feat, split, low);
        let whole = part(rows, sample, feat, split, low);
        lemma_count_in_part(rows, shorter, feat, split, low, q);
        lemma_count_same(
            shorter.len(),
            |k: int| split.above(rows[shorter[k] as int][feat]) == low && q(shorter[k]),
            |k: int| split.above(rows[sample[k] as int][feat]) == low && q(sample[k]),
        );
        if split.above(rows[sample.last() as int][feat]) == low {
            assert(whole == rest.push(sample.last()));
            lemma_count_same(rest.len(), |k: int| q(rest[k]), |k: int| q(whole[k]));
        }
    }
}

/// The size of the leaf that a row comes to is the number of sample rows that the tree does not
/// tell apart from it.
pub proof fn law_leaf_size(
    nodes: Seq<IfNode>,
    rows: Seq<Seq<Double>>,
    dim: nat,
    at: int,
    sample: Seq<usize>,
    depth: nat,
    limit: nat,
    tries: Seq<Seq<Attempt>>,
    x: Seq<Double>,
)
    requires
        grown(nodes, rows, dim, at, sample, depth, limit, tries),
    ensures
        nodes[leaf_of(nodes, at, x)].size == count(
            sample.len(),
            |k: int| together(nodes, at, x, rows[sample[k] as int]),
        ),
    decreases nodes.len() - at,
{
    let node = nodes[at];
    let n = sample.len();
    let here = |k: int| together(nodes, at, x, rows[sample[k] as int]);
    if node.leaf() {
        lemma_count_range(n, 0, n as int);
        lemma_count_same(n, here, |k: int| 0 <= k < n as int);
    } else {
        let low = node.goes_left(x);
        let next = part(rows, sample, node.feat as int, node.split, low);
        let c = node.child(low);
        law_leaf_size(nodes, rows, dim, c, next, depth + 1, limit, tries, x);
        let q = |i: usize| together(nodes, c, x, rows[i as int]);
        lemma_count_in_part(rows, sample, node.feat as int, node.split, low, q);
        lemma_count_same(
            next.len(),
            |k: int| together(nodes, c, x, rows[next[k] as int]),
            |k: int| q(next[k]),
        );
        lemma_count_same(
            n,
            |k: int|
                node.split.above(rows[sample[k] as int][node.feat as int]) == low && q(sample[k]),
            here,
        );
    }
}

/// The leaves of a tree hold the rows of its sample: their sizes add up to the size of the
/// samples.
pub proof fn law_leaf_sizes_add_up(
    t: IfTree,
    rows: Seq<Seq<Double>>,
    sample: Seq<usize>,
    limit: nat,
    tries: Seq<Seq<Attempt>>,
)
    requires
        isolation_tree(t, rows, sample, limit, tries),
    ensures
        leaf_rows(t.nodes@) == sample_size(rows.len()),
{
}

proof fn lemma_part_has(
    rows: Seq<Seq<Double>>,
    sample: Seq<usize>,
    feat: int,
    split: Double,
    low: bool,
)
    requires
        part(rows, sample, feat, split, low).len() > 0,
    ensures
        exists|k: int|
            0 <= k < sample.len() && split.above(rows[(#[trigger] sample[k]) as int][feat]) == low,
    decreases sample.len(),
{
    let n = sample.len() - 1;
    if split.above(rows[sample[n] as int][feat]) != low {
        let short = sample.drop_last();
        lemma_part_has(rows, short, feat, split, low);
        let k = choose|k: int|
            0 <= k < short.len() && split.above(rows[(#[trigger] short[k]) as int][feat]) == low;
        assert(sample[k] == short[k]);
    }
}

/// Rows that are all the same cannot be split: their tree is a single leaf that holds them all.
pub proof fn law_equal_rows_make_one_leaf(
    t: IfTree,
    rows: Seq<Seq<Double>>,
    sample: Seq<usize>,
    limit: nat,
    tries: Seq<Seq<Attempt>>,
)
    requires
        isolation_tree(t, rows, sample, limit, tries),
        forall|i: int, j: int|
            0 <= i < rows.len() && 0 <= j < rows.len() ==> (#[trigger] rows[i]) == (
            #[trigger] rows[j]),
    ensures
        t.nodes@.len() == 1,
        t.nodes@[0].left == NO_CHILD,
        t.nodes@[0].right == NO_CHILD,
        t.nodes@[0].size == sample_size(rows.len()),
{
    let root = t.nodes@[0];
    if !root.leaf() {
        let feat = root.feat as int;
        lemma_part_has(rows, sample, feat, root.split, true);
        lemma_part_has(rows, sample, feat, root.split, false);
        let k = choose|k: int|
            0 <= k < sample.len() && root.split.above(rows[(#[trigger] sample[k]) as int][feat]);
        let l = choose|l: int|
            0 <= l < sample.len() && !root.split.above(rows[(#[trigger] sample[l]) as int][feat]);
        assert(rows[sample[k] as int] == rows[sample[l] as int]);
    }
    if t.nodes@.len() > 1 {
        assert(has_parent(t.nodes@, 1));
        let (i, low) = choose|i: int, low: bool| child_of(t.nodes@, i, low, 1);
        assert(child_of(t.nodes@, i, low, 1));
        assert(i < t.nodes@[i].left && i < t.nodes@[i].right);
    }
}

/// Each inner node on the way of a row adds exactly one to its path length: from a node that is no
/// leaf the path is one longer than from the child that the row goes to, the left one if its number
/// lies below the split value and the right one if not, and it ends in the same leaf. From a leaf
/// there is no step.
pub proof fn law_each_inner_node_is_a_step(nodes: Seq<IfNode>, at: int, x: Seq<Double>)
    requires
        well_formed(nodes, x.len()),
        0 <= at < nodes.len(),
    ensures
        nodes[at].left == NO_CHILD ==> steps(nodes, at, x) == 0 && leaf_of(nodes, at, x) == at,
        nodes[at].left != NO_CHILD ==> {
            let next = if nodes[at].split.above(x[nodes[at].feat as int]) {
                nodes[at].left as int
            } else {
                nodes[at].right as int
            };
            &&& steps(nodes, at, x) == 1 + steps(nodes, next, x)
            &&& leaf_of(nodes, at, x) == leaf_of(nodes, next, x)
        },
{
}

/// From node `a`, which is no leaf, a row goes to node `b`.
pub open spec fn goes_to(nodes: Seq<IfNode>, x: Seq<Double>, a: int, b: int) -> bool {
    &&& nodes[a].left != NO_CHILD
    &&& b == if nodes[a].split.above(x[nodes[a].feat as int]) {
        nodes[a].left as int
    } else {
        nodes[a].right as int
    }
}

/// The way of a row: from a node over the children that the row goes to, down to a leaf, one node
/// more than its path length.
pub proof fn law_way_of_a_row(nodes: Seq<IfNode>, at: int, x: Seq<Double>) -> (way: Seq<int>)
    requires
        well_formed(nodes, x.len()),
        0 <= at < nodes.len(),
    ensures
        way.len() == steps(nodes, at, x) + 1,
        way[0] == at,
        way.last() == leaf_of(nodes, at, x),
        nodes[way.last()].left == NO_CHILD,
        forall|q: int| 0 <= q < way.len() ==> 0 <= #[trigger] way[q] < nodes.len(),
        forall|q: int, r: int|
            0 <= q && r == q + 1 && r < way.len() ==> goes_to(
                nodes,
                x,
                #[trigger] way[q],
                #[trigger] way[r],
            ),
    decreases nodes.len() - at,
{
    if nodes[at].leaf() {
        seq![at]
    } else {
        let next = nodes[at].child(nodes[at].goes_left(x));
        let rest = law_way_of_a_row(nodes, next, x);
        let way = seq![at] + rest;
        assert forall|q: int| 0 <= q < way.len() implies 0 <= #[trigger] way[q] < nodes.len() by {
            if q > 0 {
                assert(way[q] == rest[q - 1]);
            }
        }
        assert forall|q: int, r: int| 0 <= q && r == q + 1 && r < way.len() implies goes_to(
            nodes,
            x,
            #[trigger] way[q],
            #[trigger] way[r],
        ) by {
            assert(way[r] == rest[r - 1]);
            if q > 0 {
                assert(way[q] == rest[q - 1]);
                assert(goes_to(nodes, x, rest[q - 1], rest[r - 1]));
            }
        }
        way
    }
}

/// A row that passes fewer nodes has the shorter path: on equal ways two rows have equal paths.
pub proof fn law_rows_on_one_way(nodes: Seq<IfNode>, at: int, x: Seq<Double>, y: Seq<Double>)
    requires
        well_formed(nodes, x.len()),
        x.len() == y.len(),
        0 <= at < nodes.len(),
        together(nodes, at, x, y),
    ensures
        steps(nodes, at, x) == steps(nodes, at, y),
        leaf_of(nodes, at, x) == leaf_of(nodes, at, y),
    decreases nodes.len() - at,
{
    if !nodes[at].leaf() {
        let next = nodes[at].child(nodes[at].goes_left(x));
        law_rows_on_one_way(nodes, next, x, y);
    }
}

/// A split value parts a sample into the members whose number lies below it and the others, each
/// in the order of the sample.
pub proof fn law_parts_of_a_sample(
    rows: Seq<Seq<Double>>,
    sample: Seq<usize>,
    feat: int,
    split: Double,
)
    ensures
        part(rows, sample, feat, split, true) == sample.filter(
            |i: usize| split.above(rows[i as int][feat]),
        ),
        part(rows, sample, feat, split, false) == sample.filter(
            |i: usize| !split.above(rows[i as int][feat]),
        ),
        part(rows, sample, feat, split, true).len() + part(rows, sample, feat, split, false).len()
            == sample.len(),
    decreases sample.len(),
{
    reveal(Seq::filter);
    if sample.len() > 0 {
        law_parts_of_a_sample(rows, sample.drop_last(), feat, split);
    }
}

/// The range of a column over a sample spans all its numbers, and its ends are numbers of the
/// sample as soon as two differ.
pub proof fn law_range_of_a_column(rows: Seq<Seq<Double>>, sample: Seq<usize>, feat: int)
    ensures
        !extremes(rows, sample, feat).0.nan(),
        !extremes(rows, sample, feat).1.nan(),
        forall|k: int|
            #![trigger sample[k]]
            0 <= k < sample.len() && !rows[sample[k] as int][feat].nan() ==> extremes(
                rows,
                sample,
                feat,
            ).0.value() <= rows[sample[k] as int][feat].value() <= extremes(
                rows,
                sample,
                feat,
            ).1.value(),
        extremes(rows, sample, feat).0.bits == 0x7ff0_0000_0000_0000 || exists|k: int|
            0 <= k < sample.len() && rows[(#[trigger] sample[k]) as int][feat] == extremes(
                rows,
                sample,
                feat,
            ).0,
        extremes(rows, sample, feat).1.bits == 0xfff0_0000_0000_0000 || exists|k: int|
            0 <= k < sample.len() && rows[(#[trigger] sample[k]) as int][feat] == extremes(
                rows,
                sample,
                feat,
            ).1,
    decreases sample.len(),
{
    if sample.len() > 0 {
        let short = sample.drop_last();
        let n = sample.len() - 1;
        law_range_of_a_column(rows, short, feat);
        let (lo, hi) = extremes(rows, short, feat);
        let (lo1, hi1) = extremes(rows, sample, feat);
        lemma_order_bounds(rows[sample[n] as int][feat]);
        assert forall|k: int|
            #![trigger sample[k]]
            0 <= k < sample.len() && !rows[sample[k] as int][feat].nan() implies lo1.value()
            <= rows[sample[k] as int][feat].value() <= hi1.value() by {
            if k < n {
                assert(short[k] == sample[k]);
            }
        }
        if lo1 == lo && lo.bits != INFINITE {
            let k = choose|k: int|
                0 <= k < short.len() && rows[(#[trigger] short[k]) as int][feat] == lo;
            assert(sample[k] == short[k]);
        } else if lo1 != lo {
            assert(sample[n] == sample.last());
        }
        if hi1 == hi && hi.bits != SIGN + INFINITE {
            let k = choose|k: int|
                0 <= k < short.len() && rows[(#[trigger] short[k]) as int][feat] == hi;
            assert(sample[k] == short[k]);
        } else if hi1 != hi {
            assert(sample[n] == sample.last());
        }
    }
}

/// A column on which two rows of a sample differ is asked for a split value, and the range spans
/// both. A column on which none do is tried in vain, and the tenth try is the last.
pub proof fn law_outcome_of_a_try(
    rows: Seq<Seq<Double>>,
    sample: Seq<usize>,
    feat: int,
    earlier: int,
    j: int,
    k: int,
)
    requires
        0 <= j < sample.len(),
        0 <= k < sample.len(),
        earlier >= 0,
    ensures
        ({
            let (a, b) = (rows[sample[j] as int][feat], rows[sample[k] as int][feat]);
            let r = outcome_of_try(rows, sample, feat, earlier);
            &&& a.above(b) ==> (r matches Try::Ask { lo, hi } && hi.at_least(a) && b.at_least(lo))
            &&& flat(rows, sample, feat) && earlier < 9 ==> r == Try::Again
            &&& flat(rows, sample, feat) && earlier >= 9 ==> r == Try::Leaf
        }),
{
    law_range_of_a_column(rows, sample, feat);
    let (lo, hi) = extremes(rows, sample, feat);
    let (a, b) = (rows[sample[j] as int][feat], rows[sample[k] as int][feat]);
    lemma_order_bounds(lo);
    lemma_order_bounds(hi);
    if flat(rows, sample, feat) && hi.above(lo) {
        let p = choose|p: int|
            0 <= p < sample.len() && rows[(#[trigger] sample[p]) as int][feat] == lo;
        let q = choose|q: int|
            0 <= q < sample.len() && rows[(#[trigger] sample[q]) as int][feat] == hi;
        assert(rows[sample[p] as int][feat].value() == rows[sample[q] as int][feat].value());
    }
}

/// One more exchange of a shuffle changes two places, the next one and the drawn one, and each
/// gets what the other had. The shuffle starts from the indexes in order.
pub proof fn law_one_more_exchange(n: nat, drawn: Seq<usize>, j: usize, k: int)
    requires
        drawn.len() < n,
        j < n,
        0 <= k < n,
        exchanges(n, drawn),
    ensures
        shuffled(n, Seq::empty()) == Seq::new(n, |i: int| i as usize),
        ({
            let before = shuffled(n, drawn);
            let after = shuffled(n, drawn.push(j));
            let i = drawn.len() as int;
            &&& before.len() == n
            &&& after.len() == n
            &&& after[i] == before[j as int]
            &&& after[j as int] == before[i]
            &&& k != i && k != j ==> after[k] == before[k]
        }),
{
    lemma_shuffled_len(n, drawn);
    assert(drawn.push(j).drop_last() =~= drawn);
}

proof fn lemma_shuffled_len(n: nat, drawn: Seq<usize>)
    requires
        exchanges(n, drawn),
    ensures
        shuffled(n, drawn).len() == n,
    decreases drawn.len(),
{
    if drawn.len() > 0 {
        let short = drawn.drop_last();
        assert forall|i: int| 0 <= i < short.len() implies i <= (#[trigger] short[i]) < n by {
            assert(short[i] == drawn[i]);
        }
        lemma_shuffled_len(n, short);
    }
}

/// The exchange of each place is drawn from that place on, all places to the end being possible,
/// one draw after the other; the sample is the places that are settled.
pub proof fn law_exchanges_are_drawn(source: StdRng, n: usize, count: nat)
    ensures
        exchanges_from(source, n, 0) == (Seq::<usize>::empty(), source),
        ({
            let (drawn, next) = exchanges_from(source, n, count);
            let (j, last) = drawn_usize(next, count as usize, n, usize::BITS);
            exchanges_from(source, n, count + 1) == (drawn.push(j), last)
        }),
        sample_drawn(source, n, count).0 == shuffled(
            n as nat,
            exchanges_from(source, n, count).0,
        ).take(count as int),
        sample_drawn(source, n, count).1 == exchanges_from(source, n, count).1,
{
}

/// A forest has a hundred trees, each grown from 256 rows or from all if there are fewer, and no
/// deeper than the logarithm of that number to base 2, rounded up.
pub proof fn law_size_of_a_forest(
    f: IsolationForest,
    rows: Seq<Seq<Double>>,
    tries: Seq<Seq<Seq<Attempt>>>,
    t: int,
    x: Seq<Double>,
)
    requires
        isolation_forest(f, rows, tries),
        0 <= t < 100,
    ensures
        f.trees@.len() == 100,
        rows.len() <= 256 ==> f.sub == rows.len(),
        rows.len() > 256 ==> f.sub == 256,
        f.trees@[t].root == 0,
        leaf_rows(f.trees@[t].nodes@) == f.sub,
        exists|limit: nat|
            steps(f.trees@[t].nodes@, 0, x) <= limit && #[trigger] pow2(limit) >= f.sub && (limit > 1
                ==> pow2((limit - 1) as nat) < f.sub) && limit >= 1,
{
    assert(some_isolation_tree(f.trees@[t], rows, tries[t]));
    let (sample, limit) = choose|sample: Seq<usize>, limit: nat|
        isolation_tree(f.trees@[t], rows, sample, limit, tries[t]);
    law_paths_are_limited(
        f.trees@[t].nodes@,
        rows,
        width(rows),
        0,
        sample,
        0,
        limit,
        tries[t],
        x,
    );
    assert(pow2(limit) >= f.sub);
}

/// An inner node divides its rows into two parts, neither empty, by a column of the table, and its
/// children divide these further. A leaf of two rows or more lies at the depth limit, or ten tries
/// to divide it were in vain.
pub proof fn law_nodes_of_a_tree(
    nodes: Seq<IfNode>,
    rows: Seq<Seq<Double>>,
    dim: nat,
    at: int,
    sample: Seq<usize>,
    depth: nat,
    limit: nat,
    tries: Seq<Seq<Attempt>>,
)
    requires
        grown(nodes, rows, dim, at, sample, depth, limit, tries),
    ensures
        depth <= limit,
        nodes[at].left == NO_CHILD ==> {
            &&& nodes[at].right == NO_CHILD
            &&& nodes[at].size == sample.len()
            &&& sample.len() >= 2 && depth < limit ==> tries[at].len() == 10 && forall|k: int|
                0 <= k < 10 ==> (#[trigger] tries[at][k]).missed || flat(
                    rows,
                    sample,
                    tries[at][k].feat as int,
                )
        },
        nodes[at].left != NO_CHILD ==> {
            let low = sample.filter(
                |i: usize| nodes[at].split.above(rows[i as int][nodes[at].feat as int]),
            );
            let high = sample.filter(
                |i: usize| !nodes[at].split.above(rows[i as int][nodes[at].feat as int]),
            );
            &&& nodes[at].feat < dim
            &&& low.len() > 0
            &&& high.len() > 0
            &&& grown(nodes, rows, dim, nodes[at].left as int, low, depth + 1, limit, tries)
            &&& grown(nodes, rows, dim, nodes[at].right as int, high, depth + 1, limit, tries)
        },
{
    law_parts_of_a_sample(rows, sample, nodes[at].feat as int, nodes[at].split);
    if nodes[at].leaf() && sample.len() >= 2 && depth < limit {
        assert forall|k: int| 0 <= k < 10 implies (#[trigger] tries[at][k]).missed || flat(
            rows,
            sample,
            tries[at][k].feat as int,
        ) by {
            assert(vain(rows, sample, dim, tries[at][k]));
        }
    }
}

/// The next part becomes a leaf at the depth limit, with a single row or none, and after ten tries.
/// Otherwise a column is drawn from all columns: if two rows differ on it, a split value is asked
/// for; if not, the try counts and, but for the tenth, the next draw decides as if this one had not
/// been made.
pub proof fn law_how_a_tree_grows(
    g: Growth,
    source: StdRng,
    rows: Seq<Seq<Double>>,
    dim: usize,
    limit: int,
)
    requires
        g.parts.len() > 0,
        0 <= g.tries <= 10,
    ensures
        ({
            let top = g.parts[g.parts.len() - 1];
            let (feat, next) = drawn_usize(source, 0, dim, usize::BITS);
            let now = advanced(g, source, rows, dim, limit);
            let more = Growth { tries: g.tries + 1, ..g };
            let done = top.depth >= limit || top.sample.len() <= 1 || g.tries >= 10;
            &&& done ==> now == advanced(with_leaf(g), source, rows, dim, limit)
            &&& !done && !flat(rows, top.sample, feat as int) ==> {
                &&& now.1 == next
                &&& now.0.nodes == g.nodes
                &&& now.0.parts == g.parts
                &&& now.0.tries == g.tries + 1
                &&& now.0.asked is Some
                &&& now.0.asked->0.feat == feat
                &&& now.0.asked->0.hi.above(now.0.asked->0.lo)
            }
            &&& !done && flat(rows, top.sample, feat as int) && g.tries < 9 ==> now == advanced(
                more,
                next,
                rows,
                dim,
                limit,
            )
            &&& !done && flat(rows, top.sample, feat as int) && g.tries == 9 ==> now == advanced(
                with_leaf(more),
                next,
                rows,
                dim,
                limit,
            )
        }),
{
    let top = g.parts[g.parts.len() - 1];
    let (feat, next) = drawn_usize(source, 0, dim, usize::BITS);
    if !(top.depth >= limit || top.sample.len() <= 1 || g.tries >= 10) {
        law_outcome_of_a_try(rows, top.sample, feat as int, g.tries, 0, 0);
        if !flat(rows, top.sample, feat as int) {
            let (j, k) = choose|j: int, k: int|
                #![trigger top.sample[j], top.sample[k]]
                0 <= j < top.sample.len() && 0 <= k < top.sample.len()
                    && !rows[top.sample[j] as int][feat as int].nan()
                    && !rows[top.sample[k] as int][feat as int].nan()
                    && rows[top.sample[j] as int][feat as int].value()
                    != rows[top.sample[k] as int][feat as int].value();
            law_outcome_of_a_try(rows, top.sample, feat as int, g.tries, j, k);
            law_outcome_of_a_try(rows, top.sample, feat as int, g.tries, k, j);
        }
    }
}

/// A leaf holds the rows of its part, and an inner node leaves a part for the rows below its split
/// value, which comes first, and one for the others. The parent is linked to its new child on the
/// side of the part, and the parts that wait are left as they are.
pub proof fn law_how_a_node_is_added(
    g: Growth,
    rows: Seq<Seq<Double>>,
    split: Double,
)
    requires
        g.parts.len() > 0,
        g.nodes.len() < usize::MAX,
        g.asked is Some,
    ensures
        ({
            let top = g.parts[g.parts.len() - 1];
            let m = g.nodes.len() as int;
            let leaf = with_leaf(g);
            let feat = g.asked->0.feat;
            let low = top.sample.filter(|i: usize| split.above(rows[i as int][feat as int]));
            let high = top.sample.filter(|i: usize| !split.above(rows[i as int][feat as int]));
            let inner = with_split(g, rows, split);
            &&& leaf.nodes.len() == m + 1
            &&& leaf.nodes[m].left == NO_CHILD
            &&& leaf.nodes[m].right == NO_CHILD
            &&& leaf.nodes[m].size == top.sample.len() as usize
            &&& leaf.parts == g.parts.drop_last()
            &&& leaf.tries == 0
            &&& top.parent < m ==> {
                &&& top.low ==> leaf.nodes[top.parent as int].left == m
                &&& !top.low ==> leaf.nodes[top.parent as int].right == m
            }
            &&& low.len() == 0 || high.len() == 0 ==> inner == (Growth { asked: None, ..g })
            &&& low.len() > 0 && high.len() > 0 ==> {
                let n = g.parts.len() as int;
                &&& inner.nodes.len() == m + 1
                &&& inner.nodes[m] == (IfNode {
                    feat,
                    split,
                    left: NO_CHILD,
                    right: NO_CHILD,
                    size: 0,
                })
                &&& inner.parts.len() == n + 1
                &&& inner.parts.take(n - 1) == g.parts.drop_last()
                &&& inner.parts[n] == (Part {
                    sample: low,
                    depth: top.depth + 1,
                    parent: m as usize,
                    low: true,
                })
                &&& inner.parts[n - 1] == (Part {
                    sample: high,
                    depth: top.depth + 1,
                    parent: m as usize,
                    low: false,
                })
                &&& inner.tries == 0
                &&& inner.asked is None
                &&& top.parent < m ==> {
                    &&& top.low ==> inner.nodes[top.parent as int].left == m
                    &&& !top.low ==> inner.nodes[top.parent as int].right == m
                }
            }
        }),
{
    let top = g.parts[g.parts.len() - 1];
    law_parts_of_a_sample(rows, top.sample, g.asked->0.feat as int, split);
    if !g.missed_by(rows, split) {
        let inner = with_split(g, rows, split);
        assert(inner.parts.take(g.parts.len() - 1) =~= g.parts.drop_last());
    }
}

/// A tree starts from its whole sample, without a node.
pub proof fn law_how_a_tree_starts(sample: Seq<usize>)
    ensures
        sown(sample).nodes.len() == 0,
        sown(sample).parts.len() == 1,
        sown(sample).parts[0].sample == sample,
        sown(sample).parts[0].depth == 0,
        sown(sample).tries == 0,
        sown(sample).asked is None,
{
}

/// The next tree is grown from a sample of 256 rows, or of all if there are fewer, drawn from all
/// rows, with all columns to split by. If it needs no split value it is finished and the forest goes
/// on with the next; after a hundred trees nothing is left to do.
pub proof fn law_how_a_forest_grows(t: Training, rows: Seq<Seq<Double>>, limit: nat, size: nat)
    requires
        rows.len() <= usize::MAX,
        0 < rows.len(),
        rows[0].len() <= usize::MAX,
        size == rows.len() && size <= 256 || size == 256 && rows.len() > 256,
        limit >= 1,
        pow2(limit) >= size,
        limit > 1 ==> pow2((limit - 1) as nat) < size,
    ensures
        t.trees.len() >= 100 ==> trained_on(t, rows) == t,
        t.trees.len() < 100 ==> {
            let (sample, next) = sample_drawn(t.source, rows.len() as usize, size);
            let (g, source) = advanced(
                sown(sample),
                next,
                rows,
                rows[0].len() as usize,
                limit as int,
            );
            &&& g.parts.len() > 0 ==> trained_on(t, rows) == (Training {
                source,
                current: Some(g),
                ..t
            })
            &&& g.parts.len() == 0 ==> trained_on(t, rows) == trained_on(
                Training { source, trees: t.trees.push(g.nodes), ..t },
                rows,
            )
        },
{
    assert(limit_for(size, limit));
    law_one_limit(size, limit, limit_of(rows));
}

} // verus!
