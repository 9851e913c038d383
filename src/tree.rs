//! A tree over chunks, each node owning its children. Nodes are grouped by
//! the same level comparison that splits bytes into chunks, applied to the
//! levels of the chunks' boundaries with coarser thresholds.
use crate::chunk::ResumableChunk;
use crate::Hasher;
use vstd::prelude::*;

verus! {

/// A node: a run of child nodes, or a run of chunks.
pub enum TreeNode<'a, Hash: Hasher> {
    Internal(Vec<TreeNode<'a, Hash>>),
    Leaf(Vec<ResumableChunk<'a, Hash>>),
}

pub struct Tree<'a, Hash: Hasher> {
    pub root: Box<TreeNode<'a, Hash>>,
}

impl<'a, Hash: Hasher> TreeNode<'a, Hash> {
    /// Whether this node is a leaf holding exactly `chunks`.
    pub open spec fn is_leaf_of(self, chunks: Seq<ResumableChunk<'a, Hash>>) -> bool {
        match self {
            TreeNode::Leaf(v) => v@ == chunks,
            TreeNode::Internal(_) => false,
        }
    }

    /// The chunks under this node, in order.
    pub open spec fn spec_chunks(self) -> Seq<ResumableChunk<'a, Hash>>
        decreases self,
    {
        match self {
            TreeNode::Leaf(v) => v@,
            TreeNode::Internal(children) => nodes_chunks(children@),
        }
    }

    /// Whether this node is an internal node holding exactly `children`.
    pub open spec fn is_parent_of(self, children: Seq<TreeNode<'a, Hash>>) -> bool {
        match self {
            TreeNode::Internal(v) => v@ == children,
            TreeNode::Leaf(_) => false,
        }
    }
}

/// The chunks under `nodes`, in order.
pub open spec fn nodes_chunks<'a, Hash: Hasher>(nodes: Seq<TreeNode<'a, Hash>>) -> Seq<
    ResumableChunk<'a, Hash>,
>
    decreases nodes,
{
    if nodes.len() == 0 {
        Seq::empty()
    } else {
        nodes_chunks(nodes.drop_last()) + nodes.last().spec_chunks()
    }
}

/// The chunks under two runs of nodes are those under the first, then those
/// under the second.
pub proof fn lemma_nodes_chunks_concat<'a, Hash: Hasher>(
    first: Seq<TreeNode<'a, Hash>>,
    second: Seq<TreeNode<'a, Hash>>,
)
    ensures
        nodes_chunks(first + second) == nodes_chunks(first) + nodes_chunks(second),
    decreases second.len(),
{
    if second.len() == 0 {
        assert(first + second =~= first);
        assert(nodes_chunks(first) + nodes_chunks(second) =~= nodes_chunks(first));
    } else {
        assert((first + second).drop_last() =~= first + second.drop_last());
        lemma_nodes_chunks_concat(first, second.drop_last());
        assert(nodes_chunks(first + second) =~= nodes_chunks(first) + nodes_chunks(second));
    }
}

/// The ends of the runs closed within the first `n` levels: just after each
/// level of at least `threshold`.
pub open spec fn closed_run_ends(levels: Seq<u32>, threshold: u32, n: nat) -> Seq<int>
    decreases n,
{
    if n == 0 {
        Seq::empty()
    } else if levels[n - 1] >= threshold {
        closed_run_ends(levels, threshold, (n - 1) as nat).push(n as int)
    } else {
        closed_run_ends(levels, threshold, (n - 1) as nat)
    }
}

/// The ends of the runs of `levels`: just after each level of at least
/// `threshold`, and at the end.
pub open spec fn run_ends(levels: Seq<u32>, threshold: u32) -> Seq<int> {
    let closed = closed_run_ends(levels, threshold, levels.len());
    if levels.len() > 0 && levels.last() < threshold {
        closed.push(levels.len() as int)
    } else {
        closed
    }
}

/// Where run `k` starts, given the ends of the runs.
pub open spec fn run_start(ends: Seq<int>, k: int) -> int {
    if k == 0 {
        0
    } else {
        ends[k - 1]
    }
}

/// Ends that cut `0..len` into non-empty runs, in order.
pub open spec fn well_cut(ends: Seq<int>, len: nat) -> bool {
    &&& forall|k: int| 0 <= k < ends.len() ==> run_start(ends, k) < #[trigger] ends[k] <= len
    &&& ends.len() > 0 ==> ends.last() == len
    &&& ends.len() == 0 ==> len == 0
}

proof fn lemma_closed_run_ends(levels: Seq<u32>, threshold: u32, n: nat)
    requires
        n <= levels.len(),
    ensures
        forall|k: int|
            0 <= k < closed_run_ends(levels, threshold, n).len() ==> run_start(
                closed_run_ends(levels, threshold, n),
                k,
            ) < #[trigger] closed_run_ends(levels, threshold, n)[k] <= n,
        forall|k: int|
            0 <= k < closed_run_ends(levels, threshold, n).len() ==> levels[#[trigger] closed_run_ends(
                levels,
                threshold,
                n,
            )[k] - 1] >= threshold,
        n > 0 && levels[n - 1] >= threshold ==> closed_run_ends(levels, threshold, n).len() > 0
            && closed_run_ends(levels, threshold, n).last() == n,
    decreases n,
{
    if n > 0 {
        lemma_closed_run_ends(levels, threshold, (n - 1) as nat);
        let prev = closed_run_ends(levels, threshold, (n - 1) as nat);
        let cur = closed_run_ends(levels, threshold, n);
        assert forall|k: int| 0 <= k < cur.len() implies run_start(cur, k) < #[trigger] cur[k] <= n
            && levels[cur[k] - 1] >= threshold by {
            if k < prev.len() {
                assert(cur[k] == prev[k]);
                if k > 0 {
                    assert(cur[k - 1] == prev[k - 1]);
                }
            } else if k > 0 {
                assert(cur[k - 1] == prev[k - 1]);
            }
        }
    }
}

/// The runs of any levels cut them well.
pub proof fn lemma_run_ends_well_cut(levels: Seq<u32>, threshold: u32)
    ensures
        well_cut(run_ends(levels, threshold), levels.len()),
{
    lemma_closed_run_ends(levels, threshold, levels.len());
    let closed = closed_run_ends(levels, threshold, levels.len());
    let ends = run_ends(levels, threshold);
    assert forall|k: int| 0 <= k < ends.len() implies run_start(ends, k) < #[trigger] ends[k]
        <= levels.len() by {
        if k < closed.len() {
            assert(ends[k] == closed[k]);
            if k > 0 {
                assert(ends[k - 1] == closed[k - 1]);
            }
        } else if k > 0 {
            assert(ends[k - 1] == closed[k - 1]);
        }
    }
}

/// The ends of the runs of `levels`.
fn find_run_ends(levels: &[u32], threshold: u32) -> (r: Vec<usize>)
    ensures
        r@.len() == run_ends(levels@, threshold).len(),
        forall|k: int| 0 <= k < r@.len() ==> r@[k] as int == #[trigger] run_ends(levels@, threshold)[k],
{
    let mut ends: Vec<usize> = Vec::new();
    let mut i: usize = 0;
    while i < levels.len()
        invariant
            i <= levels@.len(),
            ends@.len() == closed_run_ends(levels@, threshold, i as nat).len(),
            forall|k: int|
                0 <= k < ends@.len() ==> ends@[k] as int == #[trigger] closed_run_ends(
                    levels@,
                    threshold,
                    i as nat,
                )[k],
        decreases levels@.len() - i,
    {
        if levels[i] >= threshold {
            ends.push(i + 1);
        }
        i += 1;
    }
    if levels.len() > 0 && levels[levels.len() - 1] < threshold {
        ends.push(levels.len());
    }
    ends
}

/// What a tree node can be made of: chunks, for a leaf, or nodes, for an
/// internal node.
pub trait TreeMember<'a, Hash: Hasher>: Sized {
    /// The chunks under a run of members, in order.
    spec fn members_chunks(members: Seq<Self>) -> Seq<ResumableChunk<'a, Hash>>;

    /// Whether `node` is the node made of exactly `members`.
    spec fn is_node_of(node: TreeNode<'a, Hash>, members: Seq<Self>) -> bool;

    proof fn lemma_members_concat(first: Seq<Self>, second: Seq<Self>)
        ensures
            Self::members_chunks(first + second) == Self::members_chunks(first)
                + Self::members_chunks(second),
    ;

    /// The node made of `members`.
    fn into_node(members: Vec<Self>) -> (r: TreeNode<'a, Hash>)
        ensures
            Self::is_node_of(r, members@),
            r.spec_chunks() == Self::members_chunks(members@),
    ;
}

impl<'a, Hash: Hasher> TreeMember<'a, Hash> for ResumableChunk<'a, Hash> {
    open spec fn members_chunks(members: Seq<Self>) -> Seq<ResumableChunk<'a, Hash>> {
        members
    }

    open spec fn is_node_of(node: TreeNode<'a, Hash>, members: Seq<Self>) -> bool {
        node.is_leaf_of(members)
    }

    proof fn lemma_members_concat(first: Seq<Self>, second: Seq<Self>) {
    }

    fn into_node(members: Vec<Self>) -> (r: TreeNode<'a, Hash>) {
        TreeNode::Leaf(members)
    }
}

impl<'a, Hash: Hasher> TreeMember<'a, Hash> for TreeNode<'a, Hash> {
    open spec fn members_chunks(members: Seq<Self>) -> Seq<ResumableChunk<'a, Hash>> {
        nodes_chunks(members)
    }

    open spec fn is_node_of(node: TreeNode<'a, Hash>, members: Seq<Self>) -> bool {
        node.is_parent_of(members)
    }

    proof fn lemma_members_concat(first: Seq<Self>, second: Seq<Self>) {
        lemma_nodes_chunks_concat(first, second);
    }

    fn into_node(members: Vec<Self>) -> (r: TreeNode<'a, Hash>) {
        TreeNode::Internal(members)
    }
}

/// `nodes` with `node_levels` are `members` with `levels` grouped at
/// `threshold`: one node per run, made of that run's members, with the level
/// of its last member.
pub open spec fn grouped<'a, Hash: Hasher, T: TreeMember<'a, Hash>>(
    nodes: Seq<TreeNode<'a, Hash>>,
    node_levels: Seq<u32>,
    members: Seq<T>,
    levels: Seq<u32>,
    threshold: u32,
) -> bool {
    let ends = run_ends(levels, threshold);
    &&& nodes.len() == ends.len()
    &&& node_levels.len() == ends.len()
    &&& forall|k: int|
        0 <= k < nodes.len() ==> {
            &&& T::is_node_of(#[trigger] nodes[k], members.subrange(run_start(ends, k), ends[k]))
            &&& node_levels[k] == levels[ends[k] - 1]
        }
}

/// Moves the first `n` items of `rest` out, in order.
fn take_front<T>(rest: &mut Vec<T>, n: usize) -> (r: Vec<T>)
    requires
        n <= old(rest)@.len(),
    ensures
        r@ == old(rest)@.subrange(0, n as int),
        final(rest)@ == old(rest)@.subrange(n as int, old(rest)@.len() as int),
{
    let mut front = rest.split_off(n);
    core::mem::swap(rest, &mut front);
    front
}

/// Groups `members` into nodes: a node ends after a member whose level
/// reaches `threshold`, and at the end. Returns the nodes with the level of
/// each one's last member.
#[verifier::spinoff_prover]
#[verifier::rlimit(100)]
pub fn group<'a, Hash: Hasher, T: TreeMember<'a, Hash>>(
    members: Vec<T>,
    levels: &[u32],
    threshold: u32,
) -> (r: (Vec<TreeNode<'a, Hash>>, Vec<u32>))
    requires
        members@.len() == levels@.len(),
    ensures
        grouped(r.0@, r.1@, members@, levels@, threshold),
        nodes_chunks(r.0@) == T::members_chunks(members@),
{
    let ends = find_run_ends(levels, threshold);
    let ghost spec_ends = run_ends(levels@, threshold);
    proof {
        lemma_run_ends_well_cut(levels@, threshold);
        let none = Seq::<T>::empty();
        T::lemma_members_concat(none, none);
        assert(none + none =~= none);
        assert(members@.subrange(0, 0) =~= none);
        assert(T::members_chunks(none) =~= Seq::<ResumableChunk<'a, Hash>>::empty());
    }
    let mut rest = members;
    let mut nodes: Vec<TreeNode<'a, Hash>> = Vec::new();
    let mut node_levels: Vec<u32> = Vec::new();
    let mut start: usize = 0;
    let mut k: usize = 0;
    while k < ends.len()
        invariant
            k <= ends@.len(),
            ends@.len() == spec_ends.len(),
            forall|j: int| 0 <= j < ends@.len() ==> ends@[j] as int == #[trigger] spec_ends[j],
            well_cut(spec_ends, levels@.len()),
            spec_ends == run_ends(levels@, threshold),
            members@.len() == levels@.len(),
            start as int == run_start(spec_ends, k as int),
            rest@ == members@.subrange(start as int, members@.len() as int),
            nodes_chunks(nodes@) == T::members_chunks(members@.subrange(0, start as int)),
            nodes@.len() == k,
            node_levels@.len() == k,
            forall|j: int|
                0 <= j < k ==> {
                    &&& T::is_node_of(
                        #[trigger] nodes@[j],
                        members@.subrange(run_start(spec_ends, j), spec_ends[j]),
                    )
                    &&& node_levels@[j] == levels@[spec_ends[j] - 1]
                },
        decreases ends@.len() - k,
    {
        let end = ends[k];
        assert(end as int == spec_ends[k as int]);
        assert(run_start(spec_ends, k as int) < spec_ends[k as int] <= levels@.len());
        let group = take_front(&mut rest, end - start);
        assert(group@ =~= members@.subrange(start as int, end as int));
        let ghost before = nodes@;
        let node = T::into_node(group);
        nodes.push(node);
        node_levels.push(levels[end - 1]);
        proof {
            assert(nodes@.drop_last() =~= before);
            T::lemma_members_concat(
                members@.subrange(0, start as int),
                members@.subrange(start as int, end as int),
            );
            assert(members@.subrange(0, start as int) + members@.subrange(start as int, end as int)
                =~= members@.subrange(0, end as int));
        }
        assert forall|j: int| 0 <= j < k + 1 implies {
            &&& T::is_node_of(
                #[trigger] nodes@[j],
                members@.subrange(run_start(spec_ends, j), spec_ends[j]),
            )
            &&& node_levels@[j] == levels@[spec_ends[j] - 1]
        } by {
            if j < k {
                assert(nodes@[j] == before[j]);
            }
        }
        start = end;
        k += 1;
        assert(rest@ =~= members@.subrange(start as int, members@.len() as int));
    }
    proof {
        assert(members@.subrange(0, start as int) =~= members@);
    }
    (nodes, node_levels)
}

impl<'a, Hash: Hasher> TreeNode<'a, Hash> {
    /// Groups `chunks` into leaves: a leaf ends after a chunk whose level
    /// reaches `threshold`, and at the end.
    pub fn leaves(chunks: Vec<ResumableChunk<'a, Hash>>, levels: &[u32], threshold: u32) -> (r: (
        Vec<TreeNode<'a, Hash>>,
        Vec<u32>,
    ))
        requires
            chunks@.len() == levels@.len(),
        ensures
            grouped(r.0@, r.1@, chunks@, levels@, threshold),
            nodes_chunks(r.0@) == chunks@,
    {
        group(chunks, levels, threshold)
    }

    /// Groups `children` into parents: a parent ends after a child whose
    /// level reaches `threshold`, and at the end.
    pub fn parents(children: Vec<TreeNode<'a, Hash>>, levels: &[u32], threshold: u32) -> (r: (
        Vec<TreeNode<'a, Hash>>,
        Vec<u32>,
    ))
        requires
            children@.len() == levels@.len(),
        ensures
            grouped(r.0@, r.1@, children@, levels@, threshold),
            nodes_chunks(r.0@) == nodes_chunks(children@),
    {
        group(children, levels, threshold)
    }
}

/// `layers` are the layers of a tree over `chunks`, from the bottom: the
/// chunks grouped into leaves at `thresholds[0]`, then each layer grouped at
/// the next threshold. Each layer is its nodes with their levels.
pub open spec fn layers_of<'a, Hash: Hasher>(
    layers: Seq<(Seq<TreeNode<'a, Hash>>, Seq<u32>)>,
    chunks: Seq<ResumableChunk<'a, Hash>>,
    levels: Seq<u32>,
    thresholds: Seq<u32>,
) -> bool {
    &&& layers.len() > 0
    &&& layers.len() <= thresholds.len()
    &&& grouped(layers[0].0, layers[0].1, chunks, levels, thresholds[0])
    &&& forall|i: int|
        0 < i < layers.len() ==> grouped(
            (#[trigger] layers[i]).0,
            layers[i].1,
            layers[i - 1].0,
            layers[i - 1].1,
            thresholds[i],
        )
}

impl<'a, Hash: Hasher> Tree<'a, Hash> {
    /// Builds a tree bottom-up over `chunks`, where `levels[i]` is the level
    /// of the boundary that closed chunk `i`: leaves grouped at
    /// `thresholds[0]`, each layer above grouped at the next threshold, and a
    /// root over the top layer.
    pub fn build(chunks: Vec<ResumableChunk<'a, Hash>>, levels: &[u32], thresholds: &[u32]) -> (r:
        Self)
        requires
            chunks@.len() == levels@.len(),
            thresholds@.len() > 0,
        ensures
            exists|layers: Seq<(Seq<TreeNode<'a, Hash>>, Seq<u32>)>|
                #[trigger] layers_of(layers, chunks@, levels@, thresholds@) && layers.len()
                    == thresholds@.len() && r.root.is_parent_of(layers.last().0),
            r.root.spec_chunks() == chunks@,
    {
        let ghost all = chunks@;
        let (mut nodes, mut node_levels) = TreeNode::leaves(chunks, levels, thresholds[0]);
        let ghost mut layers = seq![(nodes@, node_levels@)];
        let mut i: usize = 1;
        while i < thresholds.len()
            invariant
                1 <= i <= thresholds@.len(),
                nodes@.len() == node_levels@.len(),
                nodes_chunks(nodes@) == all,
                layers_of(layers, all, levels@, thresholds@),
                layers.len() == i,
                layers.last() == (nodes@, node_levels@),
            decreases thresholds@.len() - i,
        {
            let (parents, parent_levels) = TreeNode::parents(nodes, node_levels.as_slice(), thresholds[i]);
            proof {
                let before = layers;
                layers = layers.push((parents@, parent_levels@));
                assert forall|j: int| 0 < j < layers.len() implies grouped(
                    (#[trigger] layers[j]).0,
                    layers[j].1,
                    layers[j - 1].0,
                    layers[j - 1].1,
                    thresholds@[j],
                ) by {
                    if j < before.len() {
                        assert(layers[j] == before[j]);
                        assert(layers[j - 1] == before[j - 1]);
                    } else {
                        assert(layers[j - 1] == before.last());
                    }
                }
            }
            nodes = parents;
            node_levels = parent_levels;
            i += 1;
        }
        let r = Tree { root: Box::new(TreeNode::Internal(nodes)) };
        assert(layers_of(layers, all, levels@, thresholds@) && layers.len() == thresholds@.len()
            && r.root.is_parent_of(layers.last().0));
        r
    }
}

} // verus!
