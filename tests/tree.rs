use hashsplit::algorithms::{Bozo32, Rrs1};
use hashsplit::chunk::{ChunkData, ResumableChunk};
use hashsplit::iter::{Boundary, Distances, Spans};
use hashsplit::tree::{Tree, TreeNode};
use hashsplit::Hasher;

fn numbered_chunks(n: u8) -> Vec<ResumableChunk<'static, Bozo32>> {
    (0..n).map(|i| ResumableChunk::new(ChunkData::Owned(vec![i]), i as u32)).collect()
}

fn collect_bytes<H: Hasher>(node: &TreeNode<H>, out: &mut Vec<u8>) {
    match node {
        TreeNode::Leaf(chunks) => {
            for c in chunks {
                out.extend_from_slice(c.bytes());
            }
        }
        TreeNode::Internal(children) => {
            for c in children {
                collect_bytes(c, out);
            }
        }
    }
}

fn leaf_sizes<H: Hasher>(nodes: &[TreeNode<H>]) -> Vec<usize> {
    nodes
        .iter()
        .map(|n| match n {
            TreeNode::Leaf(v) => v.len(),
            TreeNode::Internal(_) => panic!("expected a leaf"),
        })
        .collect()
}

#[test]
fn leaves_close_at_threshold() {
    let (nodes, levels) = TreeNode::leaves(numbered_chunks(5), &[0, 5, 1, 7, 2], 5);
    assert_eq!(leaf_sizes(&nodes), vec![2, 2, 1]);
    assert_eq!(levels, vec![5, 7, 2]);
    let mut bytes = Vec::new();
    for n in &nodes {
        collect_bytes(n, &mut bytes);
    }
    assert_eq!(bytes, vec![0, 1, 2, 3, 4]);
}

#[test]
fn leaves_of_nothing() {
    let (nodes, levels) = TreeNode::leaves(numbered_chunks(0), &[], 3);
    assert!(nodes.is_empty());
    assert!(levels.is_empty());
}

#[test]
fn leaves_last_level_reaching_threshold() {
    let (nodes, levels) = TreeNode::leaves(numbered_chunks(3), &[9, 9, 9], 9);
    assert_eq!(leaf_sizes(&nodes), vec![1, 1, 1]);
    assert_eq!(levels, vec![9, 9, 9]);
}

#[test]
fn parents_group_children() {
    let (leaves, levels) = TreeNode::leaves(numbered_chunks(6), &[4, 1, 4, 8, 4, 0], 4);
    assert_eq!(leaf_sizes(&leaves), vec![1, 2, 1, 1, 1]);
    assert_eq!(levels, vec![4, 4, 8, 4, 0]);
    let (parents, parent_levels) = TreeNode::parents(leaves, &levels, 8);
    let sizes: Vec<usize> = parents
        .iter()
        .map(|n| match n {
            TreeNode::Internal(v) => v.len(),
            TreeNode::Leaf(_) => panic!("expected an internal node"),
        })
        .collect();
    assert_eq!(sizes, vec![3, 2]);
    assert_eq!(parent_levels, vec![8, 0]);
}

#[test]
fn tree_over_chunks_keeps_bytes() {
    let mut x: u32 = 12345;
    let data: Vec<u8> = (0..50000)
        .map(|_| {
            x ^= x << 13;
            x ^= x >> 17;
            x ^= x << 5;
            x as u8
        })
        .collect();
    let mut d: Distances<Rrs1, 4, 64, 1024> = Distances::start(Rrs1::new(), &data);
    let mut levels = Vec::new();
    while let Some(e) = d.next() {
        levels.push(match e.boundary {
            Boundary::Level(l, _) => l,
            _ => 0,
        });
    }
    let mut s: Spans<Rrs1, 4, 64, 1024> = Spans::start(Rrs1::new(), &data);
    let mut chunks = Vec::new();
    while let Some(c) = s.next() {
        chunks.push(c);
    }
    assert_eq!(chunks.len(), levels.len());
    let tree = Tree::build(chunks, &levels, &[6, 8]);
    let mut bytes = Vec::new();
    collect_bytes(&tree.root, &mut bytes);
    assert_eq!(bytes, data);
}
