use raytracing2::bvh::{Aabb, Bvh, BvhElement, BvhNode};

fn element(leaf: u32, min: [u64; 3], max: [u64; 3]) -> BvhElement {
    let centroid = [
        min[0] / 2 + max[0] / 2,
        min[1] / 2 + max[1] / 2,
        min[2] / 2 + max[2] / 2,
    ];
    BvhElement { leaf, aabb: Aabb { min, max }, centroid }
}

fn node_aabb(node: &BvhNode) -> Aabb {
    match node {
        BvhNode::Branch { aabb, .. } => *aabb,
        BvhNode::Leaf { aabb, .. } => *aabb,
    }
}

/// Walks the tree and collects every leaf's primitive position.
fn collect_leaves(bvh: &Bvh, node: u32, out: &mut Vec<u32>) {
    match &bvh.nodes[node as usize] {
        BvhNode::Leaf { leaf, .. } => out.push(*leaf),
        BvhNode::Branch { left, right, .. } => {
            collect_leaves(bvh, *left, out);
            collect_leaves(bvh, *right, out);
        }
    }
}

#[test]
fn bvh_single_element() {
    let mut elements = vec![element(0, [5, 5, 5], [9, 9, 9])];
    let bvh = Bvh::new(&mut elements);
    assert_eq!(bvh.nodes.len(), 1);
    assert_eq!(bvh.root, 0);
    let root_box = node_aabb(&bvh.nodes[bvh.root as usize]);
    assert_eq!(root_box.min, [5, 5, 5]);
    assert_eq!(root_box.max, [9, 9, 9]);
}

#[test]
fn bvh_root_box_is_union_of_leaves() {
    let mut elements = vec![
        element(0, [0, 10, 20], [5, 15, 25]),
        element(1, [100, 0, 50], [110, 5, 60]),
        element(2, [50, 200, 0], [55, 210, 5]),
    ];
    let bvh = Bvh::new(&mut elements);
    assert_eq!(bvh.nodes.len(), 5);
    assert_eq!(bvh.root as usize, bvh.nodes.len() - 1);
    let root_box = node_aabb(&bvh.nodes[bvh.root as usize]);
    assert_eq!(root_box.min, [0, 0, 0]);
    assert_eq!(root_box.max, [110, 210, 60]);
    // Every branch bounds exactly its children.
    for node in &bvh.nodes {
        if let BvhNode::Branch { aabb, left, right } = node {
            let l = node_aabb(&bvh.nodes[*left as usize]);
            let r = node_aabb(&bvh.nodes[*right as usize]);
            for axis in 0..3 {
                assert_eq!(aabb.min[axis], l.min[axis].min(r.min[axis]));
                assert_eq!(aabb.max[axis], l.max[axis].max(r.max[axis]));
            }
        }
    }
}

#[test]
fn bvh_every_element_becomes_one_leaf() {
    let mut elements = vec![
        element(0, [0, 0, 0], [1, 1, 1]),
        element(1, [10, 0, 0], [11, 1, 1]),
        element(2, [20, 0, 0], [21, 1, 1]),
        element(3, [30, 0, 0], [31, 1, 1]),
        element(4, [40, 0, 0], [41, 1, 1]),
    ];
    let bvh = Bvh::new(&mut elements);
    assert_eq!(bvh.nodes.len(), 2 * 5 - 1);
    let mut leaves = Vec::new();
    collect_leaves(&bvh, bvh.root, &mut leaves);
    leaves.sort();
    assert_eq!(leaves, vec![0, 1, 2, 3, 4]);
}

#[test]
fn bvh_identical_centroids() {
    // Elements whose boxes coincide still build a tree with one leaf each.
    let mut elements = vec![
        element(0, [3, 3, 3], [7, 7, 7]),
        element(1, [3, 3, 3], [7, 7, 7]),
        element(2, [3, 3, 3], [7, 7, 7]),
    ];
    let bvh = Bvh::new(&mut elements);
    assert_eq!(bvh.nodes.len(), 5);
    let mut leaves = Vec::new();
    collect_leaves(&bvh, bvh.root, &mut leaves);
    leaves.sort();
    assert_eq!(leaves, vec![0, 1, 2]);
    let root_box = node_aabb(&bvh.nodes[bvh.root as usize]);
    assert_eq!(root_box.min, [3, 3, 3]);
    assert_eq!(root_box.max, [7, 7, 7]);
}

#[test]
fn bvh_two_elements() {
    let mut elements = vec![
        element(0, [10, 0, 0], [12, 2, 2]),
        element(1, [0, 0, 0], [2, 2, 2]),
    ];
    let bvh = Bvh::new(&mut elements);
    assert_eq!(bvh.nodes.len(), 3);
    // The span is sorted by the x centroid, so the left leaf is element 1.
    match &bvh.nodes[0] {
        BvhNode::Leaf { leaf, .. } => assert_eq!(*leaf, 1),
        _ => panic!("expected a leaf first"),
    }
    let root_box = node_aabb(&bvh.nodes[bvh.root as usize]);
    assert_eq!(root_box.min, [0, 0, 0]);
    assert_eq!(root_box.max, [12, 2, 2]);
}

#[test]
fn aabb_union_componentwise() {
    let a = Aabb { min: [0, 5, 9], max: [10, 6, 9] };
    let b = Aabb { min: [3, 1, 2], max: [4, 20, 30] };
    let u = a.union(&b);
    assert_eq!(u.min, [0, 1, 2]);
    assert_eq!(u.max, [10, 20, 30]);
}
