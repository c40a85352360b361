use raytracer::bvh::{BvhNode, Child};
use raytracer::keybox::{float_from_order_key, float_order_key, AxisKeys, KeyBox};

fn key(x: f64) -> u64 {
    float_order_key(x.to_bits())
}

fn unkey(k: u64) -> f64 {
    f64::from_bits(float_from_order_key(k))
}

fn boxed(lo: [f64; 3], hi: [f64; 3]) -> KeyBox {
    KeyBox {
        x: AxisKeys { min: key(lo[0]), max: key(hi[0]) },
        y: AxisKeys { min: key(lo[1]), max: key(hi[1]) },
        z: AxisKeys { min: key(lo[2]), max: key(hi[2]) },
    }
}

fn longest_axis(b: KeyBox) -> usize {
    let sx = unkey(b.x.max) - unkey(b.x.min);
    let sy = unkey(b.y.max) - unkey(b.y.min);
    let sz = unkey(b.z.max) - unkey(b.z.min);
    if sx >= sy && sx >= sz {
        0
    } else if sy >= sz {
        1
    } else {
        2
    }
}

fn objects_below(tree: &BvhNode, c: Child, out: &mut Vec<usize>) {
    match c {
        Child::Object(o) => out.push(o),
        Child::Branch(k) => {
            let b = tree.branches[k];
            objects_below(tree, b.left, out);
            objects_below(tree, b.right, out);
        }
    }
}

fn contains(outer: KeyBox, inner: KeyBox) -> bool {
    let ok = |o: AxisKeys, i: AxisKeys| o.min <= i.min && i.max <= o.max;
    ok(outer.x, inner.x) && ok(outer.y, inner.y) && ok(outer.z, inner.z)
}

#[test]
fn keys_order_as_doubles() {
    let xs = [
        f64::NEG_INFINITY,
        -1.0e300,
        -2.5,
        -1.0,
        -1.0e-300,
        -0.0,
        0.0,
        1.0e-300,
        0.5,
        1.0,
        3.0e10,
        f64::INFINITY,
    ];
    for w in xs.windows(2) {
        assert!(key(w[0]) < key(w[1]), "{} vs {}", w[0], w[1]);
    }
    for &x in xs.iter() {
        assert_eq!(unkey(key(x)).to_bits(), x.to_bits());
    }
}

#[test]
fn single_object_appears_on_both_sides() {
    let boxes = vec![boxed([0.0, 0.0, 0.0], [1.0, 1.0, 1.0])];
    let tree = BvhNode::new(&boxes, longest_axis);
    assert_eq!(tree.branches.len(), 1);
    let root = tree.branches[tree.root];
    assert_eq!(root.left, Child::Object(0));
    assert_eq!(root.right, Child::Object(0));
    assert_eq!(root.bbox, boxes[0]);
}

#[test]
fn two_objects_keep_their_order() {
    let boxes = vec![
        boxed([5.0, 0.0, 0.0], [6.0, 1.0, 1.0]),
        boxed([-3.0, 0.0, 0.0], [-2.0, 1.0, 1.0]),
    ];
    let tree = BvhNode::new(&boxes, longest_axis);
    let root = tree.branches[tree.root];
    assert_eq!(root.left, Child::Object(0));
    assert_eq!(root.right, Child::Object(1));
    assert_eq!(root.bbox, boxed([-3.0, 0.0, 0.0], [6.0, 1.0, 1.0]));
}

#[test]
fn larger_sets_split_sorted_along_longest_axis() {
    // Spread along y; listed out of order.
    let boxes = vec![
        boxed([0.0, 4.0, 0.0], [1.0, 5.0, 1.0]),
        boxed([0.0, -8.0, 0.0], [1.0, -7.0, 1.0]),
        boxed([0.0, 1.0, 0.0], [1.0, 2.0, 1.0]),
        boxed([0.0, -1.0, 0.0], [1.0, 0.0, 1.0]),
    ];
    let tree = BvhNode::new(&boxes, longest_axis);
    let root = tree.branches[tree.root];
    let (l, r) = match (root.left, root.right) {
        (Child::Branch(l), Child::Branch(r)) => (tree.branches[l], tree.branches[r]),
        _ => panic!("expected two branches"),
    };
    // sorted by lower y: 1 (-8), 3 (-1), 2 (1), 0 (4)
    assert_eq!((l.left, l.right), (Child::Object(1), Child::Object(3)));
    assert_eq!((r.left, r.right), (Child::Object(2), Child::Object(0)));
    assert_eq!(root.bbox, boxed([0.0, -8.0, 0.0], [1.0, 5.0, 1.0]));
}

#[test]
fn equal_keys_keep_list_order() {
    let boxes = vec![
        boxed([0.0, 0.0, 0.0], [9.0, 1.0, 1.0]),
        boxed([0.0, 0.0, 0.0], [2.0, 1.0, 1.0]),
        boxed([0.0, 0.0, 0.0], [3.0, 1.0, 1.0]),
    ];
    let tree = BvhNode::new(&boxes, longest_axis);
    let mut seen = Vec::new();
    objects_below(&tree, Child::Branch(tree.root), &mut seen);
    seen.dedup();
    assert_eq!(seen, vec![0, 1, 2]);
}

#[test]
fn every_object_is_reached_and_enclosed() {
    let mut boxes = Vec::new();
    for i in 0..37 {
        let x = ((i * 7919) % 101) as f64 - 50.0;
        let y = ((i * 104729) % 53) as f64 * 0.25;
        let z = -((i * 31) % 17) as f64;
        boxes.push(boxed([x, y, z], [x + 1.5, y + 0.5, z + 2.0]));
    }
    let tree = BvhNode::new(&boxes, longest_axis);
    assert_eq!(tree.root, tree.branches.len() - 1);
    let mut seen = Vec::new();
    objects_below(&tree, Child::Branch(tree.root), &mut seen);
    seen.sort();
    seen.dedup();
    assert_eq!(seen, (0..37).collect::<Vec<_>>());
    for (k, b) in tree.branches.iter().enumerate() {
        let mut below = Vec::new();
        objects_below(&tree, Child::Branch(k), &mut below);
        for o in below {
            assert!(contains(b.bbox, boxes[o]));
        }
        for c in [b.left, b.right] {
            if let Child::Branch(i) = c {
                assert!(i < k);
            }
        }
    }
}

#[test]
fn axis_lookup() {
    let b = boxed([1.0, 2.0, 3.0], [4.0, 5.0, 6.0]);
    assert_eq!(b.axis(0), b.x);
    assert_eq!(b.axis(1), b.y);
    assert_eq!(b.axis(2), b.z);
    let m = b.new_from_merged(&boxed([-1.0, 3.0, 3.5], [2.0, 7.0, 5.0]));
    assert_eq!(m, boxed([-1.0, 2.0, 3.0], [4.0, 7.0, 6.0]));
}

fn child_box(tree: &BvhNode, boxes: &[KeyBox], c: Child) -> KeyBox {
    match c {
        Child::Object(o) => boxes[o],
        Child::Branch(k) => tree.branches[k].bbox,
    }
}

fn run_len(tree: &BvhNode, c: Child) -> usize {
    match c {
        Child::Object(_) => 1,
        Child::Branch(k) => {
            let b = tree.branches[k];
            if b.left == b.right {
                1
            } else {
                run_len(tree, b.left) + run_len(tree, b.right)
            }
        }
    }
}

#[test]
fn branch_boxes_are_merges_and_splits_are_at_the_middle() {
    let mut boxes = Vec::new();
    for i in 0..23 {
        let x = ((i * 37) % 29) as f64 - 14.0;
        let y = ((i * 11) % 7) as f64;
        boxes.push(boxed([x, y, 0.0], [x + 0.5 + (i % 3) as f64, y + 1.0, 1.0]));
    }
    let tree = BvhNode::new(&boxes, longest_axis);
    let mut order = tree.order.clone();
    order.sort();
    assert_eq!(order, (0..23).collect::<Vec<_>>());
    for b in tree.branches.iter() {
        let merged = child_box(&tree, &boxes, b.left).new_from_merged(&child_box(&tree, &boxes, b.right));
        assert_eq!(b.bbox, merged);
        if let (Child::Branch(_), Child::Branch(_)) = (b.left, b.right) {
            let (l, r) = (run_len(&tree, b.left), run_len(&tree, b.right));
            assert_eq!(l, (l + r) / 2);
        }
    }
    assert_eq!(run_len(&tree, Child::Branch(tree.root)), 23);
}
