//! Bounding-volume hierarchy over boxes of order keys, stored as an arena:
//! the build, and what it guarantees of the tree.
use crate::keybox::{
    axis_spec, box_contains, box_union, lemma_union_holds_each, lemma_union_is_least, union_over,
    KeyBox,
};
use vstd::prelude::*;

verus! {

/// One side of a branch: an object of the scene (its index in the list the
/// tree was built from) or another branch of the arena.
#[derive(Clone, Copy, Debug, PartialEq, Eq, Structural)]
pub enum Child {
    Object(usize),
    Branch(usize),
}

/// An internal node of the tree: two children and the union of their boxes.
/// A range of one object has that object on both sides.
#[derive(Clone, Copy, Debug, PartialEq, Eq, Structural)]
pub struct Branch {
    pub left: Child,
    pub right: Child,
    pub bbox: KeyBox,
}

/// A bounding-volume hierarchy: its branches in an arena, children before
/// their parents, the index of the root branch, and the object indices in
/// the order the build left them (each branch covers a run of that order).
pub struct BvhNode {
    pub branches: Vec<Branch>,
    pub root: usize,
    pub order: Vec<usize>,
}

/// A child of branch `i` names a real object or an earlier branch, and its
/// box lies within the branch's box.
pub open spec fn child_ok(branches: Seq<Branch>, i: int, c: Child, boxes: Seq<KeyBox>) -> bool {
    match c {
        Child::Object(o) => o < boxes.len() && box_contains(branches[i].bbox, boxes[o as int]),
        Child::Branch(k) => k < i && box_contains(branches[i].bbox, branches[k as int].bbox),
    }
}

/// The box of a child: the object's own box, or the branch's box.
pub open spec fn child_box(branches: Seq<Branch>, c: Child, boxes: Seq<KeyBox>) -> KeyBox {
    match c {
        Child::Object(o) => boxes[o as int],
        Child::Branch(k) => branches[k as int].bbox,
    }
}

/// Both children of branch `i` are well formed, and the branch's box is
/// exactly the merge of its children's boxes.
pub open spec fn branch_ok(branches: Seq<Branch>, i: int, boxes: Seq<KeyBox>) -> bool {
    &&& child_ok(branches, i, branches[i].left, boxes)
    &&& child_ok(branches, i, branches[i].right, boxes)
    &&& branches[i].bbox == box_union(
        child_box(branches, branches[i].left, boxes),
        child_box(branches, branches[i].right, boxes),
    )
}

/// Every branch of the arena is well formed.
pub open spec fn arena_ok(branches: Seq<Branch>, boxes: Seq<KeyBox>) -> bool {
    forall|i: int| 0 <= i < branches.len() ==> #[trigger] branch_ok(branches, i, boxes)
}

/// The objects reachable from branch `i`.
pub open spec fn objects_below(branches: Seq<Branch>, i: int) -> Set<usize>
    decreases i,
{
    if 0 <= i < branches.len() {
        let l = match branches[i].left {
            Child::Object(o) => set![o],
            Child::Branch(k) => if k < i {
                objects_below(branches, k as int)
            } else {
                Set::empty()
            },
        };
        let r = match branches[i].right {
            Child::Object(o) => set![o],
            Child::Branch(k) => if k < i {
                objects_below(branches, k as int)
            } else {
                Set::empty()
            },
        };
        l.union(r)
    } else {
        Set::empty()
    }
}

/// The values found in `s` at positions `lo..hi`.
pub open spec fn ids_in(s: Seq<usize>, lo: int, hi: int) -> Set<usize> {
    Set::new(|o: usize| exists|k: int| lo <= k < hi && s[k] == o)
}

/// `a` is `b` cut short: a branch's meaning depends only on earlier ones.
pub open spec fn is_prefix(a: Seq<Branch>, b: Seq<Branch>) -> bool {
    a.len() <= b.len() && forall|j: int| 0 <= j < a.len() ==> a[j] == b[j]
}

impl BvhNode {
    /// The arena is well formed and `root` is its last branch.
    pub open spec fn wf(&self, boxes: Seq<KeyBox>) -> bool {
        &&& arena_ok(self.branches@, boxes)
        &&& self.branches.len() > 0
        &&& self.root == self.branches.len() - 1
    }
}

proof fn lemma_objects_below_prefix(a: Seq<Branch>, b: Seq<Branch>, i: int)
    requires
        is_prefix(a, b),
        0 <= i < a.len(),
    ensures
        objects_below(a, i) == objects_below(b, i),
    decreases i,
{
    assert(a[i] == b[i]);
    match a[i].left {
        Child::Branch(k) => if k < i {
            lemma_objects_below_prefix(a, b, k as int);
        },
        _ => {},
    }
    match a[i].right {
        Child::Branch(k) => if k < i {
            lemma_objects_below_prefix(a, b, k as int);
        },
        _ => {},
    }
}

proof fn lemma_arena_prefix(a: Seq<Branch>, b: Seq<Branch>, boxes: Seq<KeyBox>)
    requires
        is_prefix(a, b),
        arena_ok(a, boxes),
    ensures
        forall|i: int| 0 <= i < a.len() ==> #[trigger] branch_ok(b, i, boxes),
{
    assert forall|i: int| 0 <= i < a.len() implies #[trigger] branch_ok(b, i, boxes) by {
        assert(branch_ok(a, i, boxes));
        assert(a[i] == b[i]);
        match a[i].left {
            Child::Branch(k) => if k < i {
                assert(a[k as int] == b[k as int]);
            },
            _ => {},
        }
        match a[i].right {
            Child::Branch(k) => if k < i {
                assert(a[k as int] == b[k as int]);
            },
            _ => {},
        }
    }
}

proof fn lemma_ids_split(s: Seq<usize>, a: int, b: int, c: int)
    requires
        a <= b <= c,
    ensures
        ids_in(s, a, c) == ids_in(s, a, b).union(ids_in(s, b, c)),
{
    assert(ids_in(s, a, c) =~= ids_in(s, a, b).union(ids_in(s, b, c)));
}

proof fn lemma_ids_agree(s: Seq<usize>, t: Seq<usize>, a: int, b: int)
    requires
        forall|k: int| a <= k < b ==> s[k] == t[k],
    ensures
        ids_in(s, a, b) == ids_in(t, a, b),
{
    assert forall|o: usize| ids_in(s, a, b).contains(o) implies ids_in(t, a, b).contains(o) by {
        let k = choose|k: int| a <= k < b && s[k] == o;
        assert(t[k] == o);
    }
    assert forall|o: usize| ids_in(t, a, b).contains(o) implies ids_in(s, a, b).contains(o) by {
        let k = choose|k: int| a <= k < b && t[k] == o;
        assert(s[k] == o);
    }
    assert(ids_in(s, a, b) =~= ids_in(t, a, b));
}

proof fn lemma_union_holds_member(boxes: Seq<KeyBox>, s: Seq<usize>, lo: int, hi: int, e: usize)
    requires
        0 <= lo < hi <= s.len(),
        ids_in(s, lo, hi).contains(e),
    ensures
        box_contains(union_over(boxes, s.subrange(lo, hi)), boxes[e as int]),
{
    let k = choose|k: int| lo <= k < hi && s[k] == e;
    lemma_union_holds_each(boxes, s.subrange(lo, hi), k - lo);
}

proof fn lemma_union_within(boxes: Seq<KeyBox>, s: Seq<usize>, lo: int, hi: int, outer: KeyBox)
    requires
        0 <= lo < hi <= s.len(),
        forall|e: usize| ids_in(s, lo, hi).contains(e) ==> box_contains(outer, #[trigger] boxes[e as int]),
    ensures
        box_contains(outer, union_over(boxes, s.subrange(lo, hi))),
{
    let sub = s.subrange(lo, hi);
    assert forall|k: int| 0 <= k < sub.len() implies box_contains(outer, #[trigger] boxes[sub[k] as int]) by {
        assert(sub[k] == s[lo + k]);
        assert(ids_in(s, lo, hi).contains(s[lo + k]));
    }
    lemma_union_is_least(boxes, sub, outer);
}

/// Along axis `a`, no object at positions `s..m` of `order` starts further
/// than any object at positions `m..e`.
pub open spec fn split_keys(boxes: Seq<KeyBox>, order: Seq<usize>, s: int, m: int, e: int, a: int) -> bool {
    forall|k1: int, k2: int|
        s <= k1 < m <= k2 < e ==> #[trigger] axis_spec(boxes[order[k1] as int], a).min
            <= #[trigger] axis_spec(boxes[order[k2] as int], a).min
}

/// Branch `i` is the subtree built over positions `s..e` of `order`: it
/// reaches exactly the objects there; a run of one or two objects holds them
/// directly, in order; a longer run has a branch on each side, the left one
/// built over the first `(e - s) / 2` positions and the right one over the
/// rest, split along an axis that `axis_of` gives for the branch's box.
pub open spec fn shaped<F: Fn(KeyBox) -> usize>(
    branches: Seq<Branch>,
    i: int,
    order: Seq<usize>,
    s: int,
    e: int,
    boxes: Seq<KeyBox>,
    axis_of: F,
) -> bool
    decreases i,
{
    &&& 0 <= i < branches.len()
    &&& 0 <= s < e <= order.len()
    &&& objects_below(branches, i) == ids_in(order, s, e)
    &&& if e - s <= 2 {
        branches[i].left == Child::Object(order[s]) && branches[i].right == Child::Object(
            order[e - 1],
        )
    } else {
        let mid = s + (e - s) / 2;
        match (branches[i].left, branches[i].right) {
            (Child::Branch(l), Child::Branch(r)) => {
                &&& l < i
                &&& r < i
                &&& shaped(branches, l as int, order, s, mid, boxes, axis_of)
                &&& shaped(branches, r as int, order, mid, e, boxes, axis_of)
                &&& exists|a: usize|
                    axis_of.ensures((branches[i].bbox,), a) && split_keys(
                        boxes,
                        order,
                        s,
                        mid,
                        e,
                        a as int,
                    )
            },
            _ => false,
        }
    }
}

proof fn lemma_shaped_frame<F: Fn(KeyBox) -> usize>(
    a: Seq<Branch>,
    b: Seq<Branch>,
    i: int,
    o: Seq<usize>,
    p: Seq<usize>,
    s: int,
    e: int,
    boxes: Seq<KeyBox>,
    axis_of: F,
)
    requires
        is_prefix(a, b),
        shaped(a, i, o, s, e, boxes, axis_of),
        p.len() == o.len(),
        forall|k: int| s <= k < e ==> o[k] == p[k],
    ensures
        shaped(b, i, p, s, e, boxes, axis_of),
    decreases i,
{
    assert(a[i] == b[i]);
    lemma_objects_below_prefix(a, b, i);
    lemma_ids_agree(o, p, s, e);
    if e - s > 2 {
        let mid = s + (e - s) / 2;
        match (a[i].left, a[i].right) {
            (Child::Branch(l), Child::Branch(r)) => {
                lemma_shaped_frame(a, b, l as int, o, p, s, mid, boxes, axis_of);
                lemma_shaped_frame(a, b, r as int, o, p, mid, e, boxes, axis_of);
                let ax = choose|ax: usize|
                    axis_of.ensures((a[i].bbox,), ax) && split_keys(boxes, o, s, mid, e, ax as int);
                assert(split_keys(boxes, p, s, mid, e, ax as int)) by {
                    assert forall|k1: int, k2: int| s <= k1 < mid <= k2 < e implies #[trigger] axis_spec(
                        boxes[p[k1] as int],
                        ax as int,
                    ).min <= #[trigger] axis_spec(boxes[p[k2] as int], ax as int).min by {
                        assert(o[k1] == p[k1] && o[k2] == p[k2]);
                    }
                }
            },
            _ => {},
        }
    }
}

/// The union of the boxes of `order[start..end]`.
fn union_range(boxes: &Vec<KeyBox>, order: &Vec<usize>, start: usize, end: usize) -> (r: KeyBox)
    requires
        start < end <= order.len(),
        forall|k: int| 0 <= k < order.len() ==> order@[k] < boxes.len(),
    ensures
        r == union_over(boxes@, order@.subrange(start as int, end as int)),
{
    let mut b = boxes[order[start]];
    let mut k: usize = start + 1;
    proof {
        assert(order@.subrange(start as int, k as int).len() == 1);
    }
    while k < end
        invariant
            start < k <= end,
            end <= order.len(),
            forall|j: int| 0 <= j < order.len() ==> order@[j] < boxes.len(),
            b == union_over(boxes@, order@.subrange(start as int, k as int)),
        decreases end - k,
    {
        b = b.new_from_merged(&boxes[order[k]]);
        proof {
            let s = order@.subrange(start as int, k + 1);
            assert(s.drop_last() =~= order@.subrange(start as int, k as int));
            assert(s.last() == order@[k as int]);
        }
        k = k + 1;
    }
    b
}


/// Lexicographic order on (key, position) pairs.
pub open spec fn pair_le(a: (u64, usize), b: (u64, usize)) -> bool {
    a.0 < b.0 || (a.0 == b.0 && a.1 <= b.1)
}

/// Mapping two sequences that hold the same elements gives two sequences
/// that hold the same elements.
proof fn lemma_multiset_map<A, B>(a: Seq<A>, b: Seq<A>, f: spec_fn(A) -> B)
    requires
        a.to_multiset() == b.to_multiset(),
    ensures
        a.map_values(f).to_multiset() == b.map_values(f).to_multiset(),
    decreases a.len(),
{
    broadcast use vstd::multiset::group_multiset_axioms;

    a.to_multiset_ensures();
    b.to_multiset_ensures();
    if a.len() == 0 {
        assert(a.map_values(f) =~= b.map_values(f));
    } else {
        let x = a.last();
        assert(a.contains(x));
        assert(b.to_multiset().count(x) > 0);
        assert(b.contains(x));
        let i = choose|i: int| 0 <= i < b.len() && b[i] == x;
        let a2 = a.drop_last();
        let b2 = b.remove(i);
        assert(a =~= a2.push(x));
        a2.to_multiset_ensures();
        b2.to_multiset_ensures();
        assert(a2.to_multiset() =~= b2.to_multiset());
        lemma_multiset_map(a2, b2, f);
        let fa = a.map_values(f);
        let fb = b.map_values(f);
        assert(fa =~= a2.map_values(f).push(f(x)));
        assert(b2.map_values(f) =~= fb.remove(i));
        a2.map_values(f).to_multiset_ensures();
        fb.to_multiset_ensures();
        assert(fb[i] == f(x));
        assert(fa.to_multiset() =~= fb.to_multiset());
    }
}

/// Relies on `slice::sort_unstable`: afterwards the slice holds the same
/// elements, in ascending order (tuples compare lexicographically).
#[verifier::external_body]
fn sort_pairs(v: &mut Vec<(u64, usize)>)
    ensures
        final(v)@.to_multiset() == old(v)@.to_multiset(),
        forall|i: int, j: int| 0 <= i < j < final(v)@.len() ==> pair_le(final(v)@[i], final(v)@[j]),
{
    v.sort_unstable();
}

/// Reorders `order[start..end]` by the lower key of each object's box along
/// `axis`.
fn sort_range_by_axis(
    boxes: &Vec<KeyBox>,
    order: &mut Vec<usize>,
    start: usize,
    end: usize,
    axis: usize,
)
    requires
        start < end <= old(order).len(),
        axis < 3,
        forall|k: int| 0 <= k < old(order).len() ==> old(order)@[k] < boxes.len(),
    ensures
        final(order).len() == old(order).len(),
        forall|k: int|
            0 <= k < final(order).len() && !(start <= k < end) ==> final(order)@[k]
                == old(order)@[k],
        forall|k: int| 0 <= k < final(order).len() ==> final(order)@[k] < boxes.len(),
        ids_in(final(order)@, start as int, end as int) == ids_in(
            old(order)@,
            start as int,
            end as int,
        ),
        forall|k1: int, k2: int|
            start <= k1 < k2 < end ==> #[trigger] axis_spec(
                boxes@[final(order)@[k1] as int],
                axis as int,
            ).min <= #[trigger] axis_spec(boxes@[final(order)@[k2] as int], axis as int).min,
        final(order)@.subrange(start as int, end as int).to_multiset() == old(order)@.subrange(
            start as int,
            end as int,
        ).to_multiset(),
{
    let n: usize = end - start;
    let mut src: Vec<usize> = Vec::new();
    let mut pairs: Vec<(u64, usize)> = Vec::new();
    let mut m: usize = 0;
    while m < n
        invariant
            n == end - start,
            end <= order.len(),
            axis < 3,
            m <= n,
            src.len() == m,
            pairs.len() == m,
            forall|j: int| 0 <= j < order.len() ==> order@[j] < boxes.len(),
            forall|j: int| 0 <= j < m ==> #[trigger] src@[j] == order@[start + j],
            forall|j: int|
                0 <= j < m ==> #[trigger] pairs@[j] == (
                    axis_spec(boxes@[src@[j] as int], axis as int).min,
                    j as usize,
                ),
        decreases n - m,
    {
        let o = order[start + m];
        let key = boxes[o].axis(axis).min;
        src.push(o);
        pairs.push((key, m));
        m = m + 1;
    }
    let ghost before = pairs@;
    let ghost order0 = order@;
    sort_pairs(&mut pairs);
    proof {
        pairs@.to_multiset_ensures();
        before.to_multiset_ensures();
        assert forall|j: int| 0 <= j < n implies (#[trigger] pairs@[j]).1 < n by {
            assert(pairs@.contains(pairs@[j]));
            assert(pairs@.to_multiset().count(pairs@[j]) > 0);
            assert(before.to_multiset().count(pairs@[j]) > 0);
            assert(before.contains(pairs@[j]));
            let i = choose|i: int| 0 <= i < before.len() && before[i] == pairs@[j];
            assert(before[i].1 == i);
        }
        assert forall|j: int| 0 <= j < n implies (#[trigger] pairs@[j]).0 == axis_spec(
            boxes@[src@[pairs@[j].1 as int] as int],
            axis as int,
        ).min by {
            assert(pairs@.contains(pairs@[j]));
            assert(pairs@.to_multiset().count(pairs@[j]) > 0);
            assert(before.to_multiset().count(pairs@[j]) > 0);
            let i = choose|i: int| 0 <= i < before.len() && before[i] == pairs@[j];
            assert(before[i].1 == i);
        }
    }
    let mut m: usize = 0;
    while m < n
        invariant
            n == end - start,
            end <= order.len(),
            order.len() == order0.len(),
            m <= n,
            src.len() == n,
            pairs.len() == n,
            forall|j: int| 0 <= j < n ==> #[trigger] src@[j] == order0[start + j],
            forall|j: int| 0 <= j < n ==> (#[trigger] pairs@[j]).1 < n,
            forall|j: int|
                0 <= j < n ==> (#[trigger] pairs@[j]).0 == axis_spec(
                    boxes@[src@[pairs@[j].1 as int] as int],
                    axis as int,
                ).min,
            forall|i: int, j: int| 0 <= i < j < n ==> pair_le(pairs@[i], pairs@[j]),
            forall|j: int| 0 <= j < order0.len() ==> order0[j] < boxes.len(),
            forall|j: int| 0 <= j < m ==> order@[start + j] == src@[(#[trigger] pairs@[j]).1 as int],
            forall|k: int| 0 <= k < order.len() && !(start <= k < start + m) ==> order@[k] == order0[k],
        decreases n - m,
    {
        let p = pairs[m].1;
        order.set(start + m, src[p]);
        m = m + 1;
    }
    proof {
        assert forall|k: int| 0 <= k < order.len() implies order@[k] < boxes.len() by {
            if start <= k < end {
                let j = k - start;
                assert(order@[start + j] == src@[pairs@[j].1 as int]);
                let q = pairs@[j].1 as int;
                assert(q < n);
                assert(src@[q] == order0[start + q]);
                assert(order0[start + q] < boxes.len());
            } else {
                assert(order@[k] == order0[k]);
            }
        }
        assert forall|o: usize| ids_in(order@, start as int, end as int).contains(o) implies ids_in(
            order0,
            start as int,
            end as int,
        ).contains(o) by {
            let k = choose|k: int| start <= k < end && order@[k] == o;
            let j = k - start;
            assert(order@[start + j] == src@[pairs@[j].1 as int]);
            let q = pairs@[j].1 as int;
            assert(src@[q] == order0[start + q]);
        }
        assert forall|o: usize| ids_in(order0, start as int, end as int).contains(o) implies ids_in(
            order@,
            start as int,
            end as int,
        ).contains(o) by {
            let k = choose|k: int| start <= k < end && order0[k] == o;
            let q = k - start;
            assert(before[q].1 == q);
            assert(before.contains(before[q]));
            assert(before.to_multiset().count(before[q]) > 0);
            assert(pairs@.to_multiset().count(before[q]) > 0);
            assert(pairs@.contains(before[q]));
            let j = choose|j: int| 0 <= j < pairs@.len() && pairs@[j] == before[q];
            assert(order@[start + j] == src@[pairs@[j].1 as int]);
        }
        assert(ids_in(order@, start as int, end as int) =~= ids_in(order0, start as int, end as int));
        assert forall|k1: int, k2: int| start <= k1 < k2 < end implies #[trigger] axis_spec(
            boxes@[order@[k1] as int],
            axis as int,
        ).min <= #[trigger] axis_spec(boxes@[order@[k2] as int], axis as int).min by {
            let (j1, j2) = (k1 - start, k2 - start);
            assert(order@[start + j1] == src@[pairs@[j1].1 as int]);
            assert(order@[start + j2] == src@[pairs@[j2].1 as int]);
            assert(pair_le(pairs@[j1], pairs@[j2]));
        }
        let pick = |p: (u64, usize)| src@[p.1 as int];
        assert(order@.subrange(start as int, end as int) =~= pairs@.map_values(pick)) by {
            assert forall|j: int| 0 <= j < n implies order@.subrange(start as int, end as int)[j]
                == pairs@.map_values(pick)[j] by {
                assert(order@[start + j] == src@[pairs@[j].1 as int]);
            }
        }
        assert(order0.subrange(start as int, end as int) =~= before.map_values(pick));
        lemma_multiset_map(pairs@, before, pick);
    }
}


/// Builds the subtree over `order[start..end]`, pushing its branches (children
/// first) and returning the index of its root branch. Ranges of one or two
/// objects hold them directly; larger ranges are sorted along the longest axis
/// of their box, as `axis_of` judges it, and split at the middle.
fn build<F: Fn(KeyBox) -> usize>(
    boxes: &Vec<KeyBox>,
    order: &mut Vec<usize>,
    start: usize,
    end: usize,
    branches: &mut Vec<Branch>,
    axis_of: &F,
) -> (idx: usize)
    requires
        start < end <= old(order).len(),
        forall|k: int| 0 <= k < old(order).len() ==> old(order)@[k] < boxes.len(),
        arena_ok(old(branches)@, boxes@),
        forall|b: KeyBox| axis_of.requires((b,)),
        forall|b: KeyBox, a: usize| axis_of.ensures((b,), a) ==> a < 3,
    ensures
        final(order).len() == old(order).len(),
        forall|k: int|
            0 <= k < final(order).len() && !(start <= k < end) ==> final(order)@[k]
                == old(order)@[k],
        forall|k: int| 0 <= k < final(order).len() ==> final(order)@[k] < boxes.len(),
        ids_in(final(order)@, start as int, end as int) == ids_in(
            old(order)@,
            start as int,
            end as int,
        ),
        is_prefix(old(branches)@, final(branches)@),
        old(branches).len() <= idx,
        idx + 1 == final(branches).len(),
        arena_ok(final(branches)@, boxes@),
        objects_below(final(branches)@, idx as int) == ids_in(
            old(order)@,
            start as int,
            end as int,
        ),
        final(branches)@[idx as int].bbox == union_over(
            boxes@,
            old(order)@.subrange(start as int, end as int),
        ),
        end - start <= 2 ==> final(branches)@[idx as int].left == Child::Object(old(order)@[start as int])
            && final(branches)@[idx as int].right == Child::Object(old(order)@[end - 1]),
        final(order)@.subrange(start as int, end as int).to_multiset() == old(order)@.subrange(
            start as int,
            end as int,
        ).to_multiset(),
        end - start <= 2 ==> final(order)@ == old(order)@,
        shaped(final(branches)@, idx as int, final(order)@, start as int, end as int, boxes@, *axis_of),
    decreases end - start,
{
    let ghost order0 = order@;
    let ghost branches0 = branches@;
    let bbox = union_range(boxes, order, start, end);
    let span: usize = end - start;
    if span <= 2 {
        let a = order[start];
        let b = order[end - 1];
        branches.push(Branch { left: Child::Object(a), right: Child::Object(b), bbox });
        let idx = branches.len() - 1;
        proof {
            let ns = branches@;
            assert(is_prefix(branches0, ns));
            lemma_arena_prefix(branches0, ns, boxes@);
            assert(ids_in(order0, start as int, end as int).contains(a));
            assert(ids_in(order0, start as int, end as int).contains(b));
            lemma_union_holds_member(boxes@, order0, start as int, end as int, a);
            lemma_union_holds_member(boxes@, order0, start as int, end as int, b);
            let sub = order0.subrange(start as int, end as int);
            assert(bbox == union_over(boxes@, sub));
            if span == 1 {
                assert(b == a);
                assert(sub[0] == a);
                assert(bbox == boxes@[a as int]);
                assert(box_union(boxes@[a as int], boxes@[a as int]) == boxes@[a as int]);
            } else {
                assert(sub.drop_last().len() == 1);
                assert(sub.drop_last()[0] == a);
                assert(union_over(boxes@, sub.drop_last()) == boxes@[a as int]);
                assert(sub.last() == b);
                assert(bbox == box_union(boxes@[a as int], boxes@[b as int]));
            }
            assert(branch_ok(ns, idx as int, boxes@));
            assert(objects_below(ns, idx as int) =~= ids_in(order0, start as int, end as int));
            assert(shaped(ns, idx as int, order@, start as int, end as int, boxes@, *axis_of));
        }
        return idx;
    }
    let axis = axis_of(bbox);
    sort_range_by_axis(boxes, order, start, end, axis);
    let ghost order1 = order@;
    let mid: usize = start + span / 2;
    let l = build(boxes, order, start, mid, branches, axis_of);
    let ghost order2 = order@;
    let ghost branches2 = branches@;
    let r = build(boxes, order, mid, end, branches, axis_of);
    let ghost order3 = order@;
    let ghost branches3 = branches@;
    branches.push(Branch { left: Child::Branch(l), right: Child::Branch(r), bbox });
    let idx = branches.len() - 1;
    proof {
        let ns = branches@;
        let whole = ids_in(order0, start as int, end as int);
        assert(is_prefix(branches3, ns));
        assert(is_prefix(branches2, ns));
        lemma_arena_prefix(branches3, ns, boxes@);
        // every object of either half belongs to the whole range
        lemma_ids_split(order1, start as int, mid as int, end as int);
        lemma_ids_agree(order1, order2, mid as int, end as int);
        assert forall|e: usize| ids_in(order1, start as int, mid as int).contains(e) implies box_contains(
            bbox,
            #[trigger] boxes@[e as int],
        ) by {
            lemma_union_holds_member(boxes@, order0, start as int, end as int, e);
        }
        lemma_union_within(boxes@, order1, start as int, mid as int, bbox);
        assert forall|e: usize| ids_in(order2, mid as int, end as int).contains(e) implies box_contains(
            bbox,
            #[trigger] boxes@[e as int],
        ) by {
            lemma_union_holds_member(boxes@, order0, start as int, end as int, e);
        }
        lemma_union_within(boxes@, order2, mid as int, end as int, bbox);
        assert(ns[l as int] == branches2[l as int]);
        assert(ns[r as int] == branches3[r as int]);
        // the box is exactly the merge of the two halves' boxes
        let ul = ns[l as int].bbox;
        let ur = ns[r as int].bbox;
        let bu = box_union(ul, ur);
        assert forall|e: usize| ids_in(order0, start as int, end as int).contains(e) implies box_contains(
            bu,
            #[trigger] boxes@[e as int],
        ) by {
            if ids_in(order1, start as int, mid as int).contains(e) {
                lemma_union_holds_member(boxes@, order1, start as int, mid as int, e);
            } else {
                lemma_union_holds_member(boxes@, order2, mid as int, end as int, e);
            }
        }
        lemma_union_within(boxes@, order0, start as int, end as int, bu);
        assert(bbox == bu);
        assert(branch_ok(ns, idx as int, boxes@));
        // the objects below are those of the two halves
        lemma_objects_below_prefix(branches2, ns, l as int);
        lemma_objects_below_prefix(branches3, ns, r as int);
        lemma_ids_agree(order2, order3, start as int, mid as int);
        lemma_ids_split(order3, start as int, mid as int, end as int);
        assert(objects_below(ns, idx as int) =~= ids_in(order1, start as int, mid as int).union(
            ids_in(order2, mid as int, end as int),
        ));
        // the order keeps the same elements
        let (s0, m0, e0) = (start as int, mid as int, end as int);
        assert(order3.subrange(s0, e0) =~= order3.subrange(s0, m0) + order3.subrange(m0, e0));
        assert(order1.subrange(s0, e0) =~= order1.subrange(s0, m0) + order1.subrange(m0, e0));
        assert(order3.subrange(s0, m0) =~= order2.subrange(s0, m0));
        assert(order2.subrange(m0, e0) =~= order1.subrange(m0, e0));
        vstd::seq_lib::lemma_multiset_commutative(order3.subrange(s0, m0), order3.subrange(m0, e0));
        vstd::seq_lib::lemma_multiset_commutative(order1.subrange(s0, m0), order1.subrange(m0, e0));
        // the shape: both halves, framed into the final arena and order
        lemma_shaped_frame(branches2, ns, l as int, order2, order3, s0, m0, boxes@, *axis_of);
        lemma_shaped_frame(branches3, ns, r as int, order3, order3, m0, e0, boxes@, *axis_of);
        assert forall|k1: int, k2: int| s0 <= k1 < m0 <= k2 < e0 implies #[trigger] axis_spec(
            boxes@[order3[k1] as int],
            axis as int,
        ).min <= #[trigger] axis_spec(boxes@[order3[k2] as int], axis as int).min by {
            assert(ids_in(order3, s0, m0).contains(order3[k1]));
            assert(ids_in(order3, m0, e0).contains(order3[k2]));
            let j1 = choose|k: int| s0 <= k < m0 && order1[k] == order3[k1];
            let j2 = choose|k: int| m0 <= k < e0 && order1[k] == order3[k2];
            assert(axis_spec(boxes@[order1[j1] as int], axis as int).min <= axis_spec(
                boxes@[order1[j2] as int],
                axis as int,
            ).min);
        }
        assert(split_keys(boxes@, order3, s0, m0, e0, axis as int));
        assert(axis_of.ensures((ns[idx as int].bbox,), axis));
        assert(shaped(ns, idx as int, order3, s0, e0, boxes@, *axis_of));
    }
    idx
}

impl BvhNode {
    /// Builds the hierarchy over objects `0..boxes.len()`, whose boxes are
    /// `boxes`. `axis_of` names the longest axis of a box (0, 1 or 2). An
    /// empty set of objects has no hierarchy.
    pub fn new<F: Fn(KeyBox) -> usize>(boxes: &Vec<KeyBox>, axis_of: F) -> (r: BvhNode)
        requires
            boxes.len() > 0,
            forall|b: KeyBox| axis_of.requires((b,)),
            forall|b: KeyBox, a: usize| axis_of.ensures((b,), a) ==> a < 3,
        ensures
            r.wf(boxes@),
            objects_below(r.branches@, r.root as int) == Set::new(|o: usize| o < boxes.len()),
            r.branches@[r.root as int].bbox == union_over(
                boxes@,
                Seq::new(boxes.len() as nat, |i: int| i as usize),
            ),
            boxes.len() == 1 ==> r.branches@[r.root as int].left == Child::Object(0)
                && r.branches@[r.root as int].right == Child::Object(0),
            boxes.len() == 2 ==> r.branches@[r.root as int].left == Child::Object(0)
                && r.branches@[r.root as int].right == Child::Object(1),
            r.order@.to_multiset() == Seq::new(boxes.len() as nat, |i: int| i as usize).to_multiset(),
            shaped(r.branches@, r.root as int, r.order@, 0, boxes.len() as int, boxes@, axis_of),
    {
        let n = boxes.len();
        let mut order: Vec<usize> = Vec::new();
        let mut i: usize = 0;
        while i < n
            invariant
                n == boxes.len(),
                i <= n,
                order.len() == i,
                forall|k: int| 0 <= k < i ==> order@[k] == k,
            decreases n - i,
        {
            order.push(i);
            i = i + 1;
        }
        let ghost order0 = order@;
        let mut branches: Vec<Branch> = Vec::new();
        let root = build(boxes, &mut order, 0, n, &mut branches, &axis_of);
        proof {
            assert(order0.subrange(0, n as int) =~= Seq::new(n as nat, |i: int| i as usize));
            assert forall|o: usize| o < n implies ids_in(order0, 0, n as int).contains(o) by {
                assert(order0[o as int] == o);
            }
            assert(ids_in(order0, 0, n as int) =~= Set::new(|o: usize| o < boxes.len()));
            assert(order@.subrange(0, n as int) =~= order@);
        }
        BvhNode { branches, root, order }
    }
}


/// In a well-formed arena the box of a branch holds the box of every object
/// reachable from it: a ray that misses a branch's box misses every object
/// below it, so skipping the subtree loses no hit.
pub proof fn lemma_branch_box_holds_objects(
    branches: Seq<Branch>,
    boxes: Seq<KeyBox>,
    i: int,
    o: usize,
)
    requires
        arena_ok(branches, boxes),
        0 <= i < branches.len(),
        objects_below(branches, i).contains(o),
    ensures
        box_contains(branches[i].bbox, boxes[o as int]),
        o < boxes.len(),
    decreases i,
{
    assert(branch_ok(branches, i, boxes));
    match branches[i].left {
        Child::Branch(k) => if k < i && objects_below(branches, k as int).contains(o) {
            lemma_branch_box_holds_objects(branches, boxes, k as int, o);
        },
        _ => {},
    }
    match branches[i].right {
        Child::Branch(k) => if k < i && objects_below(branches, k as int).contains(o) {
            lemma_branch_box_holds_objects(branches, boxes, k as int, o);
        },
        _ => {},
    }
}

/// A hierarchy built over a set of objects reaches every one of them from its
/// root, and its root box holds each of their boxes.
pub proof fn lemma_hierarchy_covers_all(tree: &BvhNode, boxes: Seq<KeyBox>, o: usize)
    requires
        tree.wf(boxes),
        objects_below(tree.branches@, tree.root as int) == Set::new(|o: usize| o < boxes.len()),
        o < boxes.len(),
    ensures
        objects_below(tree.branches@, tree.root as int).contains(o),
        box_contains(tree.branches@[tree.root as int].bbox, boxes[o as int]),
{
    lemma_branch_box_holds_objects(tree.branches@, boxes, tree.root as int, o);
}

} // verus!
