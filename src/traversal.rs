//! Closest-hit queries: traversal of the hierarchy and the linear scan of an
//! object list, and the law that the two agree.
use crate::bvh::{
    arena_ok, branch_ok, lemma_branch_box_holds_objects, objects_below, Branch, BvhNode, Child,
};
use crate::keybox::{box_contains, KeyBox};
use vstd::prelude::*;

verus! {

/// The distance key of a hit, or `hi` when there is none: the upper bound
/// left for the queries that follow.
pub open spec fn bound_after(r: Option<(u64, usize)>, hi: u64) -> u64 {
    match r {
        Some(h) => h.0,
        None => hi,
    }
}

/// `f` gives every possible result of the object test `obj_hit`.
pub open spec fn object_test_is<H: Fn(usize, u64, u64) -> Option<u64>>(
    obj_hit: H,
    f: spec_fn(usize, u64, u64) -> Option<u64>,
) -> bool {
    forall|o: usize, lo: u64, hi: u64, r: Option<u64>|
        #[trigger] obj_hit.ensures((o, lo, hi), r) ==> r == f(o, lo, hi)
}

/// `g` gives every possible result of the box test `box_hit`.
pub open spec fn box_test_is<B: Fn(KeyBox, u64, u64) -> bool>(
    box_hit: B,
    g: spec_fn(KeyBox, u64, u64) -> bool,
) -> bool {
    forall|b: KeyBox, lo: u64, hi: u64, r: bool|
        #[trigger] box_hit.ensures((b, lo, hi), r) ==> r == g(b, lo, hi)
}

/// Object `o` queried over `(lo, hi)`, paired with its index.
pub open spec fn tagged(f: spec_fn(usize, u64, u64) -> Option<u64>, o: usize, lo: u64, hi: u64) -> Option<
    (u64, usize),
> {
    match f(o, lo, hi) {
        Some(t) => Some((t, o)),
        None => None,
    }
}

/// Traversal of branch `i` over `(lo, hi)`: nothing when the ray misses the
/// box; else the left side over the whole interval, then the right side over
/// the interval cut at the left side's hit, and the right side's hit wins.
pub open spec fn branch_hit(
    branches: Seq<Branch>,
    i: int,
    lo: u64,
    hi: u64,
    f: spec_fn(usize, u64, u64) -> Option<u64>,
    g: spec_fn(KeyBox, u64, u64) -> bool,
) -> Option<(u64, usize)>
    decreases i,
{
    if 0 <= i < branches.len() && g(branches[i].bbox, lo, hi) {
        let l = match branches[i].left {
            Child::Object(o) => tagged(f, o, lo, hi),
            Child::Branch(k) => if k < i {
                branch_hit(branches, k as int, lo, hi, f, g)
            } else {
                None
            },
        };
        let h2 = bound_after(l, hi);
        let r = match branches[i].right {
            Child::Object(o) => tagged(f, o, lo, h2),
            Child::Branch(k) => if k < i {
                branch_hit(branches, k as int, lo, h2, f, g)
            } else {
                None
            },
        };
        if r is Some {
            r
        } else {
            l
        }
    } else {
        None
    }
}

/// Linear scan of objects `0..n` over `(lo, hi)`, each query cut at the
/// closest hit so far; a later hit replaces an earlier one.
pub open spec fn list_hit(n: nat, lo: u64, hi: u64, f: spec_fn(usize, u64, u64) -> Option<u64>) -> Option<
    (u64, usize),
>
    decreases n,
{
    if n == 0 {
        None
    } else {
        let prev = list_hit((n - 1) as nat, lo, hi, f);
        let cur = tagged(f, (n - 1) as usize, lo, bound_after(prev, hi));
        if cur is Some {
            cur
        } else {
            prev
        }
    }
}

fn query_object<H: Fn(usize, u64, u64) -> Option<u64>>(
    o: usize,
    lo: u64,
    hi: u64,
    obj_hit: &H,
) -> (r: Option<(u64, usize)>)
    requires
        forall|o: usize, lo: u64, hi: u64| obj_hit.requires((o, lo, hi)),
    ensures
        forall|f: spec_fn(usize, u64, u64) -> Option<u64>|
            object_test_is(*obj_hit, f) ==> r == tagged(f, o, lo, hi),
{
    let res = obj_hit(o, lo, hi);
    match res {
        Some(t) => Some((t, o)),
        None => None,
    }
}

impl BvhNode {
    fn hit_branch<B: Fn(KeyBox, u64, u64) -> bool, H: Fn(usize, u64, u64) -> Option<u64>>(
        &self,
        i: usize,
        lo: u64,
        hi: u64,
        box_hit: &B,
        obj_hit: &H,
    ) -> (r: Option<(u64, usize)>)
        requires
            i < self.branches.len(),
            forall|b: KeyBox, lo: u64, hi: u64| box_hit.requires((b, lo, hi)),
            forall|o: usize, lo: u64, hi: u64| obj_hit.requires((o, lo, hi)),
        ensures
            forall|
                f: spec_fn(usize, u64, u64) -> Option<u64>,
                g: spec_fn(KeyBox, u64, u64) -> bool,
            |
                object_test_is(*obj_hit, f) && box_test_is(*box_hit, g) ==> r == branch_hit(
                    self.branches@,
                    i as int,
                    lo,
                    hi,
                    f,
                    g,
                ),
        decreases i,
    {
        let br = self.branches[i];
        let inside = box_hit(br.bbox, lo, hi);
        if !inside {
            return None;
        }
        let l = match br.left {
            Child::Object(o) => query_object(o, lo, hi, obj_hit),
            Child::Branch(k) => if k < i {
                self.hit_branch(k, lo, hi, box_hit, obj_hit)
            } else {
                None
            },
        };
        let h2 = match l {
            Some(h) => h.0,
            None => hi,
        };
        let r = match br.right {
            Child::Object(o) => query_object(o, lo, h2, obj_hit),
            Child::Branch(k) => if k < i {
                self.hit_branch(k, lo, h2, box_hit, obj_hit)
            } else {
                None
            },
        };
        let res = if r.is_some() {
            r
        } else {
            l
        };
        proof {
            assert forall|
                f: spec_fn(usize, u64, u64) -> Option<u64>,
                g: spec_fn(KeyBox, u64, u64) -> bool,
            |
                object_test_is(*obj_hit, f) && box_test_is(*box_hit, g) implies res == branch_hit(
                    self.branches@,
                    i as int,
                    lo,
                    hi,
                    f,
                    g,
                ) by {
                assert(box_hit.ensures((br.bbox, lo, hi), inside));
                assert(g(br.bbox, lo, hi));
                assert(self.branches@[i as int] == br);
                match br.left {
                    Child::Object(o) => {
                        assert(l == tagged(f, o, lo, hi));
                    },
                    Child::Branch(k) => {
                        if k < i {
                            assert(l == branch_hit(self.branches@, k as int, lo, hi, f, g));
                        }
                    },
                }
                assert(h2 == bound_after(l, hi));
                match br.right {
                    Child::Object(o) => {
                        assert(r == tagged(f, o, lo, h2));
                    },
                    Child::Branch(k) => {
                        if k < i {
                            assert(r == branch_hit(self.branches@, k as int, lo, h2, f, g));
                        }
                    },
                }
            }
        }
        res
    }

    /// Closest hit over the interval `(lo, hi)` of distance keys: the key of
    /// the hit's distance and the index of the object hit. `box_hit` tells
    /// whether the ray meets a box within an interval, `obj_hit` the distance
    /// key at which it meets an object within an interval.
    pub fn hit<B: Fn(KeyBox, u64, u64) -> bool, H: Fn(usize, u64, u64) -> Option<u64>>(
        &self,
        lo: u64,
        hi: u64,
        box_hit: &B,
        obj_hit: &H,
    ) -> (r: Option<(u64, usize)>)
        requires
            forall|b: KeyBox, lo: u64, hi: u64| box_hit.requires((b, lo, hi)),
            forall|o: usize, lo: u64, hi: u64| obj_hit.requires((o, lo, hi)),
        ensures
            forall|
                f: spec_fn(usize, u64, u64) -> Option<u64>,
                g: spec_fn(KeyBox, u64, u64) -> bool,
            |
                object_test_is(*obj_hit, f) && box_test_is(*box_hit, g) ==> r == branch_hit(
                    self.branches@,
                    self.root as int,
                    lo,
                    hi,
                    f,
                    g,
                ),
    {
        if self.root < self.branches.len() {
            self.hit_branch(self.root, lo, hi, box_hit, obj_hit)
        } else {
            None
        }
    }
}

/// Closest hit among objects `0..count`, scanning them in order and cutting
/// the interval at each hit found.
pub fn closest_in_list<H: Fn(usize, u64, u64) -> Option<u64>>(
    count: usize,
    lo: u64,
    hi: u64,
    obj_hit: &H,
) -> (r: Option<(u64, usize)>)
    requires
        forall|o: usize, lo: u64, hi: u64| obj_hit.requires((o, lo, hi)),
    ensures
        forall|f: spec_fn(usize, u64, u64) -> Option<u64>|
            object_test_is(*obj_hit, f) ==> r == list_hit(count as nat, lo, hi, f),
{
    let mut best: Option<(u64, usize)> = None;
    let mut bound: u64 = hi;
    let mut o: usize = 0;
    while o < count
        invariant
            o <= count,
            forall|o: usize, lo: u64, hi: u64| obj_hit.requires((o, lo, hi)),
            bound == bound_after(best, hi),
            forall|f: spec_fn(usize, u64, u64) -> Option<u64>|
                object_test_is(*obj_hit, f) ==> best == list_hit(o as nat, lo, hi, f),
        decreases count - o,
    {
        let cur = query_object(o, lo, bound, obj_hit);
        if let Some(h) = cur {
            best = cur;
            bound = h.0;
        }
        o = o + 1;
    }
    best
}


/// How a hit `before`, found over an interval, may change when the same
/// object is asked again over that interval with its upper end lowered to
/// `h2`: a hit below `h2` stays, a hit past `h2` goes, and a hit exactly at
/// `h2` may go (a surface tested on the open interval) or stay (one tested on
/// the closed interval); no hit stays no hit.
pub open spec fn cut_allows(before: Option<u64>, after: Option<u64>, h2: u64) -> bool {
    match before {
        None => after is None,
        Some(t) => if t < h2 {
            after == Some(t)
        } else if t > h2 {
            after is None
        } else {
            after is None || after == Some(t)
        },
    }
}

/// Each object reports a hit no further than the interval's upper end, and
/// lowering that end only drops hits as [`cut_allows`] says: the behaviour
/// of a surface that reports its first crossing inside the interval, whether
/// it tests the interval as open (spheres) or closed (planar shapes).
pub open spec fn reports_first_crossing(f: spec_fn(usize, u64, u64) -> Option<u64>) -> bool {
    &&& forall|o: usize, lo: u64, hi: u64|
        (#[trigger] f(o, lo, hi)) is Some ==> f(o, lo, hi)->0 <= hi
    &&& forall|o: usize, lo: u64, hi: u64, h2: u64|
        #![trigger f(o, lo, h2), f(o, lo, hi)]
        h2 <= hi ==> cut_allows(f(o, lo, hi), f(o, lo, h2), h2)
}

/// A box test that rejects a box only when the ray misses every object
/// whose box lies within it.
pub open spec fn box_test_sound(
    g: spec_fn(KeyBox, u64, u64) -> bool,
    f: spec_fn(usize, u64, u64) -> Option<u64>,
    boxes: Seq<KeyBox>,
) -> bool {
    forall|b: KeyBox, o: usize, lo: u64, hi: u64|
        #![trigger g(b, lo, hi), f(o, lo, hi)]
        o < boxes.len() && box_contains(b, boxes[o as int]) && !g(b, lo, hi) ==> f(
            o,
            lo,
            hi,
        ) is None
}

/// `r` is a closest hit among the objects `objs` over `(lo, hi)`: none when
/// none of them is hit, else a hit object with no hit object nearer.
pub open spec fn is_closest(
    r: Option<(u64, usize)>,
    objs: Set<usize>,
    lo: u64,
    hi: u64,
    f: spec_fn(usize, u64, u64) -> Option<u64>,
) -> bool {
    match r {
        None => forall|p: usize| objs.contains(p) ==> (#[trigger] f(p, lo, hi)) is None,
        Some(h) => {
            &&& objs.contains(h.1)
            &&& f(h.1, lo, hi) == Some(h.0)
            &&& forall|p: usize|
                objs.contains(p) && (#[trigger] f(p, lo, hi)) is Some ==> h.0 <= f(
                    p,
                    lo,
                    hi,
                )->0
        },
    }
}

proof fn lemma_tagged_closest(f: spec_fn(usize, u64, u64) -> Option<u64>, o: usize, lo: u64, hi: u64)
    ensures
        is_closest(tagged(f, o, lo, hi), set![o], lo, hi, f),
{
}

/// Joining two closest hits the way both traversals do: `l` over `(lo, hi)`
/// for `sl`, then `r` over `(lo, bound_after(l, hi))` for `sr`; the later one
/// wins when present.
proof fn lemma_join_closest(
    l: Option<(u64, usize)>,
    r: Option<(u64, usize)>,
    sl: Set<usize>,
    sr: Set<usize>,
    lo: u64,
    hi: u64,
    f: spec_fn(usize, u64, u64) -> Option<u64>,
)
    requires
        reports_first_crossing(f),
        is_closest(l, sl, lo, hi, f),
        is_closest(r, sr, lo, bound_after(l, hi), f),
    ensures
        is_closest(if r is Some { r } else { l }, sl.union(sr), lo, hi, f),
{
    let h2 = bound_after(l, hi);
    if let Some(hl) = l {
        assert(f(hl.1, lo, hi) == Some(hl.0));
        assert(hl.0 <= hi);
    }
    assert(h2 <= hi);
    assert forall|p: usize| cut_allows(#[trigger] f(p, lo, hi), f(p, lo, h2), h2) by {}
    match r {
        Some(hr) => {
            assert(f(hr.1, lo, h2) == Some(hr.0));
            assert(hr.0 <= h2);
            assert(f(hr.1, lo, hi) == Some(hr.0));
            assert forall|p: usize|
                sl.union(sr).contains(p) && (#[trigger] f(p, lo, hi)) is Some implies hr.0 <= f(
                    p,
                    lo,
                    hi,
                )->0 by {
                if sr.contains(p) {
                    if f(p, lo, hi)->0 < h2 {
                        assert(f(p, lo, h2) is Some);
                    }
                } else {
                    assert(sl.contains(p));
                    assert(l is Some);
                }
            }
        },
        None => {
            match l {
                Some(hl) => {
                    assert forall|p: usize|
                        sl.union(sr).contains(p) && (#[trigger] f(p, lo, hi)) is Some implies hl.0
                        <= f(p, lo, hi)->0 by {
                        if sr.contains(p) {
                            assert(f(p, lo, h2) is None);
                        }
                    }
                },
                None => {
                    assert forall|p: usize| sl.union(sr).contains(p) implies (#[trigger] f(
                        p,
                        lo,
                        hi,
                    )) is None by {
                        if sr.contains(p) {
                            assert(f(p, lo, h2) is None);
                        }
                    }
                },
            }
        },
    }
}

/// Traversing branch `i` finds a closest hit among the objects below it:
/// none exactly when none of them is hit, else a hit object with no hit
/// object nearer.
pub proof fn lemma_branch_hit_closest(
    branches: Seq<Branch>,
    boxes: Seq<KeyBox>,
    i: int,
    lo: u64,
    hi: u64,
    f: spec_fn(usize, u64, u64) -> Option<u64>,
    g: spec_fn(KeyBox, u64, u64) -> bool,
)
    requires
        arena_ok(branches, boxes),
        0 <= i < branches.len(),
        reports_first_crossing(f),
        box_test_sound(g, f, boxes),
    ensures
        is_closest(branch_hit(branches, i, lo, hi, f, g), objects_below(branches, i), lo, hi, f),
    decreases i,
{
    let br = branches[i];
    assert(branch_ok(branches, i, boxes));
    if !g(br.bbox, lo, hi) {
        assert forall|p: usize| objects_below(branches, i).contains(p) implies (#[trigger] f(
            p,
            lo,
            hi,
        )) is None by {
            lemma_branch_box_holds_objects(branches, boxes, i, p);
        }
        return;
    }
    let l = match br.left {
        Child::Object(o) => tagged(f, o, lo, hi),
        Child::Branch(k) => branch_hit(branches, k as int, lo, hi, f, g),
    };
    let sl = match br.left {
        Child::Object(o) => set![o],
        Child::Branch(k) => objects_below(branches, k as int),
    };
    match br.left {
        Child::Object(o) => lemma_tagged_closest(f, o, lo, hi),
        Child::Branch(k) => lemma_branch_hit_closest(branches, boxes, k as int, lo, hi, f, g),
    }
    let h2 = bound_after(l, hi);
    let r = match br.right {
        Child::Object(o) => tagged(f, o, lo, h2),
        Child::Branch(k) => branch_hit(branches, k as int, lo, h2, f, g),
    };
    let sr = match br.right {
        Child::Object(o) => set![o],
        Child::Branch(k) => objects_below(branches, k as int),
    };
    match br.right {
        Child::Object(o) => lemma_tagged_closest(f, o, lo, h2),
        Child::Branch(k) => lemma_branch_hit_closest(branches, boxes, k as int, lo, h2, f, g),
    }
    lemma_join_closest(l, r, sl, sr, lo, hi, f);
    assert(objects_below(branches, i) == sl.union(sr));
    assert(branch_hit(branches, i, lo, hi, f, g) == if r is Some {
        r
    } else {
        l
    });
}

/// Scanning objects `0..n` finds a closest hit among them: none exactly when
/// none is hit, else a hit object with no hit object nearer.
pub proof fn lemma_list_hit_closest(n: nat, lo: u64, hi: u64, f: spec_fn(usize, u64, u64) -> Option<u64>)
    requires
        reports_first_crossing(f),
        n <= usize::MAX + 1,
    ensures
        is_closest(list_hit(n, lo, hi, f), Set::new(|o: usize| o < n), lo, hi, f),
    decreases n,
{
    if n == 0 {
        return;
    }
    let m = (n - 1) as nat;
    let prev = list_hit(m, lo, hi, f);
    lemma_list_hit_closest(m, lo, hi, f);
    let o = (n - 1) as usize;
    let cur = tagged(f, o, lo, bound_after(prev, hi));
    lemma_tagged_closest(f, o, lo, bound_after(prev, hi));
    lemma_join_closest(prev, cur, Set::new(|p: usize| p < m), set![o], lo, hi, f);
    assert(Set::new(|p: usize| p < m).union(set![o]) =~= Set::new(|p: usize| p < n));
}

/// Traversing the hierarchy and scanning the object list find the same
/// closest hit distance over any interval, and find a hit in the same cases,
/// whenever each object reports its first crossing inside the interval asked
/// about and the box test never rejects a box around an object the ray meets.
/// When only one object is hit at the closest distance, both report that
/// object; where two are hit at exactly that distance, either may be the one
/// reported.
pub proof fn lemma_hierarchy_agrees_with_list(
    tree: &BvhNode,
    boxes: Seq<KeyBox>,
    lo: u64,
    hi: u64,
    f: spec_fn(usize, u64, u64) -> Option<u64>,
    g: spec_fn(KeyBox, u64, u64) -> bool,
)
    requires
        tree.wf(boxes),
        boxes.len() <= usize::MAX,
        objects_below(tree.branches@, tree.root as int) == Set::new(|o: usize| o < boxes.len()),
        reports_first_crossing(f),
        box_test_sound(g, f, boxes),
    ensures
        ({
            let a = branch_hit(tree.branches@, tree.root as int, lo, hi, f, g);
            let b = list_hit(boxes.len(), lo, hi, f);
            &&& a is Some <==> b is Some
            &&& a is Some ==> (a->0).0 == (b->0).0
            &&& a is Some ==> f((a->0).1, lo, hi) == Some((a->0).0) && (a->0).1 < boxes.len()
            &&& a is Some && (forall|p: usize|
                p < boxes.len() && #[trigger] f(p, lo, hi) == Some((a->0).0) ==> p == (a->0).1)
                ==> a == b
        }),
{
    let a = branch_hit(tree.branches@, tree.root as int, lo, hi, f, g);
    let b = list_hit(boxes.len(), lo, hi, f);
    let all = Set::new(|o: usize| o < boxes.len());
    lemma_branch_hit_closest(tree.branches@, boxes, tree.root as int, lo, hi, f, g);
    lemma_list_hit_closest(boxes.len(), lo, hi, f);
    match (a, b) {
        (Some(x), Some(y)) => {
            assert(all.contains(y.1));
            assert(all.contains(x.1));
            assert(f(y.1, lo, hi) is Some);
            assert(f(x.1, lo, hi) is Some);
        },
        (Some(x), None) => {
            assert(all.contains(x.1));
            assert(f(x.1, lo, hi) is None);
        },
        (None, Some(y)) => {
            assert(all.contains(y.1));
            assert(f(y.1, lo, hi) is None);
        },
        _ => {},
    }
}

} // verus!
