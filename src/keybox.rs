//! Order keys of IEEE-754 doubles, and axis-aligned boxes whose bounds are
//! such keys. Every comparison on them is an exact integer comparison that
//! orders as the doubles do.
use vstd::prelude::*;

verus! {

/// Sign bit of an IEEE-754 double's bit pattern.
pub const SIGN_BIT: u64 = 0x8000_0000_0000_0000;

/// IEEE-754 total order on bit patterns: negatives below positives, larger
/// magnitudes further from zero, and `-0` just below `+0`.
pub open spec fn total_order_lt(a: u64, b: u64) -> bool {
    let sa = a & SIGN_BIT;
    let sb = b & SIGN_BIT;
    let ma = a & !SIGN_BIT;
    let mb = b & !SIGN_BIT;
    if sa != 0 && sb == 0 {
        true
    } else if sa == 0 && sb != 0 {
        false
    } else if sa == 0 {
        ma < mb
    } else {
        mb < ma
    }
}

/// The key of a double's bit pattern: negative patterns are inverted, the
/// others get the sign bit set.
pub open spec fn order_key(bits: u64) -> u64 {
    if bits & SIGN_BIT != 0 {
        !bits
    } else {
        bits | SIGN_BIT
    }
}

/// Maps the bit pattern of a double (`f64::to_bits`) to an unsigned key that
/// orders as the doubles do under the IEEE-754 total order.
pub fn float_order_key(bits: u64) -> (r: u64)
    ensures
        r == order_key(bits),
{
    if bits & SIGN_BIT != 0 {
        !bits
    } else {
        bits | SIGN_BIT
    }
}

/// Inverse of [`float_order_key`]: the bit pattern of the double with this key.
pub fn float_from_order_key(key: u64) -> (r: u64)
    ensures
        order_key(r) == key,
{
    if key & SIGN_BIT != 0 {
        let r = key & !SIGN_BIT;
        assert(order_key(r) == key) by (bit_vector)
            requires
                key & 0x8000_0000_0000_0000u64 != 0,
                r == key & !0x8000_0000_0000_0000u64,
        ;
        r
    } else {
        let r = !key;
        assert(order_key(r) == key) by (bit_vector)
            requires
                key & 0x8000_0000_0000_0000u64 == 0,
                r == !key,
        ;
        r
    }
}

/// Keys order exactly as the IEEE-754 total order of the doubles they stand for.
pub proof fn lemma_order_key_monotone(a: u64, b: u64)
    ensures
        order_key(a) < order_key(b) <==> total_order_lt(a, b),
        order_key(a) == order_key(b) <==> a == b,
{
    assert(order_key(a) < order_key(b) <==> total_order_lt(a, b)) by (bit_vector);
    assert(order_key(a) == order_key(b) <==> a == b) by (bit_vector);
}


/// Keys of one axis's extent `[min, max]`.
#[derive(Clone, Copy, Debug, PartialEq, Eq, Structural)]
pub struct AxisKeys {
    pub min: u64,
    pub max: u64,
}

/// Keys of an axis-aligned bounding box, one extent per axis.
#[derive(Clone, Copy, Debug, PartialEq, Eq, Structural)]
pub struct KeyBox {
    pub x: AxisKeys,
    pub y: AxisKeys,
    pub z: AxisKeys,
}

/// Smallest extent that holds both.
pub open spec fn extent_union(a: AxisKeys, b: AxisKeys) -> AxisKeys {
    AxisKeys {
        min: if a.min <= b.min {
            a.min
        } else {
            b.min
        },
        max: if a.max >= b.max {
            a.max
        } else {
            b.max
        },
    }
}

/// Smallest box that holds both.
pub open spec fn box_union(a: KeyBox, b: KeyBox) -> KeyBox {
    KeyBox {
        x: extent_union(a.x, b.x),
        y: extent_union(a.y, b.y),
        z: extent_union(a.z, b.z),
    }
}

pub open spec fn extent_contains(outer: AxisKeys, inner: AxisKeys) -> bool {
    outer.min <= inner.min && inner.max <= outer.max
}

/// `inner` lies within `outer` on every axis.
pub open spec fn box_contains(outer: KeyBox, inner: KeyBox) -> bool {
    extent_contains(outer.x, inner.x) && extent_contains(outer.y, inner.y) && extent_contains(
        outer.z,
        inner.z,
    )
}

/// The extent of `b` along axis `a` (0 is x, 1 is y, 2 is z).
pub open spec fn axis_spec(b: KeyBox, a: int) -> AxisKeys {
    if a == 0 {
        b.x
    } else if a == 1 {
        b.y
    } else {
        b.z
    }
}

/// Union of the boxes of the objects `ids`, merged left to right.
pub open spec fn union_over(boxes: Seq<KeyBox>, ids: Seq<usize>) -> KeyBox
    decreases ids.len(),
{
    if ids.len() <= 1 {
        boxes[ids[0] as int]
    } else {
        box_union(union_over(boxes, ids.drop_last()), boxes[ids.last() as int])
    }
}

impl KeyBox {
    /// The extent along axis `a`; an axis past z is a caller's error.
    pub fn axis(&self, a: usize) -> (r: AxisKeys)
        requires
            a < 3,
        ensures
            r == axis_spec(*self, a as int),
    {
        if a == 0 {
            self.x
        } else if a == 1 {
            self.y
        } else {
            self.z
        }
    }

    /// The smallest box holding both `self` and `other`.
    pub fn new_from_merged(&self, other: &KeyBox) -> (r: KeyBox)
        ensures
            r == box_union(*self, *other),
    {
        KeyBox {
            x: merge_extent(self.x, other.x),
            y: merge_extent(self.y, other.y),
            z: merge_extent(self.z, other.z),
        }
    }
}

fn merge_extent(a: AxisKeys, b: AxisKeys) -> (r: AxisKeys)
    ensures
        r == extent_union(a, b),
{
    AxisKeys {
        min: if a.min <= b.min {
            a.min
        } else {
            b.min
        },
        max: if a.max >= b.max {
            a.max
        } else {
            b.max
        },
    }
}

/// The union holds the box of every object it was merged from.
pub proof fn lemma_union_holds_each(boxes: Seq<KeyBox>, ids: Seq<usize>, k: int)
    requires
        ids.len() > 0,
        0 <= k < ids.len(),
    ensures
        box_contains(union_over(boxes, ids), boxes[ids[k] as int]),
    decreases ids.len(),
{
    if ids.len() > 1 {
        if k < ids.len() - 1 {
            lemma_union_holds_each(boxes, ids.drop_last(), k);
        }
    }
}

/// A box that holds the box of every object also holds their union.
pub proof fn lemma_union_is_least(boxes: Seq<KeyBox>, ids: Seq<usize>, outer: KeyBox)
    requires
        ids.len() > 0,
        forall|k: int| 0 <= k < ids.len() ==> box_contains(outer, #[trigger] boxes[ids[k] as int]),
    ensures
        box_contains(outer, union_over(boxes, ids)),
    decreases ids.len(),
{
    if ids.len() > 1 {
        let d = ids.drop_last();
        assert forall|k: int| 0 <= k < d.len() implies box_contains(
            outer,
            #[trigger] boxes[d[k] as int],
        ) by {
            assert(d[k] == ids[k]);
        }
        lemma_union_is_least(boxes, d, outer);
        assert(box_contains(outer, boxes[ids[ids.len() - 1] as int]));
    }
}

} // verus!
