use raytracer::bvh::BvhNode;
use raytracer::keybox::{float_from_order_key, float_order_key, AxisKeys, KeyBox};
use raytracer::traversal::closest_in_list;

fn key(x: f64) -> u64 {
    float_order_key(x.to_bits())
}

fn unkey(k: u64) -> f64 {
    f64::from_bits(float_from_order_key(k))
}

struct Lcg(u64);

impl Lcg {
    fn next(&mut self) -> f64 {
        self.0 = self.0.wrapping_mul(6364136223846793005).wrapping_add(1442695040888963407);
        ((self.0 >> 11) as f64) / ((1u64 << 53) as f64)
    }
    fn range(&mut self, a: f64, b: f64) -> f64 {
        a + (b - a) * self.next()
    }
}

#[derive(Clone, Copy)]
struct Sphere {
    c: [f64; 3],
    r: f64,
}

fn dot(a: [f64; 3], b: [f64; 3]) -> f64 {
    a[0] * b[0] + a[1] * b[1] + a[2] * b[2]
}

fn sphere_hit(s: &Sphere, o: [f64; 3], d: [f64; 3], lo: f64, hi: f64) -> Option<f64> {
    let oc = [s.c[0] - o[0], s.c[1] - o[1], s.c[2] - o[2]];
    let a = dot(d, d);
    let h = dot(d, oc);
    let c = dot(oc, oc) - s.r * s.r;
    let disc = h * h - a * c;
    if disc < 0.0 {
        return None;
    }
    let sq = disc.sqrt();
    let mut root = (h - sq) / a;
    if !(lo < root && root < hi) {
        root = (h + sq) / a;
        if !(lo < root && root < hi) {
            return None;
        }
    }
    Some(root)
}

fn sphere_box(s: &Sphere) -> KeyBox {
    let e = |i: usize| AxisKeys { min: key(s.c[i] - s.r), max: key(s.c[i] + s.r) };
    KeyBox { x: e(0), y: e(1), z: e(2) }
}

fn slab_hit(b: KeyBox, o: [f64; 3], d: [f64; 3], lo: f64, hi: f64) -> bool {
    let (mut lo, mut hi) = (lo, hi);
    for (a, ax) in [b.x, b.y, b.z].iter().enumerate() {
        let inv = 1.0 / d[a];
        let t0 = (unkey(ax.min) - o[a]) * inv;
        let t1 = (unkey(ax.max) - o[a]) * inv;
        let (t0, t1) = if t0 < t1 { (t0, t1) } else { (t1, t0) };
        if t0 > lo {
            lo = t0;
        }
        if t1 < hi {
            hi = t1;
        }
        if hi <= lo {
            return false;
        }
    }
    true
}

fn longest_axis(b: KeyBox) -> usize {
    let s = |a: AxisKeys| unkey(a.max) - unkey(a.min);
    let (x, y, z) = (s(b.x), s(b.y), s(b.z));
    if x >= y && x >= z {
        0
    } else if y >= z {
        1
    } else {
        2
    }
}

#[test]
fn hierarchy_matches_linear_scan_on_random_scenes() {
    let mut rng = Lcg(0x5eed);
    for scene in 0..40 {
        let n = 1 + scene * 3;
        let spheres: Vec<Sphere> = (0..n)
            .map(|_| Sphere {
                c: [rng.range(-20.0, 20.0), rng.range(-20.0, 20.0), rng.range(-20.0, 20.0)],
                r: rng.range(0.2, 3.0),
            })
            .collect();
        let boxes: Vec<KeyBox> = spheres.iter().map(sphere_box).collect();
        let tree = BvhNode::new(&boxes, longest_axis);
        for _ in 0..100 {
            let o = [rng.range(-30.0, 30.0), rng.range(-30.0, 30.0), rng.range(-30.0, 30.0)];
            let d = [rng.range(-1.0, 1.0), rng.range(-1.0, 1.0), rng.range(-1.0, 1.0)];
            let (lo, hi) = (key(0.0001), key(f64::INFINITY));
            let obj = |i: usize, lo: u64, hi: u64| sphere_hit(&spheres[i], o, d, unkey(lo), unkey(hi)).map(key);
            let bx = |b: KeyBox, lo: u64, hi: u64| slab_hit(b, o, d, unkey(lo), unkey(hi));
            let a = tree.hit(lo, hi, &bx, &obj);
            let b = closest_in_list(n, lo, hi, &obj);
            assert_eq!(a.map(|h| h.0), b.map(|h| h.0));
            if let Some((t, i)) = a {
                assert_eq!(obj(i, lo, hi), Some(t));
            }
        }
    }
}

#[test]
fn ray_through_centre_hits_near_side() {
    let s = Sphere { c: [0.0, 0.0, -5.0], r: 1.5 };
    let boxes = vec![sphere_box(&s)];
    let tree = BvhNode::new(&boxes, longest_axis);
    let o = [0.0, 0.0, 0.0];
    let d = [0.0, 0.0, -1.0];
    let obj = |_: usize, lo: u64, hi: u64| sphere_hit(&s, o, d, unkey(lo), unkey(hi)).map(key);
    let bx = |b: KeyBox, lo: u64, hi: u64| slab_hit(b, o, d, unkey(lo), unkey(hi));
    let (t, i) = tree.hit(key(0.0001), key(f64::INFINITY), &bx, &obj).unwrap();
    assert_eq!(i, 0);
    assert!((unkey(t) - 3.5).abs() < 1e-12);
}

#[test]
fn missed_box_prunes_everything() {
    let spheres = [
        Sphere { c: [0.0, 10.0, 0.0], r: 1.0 },
        Sphere { c: [3.0, 10.0, 0.0], r: 1.0 },
        Sphere { c: [6.0, 10.0, 0.0], r: 1.0 },
    ];
    let boxes: Vec<KeyBox> = spheres.iter().map(sphere_box).collect();
    let tree = BvhNode::new(&boxes, longest_axis);
    let o = [0.0, 0.0, 0.0];
    let d = [1.0, 0.0, 0.0];
    let obj = |i: usize, lo: u64, hi: u64| sphere_hit(&spheres[i], o, d, unkey(lo), unkey(hi)).map(key);
    let bx = |b: KeyBox, lo: u64, hi: u64| slab_hit(b, o, d, unkey(lo), unkey(hi));
    assert_eq!(tree.hit(key(0.0001), key(f64::INFINITY), &bx, &obj), None);
    assert_eq!(closest_in_list(3, key(0.0001), key(f64::INFINITY), &obj), None);
}

#[test]
fn list_scan_keeps_first_of_equal_distances() {
    let obj = |i: usize, _lo: u64, hi: u64| if i < 3 && 100 < hi { Some(100u64) } else { None };
    assert_eq!(closest_in_list(3, 0, 1000, &obj), Some((100, 0)));
    let nearer = |i: usize, _lo: u64, hi: u64| {
        let t = [500u64, 200, 300][i];
        if t < hi { Some(t) } else { None }
    };
    assert_eq!(closest_in_list(3, 0, 1000, &nearer), Some((200, 1)));
    assert_eq!(closest_in_list(0, 0, 1000, &nearer), None);
}

#[test]
fn closed_interval_surfaces_agree_too() {
    let mut rng = Lcg(77);
    for n in 1..40usize {
        // flat objects at integer distances, several sharing one, tested on the closed interval
        let ts: Vec<u64> = (0..n).map(|_| 10 + (rng.next() * 20.0) as u64).collect();
        let boxes: Vec<KeyBox> = ts
            .iter()
            .map(|&t| {
                let e = AxisKeys { min: key(t as f64), max: key(t as f64 + 0.5) };
                KeyBox { x: e, y: e, z: e }
            })
            .collect();
        let tree = BvhNode::new(&boxes, longest_axis);
        let obj = |i: usize, lo: u64, hi: u64| if lo <= ts[i] && ts[i] <= hi { Some(ts[i]) } else { None };
        let bx = |_: KeyBox, _: u64, _: u64| true;
        for hi in [0u64, 15, 25, 1000] {
            let a = tree.hit(5, hi, &bx, &obj);
            let b = closest_in_list(n, 5, hi, &obj);
            assert_eq!(a.map(|h| h.0), b.map(|h| h.0));
            assert_eq!(a.map(|h| h.0), ts.iter().copied().filter(|&t| 5 <= t && t <= hi).min());
        }
    }
}
