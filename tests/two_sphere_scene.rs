use raytracer::keybox::{float_from_order_key, float_order_key};
use raytracer::traversal::closest_in_list;
use raytracer::camera::samples_grid_side;
use raytracer::ppm::{encode_ppm, Rgb8};

fn key(x: f64) -> u64 {
    float_order_key(x.to_bits())
}

fn unkey(k: u64) -> f64 {
    f64::from_bits(float_from_order_key(k))
}

type V = [f64; 3];

fn sub(a: V, b: V) -> V {
    [a[0] - b[0], a[1] - b[1], a[2] - b[2]]
}

fn dot(a: V, b: V) -> f64 {
    a[0] * b[0] + a[1] * b[1] + a[2] * b[2]
}

fn sphere_hit(c: V, r: f64, o: V, d: V, lo: f64, hi: f64) -> Option<f64> {
    let oc = sub(c, o);
    let a = dot(d, d);
    let h = dot(d, oc);
    let disc = h * h - a * (dot(oc, oc) - r * r);
    if disc < 0.0 {
        return None;
    }
    let sq = disc.sqrt();
    [(h - sq) / a, (h + sq) / a].into_iter().find(|&t| lo < t && t < hi)
}

fn byte(x: f64) -> u8 {
    let g = if x > 0.0 { x.sqrt() } else { 0.0 };
    (256.0 * g.clamp(0.0, 0.999)) as u8
}

/// Ground sphere and subject sphere, diffuse, one sample per pixel, one
/// bounce: a hit gathers nothing, a miss shows the sky gradient.
fn render(w: usize, h: usize) -> Vec<u8> {
    let spheres = [([0.0, -100.5, -1.0], 100.0), ([0.0, 0.0, -1.0], 0.5)];
    assert_eq!(samples_grid_side(1), 1);
    let (vw, vh) = (2.0 * w as f64 / h as f64, 2.0);
    let mut pixels = Vec::new();
    for j in 0..h {
        for i in 0..w {
            let d = [
                -vw / 2.0 + vw * (i as f64 + 0.5) / w as f64,
                vh / 2.0 - vh * (j as f64 + 0.5) / h as f64,
                -1.0,
            ];
            let obj = |k: usize, lo: u64, hi: u64| {
                let (c, r) = spheres[k];
                sphere_hit(c, r, [0.0; 3], d, unkey(lo), unkey(hi)).map(key)
            };
            let hit = closest_in_list(2, key(0.0001), key(f64::INFINITY), &obj);
            let color = match hit {
                Some(_) => [0.0; 3],
                None => {
                    let a = 0.5 * (d[1] / dot(d, d).sqrt() + 1.0);
                    [(1.0 - a) + a * 0.5, (1.0 - a) + a * 0.7, (1.0 - a) + a * 1.0]
                }
            };
            pixels.push(Rgb8 { r: byte(color[0]), g: byte(color[1]), b: byte(color[2]) });
        }
    }
    encode_ppm(w, h, &pixels)
}

#[test]
fn two_sphere_scene_header_pixels_and_silhouette() {
    let (w, h) = (40usize, 22usize);
    let out = String::from_utf8(render(w, h)).unwrap();
    assert!(out.starts_with("P3\n40 22\n255\n"));
    let lines: Vec<&str> = out.lines().collect();
    assert_eq!(lines.len(), 3 + w * h);
    let pixel = |i: usize, j: usize| lines[3 + j * w + i];
    // the subject sphere fills the middle of the image
    assert_eq!(pixel(w / 2, h / 2), "0 0 0");
    // the top row is sky
    assert_ne!(pixel(w / 2, 0), "0 0 0");
    assert_ne!(pixel(w / 2, h / 2), pixel(w / 2, 0));
}
