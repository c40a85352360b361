use raytracer::camera::samples_grid_side;
use raytracer::config::NoiseType;
use raytracer::perlin::{perlin_generate_perm, Perlin, PERLIN_POINT_COUNT};
use raytracer::ppm::Rgb8;
use raytracer::texture::{checker_is_even, RgbGrid};

fn is_permutation(p: &[usize]) -> bool {
    let mut s = p.to_vec();
    s.sort();
    s == (0..PERLIN_POINT_COUNT).collect::<Vec<_>>()
}

#[test]
fn generated_perm_is_a_shuffled_permutation() {
    let a = perlin_generate_perm();
    assert!(is_permutation(&a));
    // 256! orderings: the identity coming back means nothing was shuffled.
    let b = perlin_generate_perm();
    assert!(a != (0..256).collect::<Vec<_>>() || b != (0..256).collect::<Vec<_>>());
}

#[test]
fn hash_index_combines_three_tables() {
    let t = Perlin::new();
    assert!(is_permutation(&t.perm_x) && is_permutation(&t.perm_y) && is_permutation(&t.perm_z));
    for &(i, j, k) in [(0i64, 0i64, 0i64), (3, 300, -1), (-257, 1000, 42), (i64::MIN, i64::MAX, 5)].iter() {
        let r = t.hash_index(i, j, k);
        let e = t.perm_x[i.rem_euclid(256) as usize]
            ^ t.perm_y[j.rem_euclid(256) as usize]
            ^ t.perm_z[k.rem_euclid(256) as usize];
        assert_eq!(r, e);
        assert!(r < 256);
    }
}

#[test]
fn corner_index_wraps_at_the_lattice_edge() {
    let t = Perlin::new();
    assert_eq!(t.corner_index(255, 0, -1, 1, 0, 1), t.hash_index(0, 0, 0));
    assert_eq!(t.corner_index(i64::MAX, 7, 7, 1, 1, 0), t.hash_index(0, 8, 7));
    assert_eq!(t.corner_index(-1, -1, -1, 0, 0, 0), t.hash_index(255, 255, 255));
}

#[test]
fn checker_parity() {
    assert!(checker_is_even(0, 0, 0));
    assert!(!checker_is_even(1, 0, 0));
    assert!(!checker_is_even(-1, 0, 0));
    assert!(checker_is_even(-1, -1, 0));
    assert!(checker_is_even(3, -5, 2));
    assert!(checker_is_even(i64::MAX, i64::MAX, 0));
    assert!(!checker_is_even(i64::MIN, i64::MAX, 0));
}

#[test]
fn grid_rejects_inconsistent_sizes() {
    assert!(RgbGrid::new(0, 1, vec![]).is_none());
    assert!(RgbGrid::new(2, 0, vec![]).is_none());
    assert!(RgbGrid::new(2, 2, vec![0; 11]).is_none());
    assert!(RgbGrid::new(usize::MAX, 3, vec![0; 9]).is_none());
    let g = RgbGrid::new(2, 2, vec![0; 12]).unwrap();
    assert_eq!((g.width(), g.height()), (2, 2));
}

#[test]
fn grid_reads_nearest_pixel_and_clamps() {
    let data: Vec<u8> = (0..18u8).collect();
    let g = RgbGrid::new(3, 2, data).unwrap();
    assert_eq!(g.get_pixel(0, 0), Rgb8 { r: 0, g: 1, b: 2 });
    assert_eq!(g.get_pixel(2, 0), Rgb8 { r: 6, g: 7, b: 8 });
    assert_eq!(g.get_pixel(1, 1), Rgb8 { r: 12, g: 13, b: 14 });
    assert_eq!(g.get_pixel(3, 2), Rgb8 { r: 15, g: 16, b: 17 });
    assert_eq!(g.get_pixel(usize::MAX, 0), Rgb8 { r: 6, g: 7, b: 8 });
}

#[test]
fn noise_tables_needed() {
    assert!(!NoiseType::HashedRandom.uses_random_vectors());
    assert!(!NoiseType::TrilinearInterpolation.uses_random_vectors());
    assert!(NoiseType::LatticeRandomVectors.uses_random_vectors());
    assert!(NoiseType::Turbulence.uses_random_vectors());
    assert!(NoiseType::TurbulenceMarble.uses_random_vectors());
}

#[test]
fn stratified_grid_side() {
    assert_eq!(samples_grid_side(0), 0);
    assert_eq!(samples_grid_side(1), 1);
    assert_eq!(samples_grid_side(3), 1);
    assert_eq!(samples_grid_side(10), 3);
    assert_eq!(samples_grid_side(16), 4);
    assert_eq!(samples_grid_side(100), 10);
    assert_eq!(samples_grid_side(99), 9);
    assert_eq!(samples_grid_side(usize::MAX), 4294967295);
}
