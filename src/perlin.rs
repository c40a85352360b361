//! Lattice hashing of Perlin noise: three random permutations of the lattice
//! points, and the table index each integer lattice point hashes to.
use rand::seq::SliceRandom;
use vstd::arithmetic::div_mod::lemma_add_mod_noop;
use vstd::prelude::*;

verus! {

/// Number of lattice points per axis, and of entries in each table.
pub const PERLIN_POINT_COUNT: usize = 256;

/// `0, 1, ..., n - 1`.
pub open spec fn identity(n: nat) -> Seq<usize> {
    Seq::new(n, |i: int| i as usize)
}

/// `s` holds each of `0..256` exactly once.
pub open spec fn is_point_permutation(s: Seq<usize>) -> bool {
    s.to_multiset() == identity(PERLIN_POINT_COUNT as nat).to_multiset()
}

/// Relies on rand's `SliceRandom::shuffle`, drawing from the thread's
/// generator: the slice ends up holding the same elements, reordered.
#[verifier::external_body]
fn shuffle(v: &mut Vec<usize>)
    ensures
        final(v)@.to_multiset() == old(v)@.to_multiset(),
{
    v.shuffle(&mut rand::rng());
}

/// A random permutation of the lattice points `0..256`.
pub fn perlin_generate_perm() -> (r: Vec<usize>)
    ensures
        r.len() == PERLIN_POINT_COUNT,
        is_point_permutation(r@),
{
    let mut perm: Vec<usize> = Vec::new();
    let mut i: usize = 0;
    while i < PERLIN_POINT_COUNT
        invariant
            i <= PERLIN_POINT_COUNT,
            perm@ == identity(i as nat),
        decreases PERLIN_POINT_COUNT - i,
    {
        perm.push(i);
        proof {
            assert(perm@ =~= identity(i as nat + 1));
        }
        i = i + 1;
    }
    let ghost before = perm@;
    shuffle(&mut perm);
    proof {
        perm@.to_multiset_ensures();
        before.to_multiset_ensures();
    }
    perm
}

/// Every entry of a permutation of `0..256` is below 256.
pub proof fn lemma_permutation_entries(s: Seq<usize>, k: int)
    requires
        is_point_permutation(s),
        0 <= k < s.len(),
    ensures
        s[k] < PERLIN_POINT_COUNT,
{
    let id = identity(PERLIN_POINT_COUNT as nat);
    s.to_multiset_ensures();
    id.to_multiset_ensures();
    assert(s.contains(s[k]));
    assert(s.to_multiset().count(s[k]) > 0);
    assert(id.contains(s[k]));
}

/// The lattice tables of Perlin noise: one permutation per axis.
pub struct Perlin {
    pub perm_x: Vec<usize>,
    pub perm_y: Vec<usize>,
    pub perm_z: Vec<usize>,
}

/// Table index of lattice point `(i, j, k)`: the three permutations, each
/// taken at the coordinate modulo 256, combined by exclusive or.
pub open spec fn lattice_hash(t: &Perlin, i: int, j: int, k: int) -> usize {
    t.perm_x@[i % 256] ^ t.perm_y@[j % 256] ^ t.perm_z@[k % 256]
}

impl Perlin {
    /// Each table is a permutation of `0..256`.
    pub open spec fn wf(&self) -> bool {
        &&& self.perm_x.len() == PERLIN_POINT_COUNT
        &&& self.perm_y.len() == PERLIN_POINT_COUNT
        &&& self.perm_z.len() == PERLIN_POINT_COUNT
        &&& is_point_permutation(self.perm_x@)
        &&& is_point_permutation(self.perm_y@)
        &&& is_point_permutation(self.perm_z@)
    }

    /// Three fresh random permutations.
    pub fn new() -> (r: Perlin)
        ensures
            r.wf(),
    {
        let perm_x = perlin_generate_perm();
        let perm_y = perlin_generate_perm();
        let perm_z = perlin_generate_perm();
        Perlin { perm_x, perm_y, perm_z }
    }

    /// Index into the random table for lattice point `(i, j, k)`; always a
    /// valid index into a table of 256 entries.
    pub fn hash_index(&self, i: i64, j: i64, k: i64) -> (r: usize)
        requires
            self.wf(),
        ensures
            r == lattice_hash(self, i as int, j as int, k as int),
            r < PERLIN_POINT_COUNT,
    {
        let a = self.perm_x[wrap_coordinate(i, 0)];
        let b = self.perm_y[wrap_coordinate(j, 0)];
        let c = self.perm_z[wrap_coordinate(k, 0)];
        proof {
            lemma_permutation_entries(self.perm_x@, i as int % 256);
            lemma_permutation_entries(self.perm_y@, j as int % 256);
            lemma_permutation_entries(self.perm_z@, k as int % 256);
            assert(a ^ b ^ c < 256) by (bit_vector)
                requires
                    a < 256,
                    b < 256,
                    c < 256,
            ;
        }
        a ^ b ^ c
    }

    /// Index for the corner `(i + di, j + dj, k + dk)` of the lattice cell
    /// whose lowest corner is `(i, j, k)`.
    pub fn corner_index(&self, i: i64, j: i64, k: i64, di: usize, dj: usize, dk: usize) -> (r:
        usize)
        requires
            self.wf(),
            di < 2,
            dj < 2,
            dk < 2,
        ensures
            r == lattice_hash(self, i + di, j + dj, k + dk),
            r < PERLIN_POINT_COUNT,
    {
        let a = self.perm_x[wrap_coordinate(i, di)];
        let b = self.perm_y[wrap_coordinate(j, dj)];
        let c = self.perm_z[wrap_coordinate(k, dk)];
        proof {
            lemma_permutation_entries(self.perm_x@, (i + di) % 256);
            lemma_permutation_entries(self.perm_y@, (j + dj) % 256);
            lemma_permutation_entries(self.perm_z@, (k + dk) % 256);
            assert(a ^ b ^ c < 256) by (bit_vector)
                requires
                    a < 256,
                    b < 256,
                    c < 256,
            ;
        }
        a ^ b ^ c
    }
}

/// `(c + d) mod 256`, computed without overflow.
fn wrap_coordinate(c: i64, d: usize) -> (r: usize)
    requires
        d < 2,
    ensures
        r == (c + d) % 256,
        r < 256,
{
    let m: i64 = match c.checked_rem_euclid(256) {
        Some(m) => m,
        None => 0,
    };
    proof {
        lemma_add_mod_noop(c as int, d as int, 256);
        assert((d as int) % 256 == d);
    }
    ((m as usize) + d) % 256
}

} // verus!
