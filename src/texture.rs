//! Integer parts of texture lookup: the parity of a checker cell and the
//! nearest-pixel read of an 8-bit RGB image.
use crate::ppm::Rgb8;
use vstd::prelude::*;

verus! {

/// The checker cell with integer coordinates `(x, y, z)` takes the even
/// texture exactly when `x + y + z` is even (negative coordinates included).
pub fn checker_is_even(x: i64, y: i64, z: i64) -> (r: bool)
    ensures
        r == ((x + y + z) % 2 == 0),
{
    let sum: i128 = x as i128 + y as i128 + z as i128;
    sum % 2 == 0
}

/// An image decoded to 8-bit RGB: `width * height` pixels, row 0 at the top,
/// three bytes per pixel.
pub struct RgbGrid {
    width: usize,
    height: usize,
    data: Vec<u8>,
}

/// Byte offset of pixel `(i, j)` in a row-major grid `width` pixels wide.
pub open spec fn pixel_offset(width: int, i: int, j: int) -> int {
    3 * (j * width + i)
}

/// `i` moved into `0..n`: indices past the edge read the edge pixel.
pub open spec fn clamp_index(i: int, n: int) -> int {
    if i < n {
        i
    } else {
        n - 1
    }
}

impl RgbGrid {
    #[verifier::type_invariant]
    spec fn inv(&self) -> bool {
        &&& self.width > 0
        &&& self.height > 0
        &&& self.data.len() == 3 * self.width * self.height
    }

    pub closed spec fn width_spec(&self) -> nat {
        self.width as nat
    }

    pub closed spec fn height_spec(&self) -> nat {
        self.height as nat
    }

    pub closed spec fn bytes(&self) -> Seq<u8> {
        self.data@
    }

    /// A grid over `data`, when it holds exactly three bytes for each of a
    /// non-empty `width` by `height` set of pixels.
    pub fn new(width: usize, height: usize, data: Vec<u8>) -> (r: Option<RgbGrid>)
        ensures
            r is Some <==> (width > 0 && height > 0 && data.len() == 3 * width * height),
            r matches Some(g) ==> g.width_spec() == width && g.height_spec() == height
                && g.bytes() == data@,
    {
        if width == 0 || height == 0 {
            return None;
        }
        proof {
            assert(3 * width * height == (width * height) * 3) by (nonlinear_arith);
        }
        let pixels = match width.checked_mul(height) {
            Some(p) => p,
            None => {
                proof {
                    assert(width * height <= 3 * width * height) by (nonlinear_arith)
                        requires
                            width > 0,
                            height > 0,
                    ;
                }
                return None;
            },
        };
        let bytes = match pixels.checked_mul(3) {
            Some(b) => b,
            None => {
                return None;
            },
        };
        if data.len() != bytes {
            return None;
        }
        Some(RgbGrid { width, height, data })
    }

    pub fn width(&self) -> (r: usize)
        ensures
            r == self.width_spec(),
            r > 0,
    {
        proof {
            use_type_invariant(self);
        }
        self.width
    }

    pub fn height(&self) -> (r: usize)
        ensures
            r == self.height_spec(),
            r > 0,
    {
        proof {
            use_type_invariant(self);
        }
        self.height
    }

    /// The pixel in column `i` and row `j`; a coordinate past the last
    /// column or row reads the last one.
    pub fn get_pixel(&self, i: usize, j: usize) -> (r: Rgb8)
        ensures
            ({
                let o = pixel_offset(
                    self.width_spec() as int,
                    clamp_index(i as int, self.width_spec() as int),
                    clamp_index(j as int, self.height_spec() as int),
                );
                r == Rgb8 { r: self.bytes()[o], g: self.bytes()[o + 1], b: self.bytes()[o + 2] }
            }),
    {
        proof {
            use_type_invariant(self);
        }
        let ci = if i < self.width {
            i
        } else {
            self.width - 1
        };
        let cj = if j < self.height {
            j
        } else {
            self.height - 1
        };
        proof {
            let w = self.width as int;
            let h = self.height as int;
            assert(cj * w + ci < w * h) by (nonlinear_arith)
                requires
                    0 <= ci < w,
                    0 <= cj < h,
            ;
            assert(3 * (cj * w + ci) + 2 < 3 * w * h) by (nonlinear_arith)
                requires
                    cj * w + ci < w * h,
            ;
        }
        let o = 3 * (cj * self.width + ci);
        Rgb8 { r: self.data[o], g: self.data[o + 1], b: self.data[o + 2] }
    }
}

} // verus!
