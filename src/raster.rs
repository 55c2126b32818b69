//! A decoded RGBA8 image and the extraction of its 8x8 cells.

use vstd::prelude::*;
use crate::config::Coord;

verus! {

/// An image of `width` x `height` pixels, four bytes (RGBA) per pixel, rows
/// top to bottom.
pub struct Raster {
    pub width: usize,
    pub height: usize,
    pub data: Vec<u8>,
}

/// Cell `c` lies wholly inside a `width` x `height` image.
pub open spec fn cell_inside(width: nat, height: nat, c: Coord) -> bool {
    (c.row as nat) * 8 + 8 <= height && (c.col as nat) * 8 + 8 <= width
}

/// Byte `k` (of 256) of cell `c`: pixel `k / 4` of the cell in row-major
/// order, channel `k % 4`.
pub open spec fn cell_byte(data: Seq<u8>, width: nat, c: Coord, k: int) -> u8 {
    let p = k / 4;
    let y = (c.row as int) * 8 + p / 8;
    let x = (c.col as int) * 8 + p % 8;
    data[(y * width + x) * 4 + k % 4]
}

/// The 256 bytes of cell `c`.
pub open spec fn cell_bytes(data: Seq<u8>, width: nat, c: Coord) -> Seq<u8> {
    Seq::new(256, |k: int| cell_byte(data, width, c, k))
}

impl Raster {
    /// The pixel buffer holds exactly four bytes per pixel.
    pub open spec fn wf(&self) -> bool {
        self.data@.len() == self.width * self.height * 4
    }

    /// The 256 bytes of cell `c`, or `None` where the cell is not inside the
    /// image.
    pub fn tile_pixels(&self, c: Coord) -> (r: Option<Vec<u8>>)
        requires
            self.wf(),
        ensures
            r is Some <==> cell_inside(self.width as nat, self.height as nat, c),
            r matches Some(v) ==> v@ == cell_bytes(self.data@, self.width as nat, c),
    {
        if !((c.row as usize) < self.height / 8 && (c.col as usize) < self.width / 8) {
            return None;
        }
        let w = self.width;
        let h = self.height;
        let y0 = (c.row as usize) * 8;
        let x0 = (c.col as usize) * 8;
        let n = self.data.len();
        let mut out: Vec<u8> = Vec::new();
        let mut k: usize = 0;
        while k < 256
            invariant
                self.wf(),
                n == self.data@.len(),
                w == self.width,
                h == self.height,
                y0 == (c.row as int) * 8,
                x0 == (c.col as int) * 8,
                y0 + 8 <= h,
                x0 + 8 <= w,
                k <= 256,
                out@ == cell_bytes(self.data@, w as nat, c).take(k as int),
            decreases 256 - k,
        {
            let p = k / 4;
            let y = y0 + p / 8;
            let x = x0 + p % 8;
            assert(y < h && x < w);
            assert(y * w + x < h * w && y * w <= h * w) by (nonlinear_arith)
                requires
                    y < h,
                    x < w,
            ;
            assert((y * w + x) * 4 + 3 < w * h * 4 && h * w <= w * h * 4) by (nonlinear_arith)
                requires
                    y * w + x < h * w,
            ;
            let idx = (y * w + x) * 4 + k % 4;
            out.push(self.data[idx]);
            assert(out@ =~= cell_bytes(self.data@, w as nat, c).take(k + 1));
            k = k + 1;
        }
        assert(out@ =~= cell_bytes(self.data@, w as nat, c));
        Some(out)
    }
}

} // verus!
