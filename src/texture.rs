use vstd::prelude::*;

verus! {

/// An RGBA8 image: `width * height` texels of four bytes each, row by row.
#[derive(Clone, Debug)]
pub struct TextureData {
    pub width: u32,
    pub height: u32,
    pub data: Vec<u8>,
}

impl TextureData {
    /// Byte offset of the texel that (tx, ty) wraps onto.
    pub open spec fn texel_offset(&self, tx: u32, ty: u32) -> int {
        4 * ((ty % self.height) as int * self.width as int + (tx % self.width) as int)
    }

    /// The red, green and blue bytes of the texel at (tx, ty), both wrapped
    /// around the image size. `None` when the image is empty or its data too
    /// short to hold that texel.
    pub fn texel(&self, tx: u32, ty: u32) -> (r: Option<(u8, u8, u8)>)
        ensures
            r == if self.width == 0 || self.height == 0 {
                None
            } else if self.texel_offset(tx, ty) + 2 < self.data.len() {
                let o = self.texel_offset(tx, ty);
                Some((self.data[o], self.data[o + 1], self.data[o + 2]))
            } else {
                None
            },
    {
        if self.width == 0 || self.height == 0 {
            return None;
        }
        let w = self.width as u64;
        let h = self.height as u64;
        let x = (tx % self.width) as u64;
        let y = (ty % self.height) as u64;
        proof {
            assert(y * w + x < w * h && y * w <= y * w + x) by (nonlinear_arith)
                requires
                    x < w,
                    y < h,
            ;
            assert(w * h <= 0xFFFF_FFFFu64 * 0xFFFF_FFFFu64) by (nonlinear_arith)
                requires
                    w <= 0xFFFF_FFFFu64,
                    h <= 0xFFFF_FFFFu64,
            ;
        }
        let pos = y * w + x;
        let len = self.data.len() as u64;
        if len >= 3 && pos <= (len - 3) / 4 {
            let idx = (pos * 4) as usize;
            Some((self.data[idx], self.data[idx + 1], self.data[idx + 2]))
        } else {
            None
        }
    }
}

} // verus!
