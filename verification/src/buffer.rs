//! The raster that lines are drawn into: RGB triples in row-major order.

use vstd::prelude::*;

verus! {

/// A raster of `width * height` RGB pixels, stored row by row from the top.
#[derive(Debug, PartialEq, Eq)]
pub struct PixelBuffer {
    pub width: usize,
    pub height: usize,
    pub data: Vec<(u8, u8, u8)>,
}

/// The place of pixel `(x, y)` in a row-major raster of the given width.
pub open spec fn offset(width: int, x: int, y: int) -> int {
    y * width + x
}

/// A pixel inside a raster has its place inside the raster's storage.
pub proof fn lemma_offset_in_range(width: int, height: int, x: int, y: int)
    requires
        0 <= x < width,
        0 <= y < height,
    ensures
        0 <= y * width <= offset(width, x, y) < width * height,
{
    assert(0 <= y * width && y * width + width <= width * height) by (nonlinear_arith)
        requires
            0 <= x < width,
            0 <= y < height,
    ;
}

impl PixelBuffer {
    /// The storage holds exactly one triple per pixel.
    pub open spec fn wf(&self) -> bool {
        self.data@.len() == self.width * self.height && self.width * self.height <= usize::MAX
    }

    /// The pixel in column `x` of row `y`.
    pub open spec fn at(&self, x: int, y: int) -> (u8, u8, u8) {
        self.data@[offset(self.width as int, x, y)]
    }

    /// A raster filled with one color; `None` when the pixel count does not fit
    /// the machine's address range.
    pub fn new(width: usize, height: usize, fill: (u8, u8, u8)) -> (r: Option<PixelBuffer>)
        ensures
            r is Some <==> width * height <= usize::MAX,
            r matches Some(b) ==> b.wf() && b.width == width && b.height == height && b.data@
                == Seq::new((width * height) as nat, |i: int| fill),
    {
        match width.checked_mul(height) {
            None => None,
            Some(n) => {
                let mut data: Vec<(u8, u8, u8)> = Vec::new();
                let mut i: usize = 0;
                while i < n
                    invariant
                        i <= n,
                        data@ == Seq::new(i as nat, |k: int| fill),
                    decreases n - i,
                {
                    data.push(fill);
                    i = i + 1;
                    assert(data@ =~= Seq::new(i as nat, |k: int| fill));
                }
                Some(PixelBuffer { width, height, data })
            },
        }
    }

    /// Reads the pixel in column `x` of row `y`.
    pub fn get(&self, x: usize, y: usize) -> (c: (u8, u8, u8))
        requires
            self.wf(),
            x < self.width,
            y < self.height,
        ensures
            c == self.at(x as int, y as int),
    {
        proof {
            lemma_offset_in_range(self.width as int, self.height as int, x as int, y as int);
        }
        self.data[y * self.width + x]
    }

    /// Overwrites the pixel in column `x` of row `y`.
    pub fn put(&mut self, x: usize, y: usize, color: (u8, u8, u8))
        requires
            old(self).wf(),
            x < old(self).width,
            y < old(self).height,
        ensures
            final(self).wf(),
            final(self).width == old(self).width,
            final(self).height == old(self).height,
            final(self).data@ == old(self).data@.update(
                offset(old(self).width as int, x as int, y as int),
                color,
            ),
    {
        proof {
            lemma_offset_in_range(self.width as int, self.height as int, x as int, y as int);
        }
        let i: usize = y * self.width + x;
        self.data.set(i, color);
    }

    /// Moves every channel of every pixel `amount` closer to full brightness,
    /// stopping at full brightness.
    pub fn lighten(&mut self, amount: u8)
        requires
            old(self).wf(),
        ensures
            final(self).wf(),
            final(self).width == old(self).width,
            final(self).height == old(self).height,
            forall|i: int|
                0 <= i < old(self).data@.len() ==> #[trigger] final(self).data@[i] == (
                    brighter(old(self).data@[i].0, amount),
                    brighter(old(self).data@[i].1, amount),
                    brighter(old(self).data@[i].2, amount),
                ),
    {
        let n: usize = self.data.len();
        let mut i: usize = 0;
        while i < n
            invariant
                i <= n,
                n == self.data@.len(),
                self.data@.len() == old(self).data@.len(),
                self.width == old(self).width,
                self.height == old(self).height,
                forall|k: int|
                    0 <= k < i ==> #[trigger] self.data@[k] == (
                        brighter(old(self).data@[k].0, amount),
                        brighter(old(self).data@[k].1, amount),
                        brighter(old(self).data@[k].2, amount),
                    ),
                forall|k: int| i <= k < n ==> #[trigger] self.data@[k] == old(self).data@[k],
            decreases n - i,
        {
            let p: (u8, u8, u8) = self.data[i];
            self.data.set(i, (brighten(p.0, amount), brighten(p.1, amount), brighten(p.2, amount)));
            i = i + 1;
        }
    }

    /// The raster as bytes: for each pixel in storage order its red, green and
    /// blue channel. `None` when three bytes per pixel do not fit the
    /// machine's address range.
    pub fn to_bytes(&self) -> (r: Option<Vec<u8>>)
        requires
            self.wf(),
        ensures
            r is Some <==> 3 * self.data@.len() <= usize::MAX,
            r matches Some(bytes) ==> bytes@.len() == 3 * self.data@.len() && forall|i: int|
                0 <= i < self.data@.len() ==> bytes@[3 * i] == (#[trigger] self.data@[i]).0
                    && bytes@[3 * i + 1] == self.data@[i].1 && bytes@[3 * i + 2]
                    == self.data@[i].2,
    {
        let n: usize = self.data.len();
        if n > usize::MAX / 3 {
            return None;
        }
        let mut bytes: Vec<u8> = Vec::new();
        let mut i: usize = 0;
        while i < n
            invariant
                i <= n,
                n == self.data@.len(),
                bytes@.len() == 3 * i,
                forall|k: int|
                    0 <= k < i ==> bytes@[3 * k] == (#[trigger] self.data@[k]).0 && bytes@[3 * k
                        + 1] == self.data@[k].1 && bytes@[3 * k + 2] == self.data@[k].2,
            decreases n - i,
        {
            let p: (u8, u8, u8) = self.data[i];
            bytes.push(p.0);
            bytes.push(p.1);
            bytes.push(p.2);
            i = i + 1;
        }
        Some(bytes)
    }
}

/// A channel moved `amount` closer to full brightness, stopping there.
pub open spec fn brighter(c: u8, amount: u8) -> u8 {
    if c + amount > 255 {
        255u8
    } else {
        (c + amount) as u8
    }
}

/// Moves a channel `amount` closer to full brightness, stopping there.
pub fn brighten(c: u8, amount: u8) -> (r: u8)
    ensures
        r == brighter(c, amount),
{
    if c > 255 - amount {
        255
    } else {
        c + amount
    }
}

} // verus!
