//! An RGB raster held row by row, the image the mosaic approximates and the
//! mosaic itself.
use vstd::prelude::*;
use crate::position::Position;
use crate::partition::in_grid;

verus! {

/// An RGB colour, one byte per channel.
pub type Rgb = [u8; 3];

/// A `width` by `height` raster; the pixel at `(x, y)` is stored at
/// `y * width + x`.
pub struct Raster {
    pub width: u32,
    pub height: u32,
    pub pixels: Vec<Rgb>,
}

/// Storage index of `p` in a raster `width` columns wide.
pub open spec fn pixel_index(p: Position, width: u32) -> int {
    p.y * width + p.x
}

/// A position inside the grid has an index inside the storage.
pub proof fn lemma_index_in_bounds(p: Position, width: u32, height: u32)
    requires
        in_grid(p, width, height),
    ensures
        0 <= pixel_index(p, width) < width * height,
{
    assert(0 <= pixel_index(p, width) < width * height) by (nonlinear_arith)
        requires
            p.x < width,
            p.y < height,
    ;
}

/// Distinct positions inside the grid are stored at distinct indices.
pub proof fn lemma_index_injective(p: Position, q: Position, width: u32, height: u32)
    requires
        in_grid(p, width, height),
        in_grid(q, width, height),
        p != q,
    ensures
        pixel_index(p, width) != pixel_index(q, width),
{
    if p.y == q.y {
        assert(p.x != q.x);
    } else if p.y < q.y {
        assert(pixel_index(p, width) < pixel_index(q, width)) by (nonlinear_arith)
            requires
                p.x < width,
                p.y < q.y,
        ;
    } else {
        assert(pixel_index(q, width) < pixel_index(p, width)) by (nonlinear_arith)
            requires
                q.x < width,
                q.y < p.y,
        ;
    }
}

impl Raster {
    /// The storage holds exactly one pixel per grid position.
    pub open spec fn wf(&self) -> bool {
        self.pixels@.len() == self.width * self.height
    }

    /// Colour at `p`.
    pub open spec fn pixel(&self, p: Position) -> Rgb {
        self.pixels@[pixel_index(p, self.width)]
    }

    /// A raster of the given size with every pixel `(0, 0, 0)`.
    pub fn new_black(width: u32, height: u32) -> (r: Raster)
        requires
            width * height <= usize::MAX,
        ensures
            r.wf(),
            r.width == width,
            r.height == height,
            forall|i: int| 0 <= i < r.pixels@.len() ==> r.pixels@[i] == [0u8, 0u8, 0u8],
    {
        let n: usize = (width as usize) * (height as usize);
        let mut pixels: Vec<Rgb> = Vec::new();
        let mut i: usize = 0;
        while i < n
            invariant
                i <= n,
                pixels@.len() == i,
                forall|k: int| 0 <= k < i ==> pixels@[k] == [0u8, 0u8, 0u8],
            decreases n - i,
        {
            pixels.push([0u8, 0u8, 0u8]);
            i = i + 1;
        }
        Raster { width, height, pixels }
    }

    /// A raster from its rows laid end to end; `None` when the number of
    /// pixels is not `width * height`.
    pub fn from_pixels(width: u32, height: u32, pixels: Vec<Rgb>) -> (r: Option<Raster>)
        ensures
            r.is_some() <==> pixels@.len() == width * height,
            r.is_some() ==> r.unwrap().wf() && r.unwrap().width == width && r.unwrap().height
                == height && r.unwrap().pixels@ == pixels@,
    {
        proof {
            assert((width as int) * (height as int) <= 0xffff_ffff_ffff_ffff) by (nonlinear_arith)
                requires
                    width <= 0xffff_ffffu32,
                    height <= 0xffff_ffffu32,
            ;
        }
        let n: u64 = (width as u64) * (height as u64);
        if pixels.len() as u64 == n {
            Some(Raster { width, height, pixels })
        } else {
            None
        }
    }

    fn storage_index(&self, x: u32, y: u32) -> (i: usize)
        requires
            self.wf(),
            x < self.width,
            y < self.height,
        ensures
            i == pixel_index(Position { x, y }, self.width),
            i < self.pixels@.len(),
    {
        let p = Position { x, y };
        let n = self.pixels.len();
        proof {
            lemma_index_in_bounds(p, self.width, self.height);
            assert((y as int) * (self.width as int) <= pixel_index(p, self.width)) by (nonlinear_arith)
                requires
                    pixel_index(p, self.width) == (y as int) * (self.width as int) + (x as int),
                    x >= 0,
            ;
        }
        (y as usize) * (self.width as usize) + (x as usize)
    }

    /// Width and height.
    pub fn dimensions(&self) -> (r: (u32, u32))
        ensures
            r == (self.width, self.height),
    {
        (self.width, self.height)
    }

    /// Colour at `(x, y)`.
    pub fn get_pixel(&self, x: u32, y: u32) -> (r: Rgb)
        requires
            self.wf(),
            x < self.width,
            y < self.height,
        ensures
            r == self.pixel(Position { x, y }),
    {
        let i = self.storage_index(x, y);
        self.pixels[i]
    }

    /// Sets the colour at `(x, y)`, leaving every other pixel as it was.
    pub fn put_pixel(&mut self, x: u32, y: u32, c: Rgb)
        requires
            old(self).wf(),
            x < old(self).width,
            y < old(self).height,
        ensures
            final(self).wf(),
            final(self).width == old(self).width,
            final(self).height == old(self).height,
            final(self).pixels@ == old(self).pixels@.update(
                pixel_index(Position { x, y }, old(self).width),
                c,
            ),
    {
        let i = self.storage_index(x, y);
        self.pixels.set(i, c);
    }
}

} // verus!
