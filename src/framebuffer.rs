use vstd::prelude::*;
use crate::texture::Rgba;

verus! {

/// A `width` x `height` image stored row after row.
pub struct Framebuffer {
    pub width: u32,
    pub height: u32,
    pub pixels: Vec<Rgba>,
    pub background: Rgba,
    pub current: Rgba,
}

/// Position of `(x, y)` in a row-major buffer `w` pixels wide.
pub open spec fn flat(x: int, y: int, w: int) -> int {
    y * w + x
}

/// Distinct in-range points have distinct positions, all below `w * h`.
pub proof fn lemma_flat(x1: int, y1: int, x2: int, y2: int, w: int, h: int)
    requires
        0 <= x1 < w,
        0 <= x2 < w,
        0 <= y1 < h,
        0 <= y2 < h,
    ensures
        0 <= flat(x1, y1, w) < w * h,
        flat(x1, y1, w) == flat(x2, y2, w) <==> (x1 == x2 && y1 == y2),
{
    assert(0 <= y1 * w + x1 < w * h) by (nonlinear_arith) requires 0 <= x1 < w, 0 <= y1 < h;
    if y1 < y2 {
        assert(y1 * w + x1 < y2 * w + x2) by (nonlinear_arith) requires 0 <= x1 < w, 0 <= x2, y1 < y2;
    } else if y2 < y1 {
        assert(y2 * w + x2 < y1 * w + x1) by (nonlinear_arith) requires 0 <= x2 < w, 0 <= x1, y2 < y1;
    }
}

impl Framebuffer {
    pub open spec fn wf(&self) -> bool {
        self.pixels@.len() == self.width * self.height
    }

    /// The colour at `(x, y)`.
    pub open spec fn at(&self, x: int, y: int) -> Rgba {
        self.pixels@[flat(x, y, self.width as int)]
    }

    pub open spec fn in_bounds(&self, x: int, y: int) -> bool {
        0 <= x < self.width && 0 <= y < self.height
    }

    /// A buffer filled with opaque black.
    pub fn new(width: u32, height: u32) -> (r: Framebuffer)
        requires
            width * height <= usize::MAX,
        ensures
            r.wf(),
            r.width == width,
            r.height == height,
            forall|x: int, y: int| r.in_bounds(x, y) ==> r.at(x, y) == (Rgba { r: 0, g: 0, b: 0, a: 255 }),
    {
        let black = Rgba { r: 0, g: 0, b: 0, a: 255 };
        let n: usize = (width as usize) * (height as usize);
        let mut pixels: Vec<Rgba> = Vec::new();
        let mut i: usize = 0;
        while i < n
            invariant
                i <= n,
                pixels@.len() == i,
                forall|k: int| 0 <= k < i ==> pixels@[k] == black,
            decreases n - i,
        {
            pixels.push(black);
            i += 1;
        }
        let r = Framebuffer { width, height, pixels, background: black, current: Rgba { r: 255, g: 255, b: 255, a: 255 } };
        assert forall|x: int, y: int| r.in_bounds(x, y) implies r.at(x, y) == black by {
            lemma_flat(x, y, x, y, width as int, height as int);
        }
        r
    }

    pub fn set_background_color(&mut self, c: Rgba)
        ensures
            *final(self) == (Framebuffer { background: c, ..*old(self) }),
    {
        self.background = c;
    }

    pub fn set_current_color(&mut self, c: Rgba)
        ensures
            *final(self) == (Framebuffer { current: c, ..*old(self) }),
    {
        self.current = c;
    }

    /// Fills every pixel with the background colour.
    pub fn clear(&mut self)
        requires
            old(self).wf(),
        ensures
            final(self).wf(),
            final(self).width == old(self).width,
            final(self).height == old(self).height,
            final(self).background == old(self).background,
            final(self).current == old(self).current,
            forall|x: int, y: int| final(self).in_bounds(x, y) ==> final(self).at(x, y) == old(self).background,
    {
        let n = self.pixels.len();
        let mut i: usize = 0;
        while i < n
            invariant
                i <= n,
                n == self.pixels@.len(),
                self.wf(),
                self.width == old(self).width,
                self.height == old(self).height,
                self.background == old(self).background,
                self.current == old(self).current,
                forall|k: int| 0 <= k < i ==> self.pixels@[k] == self.background,
            decreases n - i,
        {
            let bg = self.background;
            self.pixels.set(i, bg);
            i += 1;
        }
        assert forall|x: int, y: int| self.in_bounds(x, y) implies self.at(x, y) == old(self).background by {
            lemma_flat(x, y, x, y, self.width as int, self.height as int);
        }
    }

    /// Writes `c` at `(x, y)` when that point is in the buffer.
    pub fn put_pixel(&mut self, x: u32, y: u32, c: Rgba)
        requires
            old(self).wf(),
        ensures
            final(self).wf(),
            final(self).width == old(self).width,
            final(self).height == old(self).height,
            final(self).background == old(self).background,
            final(self).current == old(self).current,
            forall|px: int, py: int| #[trigger] final(self).in_bounds(px, py) ==> final(self).at(px, py) == (
                if px == x && py == y { c } else { old(self).at(px, py) }),
    {
        if x < self.width && y < self.height {
            proof {
                lemma_flat(x as int, y as int, x as int, y as int, self.width as int, self.height as int);
                assert((y as int) * (self.width as int) + (x as int) < self.pixels@.len());
                assert((y as int) * (self.width as int) <= 0xffff_ffff * 0xffff_ffff) by (nonlinear_arith)
                    requires 0 <= y <= 0xffff_ffff, 0 <= self.width <= 0xffff_ffff;
            }
            let idx: u64 = (y as u64) * (self.width as u64) + (x as u64);
            assert(idx as int == flat(x as int, y as int, self.width as int));
            self.pixels.set(idx as usize, c);
            assert forall|px: int, py: int| #[trigger] self.in_bounds(px, py) implies self.at(px, py) == (
                if px == x && py == y { c } else { old(self).at(px, py) }) by {
                lemma_flat(px, py, x as int, y as int, self.width as int, self.height as int);
            }
        }
    }

    /// Writes the current colour at `(x, y)` when that point is in the buffer.
    pub fn set_pixel(&mut self, x: u32, y: u32)
        requires
            old(self).wf(),
        ensures
            final(self).wf(),
            final(self).width == old(self).width,
            final(self).height == old(self).height,
            final(self).background == old(self).background,
            final(self).current == old(self).current,
            forall|px: int, py: int| #[trigger] final(self).in_bounds(px, py) ==> final(self).at(px, py) == (
                if px == x && py == y { old(self).current } else { old(self).at(px, py) }),
    {
        let c = self.current;
        self.put_pixel(x, y, c);
    }

    /// The colour at `(x, y)`, if the point is in the buffer.
    pub fn get(&self, x: u32, y: u32) -> (r: Option<Rgba>)
        requires
            self.wf(),
        ensures
            r == if self.in_bounds(x as int, y as int) { Some(self.at(x as int, y as int)) } else { None },
    {
        if x < self.width && y < self.height {
            proof {
                lemma_flat(x as int, y as int, x as int, y as int, self.width as int, self.height as int);
                assert((y as int) * (self.width as int) + (x as int) < self.pixels@.len());
                assert((y as int) * (self.width as int) <= 0xffff_ffff * 0xffff_ffff) by (nonlinear_arith)
                    requires 0 <= y <= 0xffff_ffff, 0 <= self.width <= 0xffff_ffff;
            }
            let idx: u64 = (y as u64) * (self.width as u64) + (x as u64);
            assert(idx as int == flat(x as int, y as int, self.width as int));
            let n: usize = self.pixels.len();
            assert(idx < n);
            let c = self.pixels[idx as usize];
            Some(c)
        } else {
            None
        }
    }
}

} // verus!
