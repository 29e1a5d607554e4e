use vstd::prelude::*;

verus! {

/// An RGBA colour.
#[derive(Clone, Copy, Debug, PartialEq, Eq, Structural)]
pub struct Rgba {
    pub r: u8,
    pub g: u8,
    pub b: u8,
    pub a: u8,
}

impl Rgba {
    pub fn new(r: u8, g: u8, b: u8, a: u8) -> (c: Rgba)
        ensures
            c == (Rgba { r, g, b, a }),
    {
        Rgba { r, g, b, a }
    }

    /// The colour returned for samples outside an image.
    pub open spec fn gray_spec() -> Rgba {
        Rgba { r: 128, g: 128, b: 128, a: 255 }
    }

    pub fn gray() -> (c: Rgba)
        ensures
            c == Rgba::gray_spec(),
    {
        Rgba { r: 128, g: 128, b: 128, a: 255 }
    }
}

/// An image as rows of RGBA bytes, four per pixel, row after row.
pub struct PixelBuffer {
    pub width: u32,
    pub height: u32,
    pub data: Vec<u8>,
}

impl PixelBuffer {
    /// The pixel at `(x, y)`, or gray when the point or its bytes lie outside the image.
    pub open spec fn pixel_spec(&self, x: int, y: int) -> Rgba {
        let idx = (y * self.width + x) * 4;
        if x < 0 || y < 0 || x >= self.width || y >= self.height || idx + 3 >= self.data@.len() {
            Rgba::gray_spec()
        } else {
            Rgba { r: self.data@[idx], g: self.data@[idx + 1], b: self.data@[idx + 2], a: self.data@[idx + 3] }
        }
    }

    /// Sampling with both coordinates clamped into the image.
    pub open spec fn clamped_spec(&self, tx: int, ty: int) -> Rgba {
        if self.width == 0 || self.height == 0 {
            Rgba::gray_spec()
        } else {
            self.pixel_spec(
                if tx < self.width { tx } else { self.width - 1 },
                if ty < self.height { ty } else { self.height - 1 },
            )
        }
    }

    pub fn new(width: u32, height: u32, data: Vec<u8>) -> (r: PixelBuffer)
        ensures
            r.width == width,
            r.height == height,
            r.data@ == data@,
    {
        PixelBuffer { width, height, data }
    }

    pub fn get_pixel(&self, x: i64, y: i64) -> (c: Rgba)
        ensures
            c == self.pixel_spec(x as int, y as int),
    {
        if x < 0 || y < 0 || x >= self.width as i64 || y >= self.height as i64 {
            return Rgba::gray();
        }
        proof {
            assert(y * self.width + x < 0x1_0000_0000 * 0x1_0000_0000) by (nonlinear_arith)
                requires 0 <= x < self.width, 0 <= y < self.height, self.width < 0x1_0000_0000, self.height < 0x1_0000_0000;
        }
        let p: u64 = (y as u64) * (self.width as u64) + (x as u64);
        let q: u64 = (self.data.len() / 4) as u64;
        proof {
            let len = self.data@.len() as int;
            assert((p * 4 + 3 >= len) <==> (p >= len / 4)) by (nonlinear_arith) requires len >= 0, p >= 0;
        }
        if p >= q {
            return Rgba::gray();
        }
        let idx: u64 = p * 4;
        let i = idx as usize;
        Rgba { r: self.data[i], g: self.data[i + 1], b: self.data[i + 2], a: self.data[i + 3] }
    }
}

/// Holds the wall image sampled by the renderer.
pub struct TextureManager {
    pub wall: PixelBuffer,
}

impl TextureManager {
    pub fn new(wall: PixelBuffer) -> (r: TextureManager)
        ensures
            r.wall == wall,
    {
        TextureManager { wall }
    }

    /// The wall pixel at `(tx, ty)`, each coordinate clamped to the image's last row or column.
    pub fn get_wall_pixel_color(&self, tx: u32, ty: u32) -> (c: Rgba)
        ensures
            c == self.wall.clamped_spec(tx as int, ty as int),
    {
        let w = self.wall.width;
        let h = self.wall.height;
        if w == 0 || h == 0 {
            return Rgba::gray();
        }
        let x: u32 = if tx < w { tx } else { w - 1 };
        let y: u32 = if ty < h { ty } else { h - 1 };
        self.wall.get_pixel(x as i64, y as i64)
    }
}

} // verus!
