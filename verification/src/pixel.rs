use vstd::arithmetic::div_mod::lemma_fundamental_div_mod_converse;
use vstd::prelude::*;

verus! {

/// A decoded RGBA image held as plain bytes: `data` has exactly
/// `4 * width * height` entries, four bytes per pixel, rows top to bottom.
#[derive(Debug)]
pub struct PixelBuffer {
    pub width: u32,
    pub height: u32,
    pub data: Vec<u8>,
}

impl PixelBuffer {
    /// The byte count matches the dimensions.
    pub open spec fn wf(&self) -> bool {
        self.data@.len() == 4 * (self.width as int) * (self.height as int)
    }

    /// Byte offset of pixel `(x, y)` in row-major order.
    pub open spec fn spec_pixel_index(&self, x: int, y: int) -> int {
        4 * (y * (self.width as int) + x)
    }

    /// The four RGBA bytes of pixel `(x, y)`.
    pub open spec fn spec_pixel(&self, x: int, y: int) -> Seq<u8>
        recommends
            self.wf(),
            0 <= x < self.width,
            0 <= y < self.height,
    {
        self.data@.subrange(self.spec_pixel_index(x, y), self.spec_pixel_index(x, y) + 4)
    }

    /// An all-transparent (zeroed) buffer of the given dimensions.
    pub fn new(width: u32, height: u32) -> (r: Self)
        requires
            4 * (width as int) * (height as int) <= usize::MAX as int,
        ensures
            r.wf(),
            r.width == width,
            r.height == height,
            forall|k: int| 0 <= k < r.data@.len() ==> r.data@[k] == 0u8,
    {
        proof {
            assert(0 <= (width as int) * (height as int) && 4 * ((width as int) * (height as int))
                == 4 * (width as int) * (height as int)) by (nonlinear_arith)
                requires
                    width >= 0,
                    height >= 0,
            ;
        }
        let count: usize = 4usize * ((width as usize) * (height as usize));
        let mut data: Vec<u8> = Vec::new();
        let mut k: usize = 0;
        while k < count
            invariant
                0 <= k <= count,
                data@.len() == k,
                forall|j: int| 0 <= j < k ==> data@[j] == 0u8,
            decreases count - k,
        {
            data.push(0u8);
            k = k + 1;
        }
        PixelBuffer { width, height, data }
    }

    /// Proves that a pixel's four bytes lie within the buffer.
    pub proof fn lemma_pixel_index_in_range(&self, x: int, y: int)
        requires
            self.wf(),
            0 <= x < self.width,
            0 <= y < self.height,
        ensures
            0 <= self.spec_pixel_index(x, y),
            self.spec_pixel_index(x, y) + 4 <= self.data@.len(),
    {
        let w = self.width as int;
        let h = self.height as int;
        assert(0 <= 4 * (y * w + x) && 4 * (y * w + x) + 4 <= 4 * w * h) by (nonlinear_arith)
            requires
                0 <= x < w,
                0 <= y < h,
        ;
    }

    /// Row-major pixel offsets are injective: two distinct pixels never share
    /// an offset.
    proof fn lemma_pixel_index_injective(&self, x0: int, y0: int, x1: int, y1: int)
        requires
            0 <= x0 < self.width,
            0 <= y0 < self.height,
            0 <= x1 < self.width,
            0 <= y1 < self.height,
            (x0, y0) != (x1, y1),
        ensures
            self.spec_pixel_index(x0, y0) + 4 <= self.spec_pixel_index(x1, y1)
                || self.spec_pixel_index(x1, y1) + 4 <= self.spec_pixel_index(x0, y0),
    {
        let w = self.width as int;
        lemma_fundamental_div_mod_converse(y0 * w + x0, w, y0, x0);
        lemma_fundamental_div_mod_converse(y1 * w + x1, w, y1, x1);
        assert(y0 * w + x0 != y1 * w + x1);
    }

    /// Reads the four RGBA bytes of pixel `(x, y)`.
    pub fn get_pixel(&self, x: u32, y: u32) -> (r: (u8, u8, u8, u8))
        requires
            self.wf(),
            x < self.width,
            y < self.height,
        ensures
            seq![r.0, r.1, r.2, r.3] =~= self.spec_pixel(x as int, y as int),
    {
        let idx = self.pixel_index(x, y);
        (self.data[idx], self.data[idx + 1], self.data[idx + 2], self.data[idx + 3])
    }

    /// Overwrites the four RGBA bytes of pixel `(x, y)`, leaving every other
    /// pixel as it was.
    pub fn set_pixel(&mut self, x: u32, y: u32, p: (u8, u8, u8, u8))
        requires
            old(self).wf(),
            x < old(self).width,
            y < old(self).height,
        ensures
            final(self).wf(),
            final(self).width == old(self).width,
            final(self).height == old(self).height,
            final(self).spec_pixel(x as int, y as int) =~= seq![p.0, p.1, p.2, p.3],
            forall|i: int, j: int|
                0 <= i < old(self).width && 0 <= j < old(self).height && (i, j) != (
                x as int,
                y as int,
                ) ==> final(self).spec_pixel(i, j) =~= old(self).spec_pixel(i, j),
    {
        let idx = self.pixel_index(x, y);
        self.data.set(idx, p.0);
        self.data.set(idx + 1, p.1);
        self.data.set(idx + 2, p.2);
        self.data.set(idx + 3, p.3);
        proof {
            assert forall|i: int, j: int|
                0 <= i < old(self).width && 0 <= j < old(self).height && (i, j) != (
                x as int,
                y as int,
                ) implies final(self).spec_pixel(i, j) =~= old(self).spec_pixel(i, j) by {
                old(self).lemma_pixel_index_injective(i, j, x as int, y as int);
                old(self).lemma_pixel_index_in_range(i, j);
            }
        }
    }

    fn pixel_index(&self, x: u32, y: u32) -> (r: usize)
        requires
            self.wf(),
            x < self.width,
            y < self.height,
        ensures
            r as int == self.spec_pixel_index(x as int, y as int),
            r + 4 <= self.data@.len(),
    {
        let n: usize = self.data.len();
        proof {
            assert(n == self.data@.len());
            self.lemma_pixel_index_in_range(x as int, y as int);
        }
        4 * ((y as usize) * (self.width as usize) + (x as usize))
    }

    /// Copies `src` whole into this buffer with its top-left corner at
    /// `(x, y)`; pixels outside the copied window keep their value.
    pub fn blit(&mut self, src: &PixelBuffer, x: u32, y: u32)
        requires
            old(self).wf(),
            src.wf(),
            x + src.width <= old(self).width,
            y + src.height <= old(self).height,
        ensures
            final(self).wf(),
            final(self).width == old(self).width,
            final(self).height == old(self).height,
            forall|i: int, j: int|
                0 <= i < src.width && 0 <= j < src.height ==> final(self).spec_pixel(
                    x + i,
                    y + j,
                ) =~= src.spec_pixel(i, j),
            forall|i: int, j: int|
                0 <= i < old(self).width && 0 <= j < old(self).height && !(x <= i < x + src.width
                    && y <= j < y + src.height) ==> final(self).spec_pixel(i, j) =~= old(
                    self,
                ).spec_pixel(i, j),
    {
        let mut j: u32 = 0;
        while j < src.height
            invariant
                0 <= j <= src.height,
                self.wf(),
                src.wf(),
                self.width == old(self).width,
                self.height == old(self).height,
                x + src.width <= self.width,
                y + src.height <= self.height,
                forall|a: int, b: int|
                    0 <= a < src.width && 0 <= b < j ==> self.spec_pixel(x + a, y + b)
                        =~= src.spec_pixel(a, b),
                forall|a: int, b: int|
                    0 <= a < self.width && 0 <= b < self.height && !(x <= a < x + src.width && y
                        <= b < y + j) ==> self.spec_pixel(a, b) =~= old(self).spec_pixel(a, b),
            decreases src.height - j,
        {
            let mut i: u32 = 0;
            while i < src.width
                invariant
                    0 <= i <= src.width,
                    0 <= j < src.height,
                    self.wf(),
                    src.wf(),
                    self.width == old(self).width,
                    self.height == old(self).height,
                    x + src.width <= self.width,
                    y + src.height <= self.height,
                    forall|a: int, b: int|
                        0 <= a < src.width && 0 <= b < j ==> self.spec_pixel(x + a, y + b)
                            =~= src.spec_pixel(a, b),
                    forall|a: int|
                        0 <= a < i ==> self.spec_pixel(x + a, y + j as int) =~= src.spec_pixel(
                            a,
                            j as int,
                        ),
                    forall|a: int, b: int|
                        0 <= a < self.width && 0 <= b < self.height && !(x <= a < x + src.width
                            && y <= b < y + j + 1) ==> self.spec_pixel(a, b) =~= old(
                            self,
                        ).spec_pixel(a, b),
                    forall|a: int|
                        x + i <= a < x + src.width ==> #[trigger] self.spec_pixel(a, y + j as int)
                            =~= old(self).spec_pixel(a, y + j as int),
                decreases src.width - i,
            {
                let p = src.get_pixel(i, j);
                self.set_pixel(x + i, y + j, p);
                i = i + 1;
            }
            j = j + 1;
        }
    }
}

/// What `image::imageops::resize` with the Triangle filter returns for an
/// RGBA byte buffer of dimensions `width` x `height` resized to
/// `new_width` x `new_height`; the result depends on those arguments alone.
pub uninterp spec fn resized_rgba(
    data: Seq<u8>,
    width: int,
    height: int,
    new_width: int,
    new_height: int,
) -> Seq<u8>;

/// Relies on `image::ImageBuffer::from_raw`, which accepts a buffer holding
/// exactly `4 * width * height` bytes, and on `image::imageops::resize` with
/// `FilterType::Triangle`, which returns a buffer of the requested dimensions
/// whose pixels are computed from the input pixels and the four dimensions
/// alone.
#[verifier::external_body]
pub(crate) fn resize_rgba(data: &Vec<u8>, width: u32, height: u32, new_width: u32, new_height: u32) -> (r:
    Vec<u8>)
    requires
        data@.len() == 4 * (width as int) * (height as int),
        1 <= width,
        1 <= height,
        1 <= new_width <= width,
        1 <= new_height <= height,
    ensures
        r@.len() == 4 * (new_width as int) * (new_height as int),
        r@ == resized_rgba(
            data@,
            width as int,
            height as int,
            new_width as int,
            new_height as int,
        ),
{
    let img: image::ImageBuffer<image::Rgba<u8>, Vec<u8>> = image::ImageBuffer::from_raw(
        width,
        height,
        data.clone(),
    ).unwrap();
    let out = image::imageops::resize(&img, new_width, new_height, image::imageops::FilterType::Triangle);
    out.into_raw()
}

} // verus!
