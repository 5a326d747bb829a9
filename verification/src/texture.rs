use crate::error::AtlasError;
use crate::geometry;
use crate::geometry::{
    bbox_contains, bbox_contains_point, bbox_intersects, bbox_union, spec_in_any_polygon,
    spec_uv_to_pixel, uv_to_pixel_coords, UNIT_DENOM,
};
use crate::pixel::{resize_rgba, resized_rgba, PixelBuffer};
use vstd::arithmetic::div_mod::{lemma_div_by_multiple, lemma_div_is_ordered, lemma_div_pos_is_pos};
use vstd::arithmetic::mul::{lemma_mul_inequality, lemma_mul_is_commutative, lemma_mul_nonnegative};
use vstd::math::max;
use vstd::prelude::*;
use vstd::string::StringExecFns;

verus! {

/// A shrink-only scale factor in the closed unit interval, held as a
/// fixed-point value over [`UNIT_DENOM`].
#[derive(Clone, Copy, Debug, PartialEq, Eq, Structural)]
pub struct DownsampleFactor(u32);

impl DownsampleFactor {
    /// The factor's fixed-point numerator; the value it stands for is
    /// `spec_value() / UNIT_DENOM`.
    pub closed spec fn spec_value(&self) -> u32 {
        self.0
    }

    /// A factor never exceeds one.
    pub open spec fn wf(&self) -> bool {
        self.spec_value() <= UNIT_DENOM
    }

    /// Accepts exactly the factors within `[0, 1]`; an out-of-range value is
    /// a construction error, never a silent clamp.
    pub fn new(factor: u32) -> (r: Result<Self, AtlasError>)
        ensures
            r.is_ok() <==> factor <= UNIT_DENOM,
            r matches Ok(f) ==> f.spec_value() == factor && f.wf(),
            r is Err ==> r == Err::<Self, AtlasError>(AtlasError::InvalidDownsampleFactor),
    {
        if factor <= UNIT_DENOM {
            Ok(DownsampleFactor(factor))
        } else {
            Err(AtlasError::InvalidDownsampleFactor)
        }
    }

    /// Returns the fixed-point numerator exactly as it was constructed.
    pub fn value(&self) -> (r: u32)
        ensures
            r == self.spec_value(),
    {
        self.0
    }
}

/// A texture fragment: one polygon mapped onto a source image. The polygon's
/// vertices are held in pixel coordinates, derived from the fixed-point UV
/// input at construction. Immutable once constructed.
#[derive(Clone, Debug)]
pub struct PolygonMappedTexture {
    pub image_path: String,
    pub downsample_factor: DownsampleFactor,
    pub pixel_coords: Vec<(u32, u32)>,
}

impl PolygonMappedTexture {
    /// A polygon reference carries at least three vertices and a valid
    /// downsample factor.
    pub open spec fn wf(&self) -> bool {
        self.pixel_coords@.len() >= 3 && self.downsample_factor.wf()
    }

    /// The polygon's pixel bounding box as `(min_x, min_y, max_x, max_y)`.
    pub open spec fn spec_bbox(&self) -> (int, int, int, int) {
        geometry::spec_bbox(self.pixel_coords@)
    }

    /// Derives pixel coordinates from UV input (fixed-point over
    /// [`UNIT_DENOM`], bottom-left origin) scaled by the source image's
    /// dimensions `size`.
    pub fn new(
        image_path: &str,
        size: (u32, u32),
        uv_coords: &Vec<(u32, u32)>,
        downsample_factor: DownsampleFactor,
    ) -> (r: Self)
        requires
            uv_coords@.len() >= 3,
            downsample_factor.wf(),
        ensures
            r.wf(),
            r.image_path@ == image_path@,
            r.downsample_factor == downsample_factor,
            r.pixel_coords@.len() == uv_coords@.len(),
            forall|i: int|
                0 <= i < uv_coords@.len() ==> r.pixel_coords@[i] == spec_uv_to_pixel(
                    uv_coords@[i],
                    size.0,
                    size.1,
                ),
    {
        let pixel_coords = uv_to_pixel_coords(uv_coords, size.0, size.1);
        PolygonMappedTexture {
            image_path: String::from_str(image_path),
            downsample_factor,
            pixel_coords,
        }
    }

    /// True iff the two fragments reference the same source image and their
    /// pixel bounding boxes intersect; boxes that merely touch count as
    /// overlapping.
    pub fn bbox_overlaps(&self, other: &Self) -> (r: bool)
        requires
            self.wf(),
            other.wf(),
        ensures
            r == (self.image_path@ == other.image_path@ && bbox_intersects(
                self.spec_bbox(),
                other.spec_bbox(),
            )),
    {
        if !(self.image_path == other.image_path) {
            return false;
        }
        let (min_x_0, min_y_0, max_x_0, max_y_0) = geometry::calc_bbox(&self.pixel_coords);
        let (min_x_1, min_y_1, max_x_1, max_y_1) = geometry::calc_bbox(&other.pixel_coords);
        !(max_x_0 < min_x_1 || max_x_1 < min_x_0 || max_y_0 < min_y_1 || max_y_1 < min_y_0)
    }

    /// Re-expresses the polygon's vertices as exact UV fractions of a crop
    /// frame at origin `(x, y)` with the given width and height: the result
    /// holds the numerators, the denominators are `width` for U and `height`
    /// for V. V is flipped back to the bottom-left origin convention, so the
    /// fraction of vertex `i` is
    /// `((px - x) / width, (height - (py - y)) / height)`.
    pub fn get_cropped_uv_coords(&self, x: u32, y: u32, width: u32, height: u32) -> (r: Vec<
        (u32, u32),
    >)
        requires
            width >= 1,
            height >= 1,
            forall|i: int|
                0 <= i < self.pixel_coords@.len() ==> x <= (#[trigger] self.pixel_coords@[i]).0
                    && y <= self.pixel_coords@[i].1 && self.pixel_coords@[i].1 - y <= height,
        ensures
            r@.len() == self.pixel_coords@.len(),
            forall|i: int|
                0 <= i < r@.len() ==> {
                    let p = self.pixel_coords@[i];
                    #[trigger] r@[i] == ((p.0 - x) as u32, (height - (p.1 - y)) as u32)
                },
    {
        let mut r: Vec<(u32, u32)> = Vec::new();
        let mut i: usize = 0;
        while i < self.pixel_coords.len()
            invariant
                0 <= i <= self.pixel_coords@.len(),
                r@.len() == i,
                width >= 1,
                height >= 1,
                forall|k: int|
                    0 <= k < self.pixel_coords@.len() ==> x <= (
                    #[trigger] self.pixel_coords@[k]).0 && y <= self.pixel_coords@[k].1
                        && self.pixel_coords@[k].1 - y <= height,
                forall|k: int|
                    0 <= k < i ==> {
                        let p = self.pixel_coords@[k];
                        #[trigger] r@[k] == ((p.0 - x) as u32, (height - (p.1 - y)) as u32)
                    },
            decreases self.pixel_coords@.len() - i,
        {
            let (px, py) = self.pixel_coords[i];
            r.push((px - x, height - (py - y)));
            i = i + 1;
        }
        r
    }
}

/// Downsampling by a factor within the unit interval only ever shrinks.
proof fn lemma_scaled_le(w: int, f: int)
    requires
        0 <= w,
        0 <= f <= UNIT_DENOM as int,
    ensures
        0 <= w * f / (UNIT_DENOM as int) <= w,
{
    let d = UNIT_DENOM as int;
    lemma_mul_nonnegative(w, f);
    lemma_div_pos_is_pos(w * f, d);
    lemma_mul_inequality(f, d, w);
    lemma_mul_is_commutative(f, w);
    lemma_mul_is_commutative(d, w);
    lemma_div_is_ordered(w * f, w * d, d);
    lemma_div_by_multiple(w, d);
}

fn copy_points(v: &Vec<(u32, u32)>) -> (r: Vec<(u32, u32)>)
    ensures
        r@ == v@,
{
    let mut r: Vec<(u32, u32)> = Vec::new();
    let mut i: usize = 0;
    while i < v.len()
        invariant
            0 <= i <= v@.len(),
            r@ == v@.subrange(0, i as int),
        decreases v@.len() - i,
    {
        r.push(v[i]);
        proof {
            assert(v@.subrange(0, i + 1) =~= v@.subrange(0, i as int).push(v@[i as int]));
        }
        i = i + 1;
    }
    proof {
        assert(v@.subrange(0, v@.len() as int) =~= v@);
    }
    r
}

fn copy_polygons(v: &Vec<Vec<(u32, u32)>>) -> (r: Vec<Vec<(u32, u32)>>)
    ensures
        r@.len() == v@.len(),
        forall|k: int| 0 <= k < v@.len() ==> #[trigger] r@[k]@ == v@[k]@,
{
    let mut r: Vec<Vec<(u32, u32)>> = Vec::new();
    let mut i: usize = 0;
    while i < v.len()
        invariant
            0 <= i <= v@.len(),
            r@.len() == i,
            forall|k: int| 0 <= k < i ==> #[trigger] r@[k]@ == v@[k]@,
        decreases v@.len() - i,
    {
        r.push(copy_points(&v[i]));
        i = i + 1;
    }
    r
}

/// The merged, minimal rectangular crop of a source image covering one or
/// more overlapping polygon references into it.
#[derive(Debug)]
pub struct ToplevelTexture {
    pub image_path: String,
    /// `(min_x, min_y, max_x, max_y)` of the crop in source pixel
    /// coordinates.
    crop_bbox: (u32, u32, u32, u32),
    /// The maximum factor over all contributing polygon references.
    pub downsample_factor: DownsampleFactor,
    /// Pixel-coordinate vertices of every contributing polygon; cropping
    /// masks pixels outside their union.
    polygons: Vec<Vec<(u32, u32)>>,
}

impl ToplevelTexture {
    /// The source image path.
    pub closed spec fn spec_path(&self) -> Seq<char> {
        self.image_path@
    }

    /// The downsample factor.
    pub closed spec fn spec_factor(&self) -> DownsampleFactor {
        self.downsample_factor
    }

    /// The crop region as `(min_x, min_y, max_x, max_y)`.
    pub closed spec fn spec_bbox(&self) -> (int, int, int, int) {
        (
            self.crop_bbox.0 as int,
            self.crop_bbox.1 as int,
            self.crop_bbox.2 as int,
            self.crop_bbox.3 as int,
        )
    }

    /// The contributing polygons' vertices.
    pub closed spec fn spec_polygons(&self) -> Seq<Seq<(u32, u32)>> {
        self.polygons@.map_values(|v: Vec<(u32, u32)>| v@)
    }

    pub open spec fn spec_width(&self) -> int {
        self.spec_bbox().2 - self.spec_bbox().0
    }

    pub open spec fn spec_height(&self) -> int {
        self.spec_bbox().3 - self.spec_bbox().1
    }

    /// The crop region is a proper box, at least one polygon contributed,
    /// every contributing polygon has at least three vertices, and the region
    /// covers every contributing vertex.
    pub open spec fn wf(&self) -> bool {
        &&& self.spec_factor().wf()
        &&& self.spec_bbox().0 <= self.spec_bbox().2
        &&& self.spec_bbox().1 <= self.spec_bbox().3
        &&& self.spec_polygons().len() >= 1
        &&& forall|k: int|
            0 <= k < self.spec_polygons().len() ==> #[trigger] self.spec_polygons()[k].len() >= 3
        &&& forall|k: int, i: int|
            0 <= k < self.spec_polygons().len() && 0 <= i < self.spec_polygons()[k].len()
                ==> bbox_contains_point(self.spec_bbox(), #[trigger] self.spec_polygons()[k][i])
    }

    /// Seeds a crop job from one polygon reference: the region is that
    /// polygon's bounding box.
    pub fn new(texture: &PolygonMappedTexture) -> (r: Self)
        requires
            texture.wf(),
        ensures
            r.wf(),
            r.spec_path() == texture.image_path@,
            r.spec_bbox() == texture.spec_bbox(),
            r.spec_factor() == texture.downsample_factor,
            r.spec_polygons() =~= seq![texture.pixel_coords@],
    {
        let bounding_box = geometry::calc_bbox(&texture.pixel_coords);
        proof {
            geometry::lemma_bbox_bounds(texture.pixel_coords@);
        }
        let mut polygons: Vec<Vec<(u32, u32)>> = Vec::new();
        polygons.push(copy_points(&texture.pixel_coords));
        let r = Self {
            image_path: texture.image_path.clone(),
            crop_bbox: bounding_box,
            downsample_factor: texture.downsample_factor,
            polygons,
        };
        proof {
            assert(r.spec_polygons() =~= seq![texture.pixel_coords@]);
        }
        r
    }

    /// Coalesces a further polygon reference into this crop job. Returns
    /// nothing when the candidate references a different source image;
    /// otherwise the new region is the union of the two bounding boxes and
    /// the new downsample factor the maximum of the two.
    pub fn expand(&self, texture: &PolygonMappedTexture) -> (r: Option<Self>)
        requires
            self.wf(),
            texture.wf(),
        ensures
            r.is_some() <==> self.spec_path() == texture.image_path@,
            r matches Some(t) ==> {
                &&& t.wf()
                &&& t.spec_path() == self.spec_path()
                &&& t.spec_bbox() == bbox_union(self.spec_bbox(), texture.spec_bbox())
                &&& t.spec_factor().spec_value() == max(
                    self.spec_factor().spec_value() as int,
                    texture.downsample_factor.spec_value() as int,
                )
                &&& t.spec_factor().wf()
                &&& t.spec_polygons() =~= self.spec_polygons().push(texture.pixel_coords@)
            },
    {
        if !(self.image_path == texture.image_path) {
            return None;
        }
        let (min_x_0, min_y_0, max_x_0, max_y_0) = geometry::calc_bbox(&texture.pixel_coords);
        proof {
            geometry::lemma_bbox_bounds(texture.pixel_coords@);
        }
        let (min_x_1, min_y_1, max_x_1, max_y_1) = self.crop_bbox;

        let min_x_new = if min_x_0 < min_x_1 {
            min_x_0
        } else {
            min_x_1
        };
        let min_y_new = if min_y_0 < min_y_1 {
            min_y_0
        } else {
            min_y_1
        };
        let max_x_new = if max_x_0 > max_x_1 {
            max_x_0
        } else {
            max_x_1
        };
        let max_y_new = if max_y_0 > max_y_1 {
            max_y_0
        } else {
            max_y_1
        };
        let factor = if self.downsample_factor.value() >= texture.downsample_factor.value() {
            self.downsample_factor
        } else {
            texture.downsample_factor
        };
        let mut polygons = copy_polygons(&self.polygons);
        polygons.push(copy_points(&texture.pixel_coords));
        let t = Self {
            image_path: texture.image_path.clone(),
            crop_bbox: (min_x_new, min_y_new, max_x_new, max_y_new),
            downsample_factor: factor,
            polygons,
        };
        proof {
            assert(t.spec_polygons() =~= self.spec_polygons().push(texture.pixel_coords@));
            assert forall|k: int, i: int|
                0 <= k < t.spec_polygons().len() && 0 <= i < t.spec_polygons()[k].len()
                    implies bbox_contains_point(
                t.spec_bbox(),
                #[trigger] t.spec_polygons()[k][i],
            ) by {
                if k < self.spec_polygons().len() {
                    assert(bbox_contains_point(self.spec_bbox(), self.spec_polygons()[k][i]));
                } else {
                    assert(t.spec_polygons()[k] == texture.pixel_coords@);
                    assert(bbox_contains_point(
                        texture.spec_bbox(),
                        texture.pixel_coords@[i],
                    ));
                }
            }
        }
        Some(t)
    }

    /// Re-expresses one contributing polygon's vertices as exact UV fractions
    /// of this crop's local frame, bottom-left origin.
    pub fn get_child(&self, texture: &PolygonMappedTexture) -> (r: ChildTexture)
        requires
            self.wf(),
            texture.wf(),
            bbox_contains(self.spec_bbox(), texture.spec_bbox()),
            self.spec_width() >= 1,
            self.spec_height() >= 1,
        ensures
            r.frame_size.0 == self.spec_width(),
            r.frame_size.1 == self.spec_height(),
            r.cropped_uv_coords@.len() == texture.pixel_coords@.len(),
            forall|i: int|
                0 <= i < r.cropped_uv_coords@.len() ==> {
                    let p = texture.pixel_coords@[i];
                    #[trigger] r.cropped_uv_coords@[i] == (
                        (p.0 - self.spec_bbox().0) as u32,
                        (self.spec_height() - (p.1 - self.spec_bbox().1)) as u32,
                    )
                },
    {
        proof {
            geometry::lemma_bbox_bounds(texture.pixel_coords@);
        }
        let (min_x, min_y, max_x, max_y) = self.crop_bbox;
        let width = max_x - min_x;
        let height = max_y - min_y;
        let cropped_uv_coords = texture.get_cropped_uv_coords(min_x, min_y, width, height);
        ChildTexture { cropped_uv_coords, frame_size: (width, height) }
    }

    /// Scaled output width after downsampling:
    /// `width * factor / UNIT_DENOM`, truncated.
    pub open spec fn spec_scaled_width(&self) -> int {
        self.spec_width() * self.spec_factor().spec_value() / (UNIT_DENOM as int)
    }

    /// Scaled output height after downsampling.
    pub open spec fn spec_scaled_height(&self) -> int {
        self.spec_height() * self.spec_factor().spec_value() / (UNIT_DENOM as int)
    }

    /// The dimensions of the crop's output buffer once downsampled; the
    /// factor only ever shrinks.
    pub fn scaled_size(&self) -> (r: (u32, u32))
        requires
            self.wf(),
        ensures
            r.0 as int == self.spec_scaled_width(),
            r.1 as int == self.spec_scaled_height(),
            r.0 as int <= self.spec_width(),
            r.1 as int <= self.spec_height(),
    {
        let w = self.width();
        let h = self.height();
        let f = self.downsample_factor.value();
        proof {
            lemma_scaled_le(w as int, f as int);
            lemma_scaled_le(h as int, f as int);
        }
        let sw = (((w as u64) * (f as u64)) / (UNIT_DENOM as u64)) as u32;
        let sh = (((h as u64) * (f as u64)) / (UNIT_DENOM as u64)) as u32;
        (sw, sh)
    }

    /// The four output bytes of local crop pixel `(px, py)`: the source pixel
    /// when the pixel's center lies inside some contributing polygon, fully
    /// transparent otherwise.
    pub open spec fn masked_pixel(&self, img: PixelBuffer, px: int, py: int) -> Seq<u8> {
        let ax = self.spec_bbox().0 + px;
        let ay = self.spec_bbox().1 + py;
        if spec_in_any_polygon(self.spec_polygons(), (2 * ax + 1, 2 * ay + 1)) {
            img.spec_pixel(ax, ay)
        } else {
            seq![0u8, 0u8, 0u8, 0u8]
        }
    }

    /// The first `n` pixels of masked crop row `py`, as bytes.
    pub open spec fn masked_row(&self, img: PixelBuffer, py: int, n: int) -> Seq<u8>
        decreases n,
    {
        if n <= 0 {
            Seq::empty()
        } else {
            self.masked_row(img, py, n - 1) + self.masked_pixel(img, n - 1, py)
        }
    }

    /// The first `n` rows of the masked crop, as bytes.
    pub open spec fn masked_upto(&self, img: PixelBuffer, n: int) -> Seq<u8>
        decreases n,
    {
        if n <= 0 {
            Seq::empty()
        } else {
            self.masked_upto(img, n - 1) + self.masked_row(img, n - 1, self.spec_width())
        }
    }

    /// Every byte of the masked crop, row-major: the crop region read out of
    /// `img` with out-of-polygon pixels cleared to transparent.
    pub open spec fn masked_region(&self, img: PixelBuffer) -> Seq<u8> {
        self.masked_upto(img, self.spec_height())
    }

    proof fn lemma_masked_row_len(&self, img: PixelBuffer, py: int, n: int)
        requires
            self.wf(),
            img.wf(),
            self.spec_bbox().2 <= img.width,
            self.spec_bbox().3 <= img.height,
            0 <= py < self.spec_height(),
            0 <= n <= self.spec_width(),
        ensures
            self.masked_row(img, py, n).len() == 4 * n,
        decreases n,
    {
        if n > 0 {
            self.lemma_masked_row_len(img, py, n - 1);
            img.lemma_pixel_index_in_range(self.spec_bbox().0 + n - 1, self.spec_bbox().1 + py);
        }
    }

    proof fn lemma_masked_upto_len(&self, img: PixelBuffer, n: int)
        requires
            self.wf(),
            img.wf(),
            self.spec_bbox().2 <= img.width,
            self.spec_bbox().3 <= img.height,
            0 <= n <= self.spec_height(),
        ensures
            self.masked_upto(img, n).len() == 4 * self.spec_width() * n,
        decreases n,
    {
        let w = self.spec_width();
        if n > 0 {
            self.lemma_masked_upto_len(img, n - 1);
            self.lemma_masked_row_len(img, n - 1, w);
            assert(4 * w * (n - 1) + 4 * w == 4 * w * n) by (nonlinear_arith);
        } else {
            assert(4 * w * 0 == 0) by (nonlinear_arith);
        }
    }

    /// Extracts the stored crop region from the source image, masks every
    /// pixel whose center lies outside all contributing polygons to fully
    /// transparent, and downsamples the result by the stored factor
    /// (shrink-only, Triangle filter). A crop scaled down to zero width or
    /// height comes back as an empty buffer.
    pub fn crop(&self, image: &PixelBuffer) -> (r: PixelBuffer)
        requires
            self.wf(),
            image.wf(),
            self.spec_bbox().2 <= image.width,
            self.spec_bbox().3 <= image.height,
        ensures
            r.wf(),
            r.width as int == self.spec_scaled_width(),
            r.height as int == self.spec_scaled_height(),
            r.width > 0 && r.height > 0 ==> r.data@ == resized_rgba(
                self.masked_region(*image),
                self.spec_width(),
                self.spec_height(),
                r.width as int,
                r.height as int,
            ),
            !(r.width > 0 && r.height > 0) ==> r.data@ =~= Seq::<u8>::empty(),
    {
        let (min_x, min_y, max_x, max_y) = self.crop_bbox;
        let w = max_x - min_x;
        let h = max_y - min_y;
        proof {
            assert forall|k: int|
                0 <= k < self.polygons@.len() implies #[trigger] self.polygons@[k]@.len() >= 1 by {
                assert(self.spec_polygons()[k] == self.polygons@[k]@);
                assert(self.spec_polygons()[k].len() >= 3);
            }
        }
        let mut data: Vec<u8> = Vec::new();
        let mut py: u32 = 0;
        while py < h
            invariant
                0 <= py <= h,
                self.wf(),
                image.wf(),
                w as int == self.spec_width(),
                h as int == self.spec_height(),
                min_x as int == self.spec_bbox().0,
                min_y as int == self.spec_bbox().1,
                self.spec_bbox().2 <= image.width,
                self.spec_bbox().3 <= image.height,
                forall|k: int|
                    0 <= k < self.polygons@.len() ==> #[trigger] self.polygons@[k]@.len() >= 1,
                data@ == self.masked_upto(*image, py as int),
            decreases h - py,
        {
            let mut px: u32 = 0;
            proof {
                assert(data@ == self.masked_upto(*image, py as int) + self.masked_row(
                    *image,
                    py as int,
                    0,
                ));
            }
            while px < w
                invariant
                    0 <= px <= w,
                    0 <= py < h,
                    self.wf(),
                    image.wf(),
                    w as int == self.spec_width(),
                    h as int == self.spec_height(),
                    min_x as int == self.spec_bbox().0,
                    min_y as int == self.spec_bbox().1,
                    self.spec_bbox().2 <= image.width,
                    self.spec_bbox().3 <= image.height,
                    forall|k: int|
                        0 <= k < self.polygons@.len() ==> #[trigger] self.polygons@[k]@.len()
                            >= 1,
                    data@ == self.masked_upto(*image, py as int) + self.masked_row(
                        *image,
                        py as int,
                        px as int,
                    ),
                decreases w - px,
            {
                let ax = min_x + px;
                let ay = min_y + py;
                let ghost before = data@;
                let inside = crate::geometry::point_in_any_polygon(
                    &self.polygons,
                    2 * (ax as u64) + 1,
                    2 * (ay as u64) + 1,
                );
                if inside {
                    let p = image.get_pixel(ax, ay);
                    data.push(p.0);
                    data.push(p.1);
                    data.push(p.2);
                    data.push(p.3);
                    proof {
                        assert(data@ =~= before + image.spec_pixel(ax as int, ay as int));
                    }
                } else {
                    data.push(0);
                    data.push(0);
                    data.push(0);
                    data.push(0);
                    proof {
                        assert(data@ =~= before + seq![0u8, 0u8, 0u8, 0u8]);
                    }
                }
                proof {
                    assert(self.masked_row(*image, py as int, px + 1) == self.masked_row(
                        *image,
                        py as int,
                        px as int,
                    ) + self.masked_pixel(*image, px as int, py as int));
                }
                px = px + 1;
            }
            proof {
                assert(self.masked_upto(*image, py + 1) == self.masked_upto(*image, py as int)
                    + self.masked_row(*image, py as int, w as int));
            }
            py = py + 1;
        }
        proof {
            self.lemma_masked_upto_len(*image, h as int);
        }
        let (sw, sh) = self.scaled_size();
        if sw == 0 || sh == 0 {
            proof {
                assert(4 * (sw as int) * (sh as int) == 0) by (nonlinear_arith)
                    requires
                        sw == 0 || sh == 0,
                ;
            }
            return PixelBuffer { width: sw, height: sh, data: Vec::new() };
        }
        let out = resize_rgba(&data, w, h, sw, sh);
        PixelBuffer { width: sw, height: sh, data: out }
    }

    /// The source image path.
    pub fn path(&self) -> (r: &String)
        ensures
            r@ == self.spec_path(),
    {
        &self.image_path
    }

    /// The crop region as `(min_x, min_y, max_x, max_y)`.
    pub fn bbox(&self) -> (r: (u32, u32, u32, u32))
        ensures
            (r.0 as int, r.1 as int, r.2 as int, r.3 as int) == self.spec_bbox(),
    {
        self.crop_bbox
    }

    /// The crop's width in source pixels.
    pub fn width(&self) -> (r: u32)
        requires
            self.wf(),
        ensures
            r as int == self.spec_width(),
    {
        self.crop_bbox.2 - self.crop_bbox.0
    }

    /// The crop's height in source pixels.
    pub fn height(&self) -> (r: u32)
        requires
            self.wf(),
        ensures
            r as int == self.spec_height(),
    {
        self.crop_bbox.3 - self.crop_bbox.1
    }
}

/// One original polygon's UV coordinates re-expressed relative to its
/// toplevel texture's local frame, as exact fractions: the UV pair of vertex
/// `i` is `(cropped_uv_coords[i].0 / frame_size.0,
/// cropped_uv_coords[i].1 / frame_size.1)`, bottom-left origin.
#[derive(Debug)]
pub struct ChildTexture {
    /// Numerators of the UV fractions.
    pub cropped_uv_coords: Vec<(u32, u32)>,
    /// The shared denominators: the toplevel crop's width and height.
    pub frame_size: (u32, u32),
}

} // verus!
