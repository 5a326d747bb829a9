use crate::error::AtlasError;
use vstd::arithmetic::mul::lemma_mul_upper_bound;
use vstd::prelude::*;

verus! {

/// Sheet dimensions and padding margin for a placement run. Sheet width and
/// height must be positive; zero padding is permitted.
#[derive(Clone, Copy, Debug, PartialEq, Eq, Structural)]
pub struct TexturePlacerConfig {
    pub width: u32,
    pub height: u32,
    pub padding: u32,
}

impl TexturePlacerConfig {
    /// Sheets are never empty.
    pub open spec fn wf(&self) -> bool {
        self.width >= 1 && self.height >= 1
    }

    /// Accepts exactly the configurations with positive sheet dimensions;
    /// zero dimensions are a construction error.
    pub fn new(width: u32, height: u32, padding: u32) -> (r: Result<Self, AtlasError>)
        ensures
            r.is_ok() <==> width >= 1 && height >= 1,
            r matches Ok(c) ==> c == (TexturePlacerConfig { width, height, padding }),
            r is Err ==> r == Err::<Self, AtlasError>(AtlasError::InvalidSheetDimensions),
    {
        if width >= 1 && height >= 1 {
            Ok(TexturePlacerConfig { width, height, padding })
        } else {
            Err(AtlasError::InvalidSheetDimensions)
        }
    }

    pub fn width(&self) -> (r: u32)
        ensures
            r == self.width,
    {
        self.width
    }

    pub fn height(&self) -> (r: u32)
        ensures
            r == self.height,
    {
        self.height
    }

    pub fn padding(&self) -> (r: u32)
        ensures
            r == self.padding,
    {
        self.padding
    }
}

/// An axis-aligned rectangle on a sheet: origin and size in pixels.
#[derive(Clone, Copy, Debug, PartialEq, Eq, Structural)]
pub struct Rect {
    pub x: u32,
    pub y: u32,
    pub w: u32,
    pub h: u32,
}

/// The rectangles share no area: one lies fully to the left of, right of,
/// above, or below the other. Touching edges do not count as overlap.
pub open spec fn rect_disjoint(a: Rect, b: Rect) -> bool {
    a.x + a.w <= b.x || b.x + b.w <= a.x || a.y + a.h <= b.y || b.y + b.h <= a.y
}

/// The rectangle lies fully on a sheet of the given dimensions.
pub open spec fn rect_in_bounds(r: Rect, width: int, height: int) -> bool {
    r.x + r.w <= width && r.y + r.h <= height
}

/// `inner` lies fully within `outer`.
pub open spec fn rect_contains(outer: Rect, inner: Rect) -> bool {
    outer.x <= inner.x && inner.x + inner.w <= outer.x + outer.w && outer.y <= inner.y && inner.y
        + inner.h <= outer.y + outer.h
}

/// Every rectangle of the sequence lies on the sheet.
pub open spec fn all_in_bounds(rs: Seq<Rect>, width: int, height: int) -> bool {
    forall|i: int| 0 <= i < rs.len() ==> rect_in_bounds(#[trigger] rs[i], width, height)
}

/// Every rectangle of the sequence has positive area.
pub open spec fn all_positive(rs: Seq<Rect>) -> bool {
    forall|i: int| 0 <= i < rs.len() ==> (#[trigger] rs[i]).w >= 1 && rs[i].h >= 1
}

/// The rectangles of the sequence are mutually disjoint.
pub open spec fn pairwise_disjoint(rs: Seq<Rect>) -> bool {
    forall|i: int, j: int|
        0 <= i < rs.len() && 0 <= j < rs.len() && i != j ==> rect_disjoint(
            #[trigger] rs[i],
            #[trigger] rs[j],
        )
}

/// Every rectangle of `a` is disjoint from every rectangle of `b`.
pub open spec fn cross_disjoint(a: Seq<Rect>, b: Seq<Rect>) -> bool {
    forall|i: int, j: int|
        0 <= i < a.len() && 0 <= j < b.len() ==> rect_disjoint(#[trigger] a[i], #[trigger] b[j])
}

/// Where a texture ended up: the sheet index and the texture's own rectangle
/// (the padding margin around it is excluded).
#[derive(Clone, Copy, Debug, PartialEq, Eq, Structural)]
pub struct PlacementInfo {
    pub sheet_index: usize,
    pub rect: Rect,
}

/// One atlas sheet: the free rectangles still available to the guillotine
/// splitter, and the rectangles already placed (padding included).
#[derive(Debug)]
struct Sheet {
    free: Vec<Rect>,
    placed: Vec<Rect>,
}

impl Sheet {
    /// Free and placed rectangles all lie on the sheet; placed rectangles are
    /// mutually disjoint, free rectangles are mutually disjoint and have
    /// positive area, and no free rectangle overlaps a placed one.
    spec fn wf(&self, width: int, height: int) -> bool {
        &&& all_in_bounds(self.free@, width, height)
        &&& all_in_bounds(self.placed@, width, height)
        &&& all_positive(self.free@)
        &&& pairwise_disjoint(self.placed@)
        &&& pairwise_disjoint(self.free@)
        &&& cross_disjoint(self.free@, self.placed@)
    }
}

/// Places one rectangle of `eff_w` x `eff_h` at the origin of free rectangle
/// `f`, splitting the leftover space with one vertical cut spanning the free
/// rectangle's full height and one horizontal cut below the placed
/// rectangle.
fn place_in(sheet: &mut Sheet, f: usize, eff_w: u32, eff_h: u32, width: u32, height: u32) -> (pos: (
    u32,
    u32,
))
    requires
        old(sheet).wf(width as int, height as int),
        f < old(sheet).free@.len(),
        1 <= eff_w <= old(sheet).free@[f as int].w,
        1 <= eff_h <= old(sheet).free@[f as int].h,
    ensures
        final(sheet).wf(width as int, height as int),
        final(sheet).placed@ == old(sheet).placed@.push(
            Rect { x: pos.0, y: pos.1, w: eff_w, h: eff_h },
        ),
        rect_in_bounds(Rect { x: pos.0, y: pos.1, w: eff_w, h: eff_h }, width as int, height as int),
{
    let fr = sheet.free[f];
    let pr = Rect { x: fr.x, y: fr.y, w: eff_w, h: eff_h };
    proof {
        assert(rect_in_bounds(fr, width as int, height as int));
        assert(rect_contains(fr, pr));
    }
    sheet.free.remove(f);
    let ghost base = sheet.free@;
    proof {
        assert forall|k: int| 0 <= k < base.len() implies {
            &&& rect_in_bounds(#[trigger] base[k], width as int, height as int)
            &&& base[k].w >= 1 && base[k].h >= 1
            &&& rect_disjoint(base[k], fr)
            &&& forall|j: int| 0 <= j < old(sheet).placed@.len() ==> rect_disjoint(base[k], #[trigger] old(sheet).placed@[j])
            &&& forall|j: int| 0 <= j < base.len() && j != k ==> rect_disjoint(base[k], #[trigger] base[j])
        } by {
            let k0: int = if k < f { k } else { k + 1 };
            assert(base[k] == old(sheet).free@[k0]);
            assert(rect_disjoint(old(sheet).free@[k0], old(sheet).free@[f as int]));
            assert forall|j: int| 0 <= j < base.len() && j != k implies rect_disjoint(
                base[k],
                #[trigger] base[j],
            ) by {
                let j0: int = if j < f { j } else { j + 1 };
                assert(base[j] == old(sheet).free@[j0]);
                assert(rect_disjoint(old(sheet).free@[k0], old(sheet).free@[j0]));
            }
        }
    }
    if fr.w > eff_w {
        sheet.free.push(Rect { x: fr.x + eff_w, y: fr.y, w: fr.w - eff_w, h: fr.h });
    }
    if fr.h > eff_h {
        sheet.free.push(Rect { x: fr.x, y: fr.y + eff_h, w: eff_w, h: fr.h - eff_h });
    }
    sheet.placed.push(pr);
    proof {
        let wi = width as int;
        let hi = height as int;
        let right = Rect { x: (fr.x + eff_w) as u32, y: fr.y, w: (fr.w - eff_w) as u32, h: fr.h };
        let bottom = Rect { x: fr.x, y: (fr.y + eff_h) as u32, w: eff_w, h: (fr.h - eff_h) as u32 };
        let nfree = sheet.free@;
        // every new free rectangle is either an untouched old one or one of
        // the two split pieces, and each split piece lies within `fr`
        assert(rect_contains(fr, right));
        assert(rect_contains(fr, bottom));
        assert forall|k: int| 0 <= k < nfree.len() implies {
            &&& rect_in_bounds(#[trigger] nfree[k], wi, hi)
            &&& nfree[k].w >= 1 && nfree[k].h >= 1
            &&& rect_disjoint(nfree[k], pr)
            &&& forall|j: int| 0 <= j < sheet.placed@.len() ==> rect_disjoint(nfree[k], #[trigger] sheet.placed@[j])
        } by {
            assert(sheet.placed@ == old(sheet).placed@.push(pr));
            if k < base.len() {
                assert(nfree[k] == base[k]);
                assert(rect_disjoint(base[k], fr));
            } else {
                assert(rect_contains(fr, nfree[k]));
                assert forall|j: int| 0 <= j < sheet.placed@.len() implies rect_disjoint(
                    nfree[k],
                    #[trigger] sheet.placed@[j],
                ) by {
                    if j < old(sheet).placed@.len() {
                        assert(rect_disjoint(fr, old(sheet).placed@[j]));
                    }
                }
            }
        }
        assert forall|k: int, j: int|
            0 <= k < nfree.len() && 0 <= j < nfree.len() && k != j implies rect_disjoint(
            #[trigger] nfree[k],
            #[trigger] nfree[j],
        ) by {
            if k < base.len() && j < base.len() {
                assert(rect_disjoint(base[k], base[j]));
            } else if k < base.len() {
                assert(rect_contains(fr, nfree[j]));
                assert(rect_disjoint(base[k], fr));
            } else if j < base.len() {
                assert(rect_contains(fr, nfree[k]));
                assert(rect_disjoint(base[j], fr));
            }
        }
        assert forall|j: int|
            0 <= j < sheet.placed@.len() && j != sheet.placed@.len() - 1 implies rect_disjoint(
            pr,
            #[trigger] sheet.placed@[j],
        ) by {
            assert(sheet.placed@[j] == old(sheet).placed@[j]);
            assert(cross_disjoint(old(sheet).free@, old(sheet).placed@));
            assert(rect_disjoint(old(sheet).free@[f as int], old(sheet).placed@[j]));
        }
    }
    (fr.x, fr.y)
}

/// A guillotine bin-packer over a growing list of fixed-size sheets.
///
/// Free-rectangle choice is deterministic: among all free rectangles that can
/// hold the request (padding included), the one leaving the smallest leftover
/// area wins; ties go to the lowest sheet index, then to the free rectangle
/// recorded earliest on that sheet. The consumed free rectangle is split by a
/// vertical cut spanning its full height to the right of the placed
/// rectangle, and a horizontal cut below it.
#[derive(Debug)]
pub struct GuillotineTexturePlacer {
    config: TexturePlacerConfig,
    sheets: Vec<Sheet>,
}

impl GuillotineTexturePlacer {
    /// The configuration the placer was constructed with.
    pub closed spec fn spec_config(&self) -> TexturePlacerConfig {
        self.config
    }

    /// The placed rectangles per sheet, padding margin included.
    pub closed spec fn spec_placed(&self) -> Seq<Seq<Rect>> {
        self.sheets@.map_values(|s: Sheet| s.placed@)
    }

    /// Every sheet is internally consistent and the configuration is valid.
    pub closed spec fn wf(&self) -> bool {
        &&& self.config.wf()
        &&& forall|s: int|
            0 <= s < self.sheets@.len() ==> (#[trigger] self.sheets@[s]).wf(
                self.config.width as int,
                self.config.height as int,
            )
    }

    /// A request of this size fits on an empty sheet once padding is added.
    pub open spec fn spec_fits(config: TexturePlacerConfig, width: int, height: int) -> bool {
        width + config.padding <= config.width && height + config.padding <= config.height
    }

    /// Rejects configurations with zero sheet dimensions; accepts all others.
    pub fn new(config: TexturePlacerConfig) -> (r: Result<Self, AtlasError>)
        ensures
            r.is_ok() <==> config.wf(),
            r matches Ok(p) ==> p.wf() && p.spec_config() == config && p.spec_placed()
                =~= Seq::<Seq<Rect>>::empty(),
            r is Err ==> r == Err::<Self, AtlasError>(AtlasError::InvalidSheetDimensions),
    {
        if config.width >= 1 && config.height >= 1 {
            Ok(GuillotineTexturePlacer { config, sheets: Vec::new() })
        } else {
            Err(AtlasError::InvalidSheetDimensions)
        }
    }

    /// How many sheets have been opened so far.
    pub fn sheet_count(&self) -> (r: usize)
        ensures
            r == self.spec_placed().len(),
    {
        self.sheets.len()
    }

    /// Places one `width` x `height` texture request.
    ///
    /// Succeeds exactly when the request is non-empty and fits on an empty
    /// sheet once the padding margin is added; a zero-size request and an
    /// oversize request are reported as errors and leave the placer
    /// untouched. On success at most one new sheet is opened, the padded
    /// rectangle is recorded on the chosen sheet, and all other sheets are
    /// unchanged.
    pub fn add_texture(&mut self, width: u32, height: u32) -> (r: Result<
        PlacementInfo,
        AtlasError,
    >)
        requires
            old(self).wf(),
        ensures
            final(self).wf(),
            final(self).spec_config() == old(self).spec_config(),
            r.is_ok() <==> (width >= 1 && height >= 1 && Self::spec_fits(
                old(self).spec_config(),
                width as int,
                height as int,
            )),
            (width == 0 || height == 0) ==> r == Err::<PlacementInfo, AtlasError>(
                AtlasError::ZeroSizeTexture,
            ) && *final(self) == *old(self),
            (width >= 1 && height >= 1 && !Self::spec_fits(
                old(self).spec_config(),
                width as int,
                height as int,
            )) ==> r == Err::<PlacementInfo, AtlasError>(AtlasError::OversizedTexture) && *final(self) == *old(self),
            r matches Ok(info) ==> {
                let padded = Rect {
                    x: info.rect.x,
                    y: info.rect.y,
                    w: (width + old(self).spec_config().padding) as u32,
                    h: (height + old(self).spec_config().padding) as u32,
                };
                &&& info.rect.w == width && info.rect.h == height
                &&& info.sheet_index < final(self).spec_placed().len()
                &&& old(self).spec_placed().len() <= final(self).spec_placed().len() <= old(self).spec_placed().len() + 1
                &&& rect_in_bounds(
                    padded,
                    old(self).spec_config().width as int,
                    old(self).spec_config().height as int,
                )
                &&& if info.sheet_index < old(self).spec_placed().len() {
                    final(self).spec_placed() =~= old(self).spec_placed().update(
                        info.sheet_index as int,
                        old(self).spec_placed()[info.sheet_index as int].push(padded),
                    )
                } else {
                    final(self).spec_placed() =~= old(self).spec_placed().push(seq![padded])
                }
            },
    {
        if width == 0 || height == 0 {
            return Err(AtlasError::ZeroSizeTexture);
        }
        let pad = self.config.padding;
        if (width as u64) + (pad as u64) > (self.config.width as u64) || (height as u64) + (
        pad as u64) > (self.config.height as u64) {
            return Err(AtlasError::OversizedTexture);
        }
        let eff_w = width + pad;
        let eff_h = height + pad;
        let mut best: Option<(usize, usize)> = None;
        let mut best_leftover: u64 = 0;
        let mut s: usize = 0;
        while s < self.sheets.len()
            invariant
                0 <= s <= self.sheets@.len(),
                eff_w >= 1,
                eff_h >= 1,
                match best {
                    Some((bs, bf)) => {
                        &&& bs < self.sheets@.len()
                        &&& bf < self.sheets@[bs as int].free@.len()
                        &&& eff_w <= self.sheets@[bs as int].free@[bf as int].w
                        &&& eff_h <= self.sheets@[bs as int].free@[bf as int].h
                    },
                    None => true,
                },
            decreases self.sheets@.len() - s,
        {
            let nfree = self.sheets[s].free.len();
            let mut f: usize = 0;
            while f < nfree
                invariant
                    0 <= f <= nfree,
                    s < self.sheets@.len(),
                    nfree == self.sheets@[s as int].free@.len(),
                    eff_w >= 1,
                    eff_h >= 1,
                    match best {
                        Some((bs, bf)) => {
                            &&& bs < self.sheets@.len()
                            &&& bf < self.sheets@[bs as int].free@.len()
                            &&& eff_w <= self.sheets@[bs as int].free@[bf as int].w
                            &&& eff_h <= self.sheets@[bs as int].free@[bf as int].h
                        },
                        None => true,
                    },
                decreases nfree - f,
            {
                let fr = self.sheets[s].free[f];
                if eff_w <= fr.w && eff_h <= fr.h {
                    proof {
                        lemma_mul_upper_bound(
                            fr.w as int,
                            u32::MAX as int,
                            fr.h as int,
                            u32::MAX as int,
                        );
                        lemma_mul_upper_bound(eff_w as int, fr.w as int, eff_h as int, fr.h as int);
                    }
                    let leftover = (fr.w as u64) * (fr.h as u64) - (eff_w as u64) * (eff_h as u64);
                    if best.is_none() || leftover < best_leftover {
                        best = Some((s, f));
                        best_leftover = leftover;
                    }
                }
                f = f + 1;
            }
            s = s + 1;
        }
        match best {
            Some((bs, bf)) => {
                let ghost old_sheets = self.sheets@;
                let ghost placed0 = self.spec_placed();
                let mut sheet = self.sheets.remove(bs);
                let pos = place_in(
                    &mut sheet,
                    bf,
                    eff_w,
                    eff_h,
                    self.config.width,
                    self.config.height,
                );
                self.sheets.insert(bs, sheet);
                proof {
                    assert(self.sheets@ =~= old_sheets.update(
                        bs as int,
                        self.sheets@[bs as int],
                    ));
                    assert forall|t: int| 0 <= t < self.sheets@.len() implies (
                    #[trigger] self.sheets@[t]).wf(
                        self.config.width as int,
                        self.config.height as int,
                    ) by {
                        if t != bs {
                            assert(self.sheets@[t] == old_sheets[t]);
                        }
                    }
                    assert(self.spec_placed() =~= placed0.update(
                        bs as int,
                        placed0[bs as int].push(Rect { x: pos.0, y: pos.1, w: eff_w, h: eff_h }),
                    ));
                }
                let info = PlacementInfo {
                    sheet_index: bs,
                    rect: Rect { x: pos.0, y: pos.1, w: width, h: height },
                };
                Ok(info)
            },
            None => {
                let mut free: Vec<Rect> = Vec::new();
                free.push(Rect { x: 0, y: 0, w: self.config.width, h: self.config.height });
                let placed: Vec<Rect> = Vec::new();
                let mut sheet = Sheet { free, placed };
                let pos = place_in(&mut sheet, 0, eff_w, eff_h, self.config.width, self.config.height);
                let bs = self.sheets.len();
                self.sheets.push(sheet);
                let info = PlacementInfo {
                    sheet_index: bs,
                    rect: Rect { x: pos.0, y: pos.1, w: width, h: height },
                };
                Ok(info)
            },
        }
    }

    /// All placed rectangles, padding included, lie on their sheet and are
    /// mutually disjoint sheet by sheet.
    pub proof fn lemma_placements_valid(&self)
        requires
            self.wf(),
        ensures
            forall|s: int, i: int|
                0 <= s < self.spec_placed().len() && 0 <= i < self.spec_placed()[s].len()
                    ==> rect_in_bounds(
                    #[trigger] self.spec_placed()[s][i],
                    self.spec_config().width as int,
                    self.spec_config().height as int,
                ),
            forall|s: int, i: int, j: int|
                0 <= s < self.spec_placed().len() && 0 <= i < self.spec_placed()[s].len() && 0 <= j
                    < self.spec_placed()[s].len() && i != j ==> rect_disjoint(
                    #[trigger] self.spec_placed()[s][i],
                    #[trigger] self.spec_placed()[s][j],
                ),
    {
        assert forall|s: int, i: int|
            0 <= s < self.spec_placed().len() && 0 <= i < self.spec_placed()[s].len()
                implies rect_in_bounds(
            #[trigger] self.spec_placed()[s][i],
            self.spec_config().width as int,
            self.spec_config().height as int,
        ) by {
            assert(self.sheets@[s].wf(self.config.width as int, self.config.height as int));
            assert(self.spec_placed()[s] == self.sheets@[s].placed@);
        }
        assert forall|s: int, i: int, j: int|
            0 <= s < self.spec_placed().len() && 0 <= i < self.spec_placed()[s].len() && 0 <= j
                < self.spec_placed()[s].len() && i != j implies rect_disjoint(
            #[trigger] self.spec_placed()[s][i],
            #[trigger] self.spec_placed()[s][j],
        ) by {
            assert(self.sheets@[s].wf(self.config.width as int, self.config.height as int));
            assert(self.spec_placed()[s] == self.sheets@[s].placed@);
        }
    }
}

} // verus!
