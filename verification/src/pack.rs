use crate::error::AtlasError;
use crate::geometry;
use crate::geometry::{bbox_contains, bbox_intersects, bbox_union};
use crate::place::{GuillotineTexturePlacer, PlacementInfo, Rect, TexturePlacerConfig};
use crate::texture::{ChildTexture, PolygonMappedTexture, ToplevelTexture};
use vstd::math::max;
use vstd::prelude::*;

verus! {

/// One polygon reference registered with the packer: its stable id, the
/// fragment itself, and the index of the toplevel crop job it was coalesced
/// into.
#[derive(Debug)]
pub struct PackEntry {
    pub id: String,
    pub texture: PolygonMappedTexture,
    pub toplevel_index: usize,
}

/// A polygon whose pixel bounding box has zero width or height cannot be
/// cropped.
pub open spec fn spec_degenerate(texture: PolygonMappedTexture) -> bool {
    texture.spec_bbox().2 == texture.spec_bbox().0 || texture.spec_bbox().3
        == texture.spec_bbox().1
}

/// Index of the first toplevel texture on the same source image whose crop
/// region intersects the given bounding box, scanning from `i` upward.
pub open spec fn find_from(
    toplevels: Seq<ToplevelTexture>,
    path: Seq<char>,
    bbox: (int, int, int, int),
    i: int,
) -> Option<int>
    decreases toplevels.len() - i,
{
    if i < 0 || i >= toplevels.len() {
        None
    } else if toplevels[i].spec_path() == path && bbox_intersects(toplevels[i].spec_bbox(), bbox) {
        Some(i)
    } else {
        find_from(toplevels, path, bbox, i + 1)
    }
}

/// A toplevel held by the packer: well formed and never degenerate.
pub open spec fn toplevel_entry_ok(t: ToplevelTexture) -> bool {
    t.wf() && t.spec_width() >= 1 && t.spec_height() >= 1
}

/// A child held by the packer points at a toplevel on its own source image
/// whose region covers the child's bounding box.
pub open spec fn child_entry_ok(c: PackEntry, toplevels: Seq<ToplevelTexture>) -> bool {
    &&& c.toplevel_index < toplevels.len()
    &&& c.texture.wf()
    &&& c.texture.image_path@ == toplevels[c.toplevel_index as int].spec_path()
    &&& bbox_contains(toplevels[c.toplevel_index as int].spec_bbox(), c.texture.spec_bbox())
}

/// What the placer reported for one toplevel: success exactly when the
/// scaled crop is non-empty and fits a sheet, a placed rectangle at the
/// scaled size on an existing sheet, and the precise error otherwise.
pub open spec fn placement_entry_ok(
    pr: Result<PlacementInfo, AtlasError>,
    t: ToplevelTexture,
    config: TexturePlacerConfig,
    sheet_count: int,
) -> bool {
    &&& (pr is Ok <==> (t.spec_scaled_width() >= 1 && t.spec_scaled_height() >= 1
        && GuillotineTexturePlacer::spec_fits(
        config,
        t.spec_scaled_width(),
        t.spec_scaled_height(),
    )))
    &&& (pr matches Ok(info) ==> info.rect.w as int == t.spec_scaled_width() && info.rect.h as int
        == t.spec_scaled_height() && info.sheet_index < sheet_count)
    &&& (pr is Err ==> pr == Err::<PlacementInfo, AtlasError>(
        if t.spec_scaled_width() == 0 || t.spec_scaled_height() == 0 {
            AtlasError::ZeroSizeTexture
        } else {
            AtlasError::OversizedTexture
        },
    ))
}

/// The indices of the children whose toplevel was placed, in input order.
pub open spec fn placed_srcs(
    children: Seq<PackEntry>,
    placements: Seq<Result<PlacementInfo, AtlasError>>,
) -> Seq<int>
    decreases children.len(),
{
    if children.len() == 0 {
        Seq::empty()
    } else {
        let rest = placed_srcs(children.drop_last(), placements);
        if placements[children.last().toplevel_index as int] is Ok {
            rest.push(children.len() - 1)
        } else {
            rest
        }
    }
}

/// The indices of the children whose toplevel could not be placed, in input
/// order.
pub open spec fn failed_srcs(
    children: Seq<PackEntry>,
    placements: Seq<Result<PlacementInfo, AtlasError>>,
) -> Seq<int>
    decreases children.len(),
{
    if children.len() == 0 {
        Seq::empty()
    } else {
        let rest = failed_srcs(children.drop_last(), placements);
        if placements[children.last().toplevel_index as int] is Ok {
            rest
        } else {
            rest.push(children.len() - 1)
        }
    }
}

/// No polygon is ever dropped silently: the placed and failed index lists
/// partition the children. Together they have one entry per child, each list
/// is strictly increasing (so no index appears twice), and a child's index
/// appears in the placed list exactly when its toplevel was placed, in the
/// failed list exactly when it was not.
pub proof fn lemma_srcs_partition(
    children: Seq<PackEntry>,
    placements: Seq<Result<PlacementInfo, AtlasError>>,
)
    ensures
        placed_srcs(children, placements).len() + failed_srcs(children, placements).len()
            == children.len(),
        forall|k: int|
            0 <= k < placed_srcs(children, placements).len() ==> 0 <= #[trigger] placed_srcs(
                children,
                placements,
            )[k] < children.len(),
        forall|k: int|
            0 <= k < failed_srcs(children, placements).len() ==> 0 <= #[trigger] failed_srcs(
                children,
                placements,
            )[k] < children.len(),
        forall|k1: int, k2: int|
            0 <= k1 < k2 < placed_srcs(children, placements).len() ==> #[trigger] placed_srcs(
                children,
                placements,
            )[k1] < #[trigger] placed_srcs(children, placements)[k2],
        forall|k1: int, k2: int|
            0 <= k1 < k2 < failed_srcs(children, placements).len() ==> #[trigger] failed_srcs(
                children,
                placements,
            )[k1] < #[trigger] failed_srcs(children, placements)[k2],
        forall|i: int|
            0 <= i < children.len() ==> (placements[(#[trigger] children[i]).toplevel_index as int]
                is Ok <==> placed_srcs(children, placements).contains(i)),
        forall|i: int|
            0 <= i < children.len() ==> (!(placements[(#[trigger] children[i]).toplevel_index as int]
                is Ok) <==> failed_srcs(children, placements).contains(i)),
    decreases children.len(),
{
    if children.len() > 0 {
        let prev = children.drop_last();
        lemma_srcs_partition(prev, placements);
        assert(forall|i: int| 0 <= i < prev.len() ==> #[trigger] prev[i] == children[i]);
        let gp = placed_srcs(children, placements);
        let sp = placed_srcs(prev, placements);
        let gf = failed_srcs(children, placements);
        let sf = failed_srcs(prev, placements);
        let n = children.len() - 1;
        let ok_last = placements[children[n].toplevel_index as int] is Ok;
        if ok_last {
            assert(gp == sp.push(n));
            assert(gf == sf);
        } else {
            assert(gf == sf.push(n));
            assert(gp == sp);
        }
        assert forall|i: int|
            0 <= i < children.len() implies (placements[(
        #[trigger] children[i]).toplevel_index as int] is Ok <==> gp.contains(i)) by {
            if i < n {
                assert(prev[i] == children[i]);
                if placements[children[i].toplevel_index as int] is Ok {
                    assert(sp.contains(i));
                    let j = choose|j: int| 0 <= j < sp.len() && sp[j] == i;
                    assert(gp[j] == i);
                    assert(gp.contains(i));
                } else {
                    if gp.contains(i) {
                        let j = choose|j: int| 0 <= j < gp.len() && gp[j] == i;
                        if j < sp.len() {
                            assert(sp[j] == i);
                            assert(sp.contains(i));
                        } else {
                            assert(gp[j] == n);
                        }
                        assert(false);
                    }
                }
            } else {
                if ok_last {
                    assert(gp[gp.len() - 1] == n);
                    assert(gp.contains(n));
                } else {
                    if gp.contains(n) {
                        let j = choose|j: int| 0 <= j < gp.len() && gp[j] == n;
                        assert(sp[j] == n);
                        assert(false);
                    }
                }
            }
        }
        assert forall|i: int|
            0 <= i < children.len() implies (!(placements[(
        #[trigger] children[i]).toplevel_index as int] is Ok) <==> gf.contains(i)) by {
            if i < n {
                assert(prev[i] == children[i]);
                if !(placements[children[i].toplevel_index as int] is Ok) {
                    assert(sf.contains(i));
                    let j = choose|j: int| 0 <= j < sf.len() && sf[j] == i;
                    assert(gf[j] == i);
                    assert(gf.contains(i));
                } else {
                    if gf.contains(i) {
                        let j = choose|j: int| 0 <= j < gf.len() && gf[j] == i;
                        if j < sf.len() {
                            assert(sf[j] == i);
                            assert(sf.contains(i));
                        } else {
                            assert(gf[j] == n);
                        }
                        assert(false);
                    }
                }
            } else {
                if !ok_last {
                    assert(gf[gf.len() - 1] == n);
                    assert(gf.contains(n));
                } else {
                    if gf.contains(n) {
                        let j = choose|j: int| 0 <= j < gf.len() && gf[j] == n;
                        assert(sf[j] == n);
                        assert(false);
                    }
                }
            }
        }
    }
}

/// One packed polygon in the output mapping: its id, the sheet it landed on,
/// its rectangle there (padding excluded), and its UV coordinates relative
/// to the toplevel crop.
#[derive(Debug)]
pub struct PlacedChild {
    pub id: String,
    pub sheet_index: usize,
    pub rect: Rect,
    pub child: ChildTexture,
}

/// An output entry for child `c` of toplevel `t` whose placement came back
/// as `pr`: the id carries over, the sheet and rectangle are the placement's,
/// and the child UV numerators are the exact offsets of the polygon's
/// vertices inside the toplevel crop frame (V flipped back to the
/// bottom-left origin), over the denominators `frame_size`.
pub open spec fn placed_entry_ok(
    c: PackEntry,
    t: ToplevelTexture,
    pr: Result<PlacementInfo, AtlasError>,
    pc: PlacedChild,
) -> bool {
    &&& pc.id@ == c.id@
    &&& (pr matches Ok(info) && pc.sheet_index == info.sheet_index && pc.rect == info.rect)
    &&& pc.child.frame_size.0 as int == t.spec_width()
    &&& pc.child.frame_size.1 as int == t.spec_height()
    &&& pc.child.cropped_uv_coords@.len() == c.texture.pixel_coords@.len()
    &&& forall|v: int|
        0 <= v < pc.child.cropped_uv_coords@.len() ==> {
            let p = c.texture.pixel_coords@[v];
            #[trigger] pc.child.cropped_uv_coords@[v] == (
                (p.0 - t.spec_bbox().0) as u32,
                (t.spec_height() - (p.1 - t.spec_bbox().1)) as u32,
            )
        }
}

/// A failure entry for child `c`: the id carries over together with the
/// placement error of the child's toplevel.
pub open spec fn failed_entry_ok(
    c: PackEntry,
    pr: Result<PlacementInfo, AtlasError>,
    pc: (String, AtlasError),
) -> bool {
    &&& pc.0@ == c.id@
    &&& (pr matches Err(e) && pc.1 == e)
}

/// The `k`-th output entry holds child `ci`, which must be among the first
/// `n` children, with a correct entry per [`placed_entry_ok`].
pub open spec fn placed_at_ok(
    children: Seq<PackEntry>,
    toplevels: Seq<ToplevelTexture>,
    placements: Seq<Result<PlacementInfo, AtlasError>>,
    n: int,
    ci: int,
    pc: PlacedChild,
) -> bool {
    0 <= ci < n && placed_entry_ok(
        children[ci],
        toplevels[children[ci].toplevel_index as int],
        placements[children[ci].toplevel_index as int],
        pc,
    )
}

/// The `k`-th failure entry holds child `ci`, which must be among the first
/// `n` children, with a correct entry per [`failed_entry_ok`].
pub open spec fn failed_at_ok(
    children: Seq<PackEntry>,
    placements: Seq<Result<PlacementInfo, AtlasError>>,
    n: int,
    ci: int,
    pc: (String, AtlasError),
) -> bool {
    0 <= ci < n && failed_entry_ok(
        children[ci],
        placements[children[ci].toplevel_index as int],
        pc,
    )
}

/// The output mapping lists exactly the children of placed toplevels among
/// the first `n` children, in input order, each entry correct per
/// [`placed_entry_ok`].
pub open spec fn placed_prefix_ok(
    children: Seq<PackEntry>,
    toplevels: Seq<ToplevelTexture>,
    placements: Seq<Result<PlacementInfo, AtlasError>>,
    placed: Seq<PlacedChild>,
    n: int,
) -> bool {
    &&& placed.len() == placed_srcs(children.subrange(0, n), placements).len()
    &&& forall|k: int|
        0 <= k < placed.len() ==> placed_at_ok(
            children,
            toplevels,
            placements,
            n,
            placed_srcs(children.subrange(0, n), placements)[k],
            #[trigger] placed[k],
        )
}

/// The failure report lists exactly the children of unplaced toplevels among
/// the first `n` children, in input order, each entry correct per
/// [`failed_entry_ok`].
pub open spec fn failed_prefix_ok(
    children: Seq<PackEntry>,
    placements: Seq<Result<PlacementInfo, AtlasError>>,
    failed: Seq<(String, AtlasError)>,
    n: int,
) -> bool {
    &&& failed.len() == failed_srcs(children.subrange(0, n), placements).len()
    &&& forall|k: int|
        0 <= k < failed.len() ==> failed_at_ok(
            children,
            placements,
            n,
            failed_srcs(children.subrange(0, n), placements)[k],
            #[trigger] failed[k],
        )
}

/// The outcome of a packing run: the toplevel crop jobs, where each was
/// placed (or why it was not), the per-polygon output mapping, and the
/// per-polygon failures.
#[derive(Debug)]
pub struct PackedAtlas {
    pub toplevels: Vec<ToplevelTexture>,
    pub toplevel_placements: Vec<Result<PlacementInfo, AtlasError>>,
    pub placed: Vec<PlacedChild>,
    pub failed: Vec<(String, AtlasError)>,
}

/// The atlas orchestrator: coalesces polygon references that overlap on the
/// same source image into shared toplevel crop jobs, then drives a placer
/// over the scaled crops and records the per-polygon output mapping.
#[derive(Debug)]
pub struct AtlasPacker {
    toplevels: Vec<ToplevelTexture>,
    children: Vec<PackEntry>,
}

impl AtlasPacker {
    /// The toplevel crop jobs registered so far.
    pub closed spec fn spec_toplevels(&self) -> Seq<ToplevelTexture> {
        self.toplevels@
    }

    /// The polygon references registered so far.
    pub closed spec fn spec_children(&self) -> Seq<PackEntry> {
        self.children@
    }

    /// Every toplevel is a proper, non-degenerate crop job, and every child
    /// points at a toplevel on its own source image whose region covers the
    /// child's bounding box.
    pub open spec fn wf(&self) -> bool {
        &&& forall|j: int|
            0 <= j < self.spec_toplevels().len() ==> toplevel_entry_ok(
                #[trigger] self.spec_toplevels()[j],
            )
        &&& forall|i: int|
            0 <= i < self.spec_children().len() ==> child_entry_ok(
                #[trigger] self.spec_children()[i],
                self.spec_toplevels(),
            )
    }

    /// An empty packer.
    pub fn new() -> (r: Self)
        ensures
            r.wf(),
            r.spec_toplevels() =~= Seq::<ToplevelTexture>::empty(),
            r.spec_children() =~= Seq::<PackEntry>::empty(),
    {
        AtlasPacker { toplevels: Vec::new(), children: Vec::new() }
    }

    /// Registers one polygon reference under a stable id.
    ///
    /// A polygon whose pixel bounding box is degenerate is rejected and the
    /// packer is left unchanged. Otherwise the reference is coalesced into
    /// the first toplevel texture on the same source image whose region
    /// intersects its bounding box — that toplevel's region grows to the
    /// union and its downsample factor to the maximum — or, when none
    /// intersects, a fresh toplevel seeded from this polygon is appended.
    pub fn add_texture(&mut self, id: String, texture: PolygonMappedTexture) -> (r: Result<
        (),
        AtlasError,
    >)
        requires
            old(self).wf(),
            texture.wf(),
        ensures
            final(self).wf(),
            spec_degenerate(texture) ==> r == Err::<(), AtlasError>(AtlasError::ZeroSizeTexture)
                && *final(self) == *old(self),
            !spec_degenerate(texture) ==> r == Ok::<(), AtlasError>(()) && {
                let m = find_from(
                    old(self).spec_toplevels(),
                    texture.image_path@,
                    texture.spec_bbox(),
                    0,
                );
                match m {
                    Some(j) => {
                        &&& final(self).spec_toplevels().len() == old(self).spec_toplevels().len()
                        &&& forall|k: int|
                            0 <= k < old(self).spec_toplevels().len() && k != j ==> final(self).spec_toplevels()[k] == old(self).spec_toplevels()[k]
                        &&& final(self).spec_toplevels()[j].spec_path() == old(self).spec_toplevels()[j].spec_path()
                        &&& final(self).spec_toplevels()[j].spec_bbox() == bbox_union(
                            old(self).spec_toplevels()[j].spec_bbox(),
                            texture.spec_bbox(),
                        )
                        &&& final(self).spec_toplevels()[j].spec_factor().spec_value() == max(
                            old(self).spec_toplevels()[j].spec_factor().spec_value() as int,
                            texture.downsample_factor.spec_value() as int,
                        )
                        &&& final(self).spec_toplevels()[j].spec_polygons() == old(self).spec_toplevels()[j].spec_polygons().push(texture.pixel_coords@)
                        &&& final(self).spec_children() == old(self).spec_children().push(
                            (PackEntry { id, texture, toplevel_index: j as usize }),
                        )
                    },
                    None => {
                        &&& final(self).spec_toplevels().len() == old(self).spec_toplevels().len()
                            + 1
                        &&& forall|k: int|
                            0 <= k < old(self).spec_toplevels().len() ==> final(self).spec_toplevels()[k] == old(self).spec_toplevels()[k]
                        &&& final(self).spec_toplevels().last().spec_path() == texture.image_path@
                        &&& final(self).spec_toplevels().last().spec_bbox() == texture.spec_bbox()
                        &&& final(self).spec_toplevels().last().spec_factor()
                            == texture.downsample_factor
                        &&& final(self).spec_toplevels().last().spec_polygons() == seq![
                            texture.pixel_coords@,
                        ]
                        &&& final(self).spec_children() == old(self).spec_children().push(
                            (PackEntry {
                                id,
                                texture,
                                toplevel_index: old(self).spec_toplevels().len() as usize,
                            }),
                        )
                    },
                }
            },
    {
        let (bx0, by0, bx1, by1) = geometry::calc_bbox(&texture.pixel_coords);
        if bx1 == bx0 || by1 == by0 {
            return Err(AtlasError::ZeroSizeTexture);
        }
        let ghost tops0 = self.spec_toplevels();
        let ghost tb = texture.spec_bbox();
        let mut i: usize = 0;
        while i < self.toplevels.len()
            invariant
                0 <= i <= self.toplevels@.len(),
                *self == *old(self),
                self.wf(),
                texture.wf(),
                tops0 == self.spec_toplevels(),
                tb == texture.spec_bbox(),
                (bx0 as int, by0 as int, bx1 as int, by1 as int) == tb,
                !spec_degenerate(texture),
                find_from(tops0, texture.image_path@, tb, 0) == find_from(
                    tops0,
                    texture.image_path@,
                    tb,
                    i as int,
                ),
            decreases self.toplevels@.len() - i,
        {
            let (tx0, ty0, tx1, ty1) = self.toplevels[i].bbox();
            let same_path = *self.toplevels[i].path() == texture.image_path;
            let overlaps = !(tx1 < bx0 || bx1 < tx0 || ty1 < by0 || by1 < ty0);
            if same_path && overlaps {
                proof {
                    assert(find_from(tops0, texture.image_path@, tb, i as int) == Some(i as int));
                }
                let expanded_opt = self.toplevels[i].expand(&texture);
                proof {
                    assert(expanded_opt.is_some());
                }
                let expanded = expanded_opt.unwrap();
                self.toplevels.set(i, expanded);
                self.children.push(PackEntry { id, texture, toplevel_index: i });
                proof {
                    assert forall|jj: int|
                        0 <= jj < self.spec_toplevels().len() implies toplevel_entry_ok(
                        #[trigger] self.spec_toplevels()[jj],
                    ) by {
                        assert(toplevel_entry_ok(old(self).spec_toplevels()[jj]));
                        if jj != i {
                            assert(self.spec_toplevels()[jj] == old(self).spec_toplevels()[jj]);
                        }
                    }
                    assert forall|ci: int|
                        0 <= ci < self.spec_children().len() implies child_entry_ok(
                        #[trigger] self.spec_children()[ci],
                        self.spec_toplevels(),
                    ) by {
                        if ci < old(self).spec_children().len() {
                            assert(self.spec_children()[ci] == old(self).spec_children()[ci]);
                            let c = old(self).spec_children()[ci];
                            assert(child_entry_ok(c, old(self).spec_toplevels()));
                            if c.toplevel_index as int == i as int {
                                assert(bbox_contains(
                                    old(self).spec_toplevels()[i as int].spec_bbox(),
                                    c.texture.spec_bbox(),
                                ));
                            } else {
                                assert(self.spec_toplevels()[c.toplevel_index as int] == old(self).spec_toplevels()[c.toplevel_index as int]);
                            }
                        }
                    }
                }
                return Ok(());
            }
            proof {
                assert(find_from(tops0, texture.image_path@, tb, i as int) == find_from(
                    tops0,
                    texture.image_path@,
                    tb,
                    i + 1,
                ));
            }
            i = i + 1;
        }
        let fresh = ToplevelTexture::new(&texture);
        self.toplevels.push(fresh);
        self.children.push(PackEntry { id, texture, toplevel_index: self.toplevels.len() - 1 });
        proof {
            assert(find_from(tops0, texture.image_path@, tb, tops0.len() as int) is None);
            assert forall|jj: int|
                0 <= jj < self.spec_toplevels().len() implies toplevel_entry_ok(
                #[trigger] self.spec_toplevels()[jj],
            ) by {
                if jj < old(self).spec_toplevels().len() {
                    assert(self.spec_toplevels()[jj] == old(self).spec_toplevels()[jj]);
                    assert(toplevel_entry_ok(old(self).spec_toplevels()[jj]));
                }
            }
            assert forall|ci: int|
                0 <= ci < self.spec_children().len() implies child_entry_ok(
                #[trigger] self.spec_children()[ci],
                self.spec_toplevels(),
            ) by {
                if ci < old(self).spec_children().len() {
                    assert(self.spec_children()[ci] == old(self).spec_children()[ci]);
                    let c = old(self).spec_children()[ci];
                    assert(child_entry_ok(c, old(self).spec_toplevels()));
                    assert(self.spec_toplevels()[c.toplevel_index as int] == old(self).spec_toplevels()[c.toplevel_index as int]);
                }
            }
        }
        Ok(())
    }

    /// Resolves every toplevel crop to a sheet position through the placer
    /// and records the per-polygon output mapping.
    ///
    /// Each toplevel is offered to the placer at its downsampled size; one
    /// that scales to zero or exceeds the sheet is recorded as failed, and
    /// every child of a placed toplevel appears in the output mapping exactly
    /// once with its exact child UV fractions.
    pub fn pack(self, placer: &mut GuillotineTexturePlacer) -> (r: PackedAtlas)
        requires
            self.wf(),
            old(placer).wf(),
        ensures
            final(placer).wf(),
            final(placer).spec_config() == old(placer).spec_config(),
            r.toplevels@ == self.spec_toplevels(),
            r.toplevel_placements@.len() == self.spec_toplevels().len(),
            forall|j: int|
                0 <= j < r.toplevel_placements@.len() ==> placement_entry_ok(
                    #[trigger] r.toplevel_placements@[j],
                    self.spec_toplevels()[j],
                    old(placer).spec_config(),
                    final(placer).spec_placed().len() as int,
                ),
            r.placed@.len() + r.failed@.len() == self.spec_children().len(),
            placed_prefix_ok(
                self.spec_children(),
                self.spec_toplevels(),
                r.toplevel_placements@,
                r.placed@,
                self.spec_children().len() as int,
            ),
            failed_prefix_ok(
                self.spec_children(),
                r.toplevel_placements@,
                r.failed@,
                self.spec_children().len() as int,
            ),
    {
        let AtlasPacker { toplevels, children } = self;
        let mut placements: Vec<Result<PlacementInfo, AtlasError>> = Vec::new();
        let mut j: usize = 0;
        while j < toplevels.len()
            invariant
                0 <= j <= toplevels@.len(),
                toplevels@ == self.spec_toplevels(),
                children@ == self.spec_children(),
                self.wf(),
                placer.wf(),
                placer.spec_config() == old(placer).spec_config(),
                placements@.len() == j,
                forall|q: int|
                    0 <= q < j ==> placement_entry_ok(
                        #[trigger] placements@[q],
                        self.spec_toplevels()[q],
                        old(placer).spec_config(),
                        placer.spec_placed().len() as int,
                    ),
            decreases toplevels@.len() - j,
        {
            let ghost sheets_before = placer.spec_placed().len();
            let (sw, sh) = toplevels[j].scaled_size();
            let res = placer.add_texture(sw, sh);
            placements.push(res);
            proof {
                assert forall|q: int|
                    0 <= q < placements@.len() implies placement_entry_ok(
                    #[trigger] placements@[q],
                    self.spec_toplevels()[q],
                    old(placer).spec_config(),
                    placer.spec_placed().len() as int,
                ) by {
                    if q < placements@.len() - 1 {
                        assert(placement_entry_ok(
                            placements@[q],
                            self.spec_toplevels()[q],
                            old(placer).spec_config(),
                            sheets_before as int,
                        ));
                        assert(sheets_before <= placer.spec_placed().len());
                    }
                }
            }
            j = j + 1;
        }
        let mut placed: Vec<PlacedChild> = Vec::new();
        let mut failed: Vec<(String, AtlasError)> = Vec::new();
        let mut i: usize = 0;
        proof {
            assert(children@.subrange(0, 0) =~= Seq::<PackEntry>::empty());
        }
        while i < children.len()
            invariant
                0 <= i <= children@.len(),
                children@ == self.spec_children(),
                toplevels@ == self.spec_toplevels(),
                self.wf(),
                placements@.len() == toplevels@.len(),
                forall|q: int|
                    0 <= q < placements@.len() ==> placement_entry_ok(
                        #[trigger] placements@[q],
                        self.spec_toplevels()[q],
                        old(placer).spec_config(),
                        placer.spec_placed().len() as int,
                    ),
                placed@.len() + failed@.len() == i,
                placed_prefix_ok(children@, toplevels@, placements@, placed@, i as int),
                failed_prefix_ok(children@, placements@, failed@, i as int),
            decreases children@.len() - i,
        {
            let ti = children[i].toplevel_index;
            let cid = children[i].id.clone();
            let ghost placed_before = placed@;
            let ghost failed_before = failed@;
            match placements[ti] {
                Ok(info) => {
                    let child = toplevels[ti].get_child(&children[i].texture);
                    placed.push(
                        PlacedChild {
                            id: cid,
                            sheet_index: info.sheet_index,
                            rect: info.rect,
                            child,
                        },
                    );
                },
                Err(e) => {
                    failed.push((cid, e));
                },
            }
            i = i + 1;
            proof {
                let prefix1 = children@.subrange(0, i as int);
                let prefix0 = children@.subrange(0, i as int - 1);
                assert(prefix1.drop_last() =~= prefix0);
                assert(prefix1.last() == children@[i as int - 1]);
                let gp = placed_srcs(prefix1, placements@);
                let gf = failed_srcs(prefix1, placements@);
                let srcs0 = placed_srcs(prefix0, placements@);
                let fsrcs0 = failed_srcs(prefix0, placements@);
                let ok_here = placements@[children@[i as int - 1].toplevel_index as int] is Ok;
                if ok_here {
                    assert(gp == srcs0.push(i as int - 1));
                    assert(gf == fsrcs0);
                    assert(failed@ == failed_before);
                } else {
                    assert(gf == fsrcs0.push(i as int - 1));
                    assert(gp == srcs0);
                    assert(placed@ == placed_before);
                }
                assert(placed@.len() == placed_srcs(
                    children@.subrange(0, i as int),
                    placements@,
                ).len());
                assert(failed@.len() == failed_srcs(
                    children@.subrange(0, i as int),
                    placements@,
                ).len());
                assert forall|k: int|
                    0 <= k < placed@.len() implies placed_at_ok(
                    children@,
                    toplevels@,
                    placements@,
                    i as int,
                    placed_srcs(children@.subrange(0, i as int), placements@)[k],
                    #[trigger] placed@[k],
                ) by {
                    if k < placed_before.len() {
                        assert(gp[k] == srcs0[k]);
                        assert(placed@[k] == placed_before[k]);
                        assert(placed_at_ok(
                            children@,
                            toplevels@,
                            placements@,
                            i as int - 1,
                            srcs0[k],
                            placed_before[k],
                        ));
                    } else {
                        assert(ok_here);
                        assert(gp[k] == i as int - 1);
                    }
                }
                assert forall|k: int|
                    0 <= k < failed@.len() implies failed_at_ok(
                    children@,
                    placements@,
                    i as int,
                    failed_srcs(children@.subrange(0, i as int), placements@)[k],
                    #[trigger] failed@[k],
                ) by {
                    if k < failed_before.len() {
                        assert(gf[k] == fsrcs0[k]);
                        assert(failed@[k] == failed_before[k]);
                        assert(failed_at_ok(
                            children@,
                            placements@,
                            i as int - 1,
                            fsrcs0[k],
                            failed_before[k],
                        ));
                    } else {
                        assert(!ok_here);
                        assert(gf[k] == i as int - 1);
                    }
                }
            }
        }
        proof {
            assert(children@.subrange(0, children@.len() as int) =~= children@);
        }
        PackedAtlas { toplevels, toplevel_placements: placements, placed, failed }
    }
}

impl Default for AtlasPacker {
    /// An empty packer.
    fn default() -> (r: Self)
        ensures
            r.wf(),
            r.spec_toplevels() =~= Seq::<ToplevelTexture>::empty(),
            r.spec_children() =~= Seq::<PackEntry>::empty(),
    {
        AtlasPacker::new()
    }
}

} // verus!
