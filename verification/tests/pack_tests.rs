use atlas_packer::error::AtlasError;
use atlas_packer::pack::AtlasPacker;
use atlas_packer::place::{GuillotineTexturePlacer, Rect, TexturePlacerConfig};
use atlas_packer::texture::{DownsampleFactor, PolygonMappedTexture};

fn tex(path: &str, coords: Vec<(u32, u32)>) -> PolygonMappedTexture {
    PolygonMappedTexture {
        image_path: path.to_string(),
        downsample_factor: DownsampleFactor::new(10000).unwrap(),
        pixel_coords: coords,
    }
}

fn overlap(a: &Rect, b: &Rect) -> bool {
    !(a.x + a.w <= b.x || b.x + b.w <= a.x || a.y + a.h <= b.y || b.y + b.h <= a.y)
}

#[test]
fn rejects_degenerate_polygon() {
    let mut packer = AtlasPacker::new();
    let flat = tex("a.png", vec![(0, 5), (10, 5), (20, 5)]);
    assert_eq!(
        packer.add_texture("flat".to_string(), flat),
        Err(AtlasError::ZeroSizeTexture)
    );
}

#[test]
fn three_corners_merge_into_one_crop() {
    // three polygons on the same 512x512 source image, at different corners,
    // with overlapping bounding boxes; downsample factor 1.0
    let p1 = tex("src512.png", vec![(0, 0), (250, 0), (250, 250), (0, 250)]);
    let p2 = tex(
        "src512.png",
        vec![(200, 200), (450, 200), (450, 450), (200, 450)],
    );
    let p3 = tex(
        "src512.png",
        vec![(100, 100), (350, 100), (350, 350), (100, 350)],
    );
    let originals = vec![p1.pixel_coords.clone(), p2.pixel_coords.clone(), p3.pixel_coords.clone()];

    let mut packer = AtlasPacker::new();
    packer.add_texture("a".to_string(), p1).unwrap();
    packer.add_texture("b".to_string(), p2).unwrap();
    packer.add_texture("c".to_string(), p3).unwrap();

    let config = TexturePlacerConfig {
        width: 500,
        height: 500,
        padding: 1,
    };
    let mut placer = GuillotineTexturePlacer::new(config).unwrap();
    let packed = packer.pack(&mut placer);

    // one merged toplevel whose crop equals the bounding-box union
    assert_eq!(packed.toplevels.len(), 1);
    assert_eq!(packed.toplevels[0].bbox(), (0, 0, 450, 450));
    // one placement rectangle on one sheet
    assert_eq!(packed.toplevel_placements.len(), 1);
    let info = packed.toplevel_placements[0].unwrap();
    assert_eq!(info.sheet_index, 0);
    assert_eq!((info.rect.w, info.rect.h), (450, 450));
    assert_eq!(placer.sheet_count(), 1);
    // three child mappings that reproduce each polygon's pixel footprint
    assert_eq!(packed.placed.len(), 3);
    assert!(packed.failed.is_empty());
    let ids: Vec<&str> = packed.placed.iter().map(|p| p.id.as_str()).collect();
    assert_eq!(ids, vec!["a", "b", "c"]);
    for (k, pc) in packed.placed.iter().enumerate() {
        assert_eq!(pc.child.frame_size, (450, 450));
        for (i, &(px, py)) in originals[k].iter().enumerate() {
            let (nu, nv) = pc.child.cropped_uv_coords[i];
            // reapply the fraction to the crop frame: U gives the pixel
            // column back, V (bottom-left origin) gives the row back
            assert_eq!(nu, px);
            assert_eq!(pc.child.frame_size.1 - nv, py);
        }
    }
}

#[test]
fn fifty_distinct_sources_fill_several_sheets() {
    // 50 polygons, each on its own 64x64 source image, sheet 256x256 pad 0
    let mut packer = AtlasPacker::new();
    for i in 0..50 {
        let path = format!("img{}.png", i);
        let p = tex(&path, vec![(0, 0), (64, 0), (64, 64), (0, 64)]);
        packer.add_texture(format!("t{}", i), p).unwrap();
    }
    let config = TexturePlacerConfig {
        width: 256,
        height: 256,
        padding: 0,
    };
    let mut placer = GuillotineTexturePlacer::new(config).unwrap();
    let packed = packer.pack(&mut placer);

    assert_eq!(packed.toplevels.len(), 50);
    assert_eq!(packed.placed.len(), 50);
    assert!(packed.failed.is_empty());
    // multiple sheets were needed
    assert!(placer.sheet_count() > 1);
    // every input id appears exactly once in the output mapping
    for i in 0..50 {
        let id = format!("t{}", i);
        assert_eq!(
            packed.placed.iter().filter(|p| p.id == id).count(),
            1,
            "id {} must appear exactly once",
            id
        );
    }
    // zero overlap among placed rectangles on any sheet
    for i in 0..packed.placed.len() {
        for j in (i + 1)..packed.placed.len() {
            if packed.placed[i].sheet_index == packed.placed[j].sheet_index {
                assert!(!overlap(&packed.placed[i].rect, &packed.placed[j].rect));
            }
        }
    }
}

#[test]
fn oversize_toplevel_is_reported_not_dropped() {
    let mut packer = AtlasPacker::new();
    let big = tex("big.png", vec![(0, 0), (300, 0), (300, 300), (0, 300)]);
    let small = tex("small.png", vec![(0, 0), (50, 0), (50, 50), (0, 50)]);
    packer.add_texture("big".to_string(), big).unwrap();
    packer.add_texture("small".to_string(), small).unwrap();
    let config = TexturePlacerConfig {
        width: 100,
        height: 100,
        padding: 0,
    };
    let mut placer = GuillotineTexturePlacer::new(config).unwrap();
    let packed = packer.pack(&mut placer);
    assert_eq!(packed.placed.len(), 1);
    assert_eq!(packed.placed[0].id, "small");
    assert_eq!(
        packed.failed,
        vec![("big".to_string(), AtlasError::OversizedTexture)]
    );
}

#[test]
fn distinct_images_never_merge() {
    let mut packer = AtlasPacker::new();
    let a = tex("a.png", vec![(0, 0), (10, 0), (10, 10), (0, 10)]);
    let b = tex("b.png", vec![(0, 0), (10, 0), (10, 10), (0, 10)]);
    packer.add_texture("a".to_string(), a).unwrap();
    packer.add_texture("b".to_string(), b).unwrap();
    let config = TexturePlacerConfig {
        width: 64,
        height: 64,
        padding: 0,
    };
    let mut placer = GuillotineTexturePlacer::new(config).unwrap();
    let packed = packer.pack(&mut placer);
    assert_eq!(packed.toplevels.len(), 2);
    assert_eq!(packed.placed.len(), 2);
}
