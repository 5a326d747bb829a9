use atlas_packer::error::AtlasError;
use atlas_packer::place::{GuillotineTexturePlacer, Rect, TexturePlacerConfig};

fn overlap(a: &Rect, b: &Rect) -> bool {
    !(a.x + a.w <= b.x || b.x + b.w <= a.x || a.y + a.h <= b.y || b.y + b.h <= a.y)
}

#[test]
fn config_rejects_zero_dimensions() {
    assert_eq!(
        TexturePlacerConfig::new(0, 100, 0),
        Err(AtlasError::InvalidSheetDimensions)
    );
    assert_eq!(
        TexturePlacerConfig::new(100, 0, 2),
        Err(AtlasError::InvalidSheetDimensions)
    );
    let c = TexturePlacerConfig::new(100, 50, 2).unwrap();
    assert_eq!((c.width(), c.height(), c.padding()), (100, 50, 2));
}

#[test]
fn placer_rejects_zero_sheet() {
    let bad = TexturePlacerConfig {
        width: 0,
        height: 10,
        padding: 0,
    };
    assert!(GuillotineTexturePlacer::new(bad).is_err());
}

#[test]
fn rejects_oversize_and_empty_requests() {
    let config = TexturePlacerConfig {
        width: 100,
        height: 100,
        padding: 1,
    };
    let mut placer = GuillotineTexturePlacer::new(config).unwrap();
    assert_eq!(
        placer.add_texture(100, 100),
        Err(AtlasError::OversizedTexture)
    );
    assert_eq!(placer.add_texture(0, 5), Err(AtlasError::ZeroSizeTexture));
    let info = placer.add_texture(99, 99).unwrap();
    assert_eq!(info.sheet_index, 0);
    assert_eq!((info.rect.x, info.rect.y), (0, 0));
    assert_eq!((info.rect.w, info.rect.h), (99, 99));
}

#[test]
fn fills_sheets_without_overlap() {
    let config = TexturePlacerConfig {
        width: 256,
        height: 256,
        padding: 0,
    };
    let mut placer = GuillotineTexturePlacer::new(config).unwrap();
    let mut placements = Vec::new();
    for _ in 0..50 {
        let info = placer.add_texture(64, 64).unwrap();
        assert!(info.rect.x + info.rect.w <= 256);
        assert!(info.rect.y + info.rect.h <= 256);
        placements.push(info);
    }
    // 16 per 256x256 sheet: 50 textures need 4 sheets
    assert_eq!(placer.sheet_count(), 4);
    for i in 0..placements.len() {
        for j in (i + 1)..placements.len() {
            if placements[i].sheet_index == placements[j].sheet_index {
                assert!(!overlap(&placements[i].rect, &placements[j].rect));
            }
        }
    }
}

#[test]
fn padding_keeps_margin_between_rectangles() {
    let config = TexturePlacerConfig {
        width: 22,
        height: 22,
        padding: 1,
    };
    let mut placer = GuillotineTexturePlacer::new(config).unwrap();
    let a = placer.add_texture(10, 10).unwrap();
    let b = placer.add_texture(10, 10).unwrap();
    assert_eq!(a.sheet_index, b.sheet_index);
    // padded footprints are 11x11: the second goes below the first, into
    // the split piece with the smallest leftover area
    assert_eq!((a.rect.x, a.rect.y), (0, 0));
    assert_eq!((b.rect.x, b.rect.y), (0, 11));
}
