use atlas_packer::geometry::{calc_bbox, point_in_polygon, uv_to_pixel_coords};
use atlas_packer::texture::{DownsampleFactor, PolygonMappedTexture};

fn full_factor() -> DownsampleFactor {
    DownsampleFactor::new(10000).unwrap()
}

#[test]
fn uv_conversion_flips_v_and_rounds() {
    let uv = vec![(0, 0), (10000, 10000), (5000, 5000)];
    let px = uv_to_pixel_coords(&uv, 512, 512);
    // (0, 0) is the bottom-left corner: x = 0, y = 512 (one row below the
    // last pixel row, as the Y flip of v = 0 demands).
    assert_eq!(px[0], (0, 512));
    // (1, 1) is the top-right corner.
    assert_eq!(px[1], (512, 0));
    // the center rounds to (256, 256)
    assert_eq!(px[2], (256, 256));
}

#[test]
fn uv_outside_unit_square_is_accepted() {
    // out-of-range UV simply lands outside the image bounds
    let uv = vec![(20000, 5000)];
    let px = uv_to_pixel_coords(&uv, 100, 100);
    assert_eq!(px[0], (200, 50));
}

#[test]
fn bbox_of_points() {
    let pts = vec![(1, 2), (5, 1), (3, 7)];
    assert_eq!(calc_bbox(&pts), (1, 1, 5, 7));
    let single = vec![(9, 4)];
    assert_eq!(calc_bbox(&single), (9, 4, 9, 4));
}

fn tex(path: &str, coords: Vec<(u32, u32)>) -> PolygonMappedTexture {
    PolygonMappedTexture {
        image_path: path.to_string(),
        downsample_factor: full_factor(),
        pixel_coords: coords,
    }
}

#[test]
fn overlap_same_image_intersecting() {
    let a = tex("img.png", vec![(0, 0), (10, 0), (10, 10)]);
    let b = tex("img.png", vec![(5, 5), (20, 5), (20, 20)]);
    assert!(a.bbox_overlaps(&b));
    assert!(b.bbox_overlaps(&a));
}

#[test]
fn overlap_edge_touching_counts() {
    let a = tex("img.png", vec![(0, 0), (10, 0), (10, 10)]);
    let b = tex("img.png", vec![(10, 10), (20, 10), (20, 20)]);
    assert!(a.bbox_overlaps(&b));
}

#[test]
fn overlap_disjoint_boxes() {
    let a = tex("img.png", vec![(0, 0), (10, 0), (10, 10)]);
    let b = tex("img.png", vec![(11, 11), (20, 11), (20, 20)]);
    assert!(!a.bbox_overlaps(&b));
}

#[test]
fn overlap_requires_same_image() {
    let a = tex("img.png", vec![(0, 0), (10, 0), (10, 10)]);
    let b = tex("other.png", vec![(0, 0), (10, 0), (10, 10)]);
    assert!(!a.bbox_overlaps(&b));
}

#[test]
fn point_in_square() {
    let poly = vec![(0, 0), (10, 0), (10, 10), (0, 10)];
    // pixel center (5.5, 5.5), doubled coordinates (11, 11)
    assert!(point_in_polygon(&poly, 11, 11));
    // pixel center (20.5, 5.5) lies to the right of the square
    assert!(!point_in_polygon(&poly, 41, 11));
}

#[test]
fn point_in_triangle_boundary_excluded() {
    // triangle with vertices (0,0), (4,0), (0,4): a pixel center is inside
    // iff px + py < 3 in pixel terms
    let poly = vec![(0, 0), (4, 0), (0, 4)];
    assert!(point_in_polygon(&poly, 1, 1)); // pixel (0, 0)
    assert!(point_in_polygon(&poly, 3, 3)); // pixel (1, 1)
    assert!(!point_in_polygon(&poly, 5, 3)); // pixel (2, 1): center on the edge
    assert!(!point_in_polygon(&poly, 7, 7)); // pixel (3, 3)
}
