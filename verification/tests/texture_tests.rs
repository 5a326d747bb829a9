use atlas_packer::pixel::PixelBuffer;
use atlas_packer::texture::{DownsampleFactor, PolygonMappedTexture, ToplevelTexture};

fn factor(v: u32) -> DownsampleFactor {
    DownsampleFactor::new(v).unwrap()
}

fn tex(path: &str, coords: Vec<(u32, u32)>, f: u32) -> PolygonMappedTexture {
    PolygonMappedTexture {
        image_path: path.to_string(),
        downsample_factor: factor(f),
        pixel_coords: coords,
    }
}

#[test]
fn expand_refuses_other_image() {
    let t = ToplevelTexture::new(&tex("a.png", vec![(0, 0), (10, 0), (10, 10)], 10000));
    let other = tex("b.png", vec![(0, 0), (10, 0), (10, 10)], 10000);
    assert!(t.expand(&other).is_none());
}

#[test]
fn expand_unions_bbox_and_maxes_factor() {
    let t = ToplevelTexture::new(&tex("a.png", vec![(0, 0), (10, 0), (10, 10)], 5000));
    let other = tex("a.png", vec![(5, 5), (20, 5), (20, 15)], 7000);
    let merged = t.expand(&other).unwrap();
    assert_eq!(merged.bbox(), (0, 0, 20, 15));
    assert_eq!(merged.downsample_factor.value(), 7000);
    assert_eq!(merged.width(), 20);
    assert_eq!(merged.height(), 15);
}

#[test]
fn expand_result_independent_of_merge_order() {
    let p1 = tex("a.png", vec![(0, 5), (8, 5), (8, 12), (0, 12)], 10000);
    let p2 = tex("a.png", vec![(6, 0), (15, 0), (15, 9)], 10000);
    let p3 = tex("a.png", vec![(2, 2), (30, 2), (30, 40)], 10000);
    let forward = ToplevelTexture::new(&p1)
        .expand(&p2)
        .unwrap()
        .expand(&p3)
        .unwrap();
    let backward = ToplevelTexture::new(&p1)
        .expand(&p3)
        .unwrap()
        .expand(&p2)
        .unwrap();
    assert_eq!(forward.bbox(), backward.bbox());
    assert_eq!(forward.bbox(), (0, 0, 30, 40));
}

#[test]
fn get_child_expresses_exact_fractions() {
    let p = tex("a.png", vec![(2, 2), (10, 2), (10, 8)], 10000);
    let t = ToplevelTexture::new(&p);
    let child = t.get_child(&p);
    // frame is the crop size: width 8, height 6
    assert_eq!(child.frame_size, (8, 6));
    // numerators (px - min_x, height - (py - min_y)), V flipped to
    // bottom-left origin
    assert_eq!(child.cropped_uv_coords, vec![(0, 6), (8, 6), (8, 0)]);
    // reapplying the fractions to the crop frame reproduces the pixel
    // footprint exactly
    for (i, &(px, py)) in p.pixel_coords.iter().enumerate() {
        let (nu, nv) = child.cropped_uv_coords[i];
        assert_eq!(2 + nu, px);
        assert_eq!(2 + (child.frame_size.1 - nv), py);
    }
}

fn numbered_buffer(width: u32, height: u32) -> PixelBuffer {
    let mut data = Vec::new();
    for k in 0..(4 * width * height) {
        data.push((k % 251) as u8);
    }
    PixelBuffer {
        width,
        height,
        data,
    }
}

#[test]
fn crop_extracts_region_at_full_scale() {
    // a polygon covering the left half of a 4x4 image: the crop region is
    // its bounding box (columns 0 and 1), every pixel center inside
    let src = numbered_buffer(4, 4);
    let p = tex("a.png", vec![(0, 0), (2, 0), (2, 4), (0, 4)], 10000);
    let t = ToplevelTexture::new(&p);
    let out = t.crop(&src);
    assert_eq!((out.width, out.height), (2, 4));
    let mut expect = Vec::new();
    for y in 0..4u32 {
        for x in 0..2u32 {
            let base = 4 * (y * 4 + x);
            for c in 0..4u32 {
                expect.push(((base + c) % 251) as u8);
            }
        }
    }
    assert_eq!(out.data, expect);
}

#[test]
fn crop_masks_pixels_outside_polygon() {
    // the triangle (0,0) (4,0) (0,4): a pixel is kept iff px + py <= 2
    let src = numbered_buffer(4, 4);
    let p = tex("a.png", vec![(0, 0), (4, 0), (0, 4)], 10000);
    let t = ToplevelTexture::new(&p);
    let out = t.crop(&src);
    assert_eq!((out.width, out.height), (4, 4));
    for y in 0..4u32 {
        for x in 0..4u32 {
            let base = (4 * (y * 4 + x)) as usize;
            let expected: Vec<u8> = if x + y <= 2 {
                (0..4).map(|c| ((base + c) % 251) as u8).collect()
            } else {
                vec![0, 0, 0, 0]
            };
            assert_eq!(&out.data[base..base + 4], &expected[..]);
        }
    }
}

#[test]
fn crop_downsamples_to_scaled_size() {
    let src = numbered_buffer(4, 4);
    let p = tex("a.png", vec![(0, 0), (4, 0), (0, 4)], 5000);
    let t = ToplevelTexture::new(&p);
    let out = t.crop(&src);
    // the resize is a real shrink: the output holds fewer bytes than the
    // crop region
    assert_eq!((out.width, out.height), (2, 2));
    assert_eq!(out.data.len(), 16);
}

#[test]
fn crop_scaled_to_zero_is_empty() {
    let src = numbered_buffer(4, 4);
    let p = tex("a.png", vec![(0, 0), (4, 0), (0, 4)], 0);
    let t = ToplevelTexture::new(&p);
    let out = t.crop(&src);
    assert_eq!((out.width, out.height), (0, 0));
    assert!(out.data.is_empty());
}

#[test]
fn blit_copies_window_and_keeps_rest() {
    let mut canvas = PixelBuffer::new(4, 4);
    let src = numbered_buffer(2, 2);
    canvas.blit(&src, 1, 2);
    for y in 0..4u32 {
        for x in 0..4u32 {
            let base = (4 * (y * 4 + x)) as usize;
            if (1..3).contains(&x) && (2..4).contains(&y) {
                let sbase = (4 * ((y - 2) * 2 + (x - 1))) as usize;
                assert_eq!(canvas.data[base..base + 4], src.data[sbase..sbase + 4]);
            } else {
                assert_eq!(&canvas.data[base..base + 4], &[0, 0, 0, 0]);
            }
        }
    }
}
