use atlas_packer::error::AtlasError;
use atlas_packer::texture::DownsampleFactor;

#[test]
fn accepts_zero() {
    let f = DownsampleFactor::new(0).unwrap();
    assert_eq!(f.value(), 0);
}

#[test]
fn accepts_one() {
    let f = DownsampleFactor::new(10000).unwrap();
    assert_eq!(f.value(), 10000);
}

#[test]
fn accepts_interior_value_exactly() {
    let f = DownsampleFactor::new(5375).unwrap();
    assert_eq!(f.value(), 5375);
}

#[test]
fn rejects_above_one() {
    assert_eq!(
        DownsampleFactor::new(10001),
        Err(AtlasError::InvalidDownsampleFactor)
    );
    assert_eq!(
        DownsampleFactor::new(u32::MAX),
        Err(AtlasError::InvalidDownsampleFactor)
    );
}
