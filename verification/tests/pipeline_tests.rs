use image::{DynamicImage, GenericImageView, Rgba, RgbaImage};
use imagesorter::cache::HashCache;
use imagesorter::detect::fingerprint_and_record;
use imagesorter::fingerprint::decode_fingerprint;
use imagesorter::imaging::extract_region;
use imagesorter::imaging::load_image;
use imagesorter::sorter::OperationResult;

fn png_bytes(width: u32, height: u32) -> Vec<u8> {
    let mut img = RgbaImage::new(width, height);
    for (x, y, pixel) in img.enumerate_pixels_mut() {
        *pixel = Rgba([(x % 256) as u8, (y % 256) as u8, ((x + y) % 256) as u8, 255]);
    }
    let dynimg = DynamicImage::ImageRgba8(img);
    let mut out: Vec<u8> = Vec::new();
    dynimg
        .write_to(&mut out, image::ImageOutputFormat::Png)
        .unwrap();
    out
}

#[test]
fn test_fingerprint_and_record_hits_cache_afterwards() {
    let bytes = png_bytes(64, 64);
    let mut cache = HashCache::new();
    let recorded = fingerprint_and_record(&mut cache, &"img.png".to_string(), 500, &bytes);
    let encoded = recorded.expect("a decodable image must fingerprint");
    // The recorded encoding decodes back to a fingerprint.
    assert!(decode_fingerprint(&encoded).is_some());
    // A later lookup under the same path and mtime is a hit with the
    // very same encoding; a different mtime misses.
    assert_eq!(cache.get("img.png", 500), Some(encoded));
    assert_eq!(cache.get("img.png", 501), None);
}

#[test]
fn test_fingerprint_and_record_rejects_garbage() {
    let mut cache = HashCache::new();
    let garbage: Vec<u8> = vec![0, 1, 2, 3, 4, 5];
    assert_eq!(fingerprint_and_record(&mut cache, &"x".to_string(), 1, &garbage), None);
    assert_eq!(cache.get("x", 1), None);
}

#[test]
fn test_load_image_decodes_and_rejects() {
    let bytes = png_bytes(16, 16);
    assert!(load_image(&bytes).is_some());
    let garbage: Vec<u8> = vec![9, 9, 9];
    assert!(load_image(&garbage).is_none());
}

#[test]
fn test_operation_result_counts() {
    let mut r = OperationResult::new();
    assert_eq!(r.processed, 0);
    r.add_success();
    r.add_success();
    r.add_error("failed".to_string());
    assert_eq!(r.success, 2);
    assert_eq!(r.errors, 1);
    assert_eq!(r.error_messages, vec!["failed".to_string()]);
}

#[test]
fn test_load_image_downscales_large_images() {
    let bytes = png_bytes(700, 300);
    let img = load_image(&bytes).expect("decodable");
    let (w, h) = img.dimensions();
    assert!(w <= 512 && h <= 512);
    // A small image keeps its dimensions.
    let small = load_image(&png_bytes(16, 24)).expect("decodable");
    assert_eq!(small.dimensions(), (16, 24));
}

#[test]
fn test_extract_region_bounds() {
    let buf: Vec<u8> = vec![10, 11, 12, 13, 14];
    assert_eq!(extract_region(&buf, 1, 3), Some(vec![11, 12, 13]));
    assert_eq!(extract_region(&buf, 0, 5), Some(vec![10, 11, 12, 13, 14]));
    assert_eq!(extract_region(&buf, 3, 2), Some(vec![13, 14]));
    assert_eq!(extract_region(&buf, 3, 3), None);
    assert_eq!(extract_region(&buf, 6, 0), None);
    assert_eq!(extract_region(&buf, 2, 0), Some(Vec::new()));
}

#[test]
fn test_fingerprint_same_bytes_twice_identical() {
    // Fingerprinting is a pure function of the file bytes: two
    // independent runs over the same bytes record identical encodings.
    let bytes = png_bytes(48, 48);
    let mut cache1 = HashCache::new();
    let mut cache2 = HashCache::new();
    let first = fingerprint_and_record(&mut cache1, &"p.png".to_string(), 7, &bytes).unwrap();
    let second = fingerprint_and_record(&mut cache2, &"p.png".to_string(), 7, &bytes).unwrap();
    assert_eq!(first, second);
}

#[test]
fn test_zero_dimension_image_counts_as_undecodable() {
    // A file whose header declares an empty axis decodes to an image
    // without pixels; loading treats it as a failed decode instead of
    // resampling it.
    let mut zero_width: Vec<u8> = b"farbfeld".to_vec();
    zero_width.extend_from_slice(&0u32.to_be_bytes());
    zero_width.extend_from_slice(&600u32.to_be_bytes());
    assert!(load_image(&zero_width).is_none());

    let mut zero_height: Vec<u8> = b"farbfeld".to_vec();
    zero_height.extend_from_slice(&600u32.to_be_bytes());
    zero_height.extend_from_slice(&0u32.to_be_bytes());
    assert!(load_image(&zero_height).is_none());

    let mut zero_both: Vec<u8> = b"farbfeld".to_vec();
    zero_both.extend_from_slice(&0u32.to_be_bytes());
    zero_both.extend_from_slice(&0u32.to_be_bytes());
    assert!(load_image(&zero_both).is_none());

    // The fingerprinting path drops such a file with an error rather
    // than a panic: nothing is recorded in the cache.
    let mut cache = HashCache::new();
    assert_eq!(fingerprint_and_record(&mut cache, &"z.ff".to_string(), 3, &zero_width), None);
    assert_eq!(cache.get("z.ff", 3), None);
}
