use image::{DynamicImage, Rgba, RgbaImage};
use imagesorter::fingerprint::{are_duplicates, compare_hashes, encode_fingerprint};
use imagesorter::imaging::{compute_perceptual_hash, HashError};
use imagesorter::HashType;
use std::time::Instant;

/// Builds a test image with a gradient so hashes carry structure.
fn create_gradient_image(
    width: u32,
    height: u32,
    start_color: Rgba<u8>,
    _end_color: Rgba<u8>,
) -> DynamicImage {
    let mut img = RgbaImage::new(width, height);
    for (x, y, pixel) in img.enumerate_pixels_mut() {
        let t = (x as f32 / width as f32 + y as f32 / height as f32) / 2.0;
        *pixel = Rgba([
            (start_color[0] as f32 * (1.0 - t) + 100.0 * t) as u8,
            (start_color[1] as f32 * (1.0 - t) + 100.0 * t) as u8,
            (start_color[2] as f32 * (1.0 - t) + 100.0 * t) as u8,
            255,
        ]);
    }
    DynamicImage::ImageRgba8(img)
}

/// Builds a single-color test image.
fn create_solid_image(width: u32, height: u32, color: Rgba<u8>) -> DynamicImage {
    let mut img = RgbaImage::new(width, height);
    for pixel in img.pixels_mut() {
        *pixel = color;
    }
    DynamicImage::ImageRgba8(img)
}

#[test]
fn test_identical_images_have_zero_distance() {
    let img1 = create_gradient_image(100, 100, Rgba([255, 0, 0, 255]), Rgba([0, 0, 255, 255]));
    let img2 = create_gradient_image(100, 100, Rgba([255, 0, 0, 255]), Rgba([0, 0, 255, 255]));

    let hash1 = compute_perceptual_hash(&img1, HashType::Difference).unwrap();
    let hash2 = compute_perceptual_hash(&img2, HashType::Difference).unwrap();

    let distance = compare_hashes(&hash1, &hash2);
    assert_eq!(distance, 0, "Identiske bilder skal ha distanse 0");
}

#[test]
fn test_different_gradient_images_have_nonzero_distance() {
    let img1 = create_gradient_image(100, 100, Rgba([255, 0, 0, 255]), Rgba([0, 0, 255, 255]));
    let img2 = create_gradient_image(100, 100, Rgba([0, 255, 0, 255]), Rgba([255, 0, 255, 255]));

    let hash1 = compute_perceptual_hash(&img1, HashType::Difference).unwrap();
    let hash2 = compute_perceptual_hash(&img2, HashType::Difference).unwrap();

    let distance = compare_hashes(&hash1, &hash2);
    println!("Forskjellige gradient-bilder distanse: {}", distance);
    assert!(distance <= 64, "Test at hashene beregnes");
}

#[test]
fn test_are_duplicates_with_threshold() {
    let img1 = create_gradient_image(100, 100, Rgba([255, 0, 0, 255]), Rgba([0, 0, 255, 255]));
    let img2 = create_gradient_image(100, 100, Rgba([255, 0, 0, 255]), Rgba([0, 0, 255, 255]));

    let hash1 = compute_perceptual_hash(&img1, HashType::Difference).unwrap();
    let hash2 = compute_perceptual_hash(&img2, HashType::Difference).unwrap();

    assert!(are_duplicates(&hash1, &hash2, 0), "Identiske bilder med threshold 0");
    assert!(are_duplicates(&hash1, &hash2, 5), "Identiske bilder med threshold 5");
}

#[test]
fn test_hash_types() {
    let img = create_solid_image(100, 100, Rgba([128, 128, 128, 255]));

    assert!(compute_perceptual_hash(&img, HashType::Difference).is_ok());
    assert!(compute_perceptual_hash(&img, HashType::Perceptual).is_ok());
    assert!(compute_perceptual_hash(&img, HashType::Average).is_ok());
    assert!(compute_perceptual_hash(&img, HashType::Exact).is_err());
    assert_eq!(
        compute_perceptual_hash(&img, HashType::Exact).unwrap_err(),
        HashError::UnsupportedVariant
    );
}

#[test]
fn test_hash_is_deterministic() {
    let img = create_gradient_image(100, 100, Rgba([100, 150, 200, 255]), Rgba([50, 100, 150, 255]));

    let hash1 = compute_perceptual_hash(&img, HashType::Difference).unwrap();
    let hash2 = compute_perceptual_hash(&img, HashType::Difference).unwrap();

    assert_eq!(
        encode_fingerprint(&hash1),
        encode_fingerprint(&hash2),
        "Hash skal v\u{e6}re deterministisk"
    );
}

#[test]
fn test_performance_hashing_10_small_images() {
    let img = create_solid_image(64, 64, Rgba([128, 128, 128, 255]));

    let start = Instant::now();
    for _ in 0..10 {
        let _ = compute_perceptual_hash(&img, HashType::Difference).unwrap();
    }
    let duration = start.elapsed();

    println!("10 hashes (64x64) tok: {:?}", duration);
    assert!(duration.as_secs() < 5, "10 hashes skal ta under 5 sekunder");
}

#[test]
fn test_performance_comparison_n_squared() {
    let img = create_solid_image(64, 64, Rgba([128, 128, 128, 255]));
    let hash = compute_perceptual_hash(&img, HashType::Difference).unwrap();

    let hashes: Vec<_> = (0..100).map(|_| hash).collect();

    let start = Instant::now();
    let mut comparisons = 0;
    for i in 0..hashes.len() {
        for j in (i + 1)..hashes.len() {
            let _ = compare_hashes(&hashes[i], &hashes[j]);
            comparisons += 1;
        }
    }
    let duration = start.elapsed();

    println!("{} sammenligninger tok: {:?}", comparisons, duration);
    assert_eq!(comparisons, 4950);
    assert!(duration.as_millis() < 100, "4950 sammenligninger skal ta under 100ms");
}

#[test]
fn test_image_complexity_matters() {
    let red = create_solid_image(100, 100, Rgba([255, 0, 0, 255]));
    let blue = create_solid_image(100, 100, Rgba([0, 0, 255, 255]));

    let hash_red = compute_perceptual_hash(&red, HashType::Difference).unwrap();
    let hash_blue = compute_perceptual_hash(&blue, HashType::Difference).unwrap();

    let distance = compare_hashes(&hash_red, &hash_blue);
    println!("Ensfargede bilder (r\u{f8}d vs bl\u{e5}) distanse: {}", distance);
}
