use imagesorter::scanner::is_supported_extension;
use imagesorter::scanner::supported_extensions;

#[test]
fn test_supported_extensions() {
    let exts = supported_extensions();
    assert!(exts.iter().any(|e| e == "jpg"));
    assert!(exts.iter().any(|e| e == "jpeg"));
    assert!(exts.iter().any(|e| e == "png"));
    assert!(exts.iter().any(|e| e == "gif"));
    assert!(exts.iter().any(|e| e == "webp"));
    assert!(!exts.iter().any(|e| e == "txt"));
    assert!(!exts.iter().any(|e| e == "pdf"));
    assert!(!exts.iter().any(|e| e == "mp4"));
}

#[test]
fn test_is_supported_extension() {
    assert!(is_supported_extension("jpg"));
    assert!(is_supported_extension("JPG")); // Case insensitive
    assert!(is_supported_extension("JPEG"));
    assert!(is_supported_extension("png"));
    assert!(!is_supported_extension("txt"));
    assert!(!is_supported_extension(""));
}

#[test]
fn test_is_supported_extension_edge_cases() {
    assert!(is_supported_extension("TIFF"));
    assert!(is_supported_extension("HeIc"));
    assert!(!is_supported_extension("jpg "));
    assert!(!is_supported_extension("jp\u{00e9}g"));
}
