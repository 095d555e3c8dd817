use imagesorter::sidecar::find_sidecars;

fn strings(v: &[&str]) -> Vec<String> {
    v.iter().map(|s| s.to_string()).collect()
}

#[test]
fn test_find_sidecars_standard() {
    let existing = strings(&["d/test.jpg", "d/test.xmp"]);
    let sidecars = find_sidecars(&"d/test.jpg".to_string(), &existing);
    assert_eq!(sidecars.len(), 1);
    assert_eq!(sidecars[0], "d/test.xmp");
}

#[test]
fn test_find_sidecars_google_takeout() {
    // Photo-export style: the sidecar carries the full image name.
    let existing = strings(&["d/IMG_1234.JPG", "d/IMG_1234.JPG.json"]);
    let sidecars = find_sidecars(&"d/IMG_1234.JPG".to_string(), &existing);
    assert_eq!(sidecars.len(), 1);
    assert_eq!(sidecars[0], "d/IMG_1234.JPG.json");
}

#[test]
fn test_find_multiple_sidecars() {
    let existing = strings(&["d/test.jpg", "d/test.xmp", "d/test.aae"]);
    let sidecars = find_sidecars(&"d/test.jpg".to_string(), &existing);
    assert_eq!(sidecars.len(), 2);
    assert_eq!(sidecars[0], "d/test.xmp");
    assert_eq!(sidecars[1], "d/test.aae");
}

#[test]
fn test_find_sidecars_uppercase_extension() {
    let existing = strings(&["d/shot.jpg", "d/shot.XMP"]);
    let sidecars = find_sidecars(&"d/shot.jpg".to_string(), &existing);
    assert_eq!(sidecars, vec!["d/shot.XMP".to_string()]);
}

#[test]
fn test_find_sidecars_prefers_stem_form() {
    let existing = strings(&["d/a.jpg", "d/a.xmp", "d/a.jpg.xmp"]);
    let sidecars = find_sidecars(&"d/a.jpg".to_string(), &existing);
    assert_eq!(sidecars, vec!["d/a.xmp".to_string()]);
}

#[test]
fn test_find_sidecars_none() {
    let existing = strings(&["d/alone.jpg"]);
    let sidecars = find_sidecars(&"d/alone.jpg".to_string(), &existing);
    assert!(sidecars.is_empty());
}
