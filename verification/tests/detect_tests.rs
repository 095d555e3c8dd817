use imagesorter::detect::{
    build_exact_groups, build_result, count_signature_failures, exact_candidates_mask,
    extract_groups, visual_scan_set,
    DuplicateGroup, FileMeta, ImageInfo, ImageWithHash,
};
use imagesorter::fingerprint::encode_fingerprint;
use imagesorter::hashing::compute_partial_hash;
use imagesorter::PerceptualFingerprint;

fn meta(path: &str, size: u64) -> FileMeta {
    FileMeta {
        path: path.to_string(),
        filename: path.rsplit('/').next().unwrap_or(path).to_string(),
        size: Some(size),
        mtime: 100,
    }
}

fn item(path: &str, size: u64, bits: u64) -> ImageWithHash {
    ImageWithHash {
        info: ImageInfo {
            path: path.to_string(),
            filename: path.to_string(),
            size_bytes: size,
        },
        hash: encode_fingerprint(&PerceptualFingerprint { bits }),
    }
}

fn group_paths(groups: &[DuplicateGroup]) -> Vec<Vec<String>> {
    groups
        .iter()
        .map(|g| g.images.iter().map(|i| i.path.clone()).collect())
        .collect()
}

#[test]
fn test_exact_candidates_mask_by_shared_size() {
    let files = vec![meta("a", 5), meta("b", 5), meta("c", 7)];
    let mask = exact_candidates_mask(&files);
    assert_eq!(mask, vec![true, true, false]);
}

#[test]
fn test_exact_candidates_mask_missing_size() {
    let mut files = vec![meta("a", 5), meta("b", 5)];
    files[1].size = None;
    let mask = exact_candidates_mask(&files);
    assert_eq!(mask, vec![false, false]);
}

#[test]
fn test_build_exact_groups_same_key_same_group() {
    let files = vec![meta("a", 10), meta("b", 10), meta("c", 10)];
    let content: Vec<u8> = vec![1, 2, 3];
    let other: Vec<u8> = vec![9, 9, 9];
    let sig_same = compute_partial_hash(&content, &None, 10);
    let sig_other = compute_partial_hash(&other, &None, 10);
    let sigs = vec![Some(sig_same.clone()), Some(sig_other), Some(sig_same)];
    let groups = build_exact_groups(&files, &sigs);
    assert_eq!(groups.len(), 2);
    // Byte-identical files a and c land in the same group.
    assert_eq!(groups[0].members, vec![0, 2]);
    assert_eq!(groups[1].members, vec![1]);
}

#[test]
fn test_visual_scan_set_order() {
    let files = vec![meta("a", 10), meta("b", 10), meta("c", 7)];
    let sig = compute_partial_hash(&vec![1], &None, 10);
    let sigs = vec![Some(sig.clone()), Some(sig), None];
    let mask = exact_candidates_mask(&files);
    let groups = build_exact_groups(&files, &sigs);
    let scan = visual_scan_set(&mask, &groups);
    // Non-candidates in input order, then one representative per group.
    assert_eq!(scan, vec![2, 0]);
}

fn scenario_files() -> (Vec<FileMeta>, Vec<imagesorter::detect::ExactGroup>) {
    // imgA and imgA_copy are byte-identical; imgB is visually similar
    // to imgA (distance 5); imgC is unrelated.
    let files = vec![
        meta("imgA.jpg", 100),
        meta("imgA_copy.jpg", 100),
        meta("imgB.jpg", 200),
        meta("imgC.jpg", 300),
    ];
    let bytes: Vec<u8> = vec![7, 7, 7];
    let sig = compute_partial_hash(&bytes, &None, 100);
    let sigs = vec![Some(sig.clone()), Some(sig), None, None];
    let groups = build_exact_groups(&files, &sigs);
    (files, groups)
}

fn scenario_hashed() -> Vec<ImageWithHash> {
    // The scan set is [imgB, imgC, imgA]; distances: A to B is 5 bits,
    // C is far from both.
    vec![
        item("imgB.jpg", 200, 0b11111),
        item("imgC.jpg", 300, 0xffff_ffff_0000_0000),
        item("imgA.jpg", 100, 0),
    ]
}

#[test]
fn test_scenario_threshold_ten_groups_all_three() {
    let (files, exact) = scenario_files();
    let hashed = scenario_hashed();
    let groups = extract_groups(&files, &hashed, &exact, 10);
    let paths = group_paths(&groups);
    assert_eq!(paths.len(), 1);
    let only = &paths[0];
    assert_eq!(only.len(), 3);
    assert!(only.contains(&"imgA.jpg".to_string()));
    assert!(only.contains(&"imgA_copy.jpg".to_string()));
    assert!(only.contains(&"imgB.jpg".to_string()));
    assert!(!only.contains(&"imgC.jpg".to_string()));
    let result = build_result(groups, 4, 3, 3, 0);
    assert_eq!(result.total_duplicates, 2);
    assert_eq!(result.processed, 4);
    assert_eq!(result.errors, 0);
}

#[test]
fn test_scenario_threshold_three_excludes_similar() {
    let (files, exact) = scenario_files();
    let hashed = scenario_hashed();
    let groups = extract_groups(&files, &hashed, &exact, 3);
    let paths = group_paths(&groups);
    // imgB (distance 5) is excluded; only the exact pair remains.
    assert_eq!(paths.len(), 1);
    let only = &paths[0];
    assert_eq!(only.len(), 2);
    assert!(only.contains(&"imgA.jpg".to_string()));
    assert!(only.contains(&"imgA_copy.jpg".to_string()));
    assert!(!only.contains(&"imgB.jpg".to_string()));
    let result = build_result(groups, 4, 3, 3, 0);
    assert_eq!(result.total_duplicates, 1);
}

#[test]
fn test_missing_file_counted_in_errors() {
    // One of the three scan items could not be read, so it yields no
    // fingerprinted item: it is counted as an error and appears in no
    // group, and the other files still group as before.
    let (files, exact) = scenario_files();
    let hashed = vec![item("imgB.jpg", 200, 0b11111), item("imgA.jpg", 100, 0)];
    let groups = extract_groups(&files, &hashed, &exact, 10);
    let paths = group_paths(&groups);
    assert_eq!(paths.len(), 1);
    assert!(paths[0].contains(&"imgA.jpg".to_string()));
    assert!(paths[0].contains(&"imgA_copy.jpg".to_string()));
    assert!(paths[0].contains(&"imgB.jpg".to_string()));
    assert!(!paths[0].contains(&"imgC.jpg".to_string()));
    let result = build_result(groups, 4, 3, 2, 0);
    assert_eq!(result.errors, 1);
}

#[test]
fn test_two_runs_give_identical_groups() {
    // Determinism: the same inputs produce the same grouping, as a
    // second run over an unchanged file set would.
    let (files, exact) = scenario_files();
    let hashed = scenario_hashed();
    let first = group_paths(&extract_groups(&files, &hashed, &exact, 10));
    let second = group_paths(&extract_groups(&files, &hashed, &exact, 10));
    assert_eq!(first, second);
}

#[test]
fn test_no_singleton_groups_and_no_overlap() {
    // Three mutually distant items and no exact groups: no output.
    let files = vec![meta("a", 1), meta("b", 2), meta("c", 3)];
    let hashed = vec![
        item("a", 1, 0),
        item("b", 2, 0xffff_ffff_0000_0000),
        item("c", 3, 0x0000_0000_ffff_ffff),
    ];
    let groups = extract_groups(&files, &hashed, &Vec::new(), 3);
    assert!(groups.is_empty());

    // Two close pairs: two disjoint groups, each of two members.
    let files2 = vec![meta("a", 1), meta("b", 2), meta("c", 3), meta("d", 4)];
    let hashed2 = vec![
        item("a", 1, 0),
        item("b", 2, 1),
        item("c", 3, 0xffff_ffff_0000_0000),
        item("d", 4, 0xffff_ffff_0000_0001),
    ];
    let groups2 = extract_groups(&files2, &hashed2, &Vec::new(), 3);
    let paths = group_paths(&groups2);
    assert_eq!(paths.len(), 2);
    for g in &paths {
        assert!(g.len() >= 2);
    }
    let mut all: Vec<String> = paths.iter().flatten().cloned().collect();
    let total = all.len();
    all.sort();
    all.dedup();
    assert_eq!(all.len(), total, "no path may appear in two groups");
}

#[test]
fn test_undecodable_hash_is_skipped() {
    let files = vec![meta("a", 1), meta("b", 2)];
    let mut hashed = vec![item("a", 1, 0), item("b", 2, 0)];
    hashed[0].hash = "not a fingerprint".to_string();
    let groups = extract_groups(&files, &hashed, &Vec::new(), 10);
    // The corrupt entry cannot join any group, and alone "b" has no
    // partner.
    assert!(groups.is_empty());
}

#[test]
fn test_total_duplicates_formula() {
    let g1 = DuplicateGroup {
        images: vec![
            ImageInfo { path: "a".to_string(), filename: "a".to_string(), size_bytes: 1 },
            ImageInfo { path: "b".to_string(), filename: "b".to_string(), size_bytes: 1 },
            ImageInfo { path: "c".to_string(), filename: "c".to_string(), size_bytes: 1 },
        ],
    };
    let g2 = DuplicateGroup {
        images: vec![
            ImageInfo { path: "d".to_string(), filename: "d".to_string(), size_bytes: 1 },
            ImageInfo { path: "e".to_string(), filename: "e".to_string(), size_bytes: 1 },
        ],
    };
    let result = build_result(vec![g1, g2], 9, 7, 5, 0);
    assert_eq!(result.total_duplicates, 3);
    assert_eq!(result.processed, 9);
    assert_eq!(result.errors, 2);
}

#[test]
fn test_unreadable_exact_candidate_counted_in_errors() {
    // A size-candidate whose partial read failed has no signature: it
    // is dropped from the run and counted as an error.
    let mask = vec![true, true, false, true];
    let content: Vec<u8> = vec![1, 2, 3];
    let sig = compute_partial_hash(&content, &None, 10);
    let sigs = vec![Some(sig.clone()), None, None, Some(sig)];
    assert_eq!(count_signature_failures(&mask, &sigs), 1);
    let result = build_result(Vec::new(), 4, 2, 2, 1);
    assert_eq!(result.errors, 1);
    assert_eq!(result.total_duplicates, 0);
}

#[test]
fn test_count_signature_failures_empty_and_all() {
    assert_eq!(count_signature_failures(&Vec::new(), &Vec::new()), 0);
    let mask = vec![true, true];
    let sigs: Vec<Option<String>> = vec![None, None];
    assert_eq!(count_signature_failures(&mask, &sigs), 2);
    let mask2 = vec![false, false];
    assert_eq!(count_signature_failures(&mask2, &sigs), 0);
}

#[test]
fn test_errors_add_both_stages() {
    // Two visual-scan items without a fingerprint plus one unreadable
    // exact candidate give three errors in all.
    let result = build_result(Vec::new(), 6, 4, 2, 1);
    assert_eq!(result.errors, 3);
    assert_eq!(result.processed, 6);
}
