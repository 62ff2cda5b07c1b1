use photo_scanner::hash::generate_hash;
use photo_scanner::models::{sort_by_score, limit_results, Payload, VectorOutput};
use photo_scanner::paths::{folder_name, is_jpeg};
use photo_scanner::policy::can_be_skipped;

#[test]
fn test_can_be_skipped() {
    // Test case 1: No description
    assert!(!can_be_skipped(&None));

    // Test case 2: Description without image-related keywords
    assert!(can_be_skipped(&Some("random description".to_string())));

    // Test case 3: Description with "image" keyword
    assert!(!can_be_skipped(&Some("this is an image of nature".to_string())));

    // Test case 4: Description with "photo" keyword
    assert!(!can_be_skipped(&Some("beautiful photo".to_string())));

    // Test case 5: Description with "PICTURE" keyword (case insensitive)
    assert!(!can_be_skipped(&Some("This PICTURE shows mountains".to_string())));

    // Test case 6: Description with "photograph" keyword
    assert!(!can_be_skipped(&Some("A photograph of sunset".to_string())));
}

#[test]
fn test_skip_policy_whole_words_only() {
    // "photographer" contains "photograph" only as a prefix of a longer
    // word, so the description is not generic and the file is skipped.
    assert!(can_be_skipped(&Some("portrait by a photographer".to_string())));
    // Tokens at the very edges of the text still count as whole words.
    assert!(!can_be_skipped(&Some("image".to_string())));
    assert!(!can_be_skipped(&Some("an italian Picture".to_string())));
    // Punctuation is a word boundary.
    assert!(!can_be_skipped(&Some("a nice photo, truly".to_string())));
    // The empty description is not generic, so it is skipped.
    assert!(can_be_skipped(&Some(String::new())));
}

#[test]
fn test_generate_hash() {
    // Test case 1: Same path should generate same hash
    let path1 = "/test/path/file.jpg";
    let path2 = "/test/path/file.jpg";
    assert_eq!(generate_hash(path1), generate_hash(path2));

    // Test case 2: Different paths should generate different hashes
    let path3 = "/test/path/file2.jpg";
    assert_ne!(generate_hash(path1), generate_hash(path3));

    // Test case 3: Empty path
    let result = generate_hash("");
    assert!(result > 0); // Hash should still be generated

    // Test case 4: Case sensitivity
    let path_lower = "/test/path/FILE.jpg";
    let path_upper = "/test/path/file.jpg";
    assert_ne!(generate_hash(path_lower), generate_hash(path_upper));

    // Test case 5: Path with special characters
    let path_special = "/test/path/file#1@.jpg";
    let result = generate_hash(path_special);
    assert!(result > 0);

    // Test case 6: Hash should be always the same
    let path1 = "/test/path/file.jpg";
    assert_eq!(12776033237478848503, generate_hash(path1));
}

#[test]
fn test_is_jpeg() {
    assert!(is_jpeg("image.jpg"));
    assert!(is_jpeg("image.jpeg"));
    assert!(!is_jpeg("image.png"));
    assert!(!is_jpeg("image"));
}

#[test]
fn test_is_jpeg_more_shapes() {
    // Extensions compare case-insensitively.
    assert!(is_jpeg("image1.JPG"));
    assert!(is_jpeg("photos/rome/image2.JpEg"));
    // A leading dot alone does not make an extension.
    assert!(!is_jpeg(".jpg"));
    assert!(!is_jpeg("dir/.jpg"));
    // The last dot decides.
    assert!(is_jpeg("archive.tar.jpg"));
    assert!(!is_jpeg("archive.jpg.tar"));
}

#[test]
fn test_folder_name() {
    assert_eq!(folder_name("/photos/2023/rome/img.jpg"), "rome");
    assert_eq!(folder_name("rome/img.jpg"), "rome");
    // No parent component at all.
    assert_eq!(folder_name("img.jpg"), "Unknown");
    // A root-level file has an empty parent name.
    assert_eq!(folder_name("/img.jpg"), "Unknown");
}

fn output(id: u64, score: Option<f32>) -> VectorOutput {
    VectorOutput { id, score: score.map(f32::to_bits), payload: Payload::new() }
}

#[test]
fn test_sort_by_score() {
    let mut outputs = vec![
        output(1, Some(0.3)),
        output(2, Some(0.5)),
        output(3, Some(0.1)),
    ];

    sort_by_score(&mut outputs);

    assert_eq!(outputs[0].id, 2);
    assert_eq!(outputs[1].id, 1);
    assert_eq!(outputs[2].id, 3);
}

#[test]
fn test_sort_by_score_missing_scores_last() {
    let mut outputs = vec![
        output(1, None),
        output(2, Some(0.9)),
        output(3, None),
        output(4, Some(0.2)),
    ];

    sort_by_score(&mut outputs);

    assert_eq!(outputs[0].id, 2);
    assert_eq!(outputs[1].id, 4);
    assert!(outputs[2].score.is_none());
    assert!(outputs[3].score.is_none());
}

#[test]
fn test_limit_results() {
    let mut output_list = vec![
        output(0, Some(0.5)),
        output(0, Some(0.8)),
        output(0, Some(0.3)),
        output(0, None),
    ];

    limit_results(&mut output_list, 0.4f32.to_bits());

    assert_eq!(output_list.len(), 2);
    assert_eq!(output_list[0].score, Some(0.5f32.to_bits()));
    assert_eq!(output_list[1].score, Some(0.8f32.to_bits()));
}

#[test]
fn test_limit_results_threshold_is_strict() {
    let mut output_list = vec![output(1, Some(0.4)), output(2, Some(0.41))];
    limit_results(&mut output_list, 0.4f32.to_bits());
    assert_eq!(output_list.len(), 1);
    assert_eq!(output_list[0].id, 2);
}

#[test]
fn test_payload_get() {
    let mut p = Payload::new();
    p.insert("path".to_string(), "/a/b.jpg".to_string());
    p.insert("description".to_string(), "a sunny square".to_string());
    assert_eq!(p.get("description"), Some("a sunny square".to_string()));
    assert_eq!(p.get("path"), Some("/a/b.jpg".to_string()));
    assert_eq!(p.get("folder"), None);
}
