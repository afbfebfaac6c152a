use process_stereo_image_csvs::paths::{find_pattern, holds_csv_dir_marker, image_path_and_frame_number};

fn names(path: &str) -> (String, String) {
    let (image, frame) = image_path_and_frame_number(path.as_bytes());
    (String::from_utf8(image).unwrap(), String::from_utf8(frame).unwrap())
}

#[test]
fn names_of_a_pool_frame() {
    assert_eq!(
        names("/home/user/stereo_image_csvs/pool/pool_12.csv"),
        ("processed_images/pool/pool_12.png".to_string(), "12".to_string())
    );
}

#[test]
fn names_without_underscore_or_extension() {
    assert_eq!(
        names("stereo_image_csvs/frame7"),
        ("processed_images/frame7.png".to_string(), "frame7".to_string())
    );
}

#[test]
fn names_stop_at_second_marker_and_first_extension() {
    assert_eq!(
        names("a/stereo_image_csvs/x_1.csv.csv/stereo_image_csvs/y_2.csv"),
        ("processed_images/x_1.png".to_string(), "1".to_string())
    );
    assert_eq!(
        names("stereo_image_csvs/run_a_b_33.csv"),
        ("processed_images/run_a_b_33.png".to_string(), "33".to_string())
    );
    assert_eq!(names("stereo_image_csvs/pool_.csv"), ("processed_images/pool_.png".to_string(), "".to_string()));
}

#[test]
fn find_pattern_finds_first_from_start() {
    assert_eq!(find_pattern(b"abcabc", b"bc", 0), Some(1));
    assert_eq!(find_pattern(b"abcabc", b"bc", 2), Some(4));
    assert_eq!(find_pattern(b"abcabc", b"bd", 0), None);
    assert_eq!(find_pattern(b"ab", b"abc", 0), None);
    assert_eq!(find_pattern(b"abc", b"", 1), Some(1));
    assert_eq!(find_pattern(b"abc", b"c", 7), None);
}

#[test]
fn marker_check() {
    assert!(holds_csv_dir_marker(b"x/stereo_image_csvs/a.csv"));
    assert!(holds_csv_dir_marker(b"stereo_image_csvs/"));
    assert!(!holds_csv_dir_marker(b"x/stereo_image_csv/a.csv"));
    assert!(!holds_csv_dir_marker(b""));
}
