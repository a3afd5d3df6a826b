use samepic::naming::{
    candidate_file_name, collect_extension, collect_file_stem, date_string, joined_path,
    pile_dir_string, sibling_dir_name, timestamp_stem, CollectNameError,
};

#[test]
fn date_strings() {
    assert_eq!(date_string(0), "1970-01-01");
    assert_eq!(date_string(-1), "1969-12-31");
    assert_eq!(date_string(19723), "2024-01-01");
    assert_eq!(date_string(2932896), "9999-12-31");
}

#[test]
fn pile_dir_names() {
    assert_eq!(pile_dir_string(0, 0), "1970-01-01_0000");
    assert_eq!(pile_dir_string(0, 1), "1970-01-01_0001");
    assert_eq!(pile_dir_string(19723, 42), "2024-01-01_0042");
    assert_eq!(pile_dir_string(0, 10000), "1970-01-01_10000");
}

#[test]
fn timestamp_stems() {
    assert_eq!(timestamp_stem(1462330921), "2016-05-04T03-02-01");
    assert_eq!(timestamp_stem(0), "1970-01-01T00-00-00");
}

#[test]
fn candidate_names() {
    assert_eq!(candidate_file_name("photo", "jpg", 0), "photo.jpg");
    assert_eq!(candidate_file_name("photo", "jpg", 1), "photo-1.jpg");
    assert_eq!(candidate_file_name("photo", "jpg", 12), "photo-12.jpg");
}

#[test]
fn sibling_names() {
    let base = "holiday".to_string();
    assert_eq!(sibling_dir_name(Some(&base), "sorted"), "holiday-sorted");
    assert_eq!(sibling_dir_name(None, "sorted"), "sorted");
}

#[test]
fn joined_paths() {
    assert_eq!(joined_path("dest", "1970-01-01_0000"), "dest/1970-01-01_0000");
}

#[test]
fn collect_stems() {
    let renamed = collect_file_stem("pics/img.jpg", false, 1462330921).unwrap();
    assert_eq!(renamed, "2016-05-04T03-02-01");
    let kept = collect_file_stem("pics/img.jpg", true, 0).unwrap();
    assert_eq!(kept, "img");
    assert_eq!(collect_extension("pics/img.jpg").unwrap(), "jpg");
    assert!(matches!(
        collect_extension("pics/img"),
        Err(CollectNameError::MissingExtension)
    ));
}
