use samepic::open::PileEntry;
use samepic::{Open, OpenOptions};

fn entry(name: &str, is_dir: bool, file_count: usize) -> PileEntry {
    PileEntry { name: name.to_string(), is_dir, file_count }
}

fn replay(start_at: Option<&str>, skip_singles: bool) -> Open {
    Open {
        path: "dest".to_string(),
        start_at: start_at.map(|s| s.to_string()),
        options: OpenOptions { opener: None, skip_singles },
    }
}

#[test]
fn shows_only_directories() {
    let entries = vec![
        entry("2020-01-01_0000", true, 2),
        entry("info.txt", false, 0),
        entry("2020-01-02_0000", true, 1),
    ];
    let sel = replay(None, false).selection(&entries).unwrap();
    assert_eq!(sel, vec![0, 2]);
}

#[test]
fn skips_single_image_piles_when_asked() {
    let entries = vec![
        entry("a", true, 1),
        entry("b", true, 2),
        entry("c", true, 0),
        entry("d", true, 3),
    ];
    let sel = replay(None, true).selection(&entries).unwrap();
    assert_eq!(sel, vec![1, 3]);
}

#[test]
fn starts_at_the_named_pile() {
    let entries = vec![
        entry("a", true, 2),
        entry("b", true, 2),
        entry("c", true, 2),
    ];
    let sel = replay(Some("b"), false).selection(&entries).unwrap();
    assert_eq!(sel, vec![1, 2]);
}

#[test]
fn missing_start_pile_is_an_error() {
    let entries = vec![entry("a", true, 2)];
    let err = replay(Some("zz"), false).selection(&entries).unwrap_err();
    assert_eq!(err.start_at, "zz");
}

#[test]
fn new_replay_starts_at_the_beginning() {
    let opened = Open::new(
        "dest".to_string(),
        OpenOptions { opener: Some("viewer".to_string()), skip_singles: true },
    );
    assert!(opened.start_at.is_none());
    assert_eq!(opened.path, "dest");
    assert_eq!(opened.options.opener.as_deref(), Some("viewer"));
    assert!(opened.options.skip_singles);
}
