use samepic::fingerprint::Fingerprint;
use samepic::{Image, Pile, Repository};

fn img(path: &str, ts: i64) -> Image {
    Image {
        path: path.to_string(),
        timestamp: ts,
        hash: Fingerprint { bits: vec![0u8; 16] },
    }
}

#[test]
fn same_date_piles_get_numbered_directories() {
    // Two piles whose members fall on the same day are materialized as
    // `date_0000` and `date_0001`.
    let piles = vec![
        Pile::new(img("one/a.jpg", 0)),
        Pile::new(img("two/b.jpg", 600)),
    ];
    let repo = Repository { piles };
    let plan = repo.create_piles("dest").unwrap();
    assert_eq!(plan.dirs.len(), 2);
    assert_eq!(plan.dirs[0].dir_name, "1970-01-01_0000");
    assert_eq!(plan.dirs[1].dir_name, "1970-01-01_0001");
    assert_eq!(plan.dirs[0].dir_path, "dest/1970-01-01_0000");
    assert_eq!(plan.dirs[1].dir_path, "dest/1970-01-01_0001");
}

#[test]
fn distinct_dates_restart_the_counter() {
    let piles = vec![
        Pile::new(img("a.jpg", 0)),
        Pile::new(img("b.jpg", 86400)),
        Pile::new(img("c.jpg", 600)),
    ];
    let repo = Repository { piles };
    let plan = repo.create_piles("out").unwrap();
    let names: Vec<&str> = plan.dirs.iter().map(|d| d.dir_name.as_str()).collect();
    assert_eq!(
        names,
        vec!["1970-01-01_0000", "1970-01-02_0000", "1970-01-01_0001"]
    );
}

#[test]
fn links_keep_base_names() {
    let mut pile = Pile::new(img("photos/2016/a.jpg", 0));
    pile.push(img("photos/other/b.jpg", 60));
    let repo = Repository { piles: vec![pile] };
    let plan = repo.create_piles("dest").unwrap();
    assert_eq!(plan.dirs.len(), 1);
    let links = &plan.dirs[0].links;
    assert_eq!(links.len(), 2);
    let mut pairs: Vec<(String, String)> = links
        .iter()
        .map(|l| (l.source.clone(), l.target.clone()))
        .collect();
    pairs.sort();
    assert_eq!(
        pairs,
        vec![
            (
                "photos/2016/a.jpg".to_string(),
                "dest/1970-01-01_0000/a.jpg".to_string()
            ),
            (
                "photos/other/b.jpg".to_string(),
                "dest/1970-01-01_0000/b.jpg".to_string()
            ),
        ]
    );
}

#[test]
fn unusable_file_name_is_reported() {
    // A path that ends in `..` has no final component to link under.
    let repo = Repository { piles: vec![Pile::new(img("photos/..", 0))] };
    let err = repo.create_piles("dest").unwrap_err();
    assert_eq!(err.path, "photos/..");
}
