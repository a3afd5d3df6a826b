use samepic::fingerprint::Fingerprint;
use samepic::{Image, MatchConfig, Repository};

fn hash_bits(ones: usize) -> Vec<u8> {
    // A 16-byte fingerprint with the first `ones` bits set.
    let mut bytes = vec![0u8; 16];
    for bit in 0..ones {
        bytes[bit / 8] |= 1 << (bit % 8);
    }
    bytes
}

fn img(path: &str, ts: i64, hash: Vec<u8>) -> Image {
    Image {
        path: path.to_string(),
        timestamp: ts,
        hash: Fingerprint { bits: hash },
    }
}

fn grouping(repo: &Repository) -> Vec<Vec<String>> {
    let mut piles: Vec<Vec<String>> = repo
        .piles
        .iter()
        .map(|p| {
            let mut names: Vec<String> =
                p.pictures.iter().map(|i| i.path().clone()).collect();
            names.sort();
            names
        })
        .collect();
    piles.sort();
    piles
}

#[test]
fn three_similar_one_far() {
    // Three images with fingerprints a few bits apart and timestamps within
    // five minutes; a fourth 50 bits away and two days later.
    let a = img("a.jpg", 1_000_000, hash_bits(0));
    let b = img("b.jpg", 1_000_060, hash_bits(3));
    let c = img("c.jpg", 1_000_240, hash_bits(6));
    let d = img("d.jpg", 1_172_800, hash_bits(50));
    let repo = Repository::new(vec![a, b, c, d], MatchConfig::default());
    let groups = grouping(&repo);
    assert_eq!(groups.len(), 2);
    assert_eq!(groups[0], vec!["a.jpg", "b.jpg", "c.jpg"]);
    assert_eq!(groups[1], vec!["d.jpg"]);
}

#[test]
fn chain_transitivity() {
    // a matches b (6 bits) and b matches c (6 bits), but a does not match c
    // directly (12 bits): all three still end in one pile.
    let mut hb = vec![0u8; 16];
    hb[0] = 0x3f; // bits 0..6
    let mut hc = vec![0u8; 16];
    hc[0] = 0x3f;
    hc[1] = 0x3f; // bits 0..6 and 8..14: 6 from b, 12 from a
    let a = img("a.jpg", 0, hash_bits(0));
    let b = img("b.jpg", 60, hb);
    let c = img("c.jpg", 120, hc);
    let repo = Repository::new(vec![a, b, c], MatchConfig::default());
    let groups = grouping(&repo);
    assert_eq!(groups.len(), 1);
    assert_eq!(groups[0], vec!["a.jpg", "b.jpg", "c.jpg"]);
}

#[test]
fn unmatched_images_get_singleton_piles() {
    let a = img("a.jpg", 0, hash_bits(0));
    let b = img("b.jpg", 0, hash_bits(64));
    let c = img("c.jpg", 0, hash_bits(128));
    let repo = Repository::new(vec![a, b, c], MatchConfig::default());
    let groups = grouping(&repo);
    assert_eq!(
        groups,
        vec![vec!["a.jpg"], vec!["b.jpg"], vec!["c.jpg"]]
    );
}

#[test]
fn time_window_is_required() {
    // Identical fingerprints, but two hours apart: no match.
    let a = img("a.jpg", 0, hash_bits(0));
    let b = img("b.jpg", 7200, hash_bits(0));
    let repo = Repository::new(vec![a, b], MatchConfig::default());
    assert_eq!(grouping(&repo).len(), 2);
}

#[test]
fn hash_distance_is_required() {
    // Same moment, but fingerprints 20 bits apart: no match.
    let a = img("a.jpg", 0, hash_bits(0));
    let b = img("b.jpg", 0, hash_bits(20));
    let repo = Repository::new(vec![a, b], MatchConfig::default());
    assert_eq!(grouping(&repo).len(), 2);
}

#[test]
fn partition_covers_every_image_once() {
    let images = vec![
        img("a.jpg", 0, hash_bits(0)),
        img("b.jpg", 60, hash_bits(3)),
        img("c.jpg", 1_000_000, hash_bits(40)),
        img("d.jpg", 2_000_000, hash_bits(90)),
        img("e.jpg", 2_000_030, hash_bits(93)),
    ];
    let repo = Repository::new(images, MatchConfig::default());
    let mut all: Vec<String> = repo
        .piles
        .iter()
        .flat_map(|p| p.pictures.iter().map(|i| i.path().clone()))
        .collect();
    all.sort();
    assert_eq!(all, vec!["a.jpg", "b.jpg", "c.jpg", "d.jpg", "e.jpg"]);
    for pile in &repo.piles {
        assert!(pile.len() >= 1);
    }
}

#[test]
fn pile_date_is_minimum_member_day() {
    // Day 0 and day 1 timestamps in one pile: the pile is dated day 0.
    let a = img("a.jpg", 86399, hash_bits(0));
    let b = img("b.jpg", 86401, hash_bits(1));
    let repo = Repository::new(vec![b, a], MatchConfig::default());
    assert_eq!(repo.piles.len(), 1);
    assert_eq!(repo.piles[0].date(), 0);
}

#[test]
fn recluster_same_grouping() {
    // Re-running the engine on the same fingerprint set in the same order
    // groups the paths identically.
    let make = || {
        vec![
            img("a.jpg", 0, hash_bits(0)),
            img("b.jpg", 60, hash_bits(3)),
            img("c.jpg", 120, hash_bits(6)),
            img("d.jpg", 1_172_800, hash_bits(50)),
            img("e.jpg", 1_172_860, hash_bits(52)),
        ]
    };
    let first = Repository::new(make(), MatchConfig::default());
    let second = Repository::new(make(), MatchConfig::default());
    assert_eq!(grouping(&first), grouping(&second));
}

#[test]
fn custom_thresholds_change_the_partition() {
    let a = img("a.jpg", 0, hash_bits(0));
    let b = img("b.jpg", 60, hash_bits(12));
    let strict = Repository::new(
        vec![a.duplicate(), b.duplicate()],
        MatchConfig::default(),
    );
    assert_eq!(strict.piles.len(), 2);
    let loose = Repository::new(
        vec![a, b],
        MatchConfig {
            hash_threshold: 16,
            time_window_seconds: 1800,
        },
    );
    assert_eq!(loose.piles.len(), 1);
}

#[test]
fn default_config_thresholds() {
    let cfg = MatchConfig::default();
    assert_eq!(cfg.hash_threshold, 10);
    assert_eq!(cfg.time_window_seconds, 1800);
}
