use samepic::fingerprint::Fingerprint;
use samepic::{Image, Pile, Stats};

fn img(path: &str, ts: i64) -> Image {
    Image {
        path: path.to_string(),
        timestamp: ts,
        hash: Fingerprint { bits: vec![0u8; 16] },
    }
}

fn pile(paths_and_times: &[(&str, i64)]) -> Pile {
    let mut iter = paths_and_times.iter();
    let first = iter.next().unwrap();
    let mut p = Pile::new(img(first.0, first.1));
    for (path, ts) in iter {
        p.push(img(path, *ts));
    }
    p
}

#[test]
fn aggregates_over_three_piles() {
    let piles = vec![
        pile(&[("a.jpg", 0), ("b.jpg", 600), ("c.jpg", 1200)]),
        pile(&[("d.jpg", 86400)]),
        pile(&[("e.jpg", 172800), ("f.jpg", 172860)]),
    ];
    let stats = Stats::from_piles(&piles, 1234);
    assert_eq!(stats.total_pics, 6);
    assert_eq!(stats.total_piles, 3);
    assert_eq!(stats.max_pile_size, 3);
    // Sorted sizes are [1, 2, 3]; the middle element is 2.
    assert_eq!(stats.median_pile_size, 2);
    // The first pile spreads 1200 seconds, which is 20 minutes.
    assert_eq!(stats.longest_time_delta, 20);
    assert_eq!(stats.run_time_ms, 1234);
}

#[test]
fn single_pile_statistics() {
    let piles = vec![pile(&[("a.jpg", 100), ("b.jpg", 159)])];
    let stats = Stats::from_piles(&piles, 0);
    assert_eq!(stats.total_pics, 2);
    assert_eq!(stats.total_piles, 1);
    assert_eq!(stats.max_pile_size, 2);
    assert_eq!(stats.median_pile_size, 2);
    // 59 seconds is zero whole minutes.
    assert_eq!(stats.longest_time_delta, 0);
}

#[test]
fn median_of_even_count_takes_upper_middle() {
    let piles = vec![
        pile(&[("a.jpg", 0)]),
        pile(&[("b.jpg", 0), ("c.jpg", 0), ("d.jpg", 0)]),
    ];
    let stats = Stats::from_piles(&piles, 0);
    // Sorted sizes are [1, 3]; index 2 / 2 == 1 picks 3.
    assert_eq!(stats.median_pile_size, 3);
}

#[test]
fn pile_dates_follow_members() {
    let mut p = pile(&[("a.jpg", 86400 * 10)]);
    assert_eq!(p.date(), 10);
    p.push(img("b.jpg", 86400 * 3 + 5));
    assert_eq!(p.date(), 3);
    let other = pile(&[("c.jpg", 86400)]);
    p.merge(other);
    assert_eq!(p.date(), 1);
    assert_eq!(p.len(), 3);
}

#[test]
fn pushing_a_duplicate_path_changes_nothing() {
    let mut p = pile(&[("a.jpg", 1000)]);
    // A second record with the same path is not inserted, so the date
    // cannot drop to the duplicate's day.
    p.push(img("a.jpg", -432000));
    assert_eq!(p.len(), 1);
    assert_eq!(p.date(), 0);
}
