use vstd::prelude::*;

use vstd::pervasive::VecAdditionalExecFns;

use crate::fingerprint::hamming;
use crate::image::{img_wf, Image, ImageModel};
use crate::laws::{engine_inv, placed, theorem_cluster_partition};
use crate::pile::{has_path, pics_insert, pics_merge, pics_wf, Pile};

verus! {

// The pile-formation engine. Pairwise similarity judgments are folded, one
// matched pair at a time, into a growing partition of the image set; the
// whole fold is mirrored by a specification-level model, and the executable
// engine is proved to compute exactly that model.
/// The two thresholds of the match predicate. The constants were settled by
/// experiment, so a run may configure them.
#[derive(Clone, Copy, Debug, PartialEq, Eq, Structural)]
pub struct MatchConfig {
    /// Two fingerprints closer than this Hamming distance look alike.
    pub hash_threshold: u32,
    /// Two timestamps closer than this many seconds count as one moment.
    pub time_window_seconds: i64,
}

impl Default for MatchConfig {
    /// The thresholds the batch pipeline runs with: distance below 10,
    /// timestamps within 30 minutes.
    fn default() -> (r: MatchConfig)
        ensures
            r.hash_threshold == 10,
            r.time_window_seconds == 1800,
    {
        MatchConfig { hash_threshold: 10, time_window_seconds: 1800 }
    }
}

pub open spec fn abs_delta(a: int, b: int) -> int {
    if a >= b {
        a - b
    } else {
        b - a
    }
}

/// The match predicate: two images are related when their fingerprints are
/// within the Hamming threshold and their timestamps within the time window.
/// Both conditions are required; the relation is symmetric.
pub open spec fn img_match(cfg: MatchConfig, a: ImageModel, b: ImageModel) -> bool {
    &&& hamming(a.hash, b.hash) < cfg.hash_threshold
    &&& abs_delta(a.timestamp, b.timestamp) < cfg.time_window_seconds
}

/// The image records of a loaded set, as mathematical values.
pub open spec fn models_of(images: Seq<Image>) -> Seq<ImageModel> {
    images.map_values(|img: Image| img@)
}

/// The picture sets of a pile list, as mathematical values.
pub open spec fn pics_of(piles: Seq<Pile>) -> Seq<Seq<ImageModel>> {
    piles.map_values(|p: Pile| p@.pictures)
}

pub open spec fn wf_images(s: Seq<ImageModel>) -> bool {
    forall|i: int| 0 <= i < s.len() ==> img_wf(#[trigger] s[i])
}

/// Paths are the identity of images: a run works on a set of distinct paths.
pub open spec fn distinct_paths(s: Seq<ImageModel>) -> bool {
    forall|i: int, j: int|
        0 <= i < j < s.len() ==> (#[trigger] s[i]).path != (#[trigger] s[j]).path
}

/// The matched pairs (i, j) of one row: j runs over i+1 .. len.
pub open spec fn row_pairs(s: Seq<ImageModel>, cfg: MatchConfig, i: int, j: int) -> Seq<
    (int, int),
>
    decreases s.len() - j,
{
    if j >= s.len() {
        Seq::empty()
    } else {
        (if img_match(cfg, s[i], s[j]) {
            seq![(i, j)]
        } else {
            Seq::empty()
        }) + row_pairs(s, cfg, i, j + 1)
    }
}

/// All matched pairs (i, j) with i < j, row by row from `i` on.
pub open spec fn upper_pairs(s: Seq<ImageModel>, cfg: MatchConfig, i: int) -> Seq<(int, int)>
    decreases s.len() - i,
{
    if i >= s.len() {
        Seq::empty()
    } else {
        row_pairs(s, cfg, i, i + 1) + upper_pairs(s, cfg, i + 1)
    }
}

/// One self pair (i, i) for every image, so that nothing is left out.
pub open spec fn self_pairs(n: int, i: int) -> Seq<(int, int)>
    decreases n - i,
{
    if i >= n {
        Seq::empty()
    } else {
        seq![(i, i)] + self_pairs(n, i + 1)
    }
}

/// The full pair list the engine folds over: every matched unordered pair
/// once, then every self pair.
pub open spec fn all_pairs(s: Seq<ImageModel>, cfg: MatchConfig) -> Seq<(int, int)> {
    upper_pairs(s, cfg, 0) + self_pairs(s.len() as int, 0)
}

/// The first pile, from `k` on, that holds the path; the executable lookup
/// is a linear scan, and this is its result.
pub open spec fn find_pile_from(piles: Seq<Seq<ImageModel>>, path: Seq<char>, k: int) -> Option<
    int,
>
    decreases piles.len() - k,
{
    if k >= piles.len() {
        Option::None
    } else if has_path(piles[k], path) {
        Option::Some(k)
    } else {
        find_pile_from(piles, path, k + 1)
    }
}

pub open spec fn find_pile(piles: Seq<Seq<ImageModel>>, path: Seq<char>) -> Option<int> {
    find_pile_from(piles, path, 0)
}

/// Removal by swapping the last pile into the removed slot.
pub open spec fn swap_removed(piles: Seq<Seq<ImageModel>>, j: int) -> Seq<Seq<ImageModel>> {
    piles.update(j, piles.last()).drop_last()
}

/// One step of the incremental union rule, for the pair (l, r):
/// neither placed yet - a new pile holds both; one placed - the other joins
/// it; both in one pile - nothing changes; both in different piles - the
/// right pile is swap-removed and absorbed into the left one. When the left
/// pile sat in the last slot, the swap moved it into slot j, and the merge
/// target must follow it there.
pub open spec fn engine_step(
    piles: Seq<Seq<ImageModel>>,
    l: ImageModel,
    r: ImageModel,
) -> Seq<Seq<ImageModel>> {
    let fl = find_pile(piles, l.path);
    let fr = find_pile(piles, r.path);
    if fl is None && fr is None {
        piles.push(pics_insert(seq![r], l))
    } else if fl is Some && fr is None {
        piles.update(fl->0, pics_insert(piles[fl->0], r))
    } else if fl is None && fr is Some {
        piles.update(fr->0, pics_insert(piles[fr->0], l))
    } else {
        let i = fl->0;
        let j = fr->0;
        if i == j {
            piles
        } else {
            let disb = piles[j];
            let removed = swap_removed(piles, j);
            let tgt = if i == removed.len() {
                j
            } else {
                i
            };
            removed.update(tgt, pics_merge(removed[tgt], disb))
        }
    }
}

/// The whole fold: apply `engine_step` for each pair in order.
pub open spec fn engine_run(
    piles: Seq<Seq<ImageModel>>,
    s: Seq<ImageModel>,
    pairs: Seq<(int, int)>,
) -> Seq<Seq<ImageModel>>
    decreases pairs.len(),
{
    if pairs.len() == 0 {
        piles
    } else {
        engine_run(engine_step(piles, s[pairs[0].0], s[pairs[0].1]), s, pairs.drop_first())
    }
}

/// The partition the engine computes for an image set and thresholds.
pub open spec fn cluster_spec(s: Seq<ImageModel>, cfg: MatchConfig) -> Seq<Seq<ImageModel>> {
    engine_run(Seq::empty(), s, all_pairs(s, cfg))
}

/// Whether two images are related, executable form.
pub fn images_match(cfg: &MatchConfig, a: &Image, b: &Image) -> (r: bool)
    requires
        a.wf(),
        b.wf(),
    ensures
        r == img_match(*cfg, a@, b@),
{
    let dist = a.hash.dist(&b.hash);
    let delta: i128 = a.timestamp as i128 - b.timestamp as i128;
    let delta: i128 = if delta < 0 {
        -delta
    } else {
        delta
    };
    dist < cfg.hash_threshold && delta < cfg.time_window_seconds as i128
}

/// Which pile, if any, holds this image: a linear scan over the piles.
fn find_pile_index(piles: &Vec<Pile>, image: &Image) -> (r: Option<usize>)
    ensures
        r matches Some(k) ==> k < piles@.len() && find_pile(pics_of(piles@), image@.path)
            == Option::Some(k as int),
        r is None ==> find_pile(pics_of(piles@), image@.path) is None,
{
    let n = piles.len();
    let mut k: usize = 0;
    while k < n
        invariant
            n == piles@.len(),
            k <= n,
            find_pile_from(pics_of(piles@), image@.path, 0) == find_pile_from(
                pics_of(piles@),
                image@.path,
                k as int,
            ),
        decreases n - k,
    {
        if piles[k].contains_image(image) {
            return Some(k);
        }
        k = k + 1;
    }
    None
}

/// All piles of a list are well formed.
pub open spec fn piles_wf(piles: Seq<Pile>) -> bool {
    forall|k: int| 0 <= k < piles.len() ==> (#[trigger] piles[k]).wf()
}

/// Fold one pair into the pile list, keeping every pile well formed and
/// computing exactly the model's step.
fn apply_pair(piles: &mut Vec<Pile>, l: &Image, r: &Image)
    requires
        piles_wf(old(piles)@),
        l.wf(),
        r.wf(),
    ensures
        piles_wf(final(piles)@),
        pics_of(final(piles)@) == engine_step(pics_of(old(piles)@), l@, r@),
{
    let ghost before = pics_of(old(piles)@);
    let li = find_pile_index(piles, l);
    let ri = find_pile_index(piles, r);
    match (li, ri) {
        (None, None) => {
            let mut pile = Pile::new(r.duplicate());
            pile.push(l.duplicate());
            piles.push(pile);
            proof {
                assert(pics_of(piles@) =~= before.push(pics_insert(seq![r@], l@)));
            }
        },
        (Some(i), None) => {
            assert(piles@[i as int].wf());
            let mut p = piles[i].duplicate();
            p.push(r.duplicate());
            piles.set(i, p);
            proof {
                assert(pics_of(piles@) =~= before.update(i as int, pics_insert(before[i as int], r@)));
            }
        },
        (None, Some(j)) => {
            assert(piles@[j as int].wf());
            let mut p = piles[j].duplicate();
            p.push(l.duplicate());
            piles.set(j, p);
            proof {
                assert(pics_of(piles@) =~= before.update(j as int, pics_insert(before[j as int], l@)));
            }
        },
        (Some(i), Some(j)) => {
            if i != j {
                assert(piles@[i as int].wf());
                assert(piles@[j as int].wf());
                let disb = piles.swap_remove(j);
                let ghost mid = pics_of(piles@);
                proof {
                    assert(mid =~= swap_removed(before, j as int));
                }
                let tgt: usize = if i == piles.len() {
                    j
                } else {
                    i
                };
                assert(piles@[tgt as int].wf());
                let mut p = piles[tgt].duplicate();
                p.merge(disb);
                piles.set(tgt, p);
                proof {
                    assert(pics_of(piles@) =~= mid.update(
                        tgt as int,
                        pics_merge(mid[tgt as int], before[j as int]),
                    ));
                }
            }
        },
    }
}

/// Total size of the first `n` piles.
pub open spec fn sizes_to(piles: Seq<Pile>, n: int) -> int
    decreases n,
{
    if n <= 0 {
        0
    } else {
        sizes_to(piles, n - 1) + piles[n - 1]@.pictures.len()
    }
}

/// Largest size among the first `n` piles, zero when there are none.
pub open spec fn max_size_to(piles: Seq<Pile>, n: int) -> int
    decreases n,
{
    if n <= 0 {
        0
    } else {
        let prev = max_size_to(piles, n - 1);
        if piles[n - 1]@.pictures.len() > prev {
            piles[n - 1]@.pictures.len() as int
        } else {
            prev
        }
    }
}

/// Smallest timestamp among the first `n` members of a pile.
pub open spec fn min_ts_to(pics: Seq<ImageModel>, n: int) -> int
    decreases n,
{
    if n <= 1 {
        pics[0].timestamp
    } else {
        let prev = min_ts_to(pics, n - 1);
        if pics[n - 1].timestamp < prev {
            pics[n - 1].timestamp
        } else {
            prev
        }
    }
}

/// Largest timestamp among the first `n` members of a pile.
pub open spec fn max_ts_to(pics: Seq<ImageModel>, n: int) -> int
    decreases n,
{
    if n <= 1 {
        pics[0].timestamp
    } else {
        let prev = max_ts_to(pics, n - 1);
        if pics[n - 1].timestamp > prev {
            pics[n - 1].timestamp
        } else {
            prev
        }
    }
}

/// Time spread of one pile in whole minutes: newest member minus oldest.
pub open spec fn pile_spread_minutes(pics: Seq<ImageModel>) -> int
    recommends
        pics.len() >= 1,
{
    (max_ts_to(pics, pics.len() as int) - min_ts_to(pics, pics.len() as int)) / 60
}

/// Longest time spread among the first `n` piles, zero when there are none.
pub open spec fn longest_spread_to(piles: Seq<Pile>, n: int) -> int
    decreases n,
{
    if n <= 0 {
        0
    } else {
        let prev = longest_spread_to(piles, n - 1);
        if pile_spread_minutes(piles[n - 1]@.pictures) > prev {
            pile_spread_minutes(piles[n - 1]@.pictures)
        } else {
            prev
        }
    }
}

/// The ordering the pile-size statistics sort by.
pub open spec fn le_usize() -> spec_fn(usize, usize) -> bool {
    |x: usize, y: usize| x <= y
}

/// The sizes of the piles, in pile order.
pub open spec fn pile_sizes(piles: Seq<Pile>) -> Seq<usize> {
    piles.map_values(|p: Pile| p.pictures@.len() as usize)
}

/// The pile sizes in ascending order.
pub open spec fn sorted_sizes(sizes: Seq<usize>) -> Seq<usize> {
    sizes.sort_by(le_usize())
}

/// The median pile size: the middle element of the sorted size list.
pub open spec fn median_size(piles: Seq<Pile>) -> int
    recommends
        piles.len() >= 1,
{
    sorted_sizes(pile_sizes(piles))[piles.len() as int / 2] as int
}

/// Sort a size list ascending by insertion.
fn sort_sizes(v: &Vec<usize>) -> (r: Vec<usize>)
    ensures
        r@ == sorted_sizes(v@),
        r@.len() == v@.len(),
{
    proof {
        broadcast use vstd::seq_lib::group_to_multiset_ensures;
        broadcast use vstd::multiset::group_multiset_axioms;

    }
    let n = v.len();
    let mut out: Vec<usize> = Vec::new();
    let mut i: usize = 0;
    while i < n
        invariant
            n == v@.len(),
            i <= n,
            out@.len() == i,
            vstd::relations::sorted_by(out@, le_usize()),
            out@.to_multiset() == v@.take(i as int).to_multiset(),
        decreases n - i,
    {
        proof {
            broadcast use vstd::seq_lib::group_to_multiset_ensures;
            broadcast use vstd::multiset::group_multiset_axioms;

        }
        let x = v[i];
        let mut p: usize = 0;
        while p < out.len() && out[p] <= x
            invariant
                p <= out@.len(),
                forall|t: int| 0 <= t < p ==> (#[trigger] out@[t]) <= x,
            decreases out@.len() - p,
        {
            p = p + 1;
        }
        let ghost before = out@;
        out.insert(p, x);
        proof {
            let o2 = before.insert(p as int, x);
            assert(out@ == o2);
            assert forall|a: int, b: int| 0 <= a < b < o2.len() implies le_usize()(
                o2[a],
                o2[b],
            ) by {
                if a < p && b < p {
                    assert(o2[a] == before[a] && o2[b] == before[b]);
                } else if a < p && b == p {
                    assert(o2[a] == before[a]);
                } else if a < p && b > p {
                    assert(o2[a] == before[a] && o2[b] == before[b - 1]);
                } else if a == p && b > p {
                    assert(o2[b] == before[b - 1]);
                    assert(!(before[p as int] <= x) || p == before.len());
                    assert(le_usize()(before[a], before[b - 1]) || a >= before.len());
                } else {
                    assert(o2[a] == before[a - 1] && o2[b] == before[b - 1]);
                }
            }
            assert(vstd::relations::sorted_by(out@, le_usize()));
            assert(o2.remove(p as int) =~= before);
            assert(o2.remove(p as int).to_multiset() =~= o2.to_multiset().remove(x));
            assert(o2.to_multiset().contains(x)) by {
                assert(o2[p as int] == x);
                assert(o2.contains(x));
            }
            assert(o2.to_multiset() =~= before.to_multiset().insert(x));
            assert(v@.take(i as int + 1) =~= v@.take(i as int).push(x));
            assert(v@.take(i as int).push(x).to_multiset() =~= v@.take(
                i as int,
            ).to_multiset().insert(x));
        }
        i = i + 1;
    }
    proof {
        assert(v@.take(n as int) =~= v@);
        v@.lemma_sort_by_ensures(le_usize());
        assert(vstd::relations::total_ordering(le_usize()));
        vstd::seq_lib::lemma_sorted_unique(out@, v@.sort_by(le_usize()), le_usize());
        assert(out@ =~= sorted_sizes(v@));
        assert(v@.to_multiset().len() == v@.len() && out@.to_multiset().len() == out@.len())
            by {
            broadcast use vstd::seq_lib::group_to_multiset_ensures;

        }
    }
    out
}

/// Time spread of one pile in whole minutes.
fn spread_minutes(p: &Pile) -> (r: i64)
    requires
        p.wf(),
    ensures
        r == pile_spread_minutes(p@.pictures),
        r >= 0,
{
    let n = p.pictures.len();
    assert(img_wf(p@.pictures[0]));
    let mut lo: i64 = p.pictures[0].timestamp;
    let mut hi: i64 = lo;
    let mut i: usize = 1;
    while i < n
        invariant
            n == p@.pictures.len(),
            1 <= i <= n,
            pics_wf(p@.pictures),
            lo == min_ts_to(p@.pictures, i as int),
            hi == max_ts_to(p@.pictures, i as int),
            lo <= hi,
        decreases n - i,
    {
        assert(img_wf(p@.pictures[i as int]));
        let t = p.pictures[i].timestamp;
        if t < lo {
            lo = t;
        }
        if t > hi {
            hi = t;
        }
        i = i + 1;
    }
    assert(img_wf(p@.pictures[0]));
    assert(crate::timestamp::TIMESTAMP_MIN <= lo && hi <= crate::timestamp::TIMESTAMP_MAX) by {
        lemma_ts_bounds(p@.pictures, n as int);
    }
    (hi - lo) / 60
}

/// The extreme timestamps of a well-formed pile stay inside the calendar
/// range.
proof fn lemma_ts_bounds(pics: Seq<ImageModel>, n: int)
    requires
        1 <= n <= pics.len(),
        pics_wf(pics),
    ensures
        crate::timestamp::TIMESTAMP_MIN <= min_ts_to(pics, n),
        max_ts_to(pics, n) <= crate::timestamp::TIMESTAMP_MAX,
        min_ts_to(pics, n) <= max_ts_to(pics, n),
    decreases n,
{
    assert(img_wf(pics[0]));
    if n > 1 {
        lemma_ts_bounds(pics, n - 1);
        assert(img_wf(pics[n - 1]));
    }
}

/// Aggregate statistics of one finished run.
pub struct Stats {
    /// Longest spread between the oldest and newest member of one pile, in
    /// whole minutes.
    pub longest_time_delta: i64,
    /// How many images the run placed.
    pub total_pics: usize,
    /// How many piles the run produced.
    pub total_piles: usize,
    /// Size of the largest pile.
    pub max_pile_size: usize,
    /// Middle element of the sorted pile-size list.
    pub median_pile_size: usize,
    /// Wall-clock time of the run, as the caller measured it.
    pub run_time_ms: u128,
}

impl Stats {
    /// Compute the aggregate statistics of a pile list. The average pile
    /// size is the quotient of `total_pics` and `total_piles`, so it is not
    /// stored separately.
    pub fn from_piles(piles: &Vec<Pile>, run_time_ms: u128) -> (r: Stats)
        requires
            piles@.len() >= 1,
            piles_wf(piles@),
            sizes_to(piles@, piles@.len() as int) <= usize::MAX,
        ensures
            r.total_pics == sizes_to(piles@, piles@.len() as int),
            r.total_piles == piles@.len(),
            r.max_pile_size == max_size_to(piles@, piles@.len() as int),
            r.median_pile_size == median_size(piles@),
            r.longest_time_delta == longest_spread_to(piles@, piles@.len() as int),
            r.run_time_ms == run_time_ms,
    {
        let n = piles.len();
        let mut total: usize = 0;
        let mut max_size: usize = 0;
        let mut longest: i64 = 0;
        let mut sizes: Vec<usize> = Vec::new();
        let mut i: usize = 0;
        proof {
            assert(sizes@ =~= pile_sizes(piles@).take(0));
        }
        while i < n
            invariant
                n == piles@.len(),
                i <= n,
                piles_wf(piles@),
                sizes_to(piles@, n as int) <= usize::MAX,
                total == sizes_to(piles@, i as int),
                max_size == max_size_to(piles@, i as int),
                longest == longest_spread_to(piles@, i as int),
                sizes@ =~= pile_sizes(piles@).take(i as int),
            decreases n - i,
        {
            assert(piles@[i as int].wf());
            let sz = piles[i].len();
            proof {
                lemma_sizes_mono(piles@, i as int + 1, n as int);
            }
            total = total + sz;
            if sz > max_size {
                max_size = sz;
            }
            let sp = spread_minutes(&piles[i]);
            if sp > longest {
                longest = sp;
            }
            sizes.push(sz);
            proof {
                assert(sizes@ =~= pile_sizes(piles@).take(i as int + 1));
            }
            i = i + 1;
        }
        proof {
            assert(pile_sizes(piles@).take(n as int) =~= pile_sizes(piles@));
        }
        let sorted = sort_sizes(&sizes);
        assert(sorted@.len() == n);
        let median = sorted[n / 2];
        Stats {
            longest_time_delta: longest,
            total_pics: total,
            total_piles: n,
            max_pile_size: max_size,
            median_pile_size: median,
            run_time_ms,
        }
    }
}

/// How many of the first `n` piles carry the date `d`.
pub open spec fn date_count_to(piles: Seq<Pile>, d: int, n: int) -> int
    decreases n,
{
    if n <= 0 {
        0
    } else {
        date_count_to(piles, d, n - 1) + (if piles[n - 1]@.date == d {
            1int
        } else {
            0int
        })
    }
}

/// One hard link the materializer will create: from the image's original
/// path to a name inside its pile's directory.
#[derive(Debug)]
pub struct LinkPlan {
    /// The image's original path, the link's source.
    pub source: String,
    /// The file's base name, kept unchanged.
    pub base_name: String,
    /// The full path of the new link.
    pub target: String,
}

/// One directory the materializer will create, with the links into it.
#[derive(Debug)]
pub struct PileDirPlan {
    /// `YYYY-MM-DD_NNNN`: the pile's date and a per-date counter.
    pub dir_name: String,
    /// The directory's full path under the destination root.
    pub dir_path: String,
    pub links: Vec<LinkPlan>,
}

/// The on-disk layout of one run, computed before any directory is made.
#[derive(Debug)]
pub struct MaterializePlan {
    pub dirs: Vec<PileDirPlan>,
}

/// An image path without a usable final component; materialization cannot
/// name its link.
#[derive(Debug)]
pub struct MaterializeError {
    /// The offending source path.
    pub path: String,
}

/// The date of a well-formed pile stays inside the supported calendar range.
proof fn lemma_pile_date_range(pics: Seq<ImageModel>)
    requires
        pics_wf(pics),
        pics.len() >= 1,
    ensures
        -719162 <= crate::pile::pile_date(pics) <= 2932896,
{
    crate::pile::lemma_pile_date_is_min(pics, pics.len() as int);
    let i = choose|i: int|
        0 <= i < pics.len() && crate::pile::pile_date(pics) == crate::timestamp::day_of_timestamp(
            (#[trigger] pics[i]).timestamp,
        );
    assert(img_wf(pics[i]));
    vstd::arithmetic::div_mod::lemma_div_is_ordered(
        crate::timestamp::TIMESTAMP_MIN as int,
        pics[i].timestamp,
        86400,
    );
    vstd::arithmetic::div_mod::lemma_div_is_ordered(
        pics[i].timestamp,
        crate::timestamp::TIMESTAMP_MAX as int,
        86400,
    );
}

/// Partial sums of pile sizes grow with the prefix.
proof fn lemma_sizes_mono(piles: Seq<Pile>, a: int, b: int)
    requires
        0 <= a <= b,
    ensures
        sizes_to(piles, a) <= sizes_to(piles, b),
    decreases b,
{
    if a < b {
        lemma_sizes_mono(piles, a, b - 1);
    }
}

/// The image collection, partitioned into piles of related images.
pub struct Repository {
    pub piles: Vec<Pile>,
}

impl Repository {
    /// Partition a loaded image set into piles: visit every unordered pair
    /// of distinct images that the match predicate relates, then every
    /// image by itself, folding each visit into the pile list.
    pub fn new(images: Vec<Image>, cfg: MatchConfig) -> (r: Repository)
        requires
            wf_images(models_of(images@)),
            distinct_paths(models_of(images@)),
        ensures
            piles_wf(r.piles@),
            pics_of(r.piles@) == cluster_spec(models_of(images@), cfg),
            engine_inv(pics_of(r.piles@), models_of(images@)),
            forall|u: int|
                0 <= u < images@.len() ==> placed(
                    pics_of(r.piles@),
                    (#[trigger] models_of(images@)[u]).path,
                ),
    {
        let ghost s = models_of(images@);
        let n = images.len();
        let mut piles: Vec<Pile> = Vec::new();
        let mut i: usize = 0;
        proof {
            assert(pics_of(piles@) =~= Seq::<Seq<ImageModel>>::empty());
        }
        while i < n
            invariant
                n == images@.len(),
                s == models_of(images@),
                wf_images(s),
                distinct_paths(s),
                i <= n,
                piles_wf(piles@),
                engine_run(pics_of(piles@), s, upper_pairs(s, cfg, i as int) + self_pairs(
                    n as int,
                    0,
                )) == cluster_spec(s, cfg),
            decreases n - i,
        {
            let mut j: usize = i + 1;
            proof {
                assert(row_pairs(s, cfg, i as int, j as int) + upper_pairs(s, cfg, i as int + 1)
                    + self_pairs(n as int, 0) =~= upper_pairs(s, cfg, i as int) + self_pairs(
                    n as int,
                    0,
                ));
            }
            while j < n
                invariant
                    n == images@.len(),
                    s == models_of(images@),
                    wf_images(s),
                    distinct_paths(s),
                    i < j <= n || (i as int + 1 == j && j == n),
                    i < n,
                    piles_wf(piles@),
                    engine_run(pics_of(piles@), s, row_pairs(s, cfg, i as int, j as int)
                        + upper_pairs(s, cfg, i as int + 1) + self_pairs(n as int, 0))
                        == cluster_spec(s, cfg),
                decreases n - j,
            {
                assert(s[i as int] == images@[i as int]@);
                assert(s[j as int] == images@[j as int]@);
                assert(img_wf(s[i as int]));
                assert(img_wf(s[j as int]));
                if images_match(&cfg, &images[i], &images[j]) {
                    let ghost rest = row_pairs(s, cfg, i as int, j as int + 1) + upper_pairs(
                        s,
                        cfg,
                        i as int + 1,
                    ) + self_pairs(n as int, 0);
                    proof {
                        assert(row_pairs(s, cfg, i as int, j as int) == seq![(i as int, j as int)]
                            + row_pairs(s, cfg, i as int, j as int + 1));
                        let full = row_pairs(s, cfg, i as int, j as int) + upper_pairs(
                            s,
                            cfg,
                            i as int + 1,
                        ) + self_pairs(n as int, 0);
                        assert(full =~= seq![(i as int, j as int)] + rest);
                        assert((seq![(i as int, j as int)] + rest)[0] == (i as int, j as int));
                        assert((seq![(i as int, j as int)] + rest).drop_first() =~= rest);
                    }
                    apply_pair(&mut piles, &images[i], &images[j]);
                } else {
                    proof {
                        assert(row_pairs(s, cfg, i as int, j as int) =~= Seq::<(int, int)>::empty()
                            + row_pairs(s, cfg, i as int, j as int + 1));
                        assert(row_pairs(s, cfg, i as int, j as int) =~= row_pairs(
                            s,
                            cfg,
                            i as int,
                            j as int + 1,
                        ));
                    }
                }
                j = j + 1;
            }
            proof {
                assert(row_pairs(s, cfg, i as int, j as int) =~= Seq::<(int, int)>::empty());
                assert(row_pairs(s, cfg, i as int, j as int) + upper_pairs(s, cfg, i as int + 1)
                    + self_pairs(n as int, 0) =~= upper_pairs(s, cfg, i as int + 1) + self_pairs(
                    n as int,
                    0,
                ));
            }
            i = i + 1;
        }
        proof {
            assert(upper_pairs(s, cfg, n as int) =~= Seq::<(int, int)>::empty());
            assert(upper_pairs(s, cfg, n as int) + self_pairs(n as int, 0) =~= self_pairs(
                n as int,
                0,
            ));
        }
        let mut k: usize = 0;
        while k < n
            invariant
                n == images@.len(),
                s == models_of(images@),
                wf_images(s),
                distinct_paths(s),
                k <= n,
                piles_wf(piles@),
                engine_run(pics_of(piles@), s, self_pairs(n as int, k as int)) == cluster_spec(
                    s,
                    cfg,
                ),
            decreases n - k,
        {
            assert(s[k as int] == images@[k as int]@);
            assert(img_wf(s[k as int]));
            let ghost rest = self_pairs(n as int, k as int + 1);
            proof {
                assert(self_pairs(n as int, k as int) == seq![(k as int, k as int)] + rest);
                assert((seq![(k as int, k as int)] + rest)[0] == (k as int, k as int));
                assert((seq![(k as int, k as int)] + rest).drop_first() =~= rest);
            }
            apply_pair(&mut piles, &images[k], &images[k]);
            k = k + 1;
        }
        proof {
            theorem_cluster_partition(s, cfg);
        }
        Repository { piles }
    }

    /// Plan the on-disk layout of the piles under a destination root: one
    /// directory per pile, named by the pile's date and a counter over
    /// earlier piles of the same date, and inside it one hard link per
    /// member image, keeping the image's base name. Fails, naming the
    /// offending path, when an image path has no usable final component.
    pub fn create_piles(&self, dest: &str) -> (r: Result<MaterializePlan, MaterializeError>)
        requires
            piles_wf(self.piles@),
        ensures
            r matches Ok(plan) ==> {
                &&& plan.dirs@.len() == self.piles@.len()
                &&& forall|k: int|
                    0 <= k < self.piles@.len() ==> {
                        &&& (#[trigger] plan.dirs@[k]).dir_name@ == crate::naming::pile_dir_str(
                            self.piles@[k]@.date,
                            date_count_to(self.piles@, self.piles@[k]@.date, k),
                        )
                        &&& plan.dirs@[k].dir_path@ == dest@ + seq!['/'] + plan.dirs@[k].dir_name@
                        &&& plan.dirs@[k].links@.len() == self.piles@[k]@.pictures.len()
                        &&& forall|t: int|
                            0 <= t < self.piles@[k]@.pictures.len() ==> {
                                &&& (#[trigger] plan.dirs@[k].links@[t]).source@
                                    == self.piles@[k]@.pictures[t].path
                                &&& 1 <= plan.dirs@[k].links@[t].base_name@.len()
                                &&& plan.dirs@[k].links@[t].target@ == plan.dirs@[k].dir_path@
                                    + seq!['/'] + plan.dirs@[k].links@[t].base_name@
                            }
                    }
            },
            r matches Err(e) ==> exists|k: int, t: int|
                0 <= k < self.piles@.len() && 0 <= t < self.piles@[k]@.pictures.len() && (
                #[trigger] self.piles@[k]@.pictures[t]).path == e.path@,
    {
        let n = self.piles.len();
        let mut dirs: Vec<PileDirPlan> = Vec::new();
        let mut k: usize = 0;
        while k < n
            invariant
                n == self.piles@.len(),
                k <= n,
                piles_wf(self.piles@),
                dirs@.len() == k,
                forall|c: int|
                    0 <= c < k ==> {
                        &&& (#[trigger] dirs@[c]).dir_name@ == crate::naming::pile_dir_str(
                            self.piles@[c]@.date,
                            date_count_to(self.piles@, self.piles@[c]@.date, c),
                        )
                        &&& dirs@[c].dir_path@ == dest@ + seq!['/'] + dirs@[c].dir_name@
                        &&& dirs@[c].links@.len() == self.piles@[c]@.pictures.len()
                        &&& forall|t: int|
                            0 <= t < self.piles@[c]@.pictures.len() ==> {
                                &&& (#[trigger] dirs@[c].links@[t]).source@
                                    == self.piles@[c]@.pictures[t].path
                                &&& 1 <= dirs@[c].links@[t].base_name@.len()
                                &&& dirs@[c].links@[t].target@ == dirs@[c].dir_path@ + seq!['/']
                                    + dirs@[c].links@[t].base_name@
                            }
                    },
            decreases n - k,
        {
            assert(self.piles@[k as int].wf());
            let date = self.piles[k].date();
            proof {
                lemma_pile_date_range(self.piles@[k as int]@.pictures);
            }
            let mut count: usize = 0;
            let mut c: usize = 0;
            while c < k
                invariant
                    c <= k <= n,
                    n == self.piles@.len(),
                    date == self.piles@[k as int]@.date,
                    count == date_count_to(self.piles@, date as int, c as int),
                    count <= c,
                decreases k - c,
            {
                if self.piles[c].date() == date {
                    count = count + 1;
                }
                c = c + 1;
            }
            let dir_name = crate::naming::pile_dir_string(date, count);
            let dir_path = crate::naming::joined_path(dest, dir_name.as_str());
            let pics_len = self.piles[k].pictures.len();
            let mut links: Vec<LinkPlan> = Vec::new();
            let mut t: usize = 0;
            while t < pics_len
                invariant
                    n == self.piles@.len(),
                    k < n,
                    pics_len == self.piles@[k as int]@.pictures.len(),
                    t <= pics_len,
                    links@.len() == t,
                    dir_path@ == dest@ + seq!['/'] + dir_name@,
                    forall|u: int|
                        0 <= u < t ==> {
                            &&& (#[trigger] links@[u]).source@
                                == self.piles@[k as int]@.pictures[u].path
                            &&& 1 <= links@[u].base_name@.len()
                            &&& links@[u].target@ == dir_path@ + seq!['/']
                                + links@[u].base_name@
                        },
                decreases pics_len - t,
            {
                let image = &self.piles[k].pictures[t];
                let base = match crate::collaborators::path_file_name(image.path().as_str()) {
                    Some(b) => b,
                    None => {
                        assert(self.piles@[k as int]@.pictures[t as int].path == image@.path);
                        return Err(MaterializeError { path: image.path().clone() });
                    },
                };
                let target = crate::naming::joined_path(dir_path.as_str(), base.as_str());
                let source = image.path().clone();
                links.push(LinkPlan { source, base_name: base, target });
                t = t + 1;
            }
            dirs.push(PileDirPlan { dir_name, dir_path, links });
            k = k + 1;
        }
        Ok(MaterializePlan { dirs })
    }
}

} // verus!
