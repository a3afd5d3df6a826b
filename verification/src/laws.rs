use vstd::prelude::*;

use crate::fingerprint::lemma_hamming_to_sym;
use crate::image::{img_wf, ImageModel};
use crate::pile::{has_path, pics_insert, pics_merge, pics_wf};
use crate::repository::{
    all_pairs, cluster_spec, distinct_paths, engine_run, engine_step, find_pile, find_pile_from,
    img_match, row_pairs, self_pairs, swap_removed, upper_pairs, wf_images, MatchConfig,
};

verus! {

// The laws of the pile-formation engine, stated and proved over the
// specification-level model that `Repository::new` is pinned to.
/// Whether `m` is one of the records in `s`.
pub open spec fn pic_in(s: Seq<ImageModel>, m: ImageModel) -> bool {
    exists|u: int| 0 <= u < s.len() && s[u] == m
}

/// Whether some pile of the partition holds this path.
pub open spec fn placed(piles: Seq<Seq<ImageModel>>, path: Seq<char>) -> bool {
    exists|k: int| 0 <= k < piles.len() && has_path(#[trigger] piles[k], path)
}

/// Whether one pile of the partition holds both paths.
pub open spec fn same_pile(piles: Seq<Seq<ImageModel>>, p: Seq<char>, q: Seq<char>) -> bool {
    exists|k: int|
        0 <= k < piles.len() && has_path(#[trigger] piles[k], p) && has_path(piles[k], q)
}

/// The standing invariant of the engine state: every pile is non-empty and
/// structurally sound, every member comes from the image set, and no two
/// piles share a path.
pub open spec fn engine_inv(piles: Seq<Seq<ImageModel>>, s: Seq<ImageModel>) -> bool {
    &&& forall|k: int| 0 <= k < piles.len() ==> (#[trigger] piles[k]).len() >= 1
    &&& forall|k: int| 0 <= k < piles.len() ==> pics_wf(#[trigger] piles[k])
    &&& forall|k: int, t: int|
        0 <= k < piles.len() && 0 <= t < piles[k].len() ==> pic_in(s, #[trigger] piles[k][t])
    &&& forall|k1: int, k2: int, t1: int, t2: int|
        0 <= k1 < k2 < piles.len() && 0 <= t1 < piles[k1].len() && 0 <= t2 < piles[k2].len()
            ==> (#[trigger] piles[k1][t1]).path != (#[trigger] piles[k2][t2]).path
}

proof fn lemma_insert_facts(pics: Seq<ImageModel>, img: ImageModel)
    ensures
        forall|p: Seq<char>|
            #[trigger] has_path(pics_insert(pics, img), p) <==> (has_path(pics, p) || p
                == img.path),
        forall|t: int|
            0 <= t < pics_insert(pics, img).len() ==> (pic_in(pics, #[trigger] pics_insert(
                pics,
                img,
            )[t]) || pics_insert(pics, img)[t] == img),
        pics_wf(pics) && img_wf(img) ==> pics_wf(pics_insert(pics, img)),
        pics_insert(pics, img).len() >= pics.len(),
        pics_insert(pics, img).len() >= 1,
{
    let out = pics_insert(pics, img);
    if has_path(pics, img.path) {
        assert forall|p: Seq<char>| #[trigger] has_path(out, p) implies (has_path(pics, p) || p
            == img.path) by {}
    } else {
        assert forall|p: Seq<char>| has_path(pics, p) || p == img.path implies #[trigger] has_path(
            out,
            p,
        ) by {
            if has_path(pics, p) {
                let t = choose|t: int| 0 <= t < pics.len() && pics[t].path == p;
                assert(out[t].path == p);
            } else {
                assert(out[pics.len() as int].path == p);
            }
        }
        assert forall|p: Seq<char>| #[trigger] has_path(out, p) implies (has_path(pics, p) || p
            == img.path) by {
            let t = choose|t: int| 0 <= t < out.len() && out[t].path == p;
            if t < pics.len() {
                assert(pics[t].path == p);
            }
        }
        if pics_wf(pics) && img_wf(img) {
            assert forall|i: int, j: int| 0 <= i < j < out.len() implies (#[trigger] out[i]).path
                != (#[trigger] out[j]).path by {
                if j == pics.len() {
                    assert(out[i] == pics[i]);
                    if out[i].path == img.path {
                        assert(has_path(pics, img.path));
                    }
                }
            }
        }
    }
}

proof fn lemma_merge_facts(a: Seq<ImageModel>, b: Seq<ImageModel>)
    ensures
        forall|p: Seq<char>|
            #[trigger] has_path(pics_merge(a, b), p) <==> (has_path(a, p) || has_path(b, p)),
        forall|t: int|
            0 <= t < pics_merge(a, b).len() ==> (pic_in(a, #[trigger] pics_merge(a, b)[t])
                || pic_in(b, pics_merge(a, b)[t])),
        pics_wf(a) && pics_wf(b) ==> pics_wf(pics_merge(a, b)),
        pics_merge(a, b).len() >= a.len(),
    decreases b.len(),
{
    if b.len() == 0 {
        assert forall|p: Seq<char>| has_path(b, p) implies false by {}
    } else {
        let mid = pics_insert(a, b[0]);
        lemma_insert_facts(a, b[0]);
        lemma_merge_facts(mid, b.drop_first());
        if pics_wf(a) && pics_wf(b) {
            assert(img_wf(b[0]));
            assert forall|i: int, j: int| 0 <= i < j < b.drop_first().len() implies (
            #[trigger] b.drop_first()[i]).path != (#[trigger] b.drop_first()[j]).path by {
                assert(b.drop_first()[i] == b[i + 1]);
                assert(b.drop_first()[j] == b[j + 1]);
            }
            assert(pics_wf(b.drop_first()));
        }
        assert forall|p: Seq<char>| #[trigger] has_path(pics_merge(a, b), p) implies (has_path(
            a,
            p,
        ) || has_path(b, p)) by {
            if has_path(mid, p) || has_path(b.drop_first(), p) {
                if has_path(b.drop_first(), p) {
                    let t = choose|t: int|
                        0 <= t < b.drop_first().len() && b.drop_first()[t].path == p;
                    assert(b[t + 1].path == p);
                }
            }
        }
        assert forall|p: Seq<char>| has_path(a, p) || has_path(b, p) implies #[trigger] has_path(
            pics_merge(a, b),
            p,
        ) by {
            if has_path(b, p) && !has_path(a, p) {
                let t = choose|t: int| 0 <= t < b.len() && b[t].path == p;
                if t == 0 {
                    assert(has_path(mid, p));
                } else {
                    assert(b.drop_first()[t - 1].path == p);
                    assert(has_path(b.drop_first(), p));
                }
            }
        }
        assert forall|t: int| 0 <= t < pics_merge(a, b).len() implies (pic_in(
            a,
            #[trigger] pics_merge(a, b)[t],
        ) || pic_in(b, pics_merge(a, b)[t])) by {
            let m = pics_merge(a, b)[t];
            if pic_in(mid, m) || pic_in(b.drop_first(), m) {
                if pic_in(mid, m) {
                    if !pic_in(a, m) {
                        assert(m == b[0]);
                        assert(pic_in(b, m));
                    }
                } else {
                    let u = choose|u: int|
                        0 <= u < b.drop_first().len() && b.drop_first()[u] == m;
                    assert(b[u + 1] == m);
                    assert(pic_in(b, m));
                }
            }
        }
    }
}

proof fn lemma_find_pile_from_facts(piles: Seq<Seq<ImageModel>>, path: Seq<char>, k: int)
    requires
        0 <= k,
    ensures
        find_pile_from(piles, path, k) matches Some(x) ==> k <= x < piles.len() && has_path(
            piles[x],
            path,
        ),
        find_pile_from(piles, path, k) is None ==> forall|t: int|
            k <= t < piles.len() ==> !has_path(#[trigger] piles[t], path),
    decreases piles.len() - k,
{
    if k < piles.len() && !has_path(piles[k], path) {
        lemma_find_pile_from_facts(piles, path, k + 1);
    }
}

/// What one engine step does to placement: the invariant is kept, the two
/// images of the pair end up placed and in one pile, nothing already placed
/// is lost, and images sharing a pile keep sharing one.
proof fn lemma_step_facts(
    piles: Seq<Seq<ImageModel>>,
    s: Seq<ImageModel>,
    l: ImageModel,
    r: ImageModel,
)
    requires
        engine_inv(piles, s),
        wf_images(s),
        pic_in(s, l),
        pic_in(s, r),
    ensures
        engine_inv(engine_step(piles, l, r), s),
        same_pile(engine_step(piles, l, r), l.path, r.path),
        forall|p: Seq<char>| #[trigger] placed(piles, p) ==> placed(engine_step(piles, l, r), p),
        forall|p: Seq<char>, q: Seq<char>|
            #[trigger] same_pile(piles, p, q) ==> same_pile(engine_step(piles, l, r), p, q),
{
    let fl = find_pile(piles, l.path);
    let fr = find_pile(piles, r.path);
    lemma_find_pile_from_facts(piles, l.path, 0);
    lemma_find_pile_from_facts(piles, r.path, 0);
    let step = engine_step(piles, l, r);
    assert(img_wf(l));
    assert(img_wf(r));
    if fl is None && fr is None {
        let fresh = pics_insert(seq![r], l);
        lemma_insert_facts(seq![r], l);
        assert(pics_wf(seq![r]));
        assert(has_path(seq![r], r.path)) by {
            assert(seq![r][0].path == r.path);
        }
        assert(step == piles.push(fresh));
        assert forall|k: int| 0 <= k < step.len() implies pics_wf(#[trigger] step[k])
            && step[k].len() >= 1 by {
            if k < piles.len() {
                assert(step[k] == piles[k]);
            } else {
                assert(step[k] == fresh);
            }
        }
        assert forall|k: int, t: int|
            0 <= k < step.len() && 0 <= t < step[k].len() implies pic_in(
            s,
            #[trigger] step[k][t],
        ) by {
            if k < piles.len() {
                assert(step[k] == piles[k]);
            } else {
                assert(step[k] == fresh);
                assert(pic_in(seq![r], fresh[t]) || fresh[t] == l);
                if pic_in(seq![r], fresh[t]) {
                    assert(fresh[t] == r);
                }
            }
        }
        assert forall|k1: int, k2: int, t1: int, t2: int|
            0 <= k1 < k2 < step.len() && 0 <= t1 < step[k1].len() && 0 <= t2 < step[k2].len()
            implies (#[trigger] step[k1][t1]).path != (#[trigger] step[k2][t2]).path by {
            if k2 == piles.len() {
                assert(step[k1] == piles[k1]);
                assert(step[k2] == fresh);
                assert(pic_in(seq![r], fresh[t2]) || fresh[t2] == l);
                if pic_in(seq![r], fresh[t2]) {
                    assert(fresh[t2] == r);
                }
                if step[k1][t1].path == step[k2][t2].path {
                    assert(has_path(piles[k1], step[k2][t2].path));
                }
            }
        }
        assert(has_path(fresh, l.path) && has_path(fresh, r.path));
        assert(step[piles.len() as int] == fresh);
        assert(same_pile(step, l.path, r.path));
        assert forall|p: Seq<char>| #[trigger] placed(piles, p) implies placed(step, p) by {
            let k = choose|k: int| 0 <= k < piles.len() && has_path(#[trigger] piles[k], p);
            assert(step[k] == piles[k]);
        }
        assert forall|p: Seq<char>, q: Seq<char>| #[trigger] same_pile(piles, p, q) implies
            same_pile(step, p, q) by {
            let k = choose|k: int|
                0 <= k < piles.len() && has_path(#[trigger] piles[k], p) && has_path(piles[k], q);
            assert(step[k] == piles[k]);
        }
    } else if fl is Some && fr is None {
        let i = fl->0;
        let upd = pics_insert(piles[i], r);
        lemma_insert_facts(piles[i], r);
        assert(step == piles.update(i, upd));
        assert forall|k: int| 0 <= k < step.len() implies pics_wf(#[trigger] step[k])
            && step[k].len() >= 1 by {
            if k != i {
                assert(step[k] == piles[k]);
            }
        }
        assert forall|k: int, t: int|
            0 <= k < step.len() && 0 <= t < step[k].len() implies pic_in(
            s,
            #[trigger] step[k][t],
        ) by {
            if k != i {
                assert(step[k] == piles[k]);
            } else {
                assert(pic_in(piles[i], step[k][t]) || step[k][t] == r);
            }
        }
        assert forall|k1: int, k2: int, t1: int, t2: int|
            0 <= k1 < k2 < step.len() && 0 <= t1 < step[k1].len() && 0 <= t2 < step[k2].len()
            implies (#[trigger] step[k1][t1]).path != (#[trigger] step[k2][t2]).path by {
            if step[k1][t1].path == step[k2][t2].path {
                if k1 == i {
                    assert(pic_in(piles[i], step[k1][t1]) || step[k1][t1] == r);
                    assert(step[k2] == piles[k2]);
                    if step[k1][t1] == r {
                        assert(has_path(piles[k2], r.path));
                    } else {
                        let u = choose|u: int|
                            0 <= u < piles[i].len() && piles[i][u] == step[k1][t1];
                        assert(piles[i][u].path == piles[k2][t2].path);
                    }
                } else if k2 == i {
                    assert(pic_in(piles[i], step[k2][t2]) || step[k2][t2] == r);
                    assert(step[k1] == piles[k1]);
                    if step[k2][t2] == r {
                        assert(has_path(piles[k1], r.path));
                    } else {
                        let u = choose|u: int|
                            0 <= u < piles[i].len() && piles[i][u] == step[k2][t2];
                        assert(piles[i][u].path == piles[k1][t1].path);
                    }
                } else {
                    assert(step[k1] == piles[k1] && step[k2] == piles[k2]);
                }
            }
        }
        assert(has_path(upd, l.path) && has_path(upd, r.path));
        assert(step[i] == upd);
        assert(same_pile(step, l.path, r.path));
        assert forall|p: Seq<char>| #[trigger] placed(piles, p) implies placed(step, p) by {
            let k = choose|k: int| 0 <= k < piles.len() && has_path(#[trigger] piles[k], p);
            if k == i {
                assert(has_path(step[i], p));
            } else {
                assert(step[k] == piles[k]);
            }
        }
        assert forall|p: Seq<char>, q: Seq<char>| #[trigger] same_pile(piles, p, q) implies
            same_pile(step, p, q) by {
            let k = choose|k: int|
                0 <= k < piles.len() && has_path(#[trigger] piles[k], p) && has_path(piles[k], q);
            if k == i {
                assert(has_path(step[i], p) && has_path(step[i], q));
            } else {
                assert(step[k] == piles[k]);
            }
        }
    } else if fl is None && fr is Some {
        let j = fr->0;
        let upd = pics_insert(piles[j], l);
        lemma_insert_facts(piles[j], l);
        assert(step == piles.update(j, upd));
        assert forall|k: int| 0 <= k < step.len() implies pics_wf(#[trigger] step[k])
            && step[k].len() >= 1 by {
            if k != j {
                assert(step[k] == piles[k]);
            }
        }
        assert forall|k: int, t: int|
            0 <= k < step.len() && 0 <= t < step[k].len() implies pic_in(
            s,
            #[trigger] step[k][t],
        ) by {
            if k != j {
                assert(step[k] == piles[k]);
            } else {
                assert(pic_in(piles[j], step[k][t]) || step[k][t] == l);
            }
        }
        assert forall|k1: int, k2: int, t1: int, t2: int|
            0 <= k1 < k2 < step.len() && 0 <= t1 < step[k1].len() && 0 <= t2 < step[k2].len()
            implies (#[trigger] step[k1][t1]).path != (#[trigger] step[k2][t2]).path by {
            if step[k1][t1].path == step[k2][t2].path {
                if k1 == j {
                    assert(pic_in(piles[j], step[k1][t1]) || step[k1][t1] == l);
                    assert(step[k2] == piles[k2]);
                    if step[k1][t1] == l {
                        assert(has_path(piles[k2], l.path));
                    } else {
                        let u = choose|u: int|
                            0 <= u < piles[j].len() && piles[j][u] == step[k1][t1];
                        assert(piles[j][u].path == piles[k2][t2].path);
                    }
                } else if k2 == j {
                    assert(pic_in(piles[j], step[k2][t2]) || step[k2][t2] == l);
                    assert(step[k1] == piles[k1]);
                    if step[k2][t2] == l {
                        assert(has_path(piles[k1], l.path));
                    } else {
                        let u = choose|u: int|
                            0 <= u < piles[j].len() && piles[j][u] == step[k2][t2];
                        assert(piles[j][u].path == piles[k1][t1].path);
                    }
                } else {
                    assert(step[k1] == piles[k1] && step[k2] == piles[k2]);
                }
            }
        }
        assert(has_path(upd, l.path) && has_path(upd, r.path));
        assert(step[j] == upd);
        assert(same_pile(step, l.path, r.path));
        assert forall|p: Seq<char>| #[trigger] placed(piles, p) implies placed(step, p) by {
            let k = choose|k: int| 0 <= k < piles.len() && has_path(#[trigger] piles[k], p);
            if k == j {
                assert(has_path(step[j], p));
            } else {
                assert(step[k] == piles[k]);
            }
        }
        assert forall|p: Seq<char>, q: Seq<char>| #[trigger] same_pile(piles, p, q) implies
            same_pile(step, p, q) by {
            let k = choose|k: int|
                0 <= k < piles.len() && has_path(#[trigger] piles[k], p) && has_path(piles[k], q);
            if k == j {
                assert(has_path(step[j], p) && has_path(step[j], q));
            } else {
                assert(step[k] == piles[k]);
            }
        }
    } else {
        let i = fl->0;
        let j = fr->0;
        if i == j {
            assert(step == piles);
            assert(same_pile(piles, l.path, r.path));
        } else {
            lemma_step_merge_facts(piles, s, l, r);
        }
    }
}

/// The merge branch of `lemma_step_facts`: both images already sit in
/// different piles, the right one is swap-removed and absorbed into the left.
proof fn lemma_step_merge_facts(
    piles: Seq<Seq<ImageModel>>,
    s: Seq<ImageModel>,
    l: ImageModel,
    r: ImageModel,
)
    requires
        engine_inv(piles, s),
        wf_images(s),
        pic_in(s, l),
        pic_in(s, r),
        find_pile(piles, l.path) is Some,
        find_pile(piles, r.path) is Some,
        find_pile(piles, l.path)->0 != find_pile(piles, r.path)->0,
    ensures
        engine_inv(engine_step(piles, l, r), s),
        same_pile(engine_step(piles, l, r), l.path, r.path),
        forall|p: Seq<char>| #[trigger] placed(piles, p) ==> placed(engine_step(piles, l, r), p),
        forall|p: Seq<char>, q: Seq<char>|
            #[trigger] same_pile(piles, p, q) ==> same_pile(engine_step(piles, l, r), p, q),
{
    let i = find_pile(piles, l.path)->0;
    let j = find_pile(piles, r.path)->0;
    lemma_find_pile_from_facts(piles, l.path, 0);
    lemma_find_pile_from_facts(piles, r.path, 0);
    let n = piles.len();
    let removed = swap_removed(piles, j);
    let tgt: int = if i == removed.len() {
        j
    } else {
        i
    };
    let merged = pics_merge(removed[tgt], piles[j]);
    let step = engine_step(piles, l, r);
    assert(step == removed.update(tgt, merged));
    assert(n >= 2);
    assert(removed.len() == n - 1);
    // Where each slot of the result comes from in the old list.
    let source = |k: int|
        if k == j && j < n - 1 {
            n - 1
        } else {
            k
        };
    assert forall|k: int| 0 <= k < removed.len() implies removed[k] == piles[source(k)] by {}
    assert(removed[tgt] == piles[i]);
    lemma_merge_facts(removed[tgt], piles[j]);
    assert forall|k: int| 0 <= k < step.len() && k != tgt implies step[k] == piles[source(k)]
        && source(k) != i && source(k) != j && 0 <= source(k) < n by {
        if k == j && j < n - 1 {
            assert(source(k) == n - 1);
            if i == n - 1 {
                assert(tgt == j);
            }
        }
    }
    // The invariant is preserved.
    assert forall|k: int| 0 <= k < step.len() implies pics_wf(#[trigger] step[k]) && step[k].len()
        >= 1 by {
        if k == tgt {
            assert(step[k] == merged);
        } else {
            assert(step[k] == piles[source(k)]);
        }
    }
    assert forall|k: int, t: int|
        0 <= k < step.len() && 0 <= t < step[k].len() implies pic_in(s, #[trigger] step[k][t]) by {
        if k == tgt {
            assert(step[k] == merged);
            assert(pic_in(piles[i], merged[t]) || pic_in(piles[j], merged[t]));
        } else {
            assert(step[k] == piles[source(k)]);
        }
    }
    assert forall|k1: int, k2: int, t1: int, t2: int|
        0 <= k1 < k2 < step.len() && 0 <= t1 < step[k1].len() && 0 <= t2 < step[k2].len() implies (
    #[trigger] step[k1][t1]).path != (#[trigger] step[k2][t2]).path by {
        if step[k1][t1].path == step[k2][t2].path {
            let p = step[k1][t1].path;
            if k1 == tgt {
                assert(has_path(merged, p)) by {
                    assert(merged[t1].path == p);
                }
                assert(has_path(piles[i], p) || has_path(piles[j], p));
                assert(step[k2] == piles[source(k2)]);
                assert(has_path(piles[source(k2)], p)) by {
                    assert(piles[source(k2)][t2].path == p);
                }
                lemma_two_piles_share_no_path(piles, i, source(k2), p);
                lemma_two_piles_share_no_path(piles, j, source(k2), p);
            } else if k2 == tgt {
                assert(has_path(merged, p)) by {
                    assert(merged[t2].path == p);
                }
                assert(has_path(piles[i], p) || has_path(piles[j], p));
                assert(step[k1] == piles[source(k1)]);
                assert(has_path(piles[source(k1)], p)) by {
                    assert(piles[source(k1)][t1].path == p);
                }
                lemma_two_piles_share_no_path(piles, i, source(k1), p);
                lemma_two_piles_share_no_path(piles, j, source(k1), p);
            } else {
                assert(step[k1] == piles[source(k1)]);
                assert(step[k2] == piles[source(k2)]);
                assert(source(k1) != source(k2));
                lemma_two_piles_share_no_path(piles, source(k1), source(k2), p);
                assert(has_path(piles[source(k1)], p)) by {
                    assert(piles[source(k1)][t1].path == p);
                }
                assert(has_path(piles[source(k2)], p)) by {
                    assert(piles[source(k2)][t2].path == p);
                }
            }
        }
    }
    // The pair is joined.
    assert(0 <= tgt < step.len());
    assert(step[tgt] == merged);
    assert(has_path(merged, l.path) && has_path(merged, r.path));
    assert(same_pile(step, l.path, r.path));
    // Nothing placed is lost, and co-membership survives.
    assert forall|p: Seq<char>| #[trigger] placed(piles, p) implies placed(step, p) by {
        let k = choose|k: int| 0 <= k < piles.len() && has_path(#[trigger] piles[k], p);
        lemma_relocate(piles, s, l, r, k, p);
    }
    assert forall|p: Seq<char>, q: Seq<char>| #[trigger] same_pile(piles, p, q) implies same_pile(
        step,
        p,
        q,
    ) by {
        let k = choose|k: int|
            0 <= k < piles.len() && has_path(#[trigger] piles[k], p) && has_path(piles[k], q);
        let k2 = lemma_relocate(piles, s, l, r, k, p);
        let k3 = lemma_relocate(piles, s, l, r, k, q);
        assert(k2 == k3);
    }
}

/// Two different piles never hold the same path.
proof fn lemma_two_piles_share_no_path(
    piles: Seq<Seq<ImageModel>>,
    k1: int,
    k2: int,
    p: Seq<char>,
)
    requires
        forall|a: int, b: int, t1: int, t2: int|
            0 <= a < b < piles.len() && 0 <= t1 < piles[a].len() && 0 <= t2 < piles[b].len() ==> (
            #[trigger] piles[a][t1]).path != (#[trigger] piles[b][t2]).path,
        0 <= k1 < piles.len(),
        0 <= k2 < piles.len(),
        k1 != k2,
        has_path(piles[k1], p),
    ensures
        !has_path(piles[k2], p),
{
    if has_path(piles[k2], p) {
        let t1 = choose|t: int| 0 <= t < piles[k1].len() && piles[k1][t].path == p;
        let t2 = choose|t: int| 0 <= t < piles[k2].len() && piles[k2][t].path == p;
        if k1 < k2 {
            assert(piles[k1][t1].path != piles[k2][t2].path);
        } else {
            assert(piles[k2][t2].path != piles[k1][t1].path);
        }
    }
}

/// After the merge branch, the contents of old pile `k` sit in some pile of
/// the result; returns its index, which depends only on `k`.
proof fn lemma_relocate(
    piles: Seq<Seq<ImageModel>>,
    s: Seq<ImageModel>,
    l: ImageModel,
    r: ImageModel,
    k: int,
    p: Seq<char>,
) -> (k2: int)
    requires
        engine_inv(piles, s),
        wf_images(s),
        pic_in(s, l),
        pic_in(s, r),
        find_pile(piles, l.path) is Some,
        find_pile(piles, r.path) is Some,
        find_pile(piles, l.path)->0 != find_pile(piles, r.path)->0,
        0 <= k < piles.len(),
        has_path(piles[k], p),
    ensures
        0 <= k2 < engine_step(piles, l, r).len(),
        has_path(engine_step(piles, l, r)[k2], p),
        k2 == merge_target_of(piles, l, r, k),
{
    let i = find_pile(piles, l.path)->0;
    let j = find_pile(piles, r.path)->0;
    lemma_find_pile_from_facts(piles, l.path, 0);
    lemma_find_pile_from_facts(piles, r.path, 0);
    let n = piles.len();
    let removed = swap_removed(piles, j);
    let tgt: int = if i == removed.len() {
        j
    } else {
        i
    };
    let merged = pics_merge(removed[tgt], piles[j]);
    let step = engine_step(piles, l, r);
    assert(step == removed.update(tgt, merged));
    assert(removed[tgt] == piles[i]);
    lemma_merge_facts(removed[tgt], piles[j]);
    let k2 = merge_target_of(piles, l, r, k);
    if k == i || k == j {
        assert(k2 == tgt);
        assert(has_path(merged, p));
        assert(step[tgt] == merged);
    } else if k == n - 1 {
        assert(i != n - 1 && j != n - 1);
        assert(tgt == i);
        assert(k2 == j);
        assert(step[j] == removed[j]);
        assert(removed[j] == piles[n - 1]);
    } else {
        assert(k2 == k);
        assert(k != tgt);
        assert(step[k] == removed[k]);
        assert(removed[k] == piles[k]);
    }
    k2
}

/// Where the contents of old pile `k` land after the merge branch for the
/// pair (l, r).
spec fn merge_target_of(
    piles: Seq<Seq<ImageModel>>,
    l: ImageModel,
    r: ImageModel,
    k: int,
) -> int {
    let i = find_pile(piles, l.path)->0;
    let j = find_pile(piles, r.path)->0;
    let tgt: int = if i == piles.len() - 1 {
        j
    } else {
        i
    };
    if k == i || k == j {
        tgt
    } else if k == piles.len() - 1 {
        j
    } else {
        k
    }
}

/// Folding a pair list keeps the invariant, keeps everything placed, keeps
/// co-membership, and joins every pair of the list.
proof fn lemma_run_facts(piles: Seq<Seq<ImageModel>>, s: Seq<ImageModel>, pairs: Seq<(int, int)>)
    requires
        engine_inv(piles, s),
        wf_images(s),
        forall|idx: int|
            0 <= idx < pairs.len() ==> 0 <= (#[trigger] pairs[idx]).0 < s.len() && 0
                <= pairs[idx].1 < s.len(),
    ensures
        engine_inv(engine_run(piles, s, pairs), s),
        forall|p: Seq<char>|
            #[trigger] placed(piles, p) ==> placed(engine_run(piles, s, pairs), p),
        forall|p: Seq<char>, q: Seq<char>|
            #[trigger] same_pile(piles, p, q) ==> same_pile(engine_run(piles, s, pairs), p, q),
        forall|idx: int|
            0 <= idx < pairs.len() ==> same_pile(
                engine_run(piles, s, pairs),
                s[(#[trigger] pairs[idx]).0].path,
                s[pairs[idx].1].path,
            ),
    decreases pairs.len(),
{
    if pairs.len() > 0 {
        let l = s[pairs[0].0];
        let r = s[pairs[0].1];
        assert(pic_in(s, l)) by {
            assert(s[pairs[0].0] == l);
        }
        assert(pic_in(s, r)) by {
            assert(s[pairs[0].1] == r);
        }
        lemma_step_facts(piles, s, l, r);
        let rest = pairs.drop_first();
        assert forall|idx: int|
            0 <= idx < rest.len() implies 0 <= (#[trigger] rest[idx]).0 < s.len() && 0
            <= rest[idx].1 < s.len() by {
            assert(rest[idx] == pairs[idx + 1]);
        }
        lemma_run_facts(engine_step(piles, l, r), s, rest);
        assert(engine_run(piles, s, pairs) == engine_run(engine_step(piles, l, r), s, rest));
        assert forall|idx: int|
            0 <= idx < pairs.len() implies same_pile(
            engine_run(piles, s, pairs),
            s[(#[trigger] pairs[idx]).0].path,
            s[pairs[idx].1].path,
        ) by {
            if idx == 0 {
                assert(same_pile(engine_step(piles, l, r), l.path, r.path));
            } else {
                assert(rest[idx - 1] == pairs[idx]);
            }
        }
    }
}

/// Whether a pair occurs in a pair list.
pub open spec fn pair_in(pairs: Seq<(int, int)>, pr: (int, int)) -> bool {
    exists|idx: int| 0 <= idx < pairs.len() && pairs[idx] == pr
}

proof fn lemma_row_pairs_facts(s: Seq<ImageModel>, cfg: MatchConfig, i: int, j: int)
    requires
        0 <= i < s.len(),
        i < j,
    ensures
        forall|idx: int|
            0 <= idx < row_pairs(s, cfg, i, j).len() ==> {
                let pr = #[trigger] row_pairs(s, cfg, i, j)[idx];
                pr.0 == i && j <= pr.1 < s.len() && img_match(cfg, s[i], s[pr.1])
            },
        forall|b: int|
            j <= b < s.len() && img_match(cfg, s[i], #[trigger] s[b]) ==> pair_in(
                row_pairs(s, cfg, i, j),
                (i, b),
            ),
    decreases s.len() - j,
{
    if j < s.len() {
        lemma_row_pairs_facts(s, cfg, i, j + 1);
        let head: Seq<(int, int)> = if img_match(cfg, s[i], s[j]) {
            seq![(i, j)]
        } else {
            Seq::empty()
        };
        let tail = row_pairs(s, cfg, i, j + 1);
        assert(row_pairs(s, cfg, i, j) == head + tail);
        assert forall|b: int|
            j <= b < s.len() && img_match(cfg, s[i], #[trigger] s[b]) implies pair_in(
            row_pairs(s, cfg, i, j),
            (i, b),
        ) by {
            if b == j {
                assert((head + tail)[0] == (i, j));
            } else {
                assert(pair_in(tail, (i, b)));
                let idx = choose|idx: int| 0 <= idx < tail.len() && tail[idx] == (i, b);
                assert((head + tail)[head.len() + idx] == (i, b));
            }
        }
        assert forall|idx: int| 0 <= idx < row_pairs(s, cfg, i, j).len() implies {
            let pr = #[trigger] row_pairs(s, cfg, i, j)[idx];
            pr.0 == i && j <= pr.1 < s.len() && img_match(cfg, s[i], s[pr.1])
        } by {
            if idx >= head.len() {
                assert(row_pairs(s, cfg, i, j)[idx] == tail[idx - head.len()]);
            }
        }
    }
}

proof fn lemma_upper_pairs_facts(s: Seq<ImageModel>, cfg: MatchConfig, i: int)
    requires
        0 <= i,
    ensures
        forall|idx: int|
            0 <= idx < upper_pairs(s, cfg, i).len() ==> {
                let pr = #[trigger] upper_pairs(s, cfg, i)[idx];
                i <= pr.0 < pr.1 < s.len() && img_match(cfg, s[pr.0], s[pr.1])
            },
        forall|a: int, b: int|
            i <= a < b < s.len() && img_match(cfg, #[trigger] s[a], #[trigger] s[b]) ==> pair_in(
                upper_pairs(s, cfg, i),
                (a, b),
            ),
    decreases s.len() - i,
{
    if i < s.len() {
        lemma_upper_pairs_facts(s, cfg, i + 1);
        lemma_row_pairs_facts(s, cfg, i, i + 1);
        let head = row_pairs(s, cfg, i, i + 1);
        let tail = upper_pairs(s, cfg, i + 1);
        assert(upper_pairs(s, cfg, i) == head + tail);
        assert forall|a: int, b: int|
            i <= a < b < s.len() && img_match(cfg, #[trigger] s[a], #[trigger] s[b]) implies
            pair_in(upper_pairs(s, cfg, i), (a, b)) by {
            if a == i {
                assert(pair_in(head, (a, b)));
                let idx = choose|idx: int| 0 <= idx < head.len() && head[idx] == (a, b);
                assert((head + tail)[idx] == (a, b));
            } else {
                assert(pair_in(tail, (a, b)));
                let idx = choose|idx: int| 0 <= idx < tail.len() && tail[idx] == (a, b);
                assert((head + tail)[head.len() + idx] == (a, b));
            }
        }
        assert forall|idx: int| 0 <= idx < upper_pairs(s, cfg, i).len() implies {
            let pr = #[trigger] upper_pairs(s, cfg, i)[idx];
            i <= pr.0 < pr.1 < s.len() && img_match(cfg, s[pr.0], s[pr.1])
        } by {
            if idx < head.len() {
                assert(upper_pairs(s, cfg, i)[idx] == head[idx]);
            } else {
                assert(upper_pairs(s, cfg, i)[idx] == tail[idx - head.len()]);
            }
        }
    }
}

proof fn lemma_self_pairs_facts(n: int, i: int)
    requires
        0 <= i,
    ensures
        forall|idx: int|
            0 <= idx < self_pairs(n, i).len() ==> {
                let pr = #[trigger] self_pairs(n, i)[idx];
                i <= pr.0 < n && pr.1 == pr.0
            },
        forall|a: int| i <= a < n ==> pair_in(self_pairs(n, i), (a, a)),
    decreases n - i,
{
    if i < n {
        lemma_self_pairs_facts(n, i + 1);
        let head: Seq<(int, int)> = seq![(i, i)];
        let tail = self_pairs(n, i + 1);
        assert(self_pairs(n, i) == head + tail);
        assert forall|a: int| i <= a < n implies pair_in(self_pairs(n, i), (a, a)) by {
            if a == i {
                assert((head + tail)[0] == (i, i));
            } else {
                assert(pair_in(tail, (a, a)));
                let idx = choose|idx: int| 0 <= idx < tail.len() && tail[idx] == (a, a);
                assert((head + tail)[1 + idx] == (a, a));
            }
        }
        assert forall|idx: int| 0 <= idx < self_pairs(n, i).len() implies {
            let pr = #[trigger] self_pairs(n, i)[idx];
            i <= pr.0 < n && pr.1 == pr.0
        } by {
            if idx >= 1 {
                assert(self_pairs(n, i)[idx] == tail[idx - 1]);
            }
        }
    }
}

proof fn lemma_all_pairs_facts(s: Seq<ImageModel>, cfg: MatchConfig)
    ensures
        forall|idx: int|
            0 <= idx < all_pairs(s, cfg).len() ==> 0 <= (#[trigger] all_pairs(s, cfg)[idx]).0
                < s.len() && 0 <= all_pairs(s, cfg)[idx].1 < s.len(),
        forall|u: int| 0 <= u < s.len() ==> pair_in(all_pairs(s, cfg), (u, u)),
        forall|a: int, b: int|
            0 <= a < b < s.len() && img_match(cfg, #[trigger] s[a], #[trigger] s[b]) ==> pair_in(
                all_pairs(s, cfg),
                (a, b),
            ),
{
    lemma_upper_pairs_facts(s, cfg, 0);
    lemma_self_pairs_facts(s.len() as int, 0);
    let head = upper_pairs(s, cfg, 0);
    let tail = self_pairs(s.len() as int, 0);
    assert(all_pairs(s, cfg) == head + tail);
    assert forall|u: int| 0 <= u < s.len() implies pair_in(all_pairs(s, cfg), (u, u)) by {
        assert(pair_in(tail, (u, u)));
        let idx = choose|idx: int| 0 <= idx < tail.len() && tail[idx] == (u, u);
        assert((head + tail)[head.len() + idx] == (u, u));
    }
    assert forall|a: int, b: int|
        0 <= a < b < s.len() && img_match(cfg, #[trigger] s[a], #[trigger] s[b]) implies pair_in(
        all_pairs(s, cfg),
        (a, b),
    ) by {
        assert(pair_in(head, (a, b)));
        let idx = choose|idx: int| 0 <= idx < head.len() && head[idx] == (a, b);
        assert((head + tail)[idx] == (a, b));
    }
    assert forall|idx: int| 0 <= idx < all_pairs(s, cfg).len() implies 0 <= (
    #[trigger] all_pairs(s, cfg)[idx]).0 < s.len() && 0 <= all_pairs(s, cfg)[idx].1 < s.len() by {
        if idx < head.len() {
            assert(all_pairs(s, cfg)[idx] == head[idx]);
        } else {
            assert(all_pairs(s, cfg)[idx] == tail[idx - head.len()]);
        }
    }
}

/// The match predicate is symmetric over fingerprints of one width.
pub proof fn lemma_match_symmetric(cfg: MatchConfig, a: ImageModel, b: ImageModel)
    requires
        a.hash.len() == b.hash.len(),
    ensures
        img_match(cfg, a, b) == img_match(cfg, b, a),
{
    lemma_hamming_to_sym(a.hash, b.hash, a.hash.len() as int);
}

/// Pile co-membership does not depend on the order of the two paths.
pub proof fn lemma_same_pile_sym(piles: Seq<Seq<ImageModel>>, p: Seq<char>, q: Seq<char>)
    ensures
        same_pile(piles, p, q) == same_pile(piles, q, p),
{
    if same_pile(piles, p, q) {
        let k = choose|k: int|
            0 <= k < piles.len() && has_path(#[trigger] piles[k], p) && has_path(piles[k], q);
        assert(has_path(piles[k], q) && has_path(piles[k], p));
    }
    if same_pile(piles, q, p) {
        let k = choose|k: int|
            0 <= k < piles.len() && has_path(#[trigger] piles[k], q) && has_path(piles[k], p);
        assert(has_path(piles[k], p) && has_path(piles[k], q));
    }
}

/// Partition totality and non-emptiness: for an image set with distinct
/// paths, the engine's partition satisfies the standing invariant - every
/// pile non-empty, every member drawn from the set, no path in two piles -
/// and every image of the set is placed in some pile.
pub proof fn theorem_cluster_partition(s: Seq<ImageModel>, cfg: MatchConfig)
    requires
        wf_images(s),
        distinct_paths(s),
    ensures
        engine_inv(cluster_spec(s, cfg), s),
        forall|u: int| 0 <= u < s.len() ==> placed(cluster_spec(s, cfg), (#[trigger] s[u]).path),
{
    lemma_all_pairs_facts(s, cfg);
    let pairs = all_pairs(s, cfg);
    let start: Seq<Seq<ImageModel>> = Seq::empty();
    assert(engine_inv(start, s));
    lemma_run_facts(start, s, pairs);
    let run = cluster_spec(s, cfg);
    assert forall|u: int| 0 <= u < s.len() implies placed(run, (#[trigger] s[u]).path) by {
        assert(pair_in(pairs, (u, u)));
        let idx = choose|idx: int| 0 <= idx < pairs.len() && pairs[idx] == (u, u);
        assert(same_pile(run, s[pairs[idx].0].path, s[pairs[idx].1].path));
        let k = choose|k: int|
            0 <= k < run.len() && has_path(#[trigger] run[k], s[u].path) && has_path(
                run[k],
                s[u].path,
            );
        assert(has_path(run[k], s[u].path));
    }
}

/// Transitivity by merging: when image a matches image b and image b
/// matches image c, all three paths land in one pile of the final
/// partition, whether or not a matches c directly.
pub proof fn theorem_match_chain(s: Seq<ImageModel>, cfg: MatchConfig, a: int, b: int, c: int)
    requires
        wf_images(s),
        distinct_paths(s),
        0 <= a < s.len(),
        0 <= b < s.len(),
        0 <= c < s.len(),
        a != b,
        b != c,
        img_match(cfg, s[a], s[b]),
        img_match(cfg, s[b], s[c]),
    ensures
        same_pile(cluster_spec(s, cfg), s[a].path, s[b].path),
        same_pile(cluster_spec(s, cfg), s[b].path, s[c].path),
        same_pile(cluster_spec(s, cfg), s[a].path, s[c].path),
{
    lemma_all_pairs_facts(s, cfg);
    assert(img_wf(s[a]) && img_wf(s[b]) && img_wf(s[c]));
    lemma_match_symmetric(cfg, s[a], s[b]);
    lemma_match_symmetric(cfg, s[b], s[c]);
    let pairs = all_pairs(s, cfg);
    let start: Seq<Seq<ImageModel>> = Seq::empty();
    assert(engine_inv(start, s));
    lemma_run_facts(start, s, pairs);
    let run = cluster_spec(s, cfg);
    let x1: int = if a < b {
        a
    } else {
        b
    };
    let y1: int = if a < b {
        b
    } else {
        a
    };
    assert(pair_in(pairs, (x1, y1)));
    let idx1 = choose|idx: int| 0 <= idx < pairs.len() && pairs[idx] == (x1, y1);
    assert(same_pile(run, s[x1].path, s[y1].path));
    lemma_same_pile_sym(run, s[b].path, s[a].path);
    assert(same_pile(run, s[a].path, s[b].path));
    let x2: int = if b < c {
        b
    } else {
        c
    };
    let y2: int = if b < c {
        c
    } else {
        b
    };
    assert(pair_in(pairs, (x2, y2)));
    let idx2 = choose|idx: int| 0 <= idx < pairs.len() && pairs[idx] == (x2, y2);
    assert(same_pile(run, s[x2].path, s[y2].path));
    lemma_same_pile_sym(run, s[c].path, s[b].path);
    assert(same_pile(run, s[b].path, s[c].path));
    let k3 = choose|k: int|
        0 <= k < run.len() && has_path(#[trigger] run[k], s[a].path) && has_path(
            run[k],
            s[b].path,
        );
    let k4 = choose|k: int|
        0 <= k < run.len() && has_path(#[trigger] run[k], s[b].path) && has_path(
            run[k],
            s[c].path,
        );
    if k3 != k4 {
        lemma_two_piles_share_no_path(run, k3, k4, s[b].path);
    }
    assert(has_path(run[k3], s[a].path) && has_path(run[k3], s[c].path));
}

/// Re-running the engine on the same image sequence with the same
/// thresholds yields the same partition: the grouping is a function of the
/// input sequence and the configuration alone, so a second run groups the
/// paths exactly as the first did.
pub proof fn theorem_recluster_deterministic(
    s: Seq<ImageModel>,
    cfg: MatchConfig,
    r1: Seq<Seq<ImageModel>>,
    r2: Seq<Seq<ImageModel>>,
)
    requires
        r1 == cluster_spec(s, cfg),
        r2 == cluster_spec(s, cfg),
    ensures
        r1 == r2,
        forall|p: Seq<char>, q: Seq<char>| same_pile(r1, p, q) == same_pile(r2, p, q),
{
}

} // verus!
