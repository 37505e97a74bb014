//! Itinerary Ranker: filters the path catalogue to the wanted distance
//! band, mirrors each candidate for the return direction, scores full
//! itineraries, and greedily selects a ranked, non-overlapping set.

use vstd::prelude::*;
use crate::journeys::Journey;
use crate::records::{rev_of, Path};

verus! {

/// The candidate's distance lies in the wanted band.
pub open spec fn in_band(p: Path, lo: int, hi: int) -> bool {
    lo <= p.dist <= hi
}

/// The in-band candidates of `s`, each followed by its reverse.
pub open spec fn mirror_spec(s: Seq<Path>, lo: int, hi: int) -> Seq<Path>
    decreases s.len(),
{
    if s.len() == 0 {
        Seq::empty()
    } else {
        mirror_spec(s.drop_last(), lo, hi) + if in_band(s.last(), lo, hi) {
            seq![s.last(), rev_of(s.last())]
        } else {
            Seq::empty()
        }
    }
}

proof fn lemma_mirror_step(s: Seq<Path>, lo: int, hi: int, i: int)
    requires
        0 <= i < s.len(),
    ensures
        mirror_spec(s.take(i + 1), lo, hi) == mirror_spec(s.take(i), lo, hi) + if in_band(
            s[i],
            lo,
            hi,
        ) {
            seq![s[i], rev_of(s[i])]
        } else {
            Seq::empty()
        },
{
    assert(s.take(i + 1).drop_last() =~= s.take(i));
    assert(s.take(i + 1).last() == s[i]);
}

/// Keep the candidates whose distance lies in `[lo, hi]` and add the
/// reverse of each, in catalogue order.
pub fn mirror_candidates(paths: &Vec<Path>, lo: i32, hi: i32) -> (r: Vec<Path>)
    ensures
        r@ == mirror_spec(paths@, lo as int, hi as int),
{
    let mut r: Vec<Path> = Vec::new();
    let mut k: usize = 0;
    while k < paths.len()
        invariant
            k <= paths@.len(),
            r@ == mirror_spec(paths@.take(k as int), lo as int, hi as int),
        decreases paths@.len() - k,
    {
        let p = &paths[k];
        if lo <= p.dist && p.dist <= hi {
            let copy = Path {
                dist: p.dist,
                srcdist: p.srcdist,
                destdist: p.destdist,
                src: p.src,
                dest: p.dest,
                etapp: p.etapp.clone(),
            };
            proof {
                assert(copy == paths@[k as int]);
            }
            let rev = p.reversed();
            r.push(copy);
            r.push(rev);
        }
        proof {
            lemma_mirror_step(paths@, lo as int, hi as int, k as int);
            if in_band(paths@[k as int], lo as int, hi as int) {
                assert(r@ =~= mirror_spec(paths@.take(k as int), lo as int, hi as int) + seq![
                    paths@[k as int],
                    rev_of(paths@[k as int]),
                ]);
            }
        }
        k = k + 1;
    }
    proof {
        assert(paths@.take(paths@.len() as int) =~= paths@);
    }
    r
}

/// Some candidate has `x` as its `src` stop area.
pub open spec fn some_src(paths: Seq<Path>, x: i32) -> bool {
    exists|k: int| 0 <= k < paths.len() && (#[trigger] paths[k]).src == x
}

/// `x` is one of the itineraries of `s`.
pub open spec fn elem_of(s: Seq<Itinerary>, x: Itinerary) -> bool {
    exists|k: int| 0 <= k < s.len() && #[trigger] s[k] == x
}

/// Whether `x` occurs in `v`.
pub fn vec_contains_i32(v: &Vec<i32>, x: i32) -> (b: bool)
    ensures
        b == v@.contains(x),
{
    let mut k: usize = 0;
    while k < v.len()
        invariant
            k <= v@.len(),
            forall|j: int| 0 <= j < k ==> v@[j] != x,
        decreases v@.len() - k,
    {
        if v[k] == x {
            return true;
        }
        k = k + 1;
    }
    false
}

/// The distinct `src` stop-area ids of the candidates, first occurrence
/// first: the origins one journey query is issued for.
pub fn distinct_sources(paths: &Vec<Path>) -> (r: Vec<i32>)
    ensures
        forall|i: int, j: int| 0 <= i < j < r@.len() ==> (#[trigger] r@[i]) != (#[trigger] r@[j]),
        forall|i: int| 0 <= i < r@.len() ==> some_src(paths@, #[trigger] r@[i]),
        forall|k: int| 0 <= k < paths@.len() ==> r@.contains((#[trigger] paths@[k]).src),
{
    let mut r: Vec<i32> = Vec::new();
    let mut k: usize = 0;
    while k < paths.len()
        invariant
            k <= paths@.len(),
            forall|i: int, j: int|
                0 <= i < j < r@.len() ==> (#[trigger] r@[i]) != (#[trigger] r@[j]),
            forall|i: int| 0 <= i < r@.len() ==> some_src(paths@, #[trigger] r@[i]),
            forall|k2: int| 0 <= k2 < k ==> r@.contains((#[trigger] paths@[k2]).src),
        decreases paths@.len() - k,
    {
        let ghost pre = r@;
        let s = paths[k].src;
        if !vec_contains_i32(&r, s) {
            r.push(s);
            proof {
                assert(r@[r@.len() - 1] == s);
                assert(paths@[k as int].src == s);
                assert(some_src(paths@, s));
                assert forall|k2: int|
                    0 <= k2 < k implies r@.contains((#[trigger] paths@[k2]).src) by {
                    let i = choose|i: int| 0 <= i < pre.len() && pre[i] == paths@[k2].src;
                    assert(r@[i] == paths@[k2].src);
                }
            }
        }
        k = k + 1;
    }
    r
}

/// When the destination-leg journey must depart: the origin journey's
/// arrival plus the time to walk the candidate at `walk_speed` meters
/// per hour.
pub fn dest_departure(arrtime: i64, dist_m: i32, walk_speed: i32) -> (t: i64)
    requires
        walk_speed > 0,
        dist_m >= 0,
        -4_000_000_000_000_000_000 <= arrtime <= 4_000_000_000_000_000_000,
    ensures
        t == arrtime + (dist_m * 3600) / (walk_speed as int),
{
    let walk: i64 = ((dist_m as i64) * 3600) / (walk_speed as i64);
    arrtime + walk
}

/// A fully scored end-to-end trip: transit out, walk, transit back.
pub struct Itinerary {
    pub origj: Journey,
    pub destj: Journey,
    pub path: Path,
    pub score: i64,
}

/// Combine the two journey scores and the candidate into an itinerary;
/// shorter connector legs and better-fitting journeys both raise the
/// total score.
pub fn make_itinerary(origj: Journey, origscore: i32, destj: Journey, destscore: i32, path: Path) -> (it:
    Itinerary)
    ensures
        it.origj == origj,
        it.destj == destj,
        it.path == path,
        it.score == origscore + destscore - path.srcdist - path.destdist,
{
    let score: i64 = origscore as i64 + destscore as i64 - path.srcdist as i64
        - path.destdist as i64;
    Itinerary { origj, destj, path, score }
}

/// The two itineraries touch a common stop area, from either end.
pub open spec fn conflicts(a: Itinerary, b: Itinerary) -> bool {
    a.path.src == b.path.src || a.path.src == b.path.dest || a.path.dest == b.path.src
        || a.path.dest == b.path.dest
}

/// `x` was handled greedily: it is selected, or collides with a
/// selected itinerary that scores no lower.
pub open spec fn covered(out: Seq<Itinerary>, x: Itinerary) -> bool {
    exists|k: int|
        0 <= k < out.len() && (#[trigger] out[k] == x || (conflicts(out[k], x) && out[k].score
            >= x.score))
}

/// Some selected itinerary already uses the stop area `id`.
pub open spec fn id_used_by(out: Seq<Itinerary>, id: i32) -> bool {
    exists|k: int| 0 <= k < out.len() && ((#[trigger] out[k]).path.src == id || out[k].path.dest == id)
}

/// No two selected itineraries may touch the same stop area, from either
/// end.
pub open spec fn no_overlap(r: Seq<Itinerary>) -> bool {
    forall|i: int, j: int|
        0 <= i < j < r.len() ==> (#[trigger] r[i]).path.src != (#[trigger] r[j]).path.src
            && r[i].path.src != r[j].path.dest && r[i].path.dest != r[j].path.src
            && r[i].path.dest != r[j].path.dest
}

/// Order itineraries by falling score and accept greedily, skipping any
/// whose `src` or `dest` stop area was already used by an accepted one.
pub fn rank_itineraries(itins: Vec<Itinerary>) -> (r: Vec<Itinerary>)
    ensures
        forall|i: int, j: int|
            0 <= i < j < r@.len() ==> (#[trigger] r@[i]).score >= (#[trigger] r@[j]).score,
        no_overlap(r@),
        forall|i: int| 0 <= i < r@.len() ==> elem_of(itins@, #[trigger] r@[i]),
        forall|i: int| 0 <= i < itins@.len() ==> covered(r@, #[trigger] itins@[i]),
{
    broadcast use vstd::seq_lib::group_seq_properties;

    // Sort by falling score: repeatedly move the first-best remaining
    // itinerary over, which keeps equal scores in their given order.
    let mut rest = itins;
    let mut sorted: Vec<Itinerary> = Vec::new();
    while rest.len() > 0
        invariant
            forall|i: int, j: int|
                0 <= i < j < sorted@.len() ==> (#[trigger] sorted@[i]).score
                    >= (#[trigger] sorted@[j]).score,
            forall|i: int, j: int|
                0 <= i < sorted@.len() && 0 <= j < rest@.len() ==> (#[trigger] sorted@[i]).score
                    >= (#[trigger] rest@[j]).score,
            forall|i: int| 0 <= i < sorted@.len() ==> elem_of(itins@, #[trigger] sorted@[i]),
            forall|i: int| 0 <= i < rest@.len() ==> elem_of(itins@, #[trigger] rest@[i]),
            forall|i: int|
                0 <= i < itins@.len() ==> elem_of(rest@, #[trigger] itins@[i]) || elem_of(
                    sorted@,
                    itins@[i],
                ),
        decreases rest@.len(),
    {
        let mut mi: usize = 0;
        let mut m: usize = 1;
        while m < rest.len()
            invariant
                rest@.len() > 0,
                mi < m <= rest@.len(),
                forall|j: int|
                    0 <= j < m ==> rest@[mi as int].score >= (#[trigger] rest@[j]).score,
            decreases rest@.len() - m,
        {
            if rest[m].score > rest[mi].score {
                mi = m;
            }
            m = m + 1;
        }
        let ghost pre_rest = rest@;
        let ghost pre_sorted = sorted@;
        let it = rest.remove(mi);
        sorted.push(it);
        proof {
            assert(rest@ == pre_rest.remove(mi as int));
            assert(sorted@ == pre_sorted.push(pre_rest[mi as int]));
            assert forall|i: int| 0 <= i < rest@.len() implies elem_of(
                itins@,
                #[trigger] rest@[i],
            ) by {
                if i < mi {
                    assert(rest@[i] == pre_rest[i]);
                    assert(elem_of(itins@, pre_rest[i]));
                } else {
                    assert(rest@[i] == pre_rest[i + 1]);
                    assert(elem_of(itins@, pre_rest[i + 1]));
                }
            }
            assert(elem_of(itins@, pre_rest[mi as int]));
            assert(sorted@[sorted@.len() - 1] == pre_rest[mi as int]);
            assert forall|i: int, j: int|
                0 <= i < sorted@.len() && 0 <= j < rest@.len() implies (#[trigger] sorted@[i]).score
                >= (#[trigger] rest@[j]).score by {
                if j < mi {
                    assert(rest@[j] == pre_rest[j]);
                } else {
                    assert(rest@[j] == pre_rest[j + 1]);
                }
            }
            assert forall|i: int|
                0 <= i < itins@.len() implies elem_of(rest@, #[trigger] itins@[i]) || elem_of(
                sorted@,
                itins@[i],
            ) by {
                if elem_of(pre_rest, itins@[i]) {
                    let k = choose|k: int| 0 <= k < pre_rest.len() && #[trigger] pre_rest[k] == itins@[i];
                    if k == mi {
                        assert(sorted@[sorted@.len() - 1] == itins@[i]);
                    } else if k < mi {
                        assert(rest@[k] == pre_rest[k]);
                    } else {
                        assert(rest@[k - 1] == pre_rest[k]);
                    }
                } else {
                    let k = choose|k: int|
                        0 <= k < pre_sorted.len() && #[trigger] pre_sorted[k] == itins@[i];
                    assert(sorted@[k] == itins@[i]);
                }
            }
        }
    }

    // Greedy selection.
    let mut out: Vec<Itinerary> = Vec::new();
    let mut used: Vec<i32> = Vec::new();
    let mut i: usize = 0;
    while i < sorted.len()
        invariant
            i <= sorted@.len(),
            forall|i2: int, j: int|
                0 <= i2 < j < sorted@.len() ==> (#[trigger] sorted@[i2]).score
                    >= (#[trigger] sorted@[j]).score,
            forall|i2: int| 0 <= i2 < sorted@.len() ==> elem_of(itins@, #[trigger] sorted@[i2]),
            forall|k1: int, k2: int|
                0 <= k1 < k2 < out@.len() ==> (#[trigger] out@[k1]).score
                    >= (#[trigger] out@[k2]).score,
            forall|k: int|
                0 <= k < out@.len() && i < sorted@.len() ==> (#[trigger] out@[k]).score
                    >= sorted@[i as int].score,
            no_overlap(out@),
            forall|k: int|
                0 <= k < out@.len() ==> used@.contains((#[trigger] out@[k]).path.src)
                    && used@.contains(out@[k].path.dest),
            forall|u: int| 0 <= u < used@.len() ==> id_used_by(out@, #[trigger] used@[u]),
            forall|k: int| 0 <= k < out@.len() ==> elem_of(sorted@, #[trigger] out@[k]),
            forall|i2: int| 0 <= i2 < i ==> covered(out@, #[trigger] sorted@[i2]),
        decreases sorted@.len() - i,
    {
        let src = sorted[i].path.src;
        let dest = sorted[i].path.dest;
        if !vec_contains_i32(&used, src) && !vec_contains_i32(&used, dest) {
            let ghost pre_used = used@;
            let ghost pre_out = out@;
            let itc = copy_itinerary(&sorted, i);
            out.push(itc);
            used.push(src);
            used.push(dest);
            proof {
                assert(out@[out@.len() - 1] == sorted@[i as int]);
                assert(used@ == pre_used.push(src).push(dest));
                assert(used@[used@.len() - 2] == src && used@[used@.len() - 1] == dest);
                assert forall|k: int|
                    0 <= k < out@.len() implies used@.contains((#[trigger] out@[k]).path.src)
                    && used@.contains(out@[k].path.dest) by {
                    if k < out@.len() - 1 {
                        let a = out@[k].path.src;
                        let b = out@[k].path.dest;
                        let ia = choose|ia: int| 0 <= ia < pre_used.len() && pre_used[ia] == a;
                        let ib = choose|ib: int| 0 <= ib < pre_used.len() && pre_used[ib] == b;
                        assert(used@[ia] == a && used@[ib] == b);
                    }
                }
                assert(no_overlap(out@)) by {
                    assert forall|k1: int, k2: int|
                        0 <= k1 < k2 < out@.len() implies (#[trigger] out@[k1]).path.src
                        != (#[trigger] out@[k2]).path.src && out@[k1].path.src
                        != out@[k2].path.dest && out@[k1].path.dest != out@[k2].path.src
                        && out@[k1].path.dest != out@[k2].path.dest by {
                        if k2 == out@.len() - 1 {
                            assert(pre_used.contains(out@[k1].path.src));
                            assert(pre_used.contains(out@[k1].path.dest));
                            assert(!pre_used.contains(src) && !pre_used.contains(dest));
                        } else {
                            assert(out@[k1] == pre_out[k1] && out@[k2] == pre_out[k2]);
                        }
                    }
                }
                assert forall|u: int|
                    0 <= u < used@.len() implies id_used_by(out@, #[trigger] used@[u]) by {
                    if u < pre_used.len() {
                        assert(used@[u] == pre_used[u]);
                        let k = choose|k: int|
                            0 <= k < pre_out.len() && ((#[trigger] pre_out[k]).path.src
                                == pre_used[u] || pre_out[k].path.dest == pre_used[u]);
                        assert(out@[k] == pre_out[k]);
                    } else {
                        assert(out@[out@.len() - 1].path.src == src && out@[out@.len()
                            - 1].path.dest == dest);
                    }
                }
                assert forall|i2: int|
                    0 <= i2 < i + 1 implies covered(out@, #[trigger] sorted@[i2]) by {
                    if i2 == i {
                        assert(out@[out@.len() - 1] == sorted@[i2]);
                    } else {
                        let k = choose|k: int|
                            0 <= k < pre_out.len() && (#[trigger] pre_out[k] == sorted@[i2]
                                || (conflicts(pre_out[k], sorted@[i2]) && pre_out[k].score
                                    >= sorted@[i2].score));
                        assert(out@[k] == pre_out[k]);
                    }
                }
            }
        } else {
            proof {
                let x = sorted@[i as int];
                if used@.contains(src) {
                    let u = choose|u: int| 0 <= u < used@.len() && used@[u] == src;
                    assert(id_used_by(out@, src));
                    let k = choose|k: int|
                        0 <= k < out@.len() && ((#[trigger] out@[k]).path.src == src
                            || out@[k].path.dest == src);
                    assert(conflicts(out@[k], x) && out@[k].score >= x.score);
                } else {
                    let u = choose|u: int| 0 <= u < used@.len() && used@[u] == dest;
                    assert(id_used_by(out@, dest));
                    let k = choose|k: int|
                        0 <= k < out@.len() && ((#[trigger] out@[k]).path.src == dest
                            || out@[k].path.dest == dest);
                    assert(conflicts(out@[k], x) && out@[k].score >= x.score);
                }
                assert(covered(out@, x));
            }
        }
        i = i + 1;
    }
    proof {
        assert forall|k: int| 0 <= k < out@.len() implies elem_of(itins@, #[trigger] out@[k]) by {
            assert(elem_of(sorted@, out@[k]));
            let j = choose|j: int| 0 <= j < sorted@.len() && #[trigger] sorted@[j] == out@[k];
            assert(elem_of(itins@, sorted@[j]));
        }
        assert forall|i: int| 0 <= i < itins@.len() implies covered(out@, #[trigger] itins@[i]) by {
            assert(elem_of(sorted@, itins@[i]));
            let j = choose|j: int| 0 <= j < sorted@.len() && #[trigger] sorted@[j] == itins@[i];
            assert(covered(out@, sorted@[j]));
            let k = choose|k: int|
                0 <= k < out@.len() && (#[trigger] out@[k] == sorted@[j] || (conflicts(
                    out@[k],
                    sorted@[j],
                ) && out@[k].score >= sorted@[j].score));
            assert(out@[k] == itins@[i] || (conflicts(out@[k], itins@[i]) && out@[k].score
                >= itins@[i].score));
        }
    }
    out
}

/// A field-for-field copy of the itinerary at `i`.
fn copy_itinerary(v: &Vec<Itinerary>, i: usize) -> (it: Itinerary)
    requires
        i < v@.len(),
    ensures
        it == v@[i as int],
{
    let r = &v[i];
    Itinerary {
        origj: r.origj,
        destj: r.destj,
        path: Path {
            dist: r.path.dist,
            srcdist: r.path.srcdist,
            destdist: r.path.destdist,
            src: r.path.src,
            dest: r.path.dest,
            etapp: r.path.etapp.clone(),
        },
        score: r.score,
    }
}

} // verus!
