use vstd::prelude::*;
use crate::category_metrics::CategoryMetrics;
use crate::multiway_partition::sat_add_i64;
use crate::multiway_partition::sat_sub_i64;
use crate::multiway_partition::sat_mul_i64;
use crate::multiway_partition::copy_indices;
use vstd::seq_lib::lemma_flatten_concat;

verus! {

/// `cut` divides `input` into exactly `g` non-empty contiguous runs:
/// concatenated in order they give `input` back.
pub open spec fn is_cut(cut: Seq<Seq<usize>>, input: Seq<usize>, g: nat) -> bool {
    &&& cut.len() == g
    &&& forall|r: int| 0 <= r < cut.len() ==> (#[trigger] cut[r]).len() >= 1
    &&& cut.flatten() == input
}

/// Descriptors fit for scoring: one count and one total per category, and
/// every category has at least one member.
pub open spec fn scorable(data: CategoryMetrics) -> bool {
    &&& data.elements_per_group@.len() == data.group_total@.len()
    &&& forall|id: int|
        0 <= id < data.elements_per_group@.len() ==> #[trigger] data.elements_per_group@[id] >= 1
}

/// Every id mentioned by the runs has a descriptor.
pub open spec fn ids_in_range(cut: Seq<Seq<usize>>, n_cats: int) -> bool {
    forall|g: int, p: int|
        0 <= g < cut.len() && 0 <= p < cut[g].len() ==> (#[trigger] cut[g][p] as int) < n_cats
}

/// Which target counts the recursive split can serve: the exhaustive
/// search needs no more groups than ids, and the split in half needs each
/// half to remain servable.
pub open spec fn seg_ok(len: nat, groups: nat) -> bool
    decreases len,
{
    if len <= 10 {
        1 <= groups <= len
    } else {
        let half = ((len + 1) / 2) as nat;
        &&& 2 <= groups
        &&& seg_ok(half, (groups / 2) as nat)
        &&& seg_ok((len - half) as nat, (groups - groups / 2) as nat)
    }
}

/// A family of non-empty runs flattens to at least one element per run.
proof fn lemma_flatten_min_len(cut: Seq<Seq<usize>>)
    requires
        forall|r: int| 0 <= r < cut.len() ==> (#[trigger] cut[r]).len() >= 1,
    ensures
        cut.flatten().len() >= cut.len(),
    decreases cut.len(),
{
    if cut.len() > 0 {
        assert(cut.flatten() == cut.first() + cut.drop_first().flatten());
        assert(forall|r: int|
            0 <= r < cut.drop_first().len() ==> (#[trigger] cut.drop_first()[r]).len() >= 1);
        lemma_flatten_min_len(cut.drop_first());
    }
}

/// A category count as a 64-bit signed value, saturating.
pub open spec fn cap_count(c: usize) -> int {
    if c as int > i64::MAX as int {
        i64::MAX as int
    } else {
        c as int
    }
}

/// The element count over all categories, accumulated with saturation.
pub open spec fn sat_total_of(counts: Seq<usize>) -> int
    decreases counts.len(),
{
    if counts.len() == 0 {
        0
    } else {
        crate::multiway_partition::clamp_i64(
            sat_total_of(counts.drop_last()) + cap_count(counts.last()),
        )
    }
}

/// The common scale: the factorial of the element count, saturating.
pub open spec fn sat_scale_of(total: int) -> int
    decreases total,
{
    if total < 2 {
        1
    } else {
        crate::multiway_partition::clamp_i64(sat_scale_of(total - 1) * total)
    }
}

/// Members of one run, by category count.
pub open spec fn run_count_sat(run: Seq<usize>, counts: Seq<usize>) -> int
    decreases run.len(),
{
    if run.len() == 0 {
        0
    } else {
        crate::multiway_partition::clamp_i64(
            run_count_sat(run.drop_last(), counts) + cap_count(counts[run.last() as int]),
        )
    }
}

/// Value total of one run.
pub open spec fn run_total_sat(run: Seq<usize>, totals: Seq<i64>) -> int
    decreases run.len(),
{
    if run.len() == 0 {
        0
    } else {
        crate::multiway_partition::clamp_i64(
            run_total_sat(run.drop_last(), totals) + totals[run.last() as int],
        )
    }
}

/// The scaled within-run second moment of one run.
pub open spec fn run_within_sat(
    run: Seq<usize>,
    counts: Seq<usize>,
    totals: Seq<i64>,
    scale: int,
) -> int
    decreases run.len(),
{
    if run.len() == 0 {
        0
    } else {
        let s = totals[run.last() as int] as int;
        let q = scale / cap_count(counts[run.last() as int]);
        crate::multiway_partition::clamp_i64(
            run_within_sat(run.drop_last(), counts, totals, scale)
                + crate::multiway_partition::clamp_i64(
                crate::multiway_partition::clamp_i64(s * s) * q,
            ),
        )
    }
}

/// The scaled stratified-variance score of a whole segmentation: what
/// `fisher_score` computes, run by run.
pub open spec fn cut_score_sat(
    cut: Seq<Seq<usize>>,
    counts: Seq<usize>,
    totals: Seq<i64>,
    scale: int,
) -> int
    decreases cut.len(),
{
    if cut.len() == 0 {
        0
    } else {
        let run = cut.last();
        let prev = cut_score_sat(cut.drop_last(), counts, totals, scale);
        if run.len() == 0 {
            prev
        } else {
            let w = run_within_sat(run, counts, totals, scale);
            let t = run_total_sat(run, totals);
            let b = crate::multiway_partition::clamp_i64(
                crate::multiway_partition::clamp_i64(t * t) * (scale / run_count_sat(
                    run,
                    counts,
                )),
            );
            crate::multiway_partition::clamp_i64(
                prev + crate::multiway_partition::clamp_i64(w - b),
            )
        }
    }
}

/// The position of the lowest-scoring division, and of score ties the
/// earliest: the strict-less scan keeps the first minimum.
pub open spec fn first_min_index(
    cuts: Seq<Seq<Seq<usize>>>,
    counts: Seq<usize>,
    totals: Seq<i64>,
    scale: int,
) -> int
    decreases cuts.len(),
{
    if cuts.len() <= 1 {
        0
    } else {
        let p = first_min_index(cuts.drop_last(), counts, totals, scale);
        if cut_score_sat(cuts.last(), counts, totals, scale) < cut_score_sat(
            cuts[p],
            counts,
            totals,
            scale,
        ) {
            cuts.len() - 1
        } else {
            p
        }
    }
}

/// The scale that `fisher_score` uses for the given descriptors.
pub open spec fn score_scale(data: CategoryMetrics) -> int {
    sat_scale_of(sat_total_of(data.elements_per_group@))
}

/// Each division of `cuts`, with `head` put in front as its first run.
pub open spec fn prepend_all(head: Seq<usize>, cuts: Seq<Seq<Seq<usize>>>) -> Seq<
    Seq<Seq<usize>>,
> {
    Seq::new(cuts.len(), |t: int| seq![head] + cuts[t])
}

/// The divisions of `input` into `g` non-empty contiguous runs, in the
/// order the enumeration yields them: by growing head length, then by
/// the recursive order of the tail's divisions.
pub open spec fn cuts_spec(input: Seq<usize>, g: nat) -> Seq<Seq<Seq<usize>>>
    decreases g, input.len() + 2int,
{
    if g <= 1 {
        seq![seq![input]]
    } else if g > input.len() {
        Seq::empty()
    } else {
        cuts_upto(input, g, input.len() - g + 2)
    }
}

/// The divisions whose first run is shorter than `i`, in enumeration
/// order.
pub open spec fn cuts_upto(input: Seq<usize>, g: nat, i: int) -> Seq<Seq<Seq<usize>>>
    decreases g, i,
{
    if g <= 1 || i <= 1 {
        Seq::empty()
    } else {
        cuts_upto(input, g, i - 1) + prepend_all(
            input.take(i - 1),
            cuts_spec(input.skip(i - 1), (g - 1) as nat),
        )
    }
}

fn copy_runs(cut: &Vec<Vec<usize>>) -> (r: Vec<Vec<usize>>)
    ensures
        r.deep_view() == cut.deep_view(),
        r@.len() == cut@.len(),
{
    let mut r: Vec<Vec<usize>> = Vec::new();
    let mut i: usize = 0;
    while i < cut.len()
        invariant
            0 <= i <= cut@.len(),
            r@.len() == i,
            forall|j: int| 0 <= j < i ==> (#[trigger] r@[j])@ == cut@[j]@,
        decreases cut@.len() - i,
    {
        let g = copy_indices(&cut[i]);
        r.push(g);
        i += 1;
    }
    proof {
        assert(r.deep_view() =~~= cut.deep_view());
    }
    r
}

/// Every way to divide `input` into exactly `groups` non-empty contiguous
/// runs, found by cutting off every possible head and recursing on the
/// rest.
#[verifier::rlimit(60)]
pub fn exhaustive_segments(input: Vec<usize>, groups: usize) -> (r: Vec<Vec<Vec<usize>>>)
    requires
        1 <= groups <= input@.len(),
    ensures
        r@.len() >= 1,
        forall|c: int|
            0 <= c < r@.len() ==> is_cut(
                (#[trigger] r@[c]).deep_view(),
                input@,
                groups as nat,
            ),
        forall|c: Seq<Seq<usize>>|
            #[trigger] is_cut(c, input@, groups as nat) ==> exists|idx: int|
                0 <= idx < r@.len() && (#[trigger] r@[idx]).deep_view() == c,
        forall|c1: int, c2: int|
            0 <= c1 < c2 < r@.len() ==> (#[trigger] r@[c1]).deep_view() != (
            #[trigger] r@[c2]).deep_view(),
        groups == 1 ==> r@.len() == 1,
        r.deep_view() == cuts_spec(input@, groups as nat),
    decreases groups,
{
    let ghost iv = input@;
    if groups == 1 {
        let mut cut: Vec<Vec<usize>> = Vec::new();
        cut.push(input);
        let mut r: Vec<Vec<Vec<usize>>> = Vec::new();
        r.push(cut);
        proof {
            let dv = r@[0].deep_view();
            assert(dv.len() == 1);
            assert(dv[0] == iv);
            assert(dv.drop_first() =~= Seq::<Seq<usize>>::empty());
            assert(Seq::<Seq<usize>>::empty().flatten() =~= Seq::<usize>::empty());
            assert(dv.flatten() =~= iv);
            assert(dv =~= seq![iv]);
            assert(r.deep_view() =~~= seq![seq![iv]]);
            assert forall|c: Seq<Seq<usize>>| #[trigger] is_cut(c, iv, groups as nat)
                implies exists|idx: int|
                0 <= idx < r@.len() && (#[trigger] r@[idx]).deep_view() == c by {
                assert(c.flatten() == c.first() + c.drop_first().flatten());
                assert(c.drop_first() =~= Seq::<Seq<usize>>::empty());
                assert(c[0] + Seq::<usize>::empty() =~= c[0]);
                assert(c[0] == iv);
                assert(c =~= dv);
                assert(r@[0].deep_view() == c);
            }
        }
        r
    } else {
        let n = input.len();
        let mut r: Vec<Vec<Vec<usize>>> = Vec::new();
        let mut i: usize = 1;
        let bound = n - groups + 1;
        while i <= bound
            invariant
                1 <= i <= bound + 1,
                bound == n - groups + 1,
                2 <= groups <= n,
                n == iv.len(),
                input@ == iv,
                i >= 2 ==> r@.len() >= 1,
                forall|c: int|
                    0 <= c < r@.len() ==> is_cut(
                        (#[trigger] r@[c]).deep_view(),
                        iv,
                        groups as nat,
                    ),
                forall|c: Seq<Seq<usize>>|
                    #[trigger] is_cut(c, iv, groups as nat) && c[0].len() < i
                        ==> exists|idx: int|
                        0 <= idx < r@.len() && (#[trigger] r@[idx]).deep_view() == c,
                forall|t: int|
                    0 <= t < r@.len() ==> (#[trigger] r@[t]).deep_view()[0].len() < i,
                forall|c1: int, c2: int|
                    0 <= c1 < c2 < r@.len() ==> (#[trigger] r@[c1]).deep_view() != (
                    #[trigger] r@[c2]).deep_view(),
                r.deep_view() == cuts_upto(iv, groups as nat, i as int),
            decreases bound + 1 - i,
        {
            let mut head: Vec<usize> = Vec::new();
            let mut hj: usize = 0;
            while hj < i
                invariant
                    0 <= hj <= i,
                    i <= iv.len(),
                    input@ == iv,
                    head@ == iv.subrange(0, hj as int),
                decreases i - hj,
            {
                head.push(input[hj]);
                hj += 1;
            }
            let mut tail: Vec<usize> = Vec::new();
            let mut tj: usize = i;
            while tj < n
                invariant
                    i <= tj <= n,
                    n == iv.len(),
                    input@ == iv,
                    tail@ == iv.subrange(i as int, tj as int),
                decreases n - tj,
            {
                tail.push(input[tj]);
                tj += 1;
            }
            proof {
                assert(tail@ == iv.subrange(i as int, n as int));
                assert(tail@.len() == n - i >= groups - 1);
            }
            let sub = exhaustive_segments(tail, groups - 1);
            let ghost r_start = r@.len();
            let mut tc: usize = 0;
            while tc < sub.len()
                invariant
                    0 <= tc <= sub@.len(),
                    sub@.len() >= 1,
                    input@ == iv,
                    head@ == iv.subrange(0, i as int),
                    1 <= i,
                    i + groups <= iv.len() + 1,
                    2 <= groups,
                    forall|c: int|
                        0 <= c < sub@.len() ==> is_cut(
                            (#[trigger] sub@[c]).deep_view(),
                            iv.subrange(i as int, iv.len() as int),
                            (groups - 1) as nat,
                        ),
                    r@.len() == r_start + tc,
                    forall|c: int|
                        0 <= c < r@.len() ==> is_cut(
                            (#[trigger] r@[c]).deep_view(),
                            iv,
                            groups as nat,
                        ),
                    forall|c: Seq<Seq<usize>>|
                        #[trigger] is_cut(c, iv, groups as nat) && c[0].len() < i
                            ==> exists|idx: int|
                            0 <= idx < r@.len() && (#[trigger] r@[idx]).deep_view() == c,
                    forall|t: int|
                        0 <= t < r_start ==> (#[trigger] r@[t]).deep_view()[0].len() < i,
                    forall|t: int|
                        r_start <= t < r@.len() ==> (#[trigger] r@[t]).deep_view() == seq![
                            iv.subrange(0, i as int),
                        ] + sub@[t - r_start].deep_view(),
                    r_start == cuts_upto(iv, groups as nat, i as int).len(),
                    forall|t: int|
                        0 <= t < r_start ==> (#[trigger] r@[t]).deep_view() == cuts_upto(
                            iv,
                            groups as nat,
                            i as int,
                        )[t],
                    sub.deep_view() == cuts_spec(
                        iv.subrange(i as int, iv.len() as int),
                        (groups - 1) as nat,
                    ),
                    forall|c1: int, c2: int|
                        0 <= c1 < c2 < sub@.len() ==> (#[trigger] sub@[c1]).deep_view() != (
                        #[trigger] sub@[c2]).deep_view(),
                    forall|c1: int, c2: int|
                        0 <= c1 < c2 < r@.len() ==> (#[trigger] r@[c1]).deep_view() != (
                        #[trigger] r@[c2]).deep_view(),
                    forall|c2: Seq<Seq<usize>>|
                        #[trigger] is_cut(
                            c2,
                            iv.subrange(i as int, iv.len() as int),
                            (groups - 1) as nat,
                        ) ==> exists|t: int|
                            0 <= t < sub@.len() && (#[trigger] sub@[t]).deep_view() == c2,
                    forall|t: int|
                        0 <= t < tc ==> exists|idx: int|
                            0 <= idx < r@.len() && (#[trigger] r@[idx]).deep_view() == seq![
                                iv.subrange(0, i as int),
                            ] + (#[trigger] sub@[t]).deep_view(),
                decreases sub@.len() - tc,
            {
                let head_copy = copy_indices(&head);
                let tail_runs = copy_runs(&sub[tc]);
                let mut cut: Vec<Vec<usize>> = Vec::new();
                cut.push(head_copy);
                let mut cr: usize = 0;
                while cr < tail_runs.len()
                    invariant
                        0 <= cr <= tail_runs@.len(),
                        cut@.len() == cr + 1,
                        cut@[0]@ == iv.subrange(0, i as int),
                        forall|j: int| 0 <= j < cr ==> (#[trigger] cut@[j + 1])@ == tail_runs@[j]@,
                        forall|j: int| 1 <= j < cut@.len() ==> (#[trigger] cut@[j])@ == tail_runs@[
                            j - 1
                        ]@,
                    decreases tail_runs@.len() - cr,
                {
                    let run = copy_indices(&tail_runs[cr]);
                    cut.push(run);
                    cr += 1;
                }
                proof {
                    let dv = cut.deep_view();
                    let sdv = sub@[tc as int].deep_view();
                    assert(tail_runs.deep_view() == sdv);
                    assert(dv.len() == 1 + sdv.len());
                    assert(dv[0] =~= iv.subrange(0, i as int));
                    assert forall|j: int| 1 <= j < dv.len() implies dv[j] =~= sdv[j - 1] by {
                        assert(cut@[j]@ == tail_runs@[j - 1]@);
                        assert(sdv[j - 1] == tail_runs@[j - 1]@);
                        assert forall|q: int| 0 <= q < dv[j].len() implies dv[j][q] == sdv[j
                            - 1][q] by {
                            assert(dv[j][q] == cut@[j]@[q]);
                        }
                    }
                    assert(dv =~~= seq![iv.subrange(0, i as int)] + sdv);
                    lemma_flatten_concat(seq![iv.subrange(0, i as int)], sdv);
                    assert(seq![iv.subrange(0, i as int)].flatten() =~= iv.subrange(0, i as int))
                        by {
                        assert(seq![iv.subrange(0, i as int)].drop_first() =~= Seq::<
                            Seq<usize>,
                        >::empty());
                        assert(Seq::<Seq<usize>>::empty().flatten() =~= Seq::<usize>::empty());
                    }
                    assert(sdv.flatten() == iv.subrange(i as int, iv.len() as int));
                    assert(dv == seq![iv.subrange(0, i as int)] + sdv);
                    assert(dv.flatten() == seq![iv.subrange(0, i as int)].flatten()
                        + sdv.flatten());
                    assert(dv.flatten() == iv.subrange(0, i as int) + iv.subrange(
                        i as int,
                        iv.len() as int,
                    ));
                    assert(iv.subrange(0, i as int) + iv.subrange(i as int, iv.len() as int)
                        =~= iv);
                    assert(dv.flatten() =~= iv);
                    assert forall|rr: int| 0 <= rr < dv.len() implies (#[trigger] dv[rr]).len()
                        >= 1 by {
                        if rr == 0 {
                            assert(dv[0].len() == i);
                        } else {
                            assert(dv[rr] == sdv[rr - 1]);
                        }
                    }
                    assert(is_cut(dv, iv, groups as nat));
                }
                let ghost r_pre = r@;
                r.push(cut);
                proof {
                    assert(r@[r@.len() - 1].deep_view() == seq![iv.subrange(0, i as int)]
                        + sub@[tc as int].deep_view());
                    assert forall|c1: int, c2: int|
                        0 <= c1 < c2 < r@.len() implies (#[trigger] r@[c1]).deep_view() != (
                    #[trigger] r@[c2]).deep_view() by {
                        if c2 == r@.len() - 1 {
                            let d1 = r@[c1].deep_view();
                            let d2 = r@[c2].deep_view();
                            assert(d2 == seq![iv.subrange(0, i as int)] + sub@[
                                tc as int
                            ].deep_view());
                            assert(d2[0] == iv.subrange(0, i as int));
                            assert(d2[0].len() == i);
                            if c1 < r_start {
                                assert(d1[0].len() < i);
                                if d1 == d2 {
                                    assert(d1[0] == d2[0]);
                                }
                            } else {
                                let t1 = c1 - r_start;
                                assert(d1 == seq![iv.subrange(0, i as int)] + sub@[
                                    t1
                                ].deep_view());
                                if d1 == d2 {
                                    assert(d1.drop_first() =~= sub@[t1].deep_view());
                                    assert(d2.drop_first() =~= sub@[tc as int].deep_view());
                                    assert(sub@[t1].deep_view() == sub@[tc as int].deep_view());
                                }
                            }
                        }
                    }
                    assert forall|c: Seq<Seq<usize>>|
                        #[trigger] is_cut(c, iv, groups as nat) && c[0].len() < i
                            implies exists|idx: int|
                            0 <= idx < r@.len() && (#[trigger] r@[idx]).deep_view() == c by {
                        let idx0 = choose|idx: int|
                            0 <= idx < r_pre.len() && (#[trigger] r_pre[idx]).deep_view() == c;
                        assert(r@[idx0].deep_view() == c);
                    }
                    assert forall|t: int| 0 <= t < tc + 1 implies exists|idx: int|
                        0 <= idx < r@.len() && (#[trigger] r@[idx]).deep_view() == seq![
                            iv.subrange(0, i as int),
                        ] + (#[trigger] sub@[t]).deep_view() by {
                        if t < tc {
                            let idx0 = choose|idx: int|
                                0 <= idx < r_pre.len() && (#[trigger] r_pre[idx]).deep_view()
                                    == seq![iv.subrange(0, i as int)] + sub@[t].deep_view();
                            assert(r@[idx0].deep_view() == seq![iv.subrange(0, i as int)]
                                + sub@[t].deep_view());
                        } else {
                            assert(r@[r@.len() - 1].deep_view() == seq![
                                iv.subrange(0, i as int),
                            ] + sub@[t].deep_view());
                        }
                    }
                }
                tc += 1;
            }
            proof {
                assert(iv.subrange(i as int, iv.len() as int) =~= iv.skip(i as int));
                assert(iv.subrange(0, i as int) =~= iv.take(i as int));
                assert(cuts_upto(iv, groups as nat, i + 1 as int) == cuts_upto(
                    iv,
                    groups as nat,
                    i as int,
                ) + prepend_all(iv.take(i as int), cuts_spec(iv.skip(i as int), (groups - 1) as nat)));
                assert(r.deep_view() =~~= cuts_upto(iv, groups as nat, i + 1 as int)) by {
                    let pre_len = cuts_upto(iv, groups as nat, i as int).len();
                    let blk = prepend_all(
                        iv.take(i as int),
                        cuts_spec(iv.skip(i as int), (groups - 1) as nat),
                    );
                    assert(blk.len() == sub@.len());
                    assert(r.deep_view().len() == pre_len + blk.len());
                    assert forall|t: int|
                        0 <= t < r@.len() implies r.deep_view()[t] == (cuts_upto(
                        iv,
                        groups as nat,
                        i + 1 as int,
                    ))[t] by {
                        if t < pre_len {
                            assert(r@[t].deep_view() == cuts_upto(iv, groups as nat, i as int)[t]);
                        } else {
                            assert(r@[t].deep_view() == seq![iv.subrange(0, i as int)] + sub@[
                                t - pre_len
                            ].deep_view());
                            assert(blk[t - pre_len] == seq![iv.take(i as int)] + cuts_spec(
                                iv.skip(i as int),
                                (groups - 1) as nat,
                            )[t - pre_len]);
                            assert(sub@[t - pre_len].deep_view() == sub.deep_view()[t - pre_len]);
                        }
                    }
                }
                assert forall|t: int|
                    0 <= t < r@.len() implies (#[trigger] r@[t]).deep_view()[0].len() < i + 1 by {
                    if t >= r_start {
                        assert(r@[t].deep_view() == seq![iv.subrange(0, i as int)] + sub@[
                            t - r_start
                        ].deep_view());
                        assert(r@[t].deep_view()[0] == iv.subrange(0, i as int));
                    }
                }
                assert forall|c: Seq<Seq<usize>>|
                    #[trigger] is_cut(c, iv, groups as nat) && c[0].len() < i + 1
                        implies exists|idx: int|
                        0 <= idx < r@.len() && (#[trigger] r@[idx]).deep_view() == c by {
                    if c[0].len() == i {
                        let tcut = c.drop_first();
                        assert(c.flatten() == c.first() + tcut.flatten());
                        assert(c.first() == c[0]);
                        assert(c[0].len() + tcut.flatten().len() == iv.len());
                        assert(c[0] =~= iv.subrange(0, i as int)) by {
                            assert forall|q: int| 0 <= q < i implies c[0][q] == iv[q] by {
                                assert(iv[q] == (c[0] + tcut.flatten())[q]);
                            }
                        }
                        assert(tcut.flatten() =~= iv.subrange(i as int, iv.len() as int)) by {
                            assert forall|q: int|
                                0 <= q < tcut.flatten().len() implies tcut.flatten()[q] == iv[q
                                + i] by {
                                assert((c[0] + tcut.flatten())[q + i] == tcut.flatten()[q]);
                            }
                        }
                        assert forall|rr: int| 0 <= rr < tcut.len() implies (#[trigger] tcut[
                            rr
                        ]).len() >= 1 by {
                            assert(tcut[rr] == c[rr + 1]);
                        }
                        assert(is_cut(
                            tcut,
                            iv.subrange(i as int, iv.len() as int),
                            (groups - 1) as nat,
                        ));
                        let t = choose|t: int|
                            0 <= t < sub@.len() && (#[trigger] sub@[t]).deep_view() == tcut;
                        let idx0 = choose|idx: int|
                            0 <= idx < r@.len() && (#[trigger] r@[idx]).deep_view() == seq![
                                iv.subrange(0, i as int),
                            ] + sub@[t].deep_view();
                        assert(seq![iv.subrange(0, i as int)] + tcut =~= c) by {
                            assert((seq![iv.subrange(0, i as int)] + tcut)[0] == c[0]);
                            assert forall|j: int|
                                1 <= j < c.len() implies (seq![iv.subrange(0, i as int)]
                                + tcut)[j] == c[j] by {
                                assert(tcut[j - 1] == c[j]);
                            }
                        }
                        assert(r@[idx0].deep_view() == c);
                    }
                }
            }
            i += 1;
        }
        proof {
            assert(r.deep_view() == cuts_upto(iv, groups as nat, bound + 1 as int));
            assert(bound + 1 == iv.len() - groups + 2);
            assert(r.deep_view() == cuts_spec(iv, groups as nat));
            assert forall|c: Seq<Seq<usize>>| #[trigger] is_cut(c, iv, groups as nat)
                implies exists|idx: int|
                0 <= idx < r@.len() && (#[trigger] r@[idx]).deep_view() == c by {
                let tcut = c.drop_first();
                assert(c.flatten() == c.first() + tcut.flatten());
                assert forall|rr: int| 0 <= rr < tcut.len() implies (#[trigger] tcut[rr]).len()
                    >= 1 by {
                    assert(tcut[rr] == c[rr + 1]);
                }
                lemma_flatten_min_len(tcut);
                assert(tcut.flatten().len() >= groups - 1);
                assert(c[0].len() + tcut.flatten().len() == iv.len());
                assert(c[0].len() < i);
            }
        }
        r
    }
}

/// The single best segmentation of `group_id` into `groups` contiguous
/// runs, wrapped in a one-element list. At or below ten ids every
/// division is scored and the first minimum wins; above ten the ids are
/// split at the midpoint and each half is solved for half the target,
/// trading global optimality for tractability.
pub fn segments(group_id: &Vec<usize>, group_descriptors: &CategoryMetrics, groups: usize) -> (r:
    Vec<Vec<Vec<usize>>>)
    requires
        seg_ok(group_id@.len(), groups as nat),
        scorable(*group_descriptors),
        forall|p: int|
            0 <= p < group_id@.len() ==> (#[trigger] group_id@[p] as int)
                < group_descriptors.elements_per_group@.len(),
    ensures
        r@.len() == 1,
        is_cut(r@[0].deep_view(), group_id@, groups as nat),
        group_id@.len() <= 10 ==> forall|c: Seq<Seq<usize>>|
            #[trigger] is_cut(c, group_id@, groups as nat) ==> cut_score_sat(
                r@[0].deep_view(),
                group_descriptors.elements_per_group@,
                group_descriptors.group_total@,
                score_scale(*group_descriptors),
            ) <= cut_score_sat(
                c,
                group_descriptors.elements_per_group@,
                group_descriptors.group_total@,
                score_scale(*group_descriptors),
            ),
        group_id@.len() <= 10 ==> r@[0].deep_view() == cuts_spec(group_id@, groups as nat)[
            first_min_index(
                cuts_spec(group_id@, groups as nat),
                group_descriptors.elements_per_group@,
                group_descriptors.group_total@,
                score_scale(*group_descriptors),
            )
        ],
        group_id@.len() > 10 ==> is_cut(
            r@[0].deep_view().subrange(0, groups as int / 2),
            group_id@.subrange(0, (group_id@.len() + 1) as int / 2),
            (groups / 2) as nat,
        ) && is_cut(
            r@[0].deep_view().subrange(groups as int / 2, groups as int),
            group_id@.subrange((group_id@.len() + 1) as int / 2, group_id@.len() as int),
            (groups - groups / 2) as nat,
        ),
    decreases group_id@.len(),
{
    let ghost counts = group_descriptors.elements_per_group@;
    let ghost totals = group_descriptors.group_total@;
    let ghost sc = score_scale(*group_descriptors);
    let n = group_id.len();
    if n <= 10 {
        let ids = copy_indices(group_id);
        let mut cuts = exhaustive_segments(ids, groups);
        let ghost cv = cuts@;
        proof {
            assert forall|c: int| 0 <= c < cv.len() implies ids_in_range(
                (#[trigger] cv[c]).deep_view(),
                group_descriptors.elements_per_group@.len() as int,
            ) by {
                let dv = cv[c].deep_view();
                assert forall|g: int, p: int|
                    0 <= g < dv.len() && 0 <= p < dv[g].len() implies (#[trigger] dv[g][p] as int)
                    < group_descriptors.elements_per_group@.len() by {
                    crate::multiway_partition::lemma_bins_count_lower(dv, g, p);
                    crate::summation::lemma_sum_map_flatten(
                        dv,
                        crate::summation::eq_ind(dv[g][p]),
                    );
                    assert(crate::summation::seq_count(dv.flatten(), dv[g][p]) >= 1);
                    assert(dv.flatten() == group_id@);
                    assert(group_id@.contains(dv[g][p])) by {
                        crate::summation::lemma_count_positive(group_id@, dv[g][p]);
                    }
                }
            }
        }
        let ghost cdv = cuts.deep_view();
        let mut best: usize = 0;
        let mut best_score = fisher_score(&cuts[0], group_descriptors);
        let mut ci: usize = 1;
        while ci < cuts.len()
            invariant
                1 <= ci <= cuts@.len(),
                0 <= best < ci,
                cuts@ == cv,
                cdv == cuts.deep_view(),
                cdv.len() == cv.len(),
                forall|t: int| 0 <= t < cv.len() ==> #[trigger] cdv[t] == cv[t].deep_view(),
                scorable(*group_descriptors),
                counts == group_descriptors.elements_per_group@,
                totals == group_descriptors.group_total@,
                sc == score_scale(*group_descriptors),
                forall|c: int|
                    0 <= c < cv.len() ==> ids_in_range(
                        (#[trigger] cv[c]).deep_view(),
                        group_descriptors.elements_per_group@.len() as int,
                    ),
                best_score as int == cut_score_sat(cv[best as int].deep_view(), counts, totals, sc),
                best as int == first_min_index(cdv.subrange(0, ci as int), counts, totals, sc),
                forall|t: int|
                    0 <= t < ci ==> cut_score_sat(cv[best as int].deep_view(), counts, totals, sc)
                        <= cut_score_sat((#[trigger] cv[t]).deep_view(), counts, totals, sc),
            decreases cuts@.len() - ci,
        {
            let s = fisher_score(&cuts[ci], group_descriptors);
            proof {
                assert(cdv.subrange(0, ci + 1 as int).drop_last() =~= cdv.subrange(0, ci as int));
                assert(cdv.subrange(0, ci + 1 as int).last() == cdv[ci as int]);
                assert(cdv[ci as int] == cv[ci as int].deep_view());
                assert(cdv.subrange(0, ci as int)[best as int] == cv[best as int].deep_view());
            }
            if s < best_score {
                best = ci;
                best_score = s;
            }
            ci += 1;
        }
        proof {
            assert(cdv.subrange(0, cdv.len() as int) =~= cdv);
            assert(best as int == first_min_index(cdv, counts, totals, sc));
        }
        let chosen = cuts.remove(best);
        let mut r: Vec<Vec<Vec<usize>>> = Vec::new();
        r.push(chosen);
        proof {
            assert(r@[0].deep_view() == cv[best as int].deep_view());
            assert(cdv == cuts_spec(group_id@, groups as nat)) by {
                assert(ids@ == group_id@);
            }
            assert(r@[0].deep_view() == cuts_spec(group_id@, groups as nat)[
                first_min_index(cuts_spec(group_id@, groups as nat), counts, totals, sc)
            ]);
            assert forall|c: Seq<Seq<usize>>| #[trigger] is_cut(c, group_id@, groups as nat)
                implies cut_score_sat(r@[0].deep_view(), counts, totals, sc) <= cut_score_sat(
                c,
                counts,
                totals,
                sc,
            ) by {
                let idx = choose|idx: int|
                    0 <= idx < cv.len() && (#[trigger] cv[idx]).deep_view() == c;
                assert(cut_score_sat(cv[best as int].deep_view(), counts, totals, sc)
                    <= cut_score_sat(cv[idx].deep_view(), counts, totals, sc));
            }
        }
        r
    } else {
        let lhs_groups = groups / 2;
        let half = n / 2 + n % 2;
        let mut left_ids: Vec<usize> = Vec::new();
        let mut li: usize = 0;
        while li < half
            invariant
                0 <= li <= half,
                half <= n,
                n == group_id@.len(),
                left_ids@ == group_id@.subrange(0, li as int),
            decreases half - li,
        {
            left_ids.push(group_id[li]);
            li += 1;
        }
        let mut right_ids: Vec<usize> = Vec::new();
        let mut ri: usize = half;
        while ri < n
            invariant
                half <= ri <= n,
                n == group_id@.len(),
                right_ids@ == group_id@.subrange(half as int, ri as int),
            decreases n - ri,
        {
            right_ids.push(group_id[ri]);
            ri += 1;
        }
        proof {
            assert(left_ids@ == group_id@.subrange(0, half as int));
            assert(right_ids@ == group_id@.subrange(half as int, n as int));
            assert(half == (n + 1) / 2);
            assert(seg_ok(left_ids@.len(), lhs_groups as nat));
            assert(seg_ok(right_ids@.len(), (groups - lhs_groups) as nat));
        }
        let mut left = segments(&left_ids, group_descriptors, lhs_groups);
        let right = segments(&right_ids, group_descriptors, groups - lhs_groups);
        let left_cut = left.remove(0);
        let mut combined = left_cut;
        let ghost lcv = combined.deep_view();
        let right_runs = copy_runs(&right[0]);
        let ghost rcv = right[0].deep_view();
        let mut cr: usize = 0;
        while cr < right_runs.len()
            invariant
                0 <= cr <= right_runs@.len(),
                combined@.len() == lcv.len() + cr,
                forall|j: int| 0 <= j < lcv.len() ==> (#[trigger] combined@[j])@ == lcv[j],
                forall|j: int|
                    lcv.len() <= j < combined@.len() ==> (#[trigger] combined@[j])@ == rcv[j
                        - lcv.len()],
                forall|j: int| 0 <= j < right_runs@.len() ==> (#[trigger] right_runs@[j])@ == rcv[
                    j
                ],
            decreases right_runs@.len() - cr,
        {
            let run = copy_indices(&right_runs[cr]);
            combined.push(run);
            cr += 1;
        }
        proof {
            assert(combined.deep_view() =~~= lcv + rcv);
            lemma_flatten_concat(lcv, rcv);
            assert(lcv.flatten() == group_id@.subrange(0, half as int));
            assert(rcv.flatten() == group_id@.subrange(half as int, n as int));
            assert(combined.deep_view().flatten() =~= group_id@);
            assert(lhs_groups + (groups - lhs_groups) == groups);
            assert(is_cut(combined.deep_view(), group_id@, groups as nat));
            assert(half as int == (group_id@.len() + 1) as int / 2);
            assert(combined.deep_view().subrange(0, lhs_groups as int) =~= lcv);
            assert(combined.deep_view().subrange(lhs_groups as int, groups as int) =~= rcv);
        }
        let mut r: Vec<Vec<Vec<usize>>> = Vec::new();
        r.push(combined);
        r
    }
}

/// The stratified-variance score of a candidate segmentation, scaled by
/// the factorial of the element count so that it is an integer: each
/// run contributes the count-weighted squared deviation of its members'
/// means from the run mean, and clearing the denominators by `n!` turns
/// the comparison into an integer one. The arithmetic saturates at the
/// 64-bit limits, much as floating-point scoring would lose exactness
/// at its precision limit.
pub fn fisher_score(indexes: &Vec<Vec<usize>>, data: &CategoryMetrics) -> (score: i64)
    requires
        scorable(*data),
        ids_in_range(indexes.deep_view(), data.elements_per_group@.len() as int),
    ensures
        score as int == cut_score_sat(
            indexes.deep_view(),
            data.elements_per_group@,
            data.group_total@,
            score_scale(*data),
        ),
{
    let ghost counts = data.elements_per_group@;
    let ghost totals = data.group_total@;
    let n_cats = data.elements_per_group.len();
    // total element count, saturating
    let mut total: i64 = 0;
    let mut ci: usize = 0;
    while ci < n_cats
        invariant
            0 <= ci <= n_cats,
            counts == data.elements_per_group@,
            n_cats == counts.len(),
            total >= 0,
            total as int == sat_total_of(counts.subrange(0, ci as int)),
        decreases n_cats - ci,
    {
        let c = data.elements_per_group[ci];
        let c64: i64 = if c as u64 > i64::MAX as u64 {
            i64::MAX
        } else {
            c as i64
        };
        proof {
            assert(c64 as int == cap_count(c));
            assert(counts.subrange(0, ci + 1 as int).drop_last() =~= counts.subrange(
                0,
                ci as int,
            ));
            assert(counts.subrange(0, ci + 1 as int).last() == c);
        }
        total = sat_add_i64(total, c64);
        ci += 1;
    }
    proof {
        assert(counts.subrange(0, counts.len() as int) =~= counts);
        assert(total as int == sat_total_of(counts));
    }
    // the common scale: total! (saturating)
    let mut scale: i64 = 1;
    let total_u: u64 = total as u64;
    let mut m: u64 = 2;
    while m <= total_u
        invariant
            scale >= 1,
            m >= 2,
            m <= total_u + 1 || m == 2,
            total_u <= i64::MAX as u64,
            total_u as int == sat_total_of(counts),
            counts == data.elements_per_group@,
            scale as int == sat_scale_of(m as int - 1),
        decreases total_u + 1 - m,
    {
        proof {
            assert(scale as int * (m as i64) as int >= 1) by (nonlinear_arith)
                requires
                    scale as int >= 1,
                    (m as i64) as int >= 2,
            ;
        }
        scale = sat_mul_i64(scale, m as i64);
        m = m + 1;
    }
    proof {
        if total_u >= 2 {
            assert(m as int - 1 == total_u as int);
        } else {
            assert(scale as int == sat_scale_of(1));
            assert(sat_scale_of(total_u as int) == 1);
        }
        assert(scale as int == sat_scale_of(sat_total_of(counts)));
        assert(scale as int == score_scale(*data));
    }
    let mut score: i64 = 0;
    let mut g: usize = 0;
    while g < indexes.len()
        invariant
            0 <= g <= indexes@.len(),
            scale >= 1,
            scorable(*data),
            counts == data.elements_per_group@,
            totals == data.group_total@,
            n_cats == counts.len(),
            scale as int == score_scale(*data),
            ids_in_range(indexes.deep_view(), n_cats as int),
            score as int == cut_score_sat(
                indexes.deep_view().subrange(0, g as int),
                counts,
                totals,
                scale as int,
            ),
        decreases indexes@.len() - g,
    {
        let run = &indexes[g];
        let ghost rv = run@;
        let mut run_count: i64 = 0;
        let mut run_total: i64 = 0;
        let mut within: i64 = 0;
        let mut p: usize = 0;
        while p < run.len()
            invariant
                0 <= p <= rv.len(),
                run_count >= if p > 0 {
                    1int
                } else {
                    0int
                },
                run_count >= 0,
                scale >= 1,
                scorable(*data),
                counts == data.elements_per_group@,
                totals == data.group_total@,
                n_cats == counts.len(),
                0 <= g < indexes@.len(),
                rv == run@,
                rv == indexes@[g as int]@,
                rv == indexes.deep_view()[g as int],
                ids_in_range(indexes.deep_view(), n_cats as int),
                run_count as int == run_count_sat(rv.subrange(0, p as int), counts),
                run_total as int == run_total_sat(rv.subrange(0, p as int), totals),
                within as int == run_within_sat(
                    rv.subrange(0, p as int),
                    counts,
                    totals,
                    scale as int,
                ),
            decreases rv.len() - p,
        {
            let id = run[p];
            proof {
                assert(indexes.deep_view()[g as int][p as int] == id);
                assert(rv.subrange(0, p + 1 as int).drop_last() =~= rv.subrange(0, p as int));
                assert(rv.subrange(0, p + 1 as int).last() == id);
            }
            let c = data.elements_per_group[id];
            let c64: i64 = if c as u64 > i64::MAX as u64 {
                i64::MAX
            } else {
                c as i64
            };
            proof {
                assert(c64 as int == cap_count(c));
                assert(c64 >= 1);
            }
            let s = data.group_total[id];
            let q = scale / c64;
            within = sat_add_i64(within, sat_mul_i64(sat_mul_i64(s, s), q));
            run_count = sat_add_i64(run_count, c64);
            run_total = sat_add_i64(run_total, s);
            p += 1;
        }
        proof {
            assert(rv.subrange(0, rv.len() as int) =~= rv);
            assert(indexes.deep_view().subrange(0, g + 1 as int).drop_last()
                =~= indexes.deep_view().subrange(0, g as int));
            assert(indexes.deep_view().subrange(0, g + 1 as int).last() == rv);
        }
        if run.len() > 0 {
            let qc = scale / run_count;
            let between = sat_mul_i64(sat_mul_i64(run_total, run_total), qc);
            score = sat_add_i64(score, sat_sub_i64(within, between));
        }
        g += 1;
    }
    proof {
        assert(indexes.deep_view().subrange(0, indexes.deep_view().len() as int)
            =~= indexes.deep_view());
    }
    score
}

} // verus!
