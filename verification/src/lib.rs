//! Combinatorial grouping over integer weights: an exact multiway number
//! partitioner (complete Karmarkar-Karp differencing with branch-and-bound
//! pruning) and an information-preserving segmentation engine that merges
//! dense categories into contiguous super-bins under a stratified-variance
//! score. Every returned assignment provably partitions its input range
//! exactly once.

pub mod category_metrics;
pub mod multiway_partition;
pub mod permutations;
pub mod preserve_information;
pub mod summation;

use vstd::prelude::*;
use crate::multiway_partition::EvenSizedBinNodeTree;
use crate::multiway_partition::bins_count;
use crate::multiway_partition::exact_cover;
use crate::multiway_partition::copy_indices;
use crate::multiway_partition::naive_single_group;
use crate::multiway_partition::lemma_bins_count_lower;
use crate::summation::eq_ind;
use crate::summation::nested_sum_fn;
use crate::summation::sum_map;
use crate::summation::seq_count;
use crate::summation::ident_seq;
use crate::summation::lemma_sum_map_push;
use crate::summation::lemma_sum_map_flatten;
use crate::summation::lemma_sum_map_permutation;
use crate::summation::lemma_sum_map_ident;
use crate::summation::lemma_counts_give_multiset;
use crate::summation::lemma_seq_count_multiset;
use crate::summation::lemma_ident_count;

verus! {

pub open spec fn abs_of(x: i64) -> int {
    if x >= 0 {
        x as int
    } else {
        -(x as int)
    }
}

/// The sum of the absolute values of a sequence of signed weights.
pub open spec fn sum_abs(s: Seq<i64>) -> int
    decreases s.len(),
{
    if s.len() == 0 {
        0
    } else {
        sum_abs(s.drop_last()) + abs_of(s.last())
    }
}

pub proof fn lemma_sum_abs_nonneg(s: Seq<i64>)
    ensures
        sum_abs(s) >= 0,
    decreases s.len(),
{
    if s.len() > 0 {
        lemma_sum_abs_nonneg(s.drop_last());
    }
}

pub proof fn lemma_sum_abs_drop_last(s: Seq<i64>)
    requires
        s.len() >= 1,
    ensures
        sum_abs(s) == sum_abs(s.drop_last()) + abs_of(s.last()),
        sum_abs(s.drop_last()) >= 0,
{
    lemma_sum_abs_nonneg(s.drop_last());
}

/// A prefix weighs no more than the whole, and no single element does.
pub proof fn lemma_sum_abs_prefix(s: Seq<i64>, t: int)
    requires
        0 <= t < s.len(),
    ensures
        sum_abs(s.subrange(0, t)) <= sum_abs(s),
        abs_of(s[t]) <= sum_abs(s),
    decreases s.len(),
{
    if t == s.len() - 1 {
        assert(s.subrange(0, t) =~= s.drop_last());
        lemma_sum_abs_drop_last(s);
    } else {
        lemma_sum_abs_prefix(s.drop_last(), t);
        assert(s.drop_last().subrange(0, t) =~= s.subrange(0, t));
        assert(s.drop_last()[t] == s[t]);
        lemma_sum_abs_drop_last(s);
    }
}

/// A sequence of zeroes and ones weighs at most its length.
pub proof fn lemma_sum_abs_small(s: Seq<i64>)
    requires
        forall|j: int| 0 <= j < s.len() ==> 0 <= #[trigger] s[j] <= 1,
    ensures
        sum_abs(s) <= s.len(),
    decreases s.len(),
{
    if s.len() > 0 {
        assert(forall|j: int|
            0 <= j < s.drop_last().len() ==> #[trigger] s.drop_last()[j] == s[j]);
        lemma_sum_abs_small(s.drop_last());
    }
}

/// The indicator that applying the reordering `so` to a position lands on
/// `x`.
pub open spec fn map_hit_fn(so: Seq<usize>, x: usize) -> spec_fn(usize) -> int {
    |e: usize| if (e as int) < so.len() && so[e as int] == x {
        1int
    } else {
        0int
    }
}

/// Partition elements into evenly summed groups.
///
/// Uses the complete Karmarkar-Karp differencing search to split the
/// weights into `partitions` groups of original positions whose sums are
/// as close to equal as the search's scoring allows. The returned groups
/// always hold each position `0 .. data.len()` exactly once, and there
/// are exactly `partitions` of them.
pub fn multiway_partition(data: Vec<i64>, partitions: usize) -> (r: Vec<Vec<usize>>)
    requires
        1 <= partitions <= data@.len(),
        partitions <= 0xffff_ffff,
    ensures
        r@.len() == partitions,
        exact_cover(r.deep_view(), data@.len()),
{
    let ghost n = data@.len();
    let node_tree = EvenSizedBinNodeTree::new(data, partitions);
    let sort_order = copy_indices(&node_tree.sort_order);
    let ghost so = sort_order@;
    let n_items = sort_order.len();
    proof {
        assert(n == n_items);
    }
    let mut group = node_tree.flatten_node_tree();
    if group.len() == 0 {
        // The bound pruned every branch, so no candidate was scored; fall
        // back to the one-group assignment, which still covers every
        // position exactly once.
        return naive_single_group(n_items, partitions);
    }
    let best = select_best_leaf(&group);
    let leaf = group.remove(best);
    let bins = leaf.0;
    let ghost bdv = bins.deep_view();
    let mut out: Vec<Vec<usize>> = Vec::new();
    let mut g: usize = 0;
    while g < bins.len()
        invariant
            0 <= g <= bins@.len(),
            bdv == bins.deep_view(),
            bdv.len() == partitions,
            exact_cover(bdv, n),
            so == sort_order@,
            so.len() == n,
            n <= usize::MAX,
            out@.len() == g,
            forall|x: usize|
                #[trigger] sum_map(out.deep_view(), nested_sum_fn(eq_ind(x))) == sum_map(
                    bdv.subrange(0, g as int),
                    nested_sum_fn(map_hit_fn(so, x)),
                ),
        decreases bins@.len() - g,
    {
        let inner = &bins[g];
        let ghost iv = inner@;
        let mut rg: Vec<usize> = Vec::new();
        let mut p: usize = 0;
        while p < inner.len()
            invariant
                0 <= p <= iv.len(),
                iv == inner@,
                iv == bdv[g as int],
                0 <= g < bdv.len(),
                exact_cover(bdv, n),
                so == sort_order@,
                so.len() == n,
                n <= usize::MAX,
                rg@.len() == p,
                forall|x: usize|
                    #[trigger] seq_count(rg@, x) == sum_map(
                        iv.subrange(0, p as int),
                        map_hit_fn(so, x),
                    ),
            decreases iv.len() - p,
        {
            let e = inner[p];
            proof {
                lemma_bins_count_lower(bdv, g as int, p as int);
                assert(bins_count(bdv, e) >= 1);
                assert((e as nat) < n);
            }
            let ghost rg0 = rg@;
            rg.push(sort_order[e]);
            proof {
                assert forall|x: usize|
                    #[trigger] seq_count(rg@, x) == sum_map(
                        iv.subrange(0, p + 1 as int),
                        map_hit_fn(so, x),
                    ) by {
                    lemma_sum_map_push(rg0, so[e as int], eq_ind(x));
                    assert(rg@ == rg0.push(so[e as int]));
                    assert(seq_count(rg0, x) == sum_map(rg0, eq_ind(x)));
                    assert(iv.subrange(0, p + 1 as int) =~= iv.subrange(0, p as int).push(
                        iv[p as int],
                    ));
                    lemma_sum_map_push(iv.subrange(0, p as int), iv[p as int], map_hit_fn(so, x));
                    assert(map_hit_fn(so, x)(e) == eq_ind(x)(so[e as int]));
                }
            }
            p += 1;
        }
        let ghost out0 = out.deep_view();
        out.push(rg);
        proof {
            assert(out.deep_view() =~~= out0.push(rg@));
            assert forall|x: usize|
                #[trigger] sum_map(out.deep_view(), nested_sum_fn(eq_ind(x))) == sum_map(
                    bdv.subrange(0, g + 1 as int),
                    nested_sum_fn(map_hit_fn(so, x)),
                ) by {
                lemma_sum_map_push(out0, rg@, nested_sum_fn(eq_ind(x)));
                assert(nested_sum_fn(eq_ind(x))(rg@) == sum_map(rg@, eq_ind(x)));
                assert(seq_count(rg@, x) == sum_map(rg@, eq_ind(x)));
                assert(iv.subrange(0, iv.len() as int) =~= iv);
                assert(seq_count(rg@, x) == sum_map(iv, map_hit_fn(so, x)));
                assert(bdv.subrange(0, g + 1 as int) =~= bdv.subrange(0, g as int).push(
                    bdv[g as int],
                ));
                lemma_sum_map_push(bdv.subrange(0, g as int), bdv[g as int], nested_sum_fn(
                    map_hit_fn(so, x),
                ));
                assert(nested_sum_fn(map_hit_fn(so, x))(bdv[g as int]) == sum_map(
                    iv,
                    map_hit_fn(so, x),
                ));
            }
        }
        g += 1;
    }
    proof {
        let flat = bdv.flatten();
        assert forall|y: usize| #[trigger] seq_count(flat, y) == seq_count(ident_seq(n), y) by {
            lemma_sum_map_flatten(bdv, eq_ind(y));
            assert(seq_count(flat, y) == sum_map(bdv, nested_sum_fn(eq_ind(y))));
            assert(bins_count(bdv, y) == sum_map(bdv, nested_sum_fn(eq_ind(y))));
            lemma_ident_count(n, y);
        }
        lemma_counts_give_multiset(flat, ident_seq(n));
        assert forall|x: usize|
            #[trigger] bins_count(out.deep_view(), x) == if (x as nat) < n {
                1int
            } else {
                0int
            } by {
            assert(bdv.subrange(0, bdv.len() as int) =~= bdv);
            assert(sum_map(out.deep_view(), nested_sum_fn(eq_ind(x))) == sum_map(
                bdv,
                nested_sum_fn(map_hit_fn(so, x)),
            ));
            lemma_sum_map_flatten(bdv, map_hit_fn(so, x));
            lemma_sum_map_permutation(flat, ident_seq(n), map_hit_fn(so, x));
            lemma_sum_map_ident(so, eq_ind(x), map_hit_fn(so, x));
            assert(sum_map(so, eq_ind(x)) == seq_count(so, x));
            lemma_seq_count_multiset(so, x);
            lemma_seq_count_multiset(ident_seq(n), x);
            lemma_ident_count(n, x);
        }
    }
    out
}

/// The largest whole number whose cube does not exceed `n`.
pub open spec fn icbrt(n: nat) -> nat
    decreases n,
{
    if n == 0 {
        0
    } else {
        let p = icbrt((n - 1) as nat);
        if (p + 1) * (p + 1) * (p + 1) <= n {
            p + 1
        } else {
            p
        }
    }
}

pub proof fn lemma_icbrt_bracket(n: nat)
    ensures
        icbrt(n) * icbrt(n) * icbrt(n) <= n,
        n < (icbrt(n) + 1) * (icbrt(n) + 1) * (icbrt(n) + 1),
    decreases n,
{
    if n == 0 {
        assert(icbrt(0) == 0);
        assert((icbrt(n) + 1) * (icbrt(n) + 1) * (icbrt(n) + 1) == 1) by (nonlinear_arith)
            requires
                icbrt(n) == 0,
        ;
        assert(n < (icbrt(n) + 1) * (icbrt(n) + 1) * (icbrt(n) + 1));
    } else {
        lemma_icbrt_bracket((n - 1) as nat);
        let p = icbrt((n - 1) as nat);
        if (p + 1) * (p + 1) * (p + 1) <= n {
            assert(icbrt(n) == p + 1);
            assert(n - 1 < (p + 1) * (p + 1) * (p + 1));
            assert(n == (p + 1) * (p + 1) * (p + 1));
            assert((p + 1) * (p + 1) * (p + 1) < (p + 2) * (p + 2) * (p + 2)) by (nonlinear_arith)
                requires
                    p >= 0,
            ;
            assert(n < (icbrt(n) + 1) * (icbrt(n) + 1) * (icbrt(n) + 1));
        } else {
            assert(icbrt(n) == p);
            assert(p * p * p <= n - 1);
            assert(n < (p + 1) * (p + 1) * (p + 1));
            assert(n < (icbrt(n) + 1) * (icbrt(n) + 1) * (icbrt(n) + 1));
        }
    }
}

proof fn lemma_icbrt_unique(n: nat, r: nat)
    requires
        r * r * r <= n,
        n < (r + 1) * (r + 1) * (r + 1),
    ensures
        r == icbrt(n),
{
    lemma_icbrt_bracket(n);
    let q = icbrt(n);
    if r < q {
        assert((r + 1) * (r + 1) * (r + 1) <= q * q * q) by (nonlinear_arith)
            requires
                r + 1 <= q,
        ;
    }
    if q < r {
        assert((q + 1) * (q + 1) * (q + 1) <= r * r * r) by (nonlinear_arith)
            requires
                q + 1 <= r,
        ;
    }
}

/// The winning branch: the position of the lowest-scoring leaf, and of
/// score ties the last one in search order — the leaf a descending
/// stable sort by score followed by popping the end would yield.
fn select_best_leaf(group: &Vec<(Vec<Vec<usize>>, i64)>) -> (best: usize)
    requires
        group@.len() >= 1,
    ensures
        0 <= best < group@.len(),
        forall|i: int| 0 <= i < group@.len() ==> (#[trigger] group@[i]).1 >= group@[best as int].1,
        forall|i: int| best < i < group@.len() ==> (#[trigger] group@[i]).1 > group@[best as int].1,
{
    let mut best: usize = 0;
    let mut i: usize = 1;
    while i < group.len()
        invariant
            0 <= best < i <= group@.len(),
            forall|t: int| 0 <= t < i ==> (#[trigger] group@[t]).1 >= group@[best as int].1,
            forall|t: int| best < t < i ==> (#[trigger] group@[t]).1 > group@[best as int].1,
        decreases group@.len() - i,
    {
        if group[i].1 <= group[best].1 {
            best = i;
        }
        i += 1;
    }
    best
}

/// The default number of super-bins for `gc` categories: the cube root
/// of the category count, but never fewer than two.
pub open spec fn seg_target(gc: nat) -> nat {
    if icbrt(gc) < 2 {
        2
    } else {
        icbrt(gc)
    }
}

/// Identify the highest information-preserving segments of a group.
///
/// Using the stratified-variance (Fisher) score, merge the dense
/// categories named by `group` into contiguous super-bins that preserve
/// the most inter-category separation. The result partitions the
/// category ids `0 .. group_count_of(group)` exactly once into
/// `seg_target` groups.
pub trait Partition: Sized {
    /// What the data must satisfy before segmentation: well-matched
    /// lengths, dense labels, values within the exactly representable
    /// range, and a category count the recursive split can serve.
    spec fn partition_ready(&self, group: &Vec<usize>) -> bool;

    /// The data as signed values: the numerators of the category means.
    spec fn value_view(&self) -> Seq<i64>;

    fn partition_by_information(self, group: Vec<usize>) -> (r: Vec<Vec<usize>>)
        requires
            self.partition_ready(&group),
        ensures
            r@.len() == seg_target(crate::category_metrics::group_count_of(group@)),
            forall|x: usize|
                #[trigger] bins_count(r.deep_view(), x) == if (x as nat)
                    < crate::category_metrics::group_count_of(group@) {
                    1int
                } else {
                    0int
                },
            crate::category_metrics::group_count_of(group@) <= 10 ==> forall|c: Seq<Seq<usize>>|
                #[trigger] crate::preserve_information::is_cut(
                    c,
                    r.deep_view().flatten(),
                    seg_target(crate::category_metrics::group_count_of(group@)),
                ) ==> crate::preserve_information::cut_score_sat(
                    r.deep_view(),
                    crate::category_metrics::counts_of(group@),
                    crate::category_metrics::totals_of(group@, self.value_view()),
                    crate::preserve_information::sat_scale_of(
                        crate::preserve_information::sat_total_of(
                            crate::category_metrics::counts_of(group@),
                        ),
                    ),
                ) <= crate::preserve_information::cut_score_sat(
                    c,
                    crate::category_metrics::counts_of(group@),
                    crate::category_metrics::totals_of(group@, self.value_view()),
                    crate::preserve_information::sat_scale_of(
                        crate::preserve_information::sat_total_of(
                            crate::category_metrics::counts_of(group@),
                        ),
                    ),
                ),
    ;
}

impl Partition for Vec<i64> {
    open spec fn value_view(&self) -> Seq<i64> {
        self@
    }

    open spec fn partition_ready(&self, group: &Vec<usize>) -> bool {
        &&& self@.len() == group@.len()
        &&& group@.len() >= 1
        &&& crate::category_metrics::labels_are_dense(group@)
        &&& sum_abs(self@) <= 0x7fff_ffff_ffff
        &&& crate::preserve_information::seg_ok(
            crate::category_metrics::group_count_of(group@),
            seg_target(crate::category_metrics::group_count_of(group@)),
        )
    }

    fn partition_by_information(self, group: Vec<usize>) -> (r: Vec<Vec<usize>>) {
        let group_descriptors = crate::category_metrics::int_metrics(&self, &group);
        segment_descriptors(group_descriptors, Ghost(group@), Ghost(self@))
    }
}

impl Partition for Vec<bool> {
    open spec fn value_view(&self) -> Seq<i64> {
        Seq::new(self@.len(), |i: int| if self@[i] {
            1i64
        } else {
            0i64
        })
    }

    open spec fn partition_ready(&self, group: &Vec<usize>) -> bool {
        &&& self@.len() == group@.len()
        &&& group@.len() >= 1
        &&& group@.len() <= 0x7fff_ffff_ffff
        &&& crate::category_metrics::labels_are_dense(group@)
        &&& crate::preserve_information::seg_ok(
            crate::category_metrics::group_count_of(group@),
            seg_target(crate::category_metrics::group_count_of(group@)),
        )
    }

    fn partition_by_information(self, group: Vec<usize>) -> (r: Vec<Vec<usize>>) {
        let group_descriptors = crate::category_metrics::bool_metrics(&self, &group);
        let ghost vv = Seq::new(self@.len(), |i: int| if self@[i] {
            1i64
        } else {
            0i64
        });
        segment_descriptors(group_descriptors, Ghost(group@), Ghost(vv))
    }
}

/// Shared tail of the two `Partition` impls: pick the default bin count
/// and run the segmentation engine on the descriptors.
fn segment_descriptors(
    group_descriptors: crate::category_metrics::CategoryMetrics,
    Ghost(labels): Ghost<Seq<usize>>,
    Ghost(values): Ghost<Seq<i64>>,
) -> (r: Vec<Vec<usize>>)
    requires
        labels.len() >= 1,
        crate::category_metrics::labels_are_dense(labels),
        crate::category_metrics::metrics_wf(group_descriptors, labels, values),
        crate::preserve_information::seg_ok(
            crate::category_metrics::group_count_of(labels),
            seg_target(crate::category_metrics::group_count_of(labels)),
        ),
    ensures
        r@.len() == seg_target(crate::category_metrics::group_count_of(labels)),
        forall|x: usize|
            #[trigger] bins_count(r.deep_view(), x) == if (x as nat)
                < crate::category_metrics::group_count_of(labels) {
                1int
            } else {
                0int
            },
        crate::category_metrics::group_count_of(labels) <= 10 ==> forall|c: Seq<Seq<usize>>|
            #[trigger] crate::preserve_information::is_cut(
                c,
                r.deep_view().flatten(),
                seg_target(crate::category_metrics::group_count_of(labels)),
            ) ==> crate::preserve_information::cut_score_sat(
                r.deep_view(),
                crate::category_metrics::counts_of(labels),
                crate::category_metrics::totals_of(labels, values),
                crate::preserve_information::sat_scale_of(
                    crate::preserve_information::sat_total_of(
                        crate::category_metrics::counts_of(labels),
                    ),
                ),
            ) <= crate::preserve_information::cut_score_sat(
                c,
                crate::category_metrics::counts_of(labels),
                crate::category_metrics::totals_of(labels, values),
                crate::preserve_information::sat_scale_of(
                    crate::preserve_information::sat_total_of(
                        crate::category_metrics::counts_of(labels),
                    ),
                ),
            ),
{
    let ghost gc = crate::category_metrics::group_count_of(labels);
    let cr = cube_root_floor(group_descriptors.group.len());
    let target_bins: usize = if cr < 2 {
        2
    } else {
        cr
    };
    proof {
        assert(group_descriptors.group@.len() == gc);
        assert(target_bins as nat == seg_target(gc));
        assert(crate::preserve_information::scorable(group_descriptors));
        assert forall|p: int|
            0 <= p < group_descriptors.group@.len() implies (#[trigger] group_descriptors.group@[p]
            as int) < group_descriptors.elements_per_group@.len() by {
            assert(group_descriptors.group@.contains(group_descriptors.group@[p]));
        }
    }
    let mut segs = crate::preserve_information::segments(
        &group_descriptors.group,
        &group_descriptors,
        target_bins,
    );
    let r = segs.remove(0);
    proof {
        let dv = r.deep_view();
        let gl = group_descriptors.group@;
        assert(dv.flatten() == gl);
        assert forall|x: usize|
            #[trigger] bins_count(dv, x) == if (x as nat) < gc {
                1int
            } else {
                0int
            } by {
            lemma_sum_map_flatten(dv, eq_ind(x));
            assert(seq_count(gl, x) == bins_count(dv, x));
            if (x as nat) < gc {
                assert(gl.contains(x));
                let p = choose|p: int| 0 <= p < gl.len() && gl[p] == x;
                crate::summation::lemma_position_count(gl, p);
                crate::summation::lemma_count_at_most_one(gl, x);
            } else {
                assert(!gl.contains(x));
                crate::summation::lemma_count_zero(gl, x);
            }
        }
        if gc <= 10 {
            assert(group_descriptors.elements_per_group@ =~= crate::category_metrics::counts_of(
                labels,
            ));
            assert(group_descriptors.group_total@ =~= crate::category_metrics::totals_of(
                labels,
                values,
            ));
            assert(crate::preserve_information::score_scale(group_descriptors)
                == crate::preserve_information::sat_scale_of(
                crate::preserve_information::sat_total_of(
                    crate::category_metrics::counts_of(labels),
                ),
            ));
        }
    }
    r
}

/// The whole cube root, rounded down.
fn cube_root_floor(n: usize) -> (r: usize)
    ensures
        r as nat == icbrt(n as nat),
{
    let mut r: usize = 0;
    loop
        invariant
            r as nat <= n as nat,
            (r as nat) * (r as nat) * (r as nat) <= n as nat,
        decreases n - r,
    {
        proof {
            assert(r as nat <= 3_000_000) by (nonlinear_arith)
                requires
                    (r as nat) * (r as nat) * (r as nat) <= n as nat,
                    (n as nat) < 0x1_0000_0000_0000_0000,
            ;
        }
        let p: u128 = (r as u128) + 1;
        proof {
            assert(p * p <= 9_000_006_000_001u128 && p * p * p
                <= 27_000_027_000_009_000_001u128) by (nonlinear_arith)
                requires
                    p <= 3_000_001,
            ;
        }
        if p * p * p <= n as u128 {
            proof {
                assert((r + 1) as nat <= n as nat) by (nonlinear_arith)
                    requires
                        ((r as nat) + 1) * ((r as nat) + 1) * ((r as nat) + 1) <= n as nat,
                ;
            }
            r = r + 1;
        } else {
            proof {
                lemma_icbrt_unique(n as nat, r as nat);
            }
            return r;
        }
    }
}

} // verus!
