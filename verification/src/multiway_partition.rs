use vstd::prelude::*;
use vstd::pervasive::VecAdditionalExecFns;
use crate::summation::eq_ind;
use crate::summation::nested_sum_fn;
use crate::summation::sum_map;
use crate::summation::ident_seq;
use crate::summation::lemma_sum_map_push;
use crate::summation::lemma_sum_map_concat;
use crate::summation::lemma_sum_map_permutation;
use crate::summation::lemma_sum_map_ident;
use crate::summation::lemma_sum_map_flatten;
use crate::summation::lemma_sum_map_nonneg;
use crate::summation::lemma_sum_map_remove;
use crate::permutations::find_all_permutations;

verus! {

/// A partially merged candidate: a per-group load vector and the groups of
/// original (descending-order) item positions it has absorbed.
pub struct KarmarkerTuple {
    pub data: Vec<i64>,
    pub bin_assignments: Vec<Vec<usize>>,
}

/// How many times position `x` occurs across a family of groups.
pub open spec fn bins_count(bins: Seq<Seq<usize>>, x: usize) -> int {
    sum_map(bins, nested_sum_fn(eq_ind(x)))
}

pub open spec fn tuple_count_fn(x: usize) -> spec_fn(KarmarkerTuple) -> int {
    |t: KarmarkerTuple| bins_count(t.bin_assignments.deep_view(), x)
}

/// How many times position `x` occurs across all tuples of a working list.
pub open spec fn tuples_count(ts: Seq<KarmarkerTuple>, x: usize) -> int {
    sum_map(ts, tuple_count_fn(x))
}

/// The count of `x` in the group of `bins` that an alignment slot points at.
pub open spec fn pick_fn(bins: Seq<Seq<usize>>, x: usize) -> spec_fn(usize) -> int {
    |p: usize| if (p as int) < bins.len() {
        sum_map(bins[p as int], eq_ind(x))
    } else {
        0int
    }
}

pub open spec fn tuple_wf(t: KarmarkerTuple, k: nat) -> bool {
    t.data@.len() == k && t.bin_assignments@.len() == k
}

pub open spec fn tuples_wf(ts: Seq<KarmarkerTuple>, k: nat) -> bool {
    forall|i: int| 0 <= i < ts.len() ==> tuple_wf(#[trigger] ts[i], k)
}

/// A group family covers each position below `n` exactly once and holds
/// nothing else.
pub open spec fn exact_cover(bins: Seq<Seq<usize>>, n: nat) -> bool {
    forall|x: usize| bins_count(bins, x) == if (x as nat) < n {
        1int
    } else {
        0int
    }
}

/// The saturating sum of a load vector, accumulated left to right.
pub open spec fn loads_sum_sat(s: Seq<i64>) -> int
    decreases s.len(),
{
    if s.len() == 0 {
        0
    } else {
        clamp_i64(loads_sum_sat(s.drop_last()) + s.last())
    }
}

/// The smallest load of a vector.
pub open spec fn min_load(s: Seq<i64>) -> int
    decreases s.len(),
{
    if s.len() == 0 {
        0
    } else if s.len() == 1 {
        s[0] as int
    } else {
        let m = min_load(s.drop_last());
        if (s.last() as int) < m {
            s.last() as int
        } else {
            m
        }
    }
}

/// The saturating total of the loads of a tuple list.
pub open spec fn list_load_sum_sat(ts: Seq<KarmarkerTuple>) -> int
    decreases ts.len(),
{
    if ts.len() == 0 {
        0
    } else {
        clamp_i64(list_load_sum_sat(ts.drop_last()) + loads_sum_sat(ts.last().data@))
    }
}

pub open spec fn clamp_i64(x: int) -> int {
    if x > i64::MAX {
        i64::MAX as int
    } else if x < i64::MIN {
        i64::MIN as int
    } else {
        x
    }
}

/// Saturating sum: like floating-point arithmetic, the search's
/// bookkeeping degrades gracefully at the edge of its range instead of
/// failing.
pub(crate) fn sat_add_i64(a: i64, b: i64) -> (r: i64)
    ensures
        r as int == clamp_i64(a as int + b as int),
{
    let s: i128 = a as i128 + b as i128;
    if s > i64::MAX as i128 {
        i64::MAX
    } else if s < i64::MIN as i128 {
        i64::MIN
    } else {
        s as i64
    }
}

pub(crate) fn sat_sub_i64(a: i64, b: i64) -> (r: i64)
    ensures
        r as int == clamp_i64(a as int - b as int),
{
    let s: i128 = a as i128 - b as i128;
    if s > i64::MAX as i128 {
        i64::MAX
    } else if s < i64::MIN as i128 {
        i64::MIN
    } else {
        s as i64
    }
}

pub(crate) fn sat_mul_i64(a: i64, b: i64) -> (r: i64)
    ensures
        r as int == clamp_i64(a as int * b as int),
{
    proof {
        assert(a as i128 * b as i128 == a as int * b as int
            && -0x4000_0000_0000_0000_0000_0000_0000_0000i128 + 1
            <= a as i128 * b as i128
            <= 0x4000_0000_0000_0000_0000_0000_0000_0000i128)
            by (nonlinear_arith)
            requires
                -0x8000_0000_0000_0000i128 <= a as i128 <= 0x7fff_ffff_ffff_ffffi128,
                -0x8000_0000_0000_0000i128 <= b as i128 <= 0x7fff_ffff_ffff_ffffi128,
                a as i128 == a as int,
                b as i128 == b as int,
        ;
    }
    let s: i128 = (a as i128) * (b as i128);
    if s > i64::MAX as i128 {
        i64::MAX
    } else if s < i64::MIN as i128 {
        i64::MIN
    } else {
        s as i64
    }
}

pub(crate) fn copy_indices(v: &Vec<usize>) -> (r: Vec<usize>)
    ensures
        r@ == v@,
{
    let mut r: Vec<usize> = Vec::new();
    let mut i: usize = 0;
    while i < v.len()
        invariant
            0 <= i <= v.len(),
            r@ == v@.subrange(0, i as int),
        decreases v.len() - i,
    {
        r.push(v[i]);
        i += 1;
    }
    assert(v@.subrange(0, v@.len() as int) =~= v@);
    r
}

fn concat_groups(a: &Vec<usize>, b: &Vec<usize>) -> (r: Vec<usize>)
    ensures
        r@ == a@ + b@,
{
    let mut r = copy_indices(a);
    let mut i: usize = 0;
    while i < b.len()
        invariant
            0 <= i <= b.len(),
            r@ == a@ + b@.subrange(0, i as int),
        decreases b.len() - i,
    {
        let ghost pre = r@;
        r.push(b[i]);
        proof {
            assert(r@ =~= a@ + b@.subrange(0, i + 1 as int));
        }
        i += 1;
    }
    assert(a@ + b@.subrange(0, b@.len() as int) =~= a@ + b@);
    r
}

/// The total load of a tuple, summed with saturation.
fn tuple_sum(t: &KarmarkerTuple) -> (r: i64)
    ensures
        r as int == loads_sum_sat(t.data@),
{
    let mut acc: i64 = 0;
    let mut i: usize = 0;
    while i < t.data.len()
        invariant
            0 <= i <= t.data@.len(),
            acc as int == loads_sum_sat(t.data@.subrange(0, i as int)),
        decreases t.data.len() - i,
    {
        proof {
            assert(t.data@.subrange(0, i + 1 as int).drop_last() =~= t.data@.subrange(
                0,
                i as int,
            ));
            assert(t.data@.subrange(0, i + 1 as int).last() == t.data@[i as int]);
        }
        acc = sat_add_i64(acc, t.data[i]);
        i += 1;
    }
    proof {
        assert(t.data@.subrange(0, t.data@.len() as int) =~= t.data@);
    }
    acc
}

fn copy_tuple(t: &KarmarkerTuple) -> (r: KarmarkerTuple)
    ensures
        r.data@ == t.data@,
        r.bin_assignments.deep_view() == t.bin_assignments.deep_view(),
        r.bin_assignments@.len() == t.bin_assignments@.len(),
{
    let mut data: Vec<i64> = Vec::new();
    let mut i: usize = 0;
    while i < t.data.len()
        invariant
            0 <= i <= t.data.len(),
            data@ == t.data@.subrange(0, i as int),
        decreases t.data.len() - i,
    {
        data.push(t.data[i]);
        i += 1;
    }
    assert(t.data@.subrange(0, t.data@.len() as int) =~= t.data@);
    let mut bin_assignments: Vec<Vec<usize>> = Vec::new();
    let mut j: usize = 0;
    while j < t.bin_assignments.len()
        invariant
            0 <= j <= t.bin_assignments@.len(),
            bin_assignments@.len() == j,
            forall|p: int|
                0 <= p < j ==> (#[trigger] bin_assignments@[p])@ == t.bin_assignments@[p]@,
        decreases t.bin_assignments.len() - j,
    {
        let g = copy_indices(&t.bin_assignments[j]);
        bin_assignments.push(g);
        j += 1;
    }
    proof {
        assert(bin_assignments.deep_view() =~~= t.bin_assignments.deep_view());
    }
    KarmarkerTuple { data, bin_assignments }
}

/// Merge two tuples under one alignment permutation: loads are summed slot
/// against permuted slot, and the aligned groups are concatenated the same
/// way, so the merged tuple holds exactly the positions of both.
fn merge_tuples(a: &KarmarkerTuple, b: &KarmarkerTuple, perm: &Vec<usize>, k: usize) -> (m:
    KarmarkerTuple)
    requires
        tuple_wf(*a, k as nat),
        tuple_wf(*b, k as nat),
        perm@.len() == k,
        forall|i: int| 0 <= i < k ==> (#[trigger] perm@[i] as int) < k,
        perm@.to_multiset() == ident_seq(k as nat).to_multiset(),
    ensures
        tuple_wf(m, k as nat),
        forall|i: int|
            0 <= i < k ==> (#[trigger] m.data@[i] as int) == clamp_i64(
                a.data@[i] + b.data@[perm@[i] as int],
            ),
        forall|i: int|
            0 <= i < k ==> (#[trigger] m.bin_assignments@[i])@ == a.bin_assignments@[i]@
                + b.bin_assignments@[perm@[i] as int]@,
        forall|x: usize|
            #[trigger] bins_count(m.bin_assignments.deep_view(), x) == bins_count(
                a.bin_assignments.deep_view(),
                x,
            ) + bins_count(b.bin_assignments.deep_view(), x),
{
    let ghost adv = a.bin_assignments.deep_view();
    let ghost bdv = b.bin_assignments.deep_view();
    let mut data: Vec<i64> = Vec::new();
    let mut i: usize = 0;
    while i < k
        invariant
            0 <= i <= k,
            data@.len() == i,
            tuple_wf(*a, k as nat),
            tuple_wf(*b, k as nat),
            perm@.len() == k,
            forall|t: int| 0 <= t < k ==> (#[trigger] perm@[t] as int) < k,
            forall|t: int|
                0 <= t < i ==> (#[trigger] data@[t] as int) == clamp_i64(
                    a.data@[t] + b.data@[perm@[t] as int],
                ),
        decreases k - i,
    {
        data.push(sat_add_i64(a.data[i], b.data[perm[i]]));
        i += 1;
    }
    let mut bin_assignments: Vec<Vec<usize>> = Vec::new();
    let mut j: usize = 0;
    while j < k
        invariant
            0 <= j <= k,
            bin_assignments@.len() == j,
            tuple_wf(*a, k as nat),
            tuple_wf(*b, k as nat),
            perm@.len() == k,
            adv == a.bin_assignments.deep_view(),
            bdv == b.bin_assignments.deep_view(),
            forall|t: int| 0 <= t < k ==> (#[trigger] perm@[t] as int) < k,
            forall|t: int|
                0 <= t < j ==> (#[trigger] bin_assignments@[t])@ == a.bin_assignments@[t]@
                    + b.bin_assignments@[perm@[t] as int]@,
            forall|x: usize|
                #[trigger] bins_count(bin_assignments.deep_view(), x) == bins_count(
                    adv.subrange(0, j as int),
                    x,
                ) + sum_map(perm@.subrange(0, j as int), pick_fn(bdv, x)),
        decreases k - j,
    {
        let g = concat_groups(&a.bin_assignments[j], &b.bin_assignments[perm[j]]);
        let ghost pre_dv = bin_assignments.deep_view();
        bin_assignments.push(g);
        proof {
            assert(bin_assignments.deep_view() =~~= pre_dv.push(g@));
            assert(g@ == adv[j as int] + bdv[perm@[j as int] as int]) by {
                assert(a.bin_assignments[j as int]@ == adv[j as int]);
                assert(b.bin_assignments[perm@[j as int] as int]@ == bdv[
                    perm@[j as int] as int
                ]);
            }
            assert forall|x: usize|
                #[trigger] bins_count(bin_assignments.deep_view(), x) == bins_count(
                    adv.subrange(0, j + 1 as int),
                    x,
                ) + sum_map(perm@.subrange(0, j + 1 as int), pick_fn(bdv, x)) by {
                assert(bins_count(pre_dv, x) == bins_count(adv.subrange(0, j as int), x)
                    + sum_map(perm@.subrange(0, j as int), pick_fn(bdv, x)));
                lemma_sum_map_push(pre_dv, g@, nested_sum_fn(eq_ind(x)));
                assert(bins_count(bin_assignments.deep_view(), x) == sum_map(
                    pre_dv,
                    nested_sum_fn(eq_ind(x)),
                ) + nested_sum_fn(eq_ind(x))(g@));
                lemma_sum_map_concat(adv[j as int], bdv[perm@[j as int] as int], eq_ind(x));
                assert(adv.subrange(0, j + 1 as int) =~= adv.subrange(0, j as int).push(
                    adv[j as int],
                ));
                lemma_sum_map_push(adv.subrange(0, j as int), adv[j as int], nested_sum_fn(
                    eq_ind(x),
                ));
                assert(perm@.subrange(0, j + 1 as int) =~= perm@.subrange(0, j as int).push(
                    perm@[j as int],
                ));
                lemma_sum_map_push(perm@.subrange(0, j as int), perm@[j as int], pick_fn(bdv, x));
                assert(pick_fn(bdv, x)(perm@[j as int]) == sum_map(
                    bdv[perm@[j as int] as int],
                    eq_ind(x),
                ));
                assert(nested_sum_fn(eq_ind(x))(g@) == sum_map(g@, eq_ind(x)));
            }
        }
        j += 1;
    }
    proof {
        assert(adv.subrange(0, k as int) =~= adv);
        assert(perm@.subrange(0, k as int) =~= perm@);
        assert forall|x: usize|
            #[trigger] bins_count(bin_assignments.deep_view(), x) == bins_count(adv, x)
                + bins_count(bdv, x) by {
            lemma_sum_map_permutation(perm@, ident_seq(k as nat), pick_fn(bdv, x));
            lemma_sum_map_ident(bdv, nested_sum_fn(eq_ind(x)), pick_fn(bdv, x));
        }
    }
    KarmarkerTuple { data, bin_assignments }
}

/// Loads after discarding the already balanced common excess: every slot
/// drops by the minimum slot value (subtraction saturating).
fn normalized_loads(data: Vec<i64>) -> (r: Vec<i64>)
    ensures
        r@.len() == data@.len(),
        forall|i: int|
            0 <= i < data@.len() ==> (#[trigger] r@[i] as int) == clamp_i64(
                data@[i] - min_load(data@),
            ),
{
    if data.len() == 0 {
        return data;
    }
    let mut min: i64 = data[0];
    let mut i: usize = 1;
    while i < data.len()
        invariant
            1 <= i <= data@.len(),
            min as int == min_load(data@.subrange(0, i as int)),
        decreases data.len() - i,
    {
        proof {
            assert(data@.subrange(0, i + 1 as int).drop_last() =~= data@.subrange(0, i as int));
            assert(data@.subrange(0, i + 1 as int).last() == data@[i as int]);
        }
        if data[i] < min {
            min = data[i];
        }
        i += 1;
    }
    proof {
        assert(data@.subrange(0, data@.len() as int) =~= data@);
        assert(min as int == min_load(data@));
    }
    let mut r: Vec<i64> = Vec::new();
    let mut j: usize = 0;
    while j < data.len()
        invariant
            0 <= j <= data@.len(),
            r@.len() == j,
            min as int == min_load(data@),
            forall|p: int|
                0 <= p < j ==> (#[trigger] r@[p] as int) == clamp_i64(data@[p] - min_load(data@)),
        decreases data.len() - j,
    {
        r.push(sat_sub_i64(data[j], min));
        j += 1;
    }
    r
}

fn max_load(data: &Vec<i64>) -> (r: i64)
    requires
        data@.len() >= 1,
{
    let mut m: i64 = data[0];
    let mut i: usize = 1;
    while i < data.len()
        invariant
            1 <= i <= data@.len(),
        decreases data.len() - i,
    {
        if data[i] > m {
            m = data[i];
        }
        i += 1;
    }
    m
}

/// Total load still waiting beyond the two tuples being merged.
fn rest_total(tuple: &Vec<KarmarkerTuple>) -> (r: i64)
    ensures
        tuple@.len() >= 2 ==> r as int == list_load_sum_sat(tuple@.skip(2)),
{
    let mut acc: i64 = 0;
    let mut i: usize = 2;
    while i < tuple.len()
        invariant
            2 <= i,
            tuple@.len() >= 2 ==> i <= tuple@.len(),
            tuple@.len() >= 2 ==> acc as int == list_load_sum_sat(tuple@.subrange(2, i as int)),
            tuple@.len() < 2 ==> acc == 0,
        decreases tuple.len() - i,
    {
        proof {
            assert(tuple@.subrange(2, i + 1 as int).drop_last() =~= tuple@.subrange(2, i as int));
            assert(tuple@.subrange(2, i + 1 as int).last() == tuple@[i as int]);
        }
        acc = sat_add_i64(acc, tuple_sum(&tuple[i]));
        i += 1;
    }
    proof {
        if tuple@.len() >= 2 {
            assert(tuple@.subrange(2, tuple@.len() as int) =~= tuple@.skip(2));
        }
    }
    acc
}

/// Where a stable descending insertion puts `t`: after every tuple whose
/// load is at least as large, before the first strictly smaller one.
pub open spec fn insert_desc(r: Seq<KarmarkerTuple>, t: KarmarkerTuple) -> Seq<KarmarkerTuple>
    decreases r.len(),
{
    if r.len() == 0 {
        seq![t]
    } else if loads_sum_sat(r[0].data@) >= loads_sum_sat(t.data@) {
        seq![r[0]] + insert_desc(r.drop_first(), t)
    } else {
        seq![t] + r
    }
}

/// The stable descending reordering by total load, built by inserting the
/// tuples in their given order.
pub open spec fn sort_desc_spec(ts: Seq<KarmarkerTuple>) -> Seq<KarmarkerTuple>
    decreases ts.len(),
{
    if ts.len() == 0 {
        Seq::empty()
    } else {
        insert_desc(sort_desc_spec(ts.drop_last()), ts.last())
    }
}

/// Inserting at the scanned position is the specified insertion.
proof fn lemma_insert_desc_at(r: Seq<KarmarkerTuple>, t: KarmarkerTuple, j: int)
    requires
        0 <= j <= r.len(),
        forall|a: int| 0 <= a < j ==> loads_sum_sat(#[trigger] r[a].data@) >= loads_sum_sat(
            t.data@,
        ),
        j == r.len() || loads_sum_sat(r[j].data@) < loads_sum_sat(t.data@),
    ensures
        r.insert(j, t) == insert_desc(r, t),
    decreases r.len(),
{
    if r.len() == 0 {
        assert(r.insert(0, t) =~= seq![t]);
    } else if j == 0 {
        assert(loads_sum_sat(r[0].data@) < loads_sum_sat(t.data@));
        assert(r.insert(0, t) =~= seq![t] + r);
    } else {
        assert(loads_sum_sat(r[0].data@) >= loads_sum_sat(t.data@));
        assert(forall|a: int|
            0 <= a < j - 1 ==> loads_sum_sat(#[trigger] r.drop_first()[a].data@)
                >= loads_sum_sat(t.data@));
        assert(j - 1 == r.drop_first().len() || loads_sum_sat(r.drop_first()[j - 1].data@)
            < loads_sum_sat(t.data@));
        lemma_insert_desc_at(r.drop_first(), t, j - 1);
        assert(r.insert(j, t) =~= seq![r[0]] + r.drop_first().insert(j - 1, t));
    }
}

/// Stable descending reordering by total load; the result holds exactly the
/// tuples given, in the order the specified insertion sort yields.
fn sort_tuples_desc(input: Vec<KarmarkerTuple>) -> (r: Vec<KarmarkerTuple>)
    ensures
        r@.len() == input@.len(),
        r@.to_multiset() == input@.to_multiset(),
        r@ == sort_desc_spec(input@),
{
    broadcast use vstd::seq_lib::group_to_multiset_ensures;

    let ghost full = input@;
    let mut rest = input;
    let mut r: Vec<KarmarkerTuple> = Vec::new();
    while rest.len() > 0
        invariant
            r@.len() + rest@.len() == full.len(),
            r@.to_multiset().add(rest@.to_multiset()) == full.to_multiset(),
            rest@ == full.skip(r@.len() as int),
            r@ == sort_desc_spec(full.take(r@.len() as int)),
        decreases rest@.len(),
    {
        let ghost r0 = r@;
        let ghost rest0 = rest@;
        let ghost k = r@.len() as int;
        let t = rest.remove(0);
        proof {
            assert(t == full[k]);
            assert(rest@ =~= full.skip(k + 1));
        }
        let key = tuple_sum(&t);
        let mut j: usize = 0;
        while j < r.len() && tuple_sum(&r[j]) >= key
            invariant
                0 <= j <= r@.len(),
                r@ == r0,
                key as int == loads_sum_sat(t.data@),
                forall|a: int|
                    0 <= a < j ==> loads_sum_sat(#[trigger] r@[a].data@) >= loads_sum_sat(
                        t.data@,
                    ),
            decreases r@.len() - j,
        {
            j += 1;
        }
        proof {
            lemma_insert_desc_at(r0, t, j as int);
            assert(full.take(k + 1).drop_last() =~= full.take(k));
            assert(full.take(k + 1).last() == full[k]);
        }
        r.insert(j, t);
        proof {
            assert(r@ == sort_desc_spec(full.take(k + 1)));
            broadcast use vstd::multiset::group_multiset_axioms;

            crate::summation::lemma_position_count(rest0, 0);
            crate::summation::lemma_seq_count_multiset(rest0, rest0[0]);
            assert(rest0.to_multiset().count(rest0[0]) >= 1);
            vstd::seq_lib::to_multiset_insert(r0, j as int, t);
            assert(r@ == r0.insert(j as int, t));
            assert(r@.to_multiset() == r0.to_multiset().insert(t));
            assert(rest@ == rest0.remove(0));
            vstd::seq_lib::to_multiset_remove(rest0, 0);
            assert(rest0.remove(0).to_multiset() == rest0.to_multiset().remove(rest0[0]));
            assert(r@.to_multiset().add(rest@.to_multiset()) =~= r0.to_multiset().add(
                rest0.to_multiset(),
            ));
        }
    }
    proof {
        assert(full.take(full.len() as int) =~= full);
    }
    r
}

/// Every value of a rearrangement of `0 .. k` lies below `k`.
proof fn lemma_perm_values(p: Seq<usize>, k: nat)
    requires
        k <= usize::MAX,
        p.to_multiset() == ident_seq(k).to_multiset(),
    ensures
        forall|i: int| 0 <= i < p.len() ==> (#[trigger] p[i] as nat) < k,
{
    assert forall|i: int| 0 <= i < p.len() implies (#[trigger] p[i] as nat) < k by {
        crate::summation::lemma_position_count(p, i);
        crate::summation::lemma_seq_count_multiset(p, p[i]);
        crate::summation::lemma_seq_count_multiset(ident_seq(k), p[i]);
        crate::summation::lemma_ident_count(k, p[i]);
    }
}

/// The complete differencing search: repeatedly merge the two largest
/// tuples under every alignment permutation, prune hopeless branches
/// against the naive estimate, and return the surviving fully merged
/// leaves, each with its score. Every leaf's groups hold exactly the
/// positions that the starting tuples held.
fn create_multi_way_partition_tree(
    tuple: Vec<KarmarkerTuple>,
    naive_estimate: i64,
    partitions: usize,
) -> (leaves: Vec<(Vec<Vec<usize>>, i64)>)
    requires
        1 <= partitions <= 0xffff_ffff,
        tuple@.len() >= 1,
        tuples_wf(tuple@, partitions as nat),
    ensures
        forall|i: int|
            0 <= i < leaves@.len() ==> (#[trigger] leaves@[i]).0.deep_view().len() == partitions,
        forall|i: int, x: usize|
            0 <= i < leaves@.len() ==> #[trigger] bins_count(leaves@[i].0.deep_view(), x)
                == tuples_count(tuple@, x),
        tuple@.len() == 1 ==> leaves@.len() == 1 && leaves@[0].0 == tuple@[0].bin_assignments
            && leaves@[0].1 as int == loads_sum_sat(tuple@[0].data@),
        leaves@.len() == 0 ==> tuple@.len() >= 2,
    decreases tuple@.len(),
{
    let ghost ts0 = tuple@;
    if tuple.len() == 1 {
        let mut tuple = tuple;
        let t = tuple.remove(0);
        let score = tuple_sum(&t);
        let mut leaves: Vec<(Vec<Vec<usize>>, i64)> = Vec::new();
        proof {
            assert(ts0.skip(1) =~= Seq::<KarmarkerTuple>::empty());
            assert(sum_map(Seq::<KarmarkerTuple>::empty(), tuple_count_fn(0usize)) == 0);
            assert forall|x: usize| tuples_count(ts0, x) == bins_count(
                t.bin_assignments.deep_view(),
                x,
            ) by {
                assert(sum_map(Seq::<KarmarkerTuple>::empty(), tuple_count_fn(x)) == 0);
                assert(tuple_count_fn(x)(ts0[0]) == bins_count(t.bin_assignments.deep_view(), x));
            }
        }
        leaves.push((t.bin_assignments, score));
        leaves
    } else {
        let k = partitions;
        let mut base: Vec<usize> = Vec::new();
        let mut bi: usize = 0;
        while bi < k
            invariant
                0 <= bi <= k,
                base@ == ident_seq(bi as nat),
            decreases k - bi,
        {
            let ghost pre = base@;
            base.push(bi);
            proof {
                assert(base@ =~= ident_seq((bi + 1) as nat));
            }
            bi += 1;
        }
        let permutations = find_all_permutations(base);
        let ghost perms = permutations@;
        let mut leaves: Vec<(Vec<Vec<usize>>, i64)> = Vec::new();
        let mut pi: usize = 0;
        while pi < permutations.len()
            invariant
                0 <= pi <= permutations@.len(),
                permutations@ == perms,
                forall|t: int|
                    0 <= t < perms.len() ==> (#[trigger] perms[t])@.to_multiset() == ident_seq(
                        k as nat,
                    ).to_multiset(),
                forall|t: int| 0 <= t < perms.len() ==> (#[trigger] perms[t])@.len() == k,
                tuple@ == ts0,
                ts0.len() >= 2,
                tuples_wf(ts0, k as nat),
                1 <= k <= 0xffff_ffff,
                k == partitions,
                forall|i: int|
                    0 <= i < leaves@.len() ==> (#[trigger] leaves@[i]).0.deep_view().len() == k,
                forall|i: int, x: usize|
                    0 <= i < leaves@.len() ==> #[trigger] bins_count(
                        leaves@[i].0.deep_view(),
                        x,
                    ) == tuples_count(ts0, x),
            decreases permutations@.len() - pi,
        {
            let perm = &permutations[pi];
            proof {
                lemma_perm_values(perm@, k as nat);
                assert(tuple_wf(ts0[0], k as nat));
                assert(tuple_wf(ts0[1], k as nat));
            }
            let merged = merge_tuples(&tuple[0], &tuple[1], perm, k);
            let KarmarkerTuple { data: mdata, bin_assignments: mbins } = merged;
            let mdata = normalized_loads(mdata);
            let merged = KarmarkerTuple { data: mdata, bin_assignments: mbins };
            let top = max_load(&merged.data);
            let rest = rest_total(&tuple);
            proof {
                assert((top as i128) * (k as i128) <= 0x7fffffffffffffffi128 * 0x100000000i128
                    && (top as i128) * (k as i128) >= -0x8000000000000000i128 * 0x100000000i128)
                    by (nonlinear_arith)
                    requires
                        -0x8000000000000000i128 <= top as i128 <= 0x7fffffffffffffffi128,
                        1 <= k as i128 <= 0x100000000i128,
                ;
            }
            let spread: i128 = (top as i128) * (k as i128) - (rest as i128);
            let spread_abs: i128 = if spread < 0 {
                -spread
            } else {
                spread
            };
            if !(spread_abs > naive_estimate as i128) {
                let mut next: Vec<KarmarkerTuple> = Vec::new();
                next.push(merged);
                let ghost m0 = next@[0];
                proof {
                    assert(next@.skip(1) =~= Seq::<KarmarkerTuple>::empty());
                    assert forall|x: usize| #[trigger] sum_map(next@, tuple_count_fn(x))
                        == tuple_count_fn(x)(m0) + sum_map(
                        ts0.subrange(2, 2),
                        tuple_count_fn(x),
                    ) by {
                        assert(sum_map(Seq::<KarmarkerTuple>::empty(), tuple_count_fn(x)) == 0);
                        assert(ts0.subrange(2, 2) =~= Seq::<KarmarkerTuple>::empty());
                    }
                }
                let mut ri: usize = 2;
                while ri < tuple.len()
                    invariant
                        2 <= ri <= ts0.len(),
                        tuple@ == ts0,
                        tuples_wf(ts0, k as nat),
                        next@.len() == ri - 1,
                        next@[0] == m0,
                        tuple_wf(m0, k as nat),
                        forall|x: usize|
                            #[trigger] bins_count(m0.bin_assignments.deep_view(), x)
                                == bins_count(ts0[0].bin_assignments.deep_view(), x)
                                + bins_count(ts0[1].bin_assignments.deep_view(), x),
                        forall|j: int| 1 <= j < next@.len() ==> tuple_wf(#[trigger] next@[j], k as nat),
                        forall|x: usize|
                            #[trigger] sum_map(next@, tuple_count_fn(x)) == tuple_count_fn(x)(m0)
                                + sum_map(ts0.subrange(2, ri as int), tuple_count_fn(x)),
                    decreases tuple.len() - ri,
                {
                    let ghost pre = next@;
                    let c = copy_tuple(&tuple[ri]);
                    next.push(c);
                    proof {
                        assert forall|x: usize|
                            #[trigger] sum_map(next@, tuple_count_fn(x)) == tuple_count_fn(x)(m0)
                                + sum_map(ts0.subrange(2, ri + 1 as int), tuple_count_fn(x)) by {
                            lemma_sum_map_push(pre, c, tuple_count_fn(x));
                            assert(ts0.subrange(2, ri + 1 as int) =~= ts0.subrange(2, ri as int)
                                .push(ts0[ri as int]));
                            lemma_sum_map_push(
                                ts0.subrange(2, ri as int),
                                ts0[ri as int],
                                tuple_count_fn(x),
                            );
                            assert(c.bin_assignments.deep_view() == ts0[
                                ri as int
                            ].bin_assignments.deep_view());
                            assert(tuple_count_fn(x)(c) == tuple_count_fn(x)(ts0[ri as int]));
                        }
                    }
                    ri += 1;
                }
                let ghost nv = next@;
                let sorted = sort_tuples_desc(next);
                proof {
                    broadcast use vstd::seq_lib::group_to_multiset_ensures;

                    assert forall|j: int| 0 <= j < sorted@.len() implies tuple_wf(
                        #[trigger] sorted@[j],
                        k as nat,
                    ) by {
                        assert(sorted@.contains(sorted@[j]));
                        assert(sorted@.to_multiset().count(sorted@[j]) > 0);
                        assert(nv.to_multiset().count(sorted@[j]) > 0);
                        assert(nv.contains(sorted@[j]));
                        let w = choose|w: int| 0 <= w < nv.len() && nv[w] == sorted@[j];
                        if w == 0 {
                            assert(tuple_wf(m0, k as nat));
                        } else {
                            assert(tuple_wf(nv[w], k as nat));
                        }
                    }
                    assert forall|x: usize| #[trigger] tuples_count(sorted@, x) == tuples_count(
                        ts0,
                        x,
                    ) by {
                        lemma_sum_map_permutation(sorted@, nv, tuple_count_fn(x));
                        assert(sum_map(nv, tuple_count_fn(x)) == tuple_count_fn(x)(m0) + sum_map(
                            ts0.subrange(2, ts0.len() as int),
                            tuple_count_fn(x),
                        ));
                        assert(ts0.subrange(2, ts0.len() as int) =~= ts0.skip(1).skip(1));
                        assert(sum_map(ts0, tuple_count_fn(x)) == tuple_count_fn(x)(ts0[0])
                            + sum_map(ts0.skip(1), tuple_count_fn(x)));
                        assert(ts0.skip(1)[0] == ts0[1]);
                        assert(sum_map(ts0.skip(1), tuple_count_fn(x)) == tuple_count_fn(x)(
                            ts0[1],
                        ) + sum_map(ts0.skip(1).skip(1), tuple_count_fn(x)));
                        assert(tuple_count_fn(x)(m0) == bins_count(
                            ts0[0].bin_assignments.deep_view(),
                            x,
                        ) + bins_count(ts0[1].bin_assignments.deep_view(), x));
                        assert(tuple_count_fn(x)(ts0[0]) == bins_count(
                            ts0[0].bin_assignments.deep_view(),
                            x,
                        ));
                        assert(tuple_count_fn(x)(ts0[1]) == bins_count(
                            ts0[1].bin_assignments.deep_view(),
                            x,
                        ));
                    }
                    assert(sorted@.len() == ts0.len() - 1);
                }
                let ghost sv = sorted@;
                let mut sub = create_multi_way_partition_tree(sorted, naive_estimate, partitions);
                let ghost pre_leaves = leaves@;
                leaves.append(&mut sub);
                proof {
                    assert forall|i: int, x: usize| 0 <= i < leaves@.len() implies #[trigger]
                    bins_count(leaves@[i].0.deep_view(), x) == tuples_count(ts0, x) by {
                        if i < pre_leaves.len() {
                            assert(leaves@[i] == pre_leaves[i]);
                        } else {
                            assert(bins_count(leaves@[i].0.deep_view(), x) == tuples_count(sv, x));
                        }
                    }
                    assert forall|i: int| 0 <= i < leaves@.len() implies (#[trigger] leaves@[i]).0.deep_view().len() == k by {
                        if i < pre_leaves.len() {
                            assert(leaves@[i] == pre_leaves[i]);
                        }
                    }
                }
            }
            pi += 1;
        }
        leaves
    }
}

/// Positions of `data` ordered by descending weight; among equal weights
/// the later position comes first, matching an ascending stable sort that
/// is then reversed.
fn descending_order(data: &Vec<i64>) -> (r: Vec<usize>)
    ensures
        r@.len() == data@.len(),
        r@.to_multiset() == ident_seq(data@.len()).to_multiset(),
        forall|i: int| 0 <= i < r@.len() ==> (#[trigger] r@[i] as int) < data@.len(),
        forall|a: int, b: int|
            0 <= a < b < r@.len() ==> data@[#[trigger] r@[a] as int] >= data@[
                #[trigger] r@[b] as int
            ],
        forall|a: int, b: int|
            0 <= a < b < r@.len() && data@[#[trigger] r@[a] as int] == data@[
                #[trigger] r@[b] as int
            ] ==> r@[a] > r@[b],
{
    broadcast use vstd::seq_lib::group_to_multiset_ensures;

    let n = data.len();
    let mut r: Vec<usize> = Vec::new();
    let mut t: usize = 0;
    while t < n
        invariant
            0 <= t <= n,
            n == data@.len(),
            r@.len() == t,
            r@.to_multiset() == ident_seq(t as nat).to_multiset(),
            forall|i: int| 0 <= i < r@.len() ==> (#[trigger] r@[i] as int) < n,
            forall|i: int| 0 <= i < r@.len() ==> #[trigger] r@[i] < t,
            forall|a: int, b: int|
                0 <= a < b < r@.len() ==> data@[#[trigger] r@[a] as int] >= data@[
                    #[trigger] r@[b] as int
                ],
            forall|a: int, b: int|
                0 <= a < b < r@.len() && data@[#[trigger] r@[a] as int] == data@[
                    #[trigger] r@[b] as int
                ] ==> r@[a] > r@[b],
        decreases n - t,
    {
        let ghost r0 = r@;
        let key = data[t];
        let mut j: usize = 0;
        while j < r.len() && data[r[j]] > key
            invariant
                0 <= j <= r@.len(),
                r@ == r0,
                n == data@.len(),
                key == data@[t as int],
                forall|i: int| 0 <= i < r@.len() ==> (#[trigger] r@[i] as int) < n,
                forall|i: int| 0 <= i < r@.len() ==> #[trigger] r@[i] < t,
                forall|a: int| 0 <= a < j ==> data@[#[trigger] r@[a] as int] > key,
            decreases r@.len() - j,
        {
            j += 1;
        }
        r.insert(j, t);
        proof {
            assert forall|a: int, b: int|
                0 <= a < b < r@.len() implies data@[#[trigger] r@[a] as int] >= data@[
                #[trigger] r@[b] as int
            ] && (data@[r@[a] as int] == data@[r@[b] as int] ==> r@[a] > r@[b]) by {
                assert(r@ == r0.insert(j as int, t));
                if a < j && b < j {
                    assert(r@[a] == r0[a] && r@[b] == r0[b]);
                } else if a < j && b == j {
                    assert(r@[b] == t && r@[a] == r0[a]);
                    assert(data@[r0[a] as int] > key);
                } else if a < j && b > j {
                    assert(r@[a] == r0[a] && r@[b] == r0[b - 1]);
                } else if a == j {
                    assert(r@[a] == t);
                    if b > j {
                        assert(r@[b] == r0[b - 1]);
                        assert(j < r0.len() ==> data@[r0[j as int] as int] <= key);
                        assert(r0[b - 1] < t);
                    }
                } else {
                    assert(r@[a] == r0[a - 1] && r@[b] == r0[b - 1]);
                }
            }
            assert forall|i: int| 0 <= i < r@.len() implies #[trigger] r@[i] < t + 1 by {
                assert(r@ == r0.insert(j as int, t));
            }
        }
        proof {
            vstd::seq_lib::to_multiset_insert(r0, j as int, t);
            assert(r@.to_multiset() == r0.to_multiset().insert(t));
            assert(ident_seq((t + 1) as nat) =~= ident_seq(t as nat).push(t));
            vstd::seq_lib::to_multiset_build(ident_seq(t as nat), t);
            assert(ident_seq(t as nat).push(t).to_multiset() == ident_seq(
                t as nat,
            ).to_multiset().insert(t));
            assert forall|i: int| 0 <= i < r@.len() implies (#[trigger] r@[i] as int) < n by {
                assert(r@ == r0.insert(j as int, t));
            }
        }
        t += 1;
    }
    r
}

/// The starting tuple of one item: its weight in slot zero, its
/// (descending-order) position alone in group zero.
fn unit_tuple(j: usize, w: i64, k: usize) -> (t: KarmarkerTuple)
    requires
        k >= 1,
    ensures
        tuple_wf(t, k as nat),
        t.data@[0] == w,
        forall|i: int| 1 <= i < k ==> #[trigger] t.data@[i] == 0i64,
        t.bin_assignments@[0]@ == seq![j],
        forall|g: int| 1 <= g < k ==> (#[trigger] t.bin_assignments@[g])@ =~= Seq::<usize>::empty(),
        forall|x: usize|
            #[trigger] bins_count(t.bin_assignments.deep_view(), x) == if x == j {
                1int
            } else {
                0int
            },
{
    let mut data: Vec<i64> = Vec::new();
    data.push(w);
    let mut di: usize = 1;
    while di < k
        invariant
            1 <= di <= k,
            data@.len() == di,
            data@[0] == w,
            forall|p: int| 1 <= p < di ==> #[trigger] data@[p] == 0i64,
        decreases k - di,
    {
        data.push(0i64);
        di += 1;
    }
    let mut g0: Vec<usize> = Vec::new();
    g0.push(j);
    let mut bin_assignments: Vec<Vec<usize>> = Vec::new();
    bin_assignments.push(g0);
    proof {
        assert forall|x: usize|
            #[trigger] bins_count(bin_assignments.deep_view(), x) == if x == j {
                1int
            } else {
                0int
            } by {
            let dv = bin_assignments.deep_view();
            assert(dv.len() == 1);
            assert(dv[0] =~= seq![j]);
            assert(dv.skip(1) =~= Seq::<Seq<usize>>::empty());
            assert(sum_map(Seq::<Seq<usize>>::empty(), nested_sum_fn(eq_ind(x))) == 0);
            assert(nested_sum_fn(eq_ind(x))(dv[0]) == sum_map(seq![j], eq_ind(x)));
            assert(seq![j].skip(1) =~= Seq::<usize>::empty());
            assert(sum_map(Seq::<usize>::empty(), eq_ind(x)) == 0);
            assert(seq![j][0] == j);
            assert(sum_map(seq![j], eq_ind(x)) == eq_ind(x)(j));
            assert(eq_ind(x)(j) == if j == x { 1int } else { 0int });
            assert(sum_map(dv, nested_sum_fn(eq_ind(x))) == nested_sum_fn(eq_ind(x))(dv[0])
                + sum_map(dv.skip(1), nested_sum_fn(eq_ind(x))));
        }
    }
    let mut bi: usize = 1;
    while bi < k
        invariant
            1 <= bi <= k,
            bin_assignments@.len() == bi,
            bin_assignments@[0]@ == seq![j],
            forall|g: int| 1 <= g < bi ==> (#[trigger] bin_assignments@[g])@.len() == 0,
            forall|x: usize|
                #[trigger] bins_count(bin_assignments.deep_view(), x) == if x == j {
                    1int
                } else {
                    0int
                },
        decreases k - bi,
    {
        let ghost pre_dv = bin_assignments.deep_view();
        let empty_group: Vec<usize> = Vec::new();
        bin_assignments.push(empty_group);
        proof {
            assert(bin_assignments.deep_view() =~~= pre_dv.push(Seq::<usize>::empty()));
            assert forall|x: usize|
                #[trigger] bins_count(bin_assignments.deep_view(), x) == if x == j {
                    1int
                } else {
                    0int
                } by {
                lemma_sum_map_push(pre_dv, Seq::<usize>::empty(), nested_sum_fn(eq_ind(x)));
                assert(nested_sum_fn(eq_ind(x))(Seq::<usize>::empty()) == sum_map(
                    Seq::<usize>::empty(),
                    eq_ind(x),
                ));
                assert(sum_map(Seq::<usize>::empty(), eq_ind(x)) == 0);
                assert(bins_count(pre_dv, x) == sum_map(pre_dv, nested_sum_fn(eq_ind(x))));
                assert(bins_count(bin_assignments.deep_view(), x) == sum_map(
                    pre_dv.push(Seq::<usize>::empty()),
                    nested_sum_fn(eq_ind(x)),
                ));
            }
        }
        bi += 1;
    }
    KarmarkerTuple { data, bin_assignments }
}

/// The search front-end: weights are ordered descending, wrapped into unit
/// tuples, and handed to the differencing search; `sort_order` maps a
/// descending-order position back to its original position.
pub(crate) struct EvenSizedBinNodeTree {
    pub(crate) data: Vec<(Vec<Vec<usize>>, i64)>,
    pub(crate) sort_order: Vec<usize>,
}

impl EvenSizedBinNodeTree {
    pub(crate) fn new(data: Vec<i64>, partitions: usize) -> (tree: EvenSizedBinNodeTree)
        requires
            1 <= partitions <= data@.len(),
            partitions <= 0xffff_ffff,
        ensures
            tree.sort_order@.len() == data@.len(),
            tree.sort_order@.to_multiset() == ident_seq(data@.len()).to_multiset(),
            forall|a: int, b: int|
                0 <= a < b < tree.sort_order@.len() ==> data@[#[trigger] tree.sort_order@[a]
                    as int] >= data@[#[trigger] tree.sort_order@[b] as int],
            forall|a: int, b: int|
                0 <= a < b < tree.sort_order@.len() && data@[#[trigger] tree.sort_order@[a]
                    as int] == data@[#[trigger] tree.sort_order@[b] as int]
                    ==> tree.sort_order@[a] > tree.sort_order@[b],
            forall|i: int|
                0 <= i < tree.data@.len() ==> (#[trigger] tree.data@[i]).0.deep_view().len()
                    == partitions,
            forall|i: int, x: usize|
                0 <= i < tree.data@.len() ==> #[trigger] bins_count(
                    tree.data@[i].0.deep_view(),
                    x,
                ) == if (x as nat) < data@.len() {
                    1int
                } else {
                    0int
                },
    {
        let n = data.len();
        let mut naive_estimate: i64 = 0;
        let mut wi: usize = 0;
        while wi < n
            invariant
                0 <= wi <= n,
                n == data@.len(),
            decreases n - wi,
        {
            naive_estimate = sat_add_i64(naive_estimate, data[wi]);
            wi += 1;
        }
        let sort_order = descending_order(&data);
        let mut tuple: Vec<KarmarkerTuple> = Vec::new();
        let mut j: usize = 0;
        while j < n
            invariant
                0 <= j <= n,
                n == data@.len(),
                sort_order@.len() == n,
                forall|i: int| 0 <= i < n ==> (#[trigger] sort_order@[i] as int) < n,
                tuple@.len() == j,
                tuples_wf(tuple@, partitions as nat),
                1 <= partitions,
                forall|x: usize|
                    #[trigger] tuples_count(tuple@, x) == if (x as int) < j {
                        1int
                    } else {
                        0int
                    },
            decreases n - j,
        {
            let ghost pre = tuple@;
            let t = unit_tuple(j, data[sort_order[j]], partitions);
            tuple.push(t);
            proof {
                assert forall|x: usize|
                    #[trigger] tuples_count(tuple@, x) == if (x as int) < j + 1 {
                        1int
                    } else {
                        0int
                    } by {
                    lemma_sum_map_push(pre, t, tuple_count_fn(x));
                    assert(tuple@ == pre.push(t));
                    assert(tuples_count(pre, x) == sum_map(pre, tuple_count_fn(x)));
                    assert(tuple_count_fn(x)(t) == bins_count(t.bin_assignments.deep_view(), x));
                }
            }
            j += 1;
        }
        let leaves = create_multi_way_partition_tree(tuple, naive_estimate, partitions);
        EvenSizedBinNodeTree { data: leaves, sort_order }
    }

    /// The surviving leaves of the search, each a full group assignment
    /// with its score.
    pub(crate) fn flatten_node_tree(self) -> (r: Vec<(Vec<Vec<usize>>, i64)>)
        ensures
            r == self.data,
    {
        self.data
    }
}

/// The one-group assignment: every position in group zero, the other
/// groups empty. It is the answer when only one group is asked for, and
/// the safety net should the bound ever prune every branch.
pub(crate) fn naive_single_group(n: usize, partitions: usize) -> (r: Vec<Vec<usize>>)
    requires
        partitions >= 1,
    ensures
        r@.len() == partitions,
        exact_cover(r.deep_view(), n as nat),
{
    let mut g0: Vec<usize> = Vec::new();
    let mut i: usize = 0;
    while i < n
        invariant
            0 <= i <= n,
            g0@ == ident_seq(i as nat),
        decreases n - i,
    {
        g0.push(i);
        proof {
            assert(g0@ =~= ident_seq((i + 1) as nat));
        }
        i += 1;
    }
    let mut r: Vec<Vec<usize>> = Vec::new();
    r.push(g0);
    proof {
        assert forall|x: usize|
            #[trigger] bins_count(r.deep_view(), x) == if (x as nat) < n {
                1int
            } else {
                0int
            } by {
            let dv = r.deep_view();
            assert(dv.len() == 1);
            assert(dv[0] =~= ident_seq(n as nat));
            assert(dv.skip(1) =~= Seq::<Seq<usize>>::empty());
            assert(sum_map(Seq::<Seq<usize>>::empty(), nested_sum_fn(eq_ind(x))) == 0);
            assert(nested_sum_fn(eq_ind(x))(dv[0]) == sum_map(ident_seq(n as nat), eq_ind(x)));
            crate::summation::lemma_ident_count(n as nat, x);
            assert(sum_map(dv, nested_sum_fn(eq_ind(x))) == nested_sum_fn(eq_ind(x))(dv[0])
                + sum_map(dv.skip(1), nested_sum_fn(eq_ind(x))));
        }
    }
    let mut bi: usize = 1;
    while bi < partitions
        invariant
            1 <= bi <= partitions,
            r@.len() == bi,
            forall|x: usize|
                #[trigger] bins_count(r.deep_view(), x) == if (x as nat) < n {
                    1int
                } else {
                    0int
                },
        decreases partitions - bi,
    {
        let ghost pre_dv = r.deep_view();
        let empty_group: Vec<usize> = Vec::new();
        r.push(empty_group);
        proof {
            assert(r.deep_view() =~~= pre_dv.push(Seq::<usize>::empty()));
            assert forall|x: usize|
                #[trigger] bins_count(r.deep_view(), x) == if (x as nat) < n {
                    1int
                } else {
                    0int
                } by {
                lemma_sum_map_push(pre_dv, Seq::<usize>::empty(), nested_sum_fn(eq_ind(x)));
                assert(nested_sum_fn(eq_ind(x))(Seq::<usize>::empty()) == sum_map(
                    Seq::<usize>::empty(),
                    eq_ind(x),
                ));
                assert(sum_map(Seq::<usize>::empty(), eq_ind(x)) == 0);
                assert(bins_count(pre_dv, x) == sum_map(pre_dv, nested_sum_fn(eq_ind(x))));
                assert(bins_count(r.deep_view(), x) == sum_map(
                    pre_dv.push(Seq::<usize>::empty()),
                    nested_sum_fn(eq_ind(x)),
                ));
            }
        }
        bi += 1;
    }
    r
}

/// When one group is asked for, that group holds every index exactly once.
pub proof fn lemma_single_group_cover(bins: Seq<Seq<usize>>, n: nat)
    requires
        bins.len() == 1,
        exact_cover(bins, n),
    ensures
        forall|x: usize|
            #[trigger] crate::summation::seq_count(bins[0], x) == if (x as nat) < n {
                1int
            } else {
                0int
            },
{
    assert forall|x: usize|
        #[trigger] crate::summation::seq_count(bins[0], x) == if (x as nat) < n {
            1int
        } else {
            0int
        } by {
        assert(bins_count(bins, x) == if (x as nat) < n {
            1int
        } else {
            0int
        });
        assert(bins.skip(1) =~= Seq::<Seq<usize>>::empty());
        assert(sum_map(Seq::<Seq<usize>>::empty(), nested_sum_fn(eq_ind(x))) == 0);
        assert(sum_map(bins, nested_sum_fn(eq_ind(x))) == nested_sum_fn(eq_ind(x))(bins[0])
            + sum_map(bins.skip(1), nested_sum_fn(eq_ind(x))));
        assert(nested_sum_fn(eq_ind(x))(bins[0]) == sum_map(bins[0], eq_ind(x)));
    }
}

/// A position that stands in some group is covered at least once.
pub proof fn lemma_bins_count_lower(bins: Seq<Seq<usize>>, g: int, p: int)
    requires
        0 <= g < bins.len(),
        0 <= p < bins[g].len(),
    ensures
        bins_count(bins, bins[g][p]) >= 1,
{
    let x = bins[g][p];
    lemma_sum_map_remove(bins, g, nested_sum_fn(eq_ind(x)));
    crate::summation::lemma_position_count(bins[g], p);
    assert(nested_sum_fn(eq_ind(x))(bins[g]) == sum_map(bins[g], eq_ind(x)));
    assert forall|i: int| 0 <= i < bins.remove(g).len() implies nested_sum_fn(eq_ind(x))(
        #[trigger] bins.remove(g)[i],
    ) >= 0 by {
        lemma_sum_map_nonneg(bins.remove(g)[i], eq_ind(x));
    }
    lemma_sum_map_nonneg(bins.remove(g), nested_sum_fn(eq_ind(x)));
}

} // verus!
