use vstd::prelude::*;
use vstd::pervasive::VecAdditionalExecFns;
use frequency::Frequency;
use crate::summation::seq_count;
use crate::summation::eq_ind;
use crate::summation::sum_map;
use crate::summation::lemma_sum_map_push;
use crate::summation::lemma_position_count;

verus! {

/// Per-category descriptors. `group` lists the category ids in the order
/// the frequency counter walks them; `elements_per_group` and
/// `group_total` are indexed by the category id itself: the id's member
/// count, and the sum of its members' values (for boolean data, the
/// number of `true` members), whose quotient by the count is the
/// category mean.
pub struct CategoryMetrics {
    pub group: Vec<usize>,
    pub elements_per_group: Vec<usize>,
    pub group_total: Vec<i64>,
}

/// The contents of a frequency counter: which labels it has seen, and how
/// often each.
pub uninterp spec fn frequency_view(m: LabelFrequency) -> Map<usize, int>;

/// A frequency counter over labels, kept behind the outside crate's
/// hash-map-backed implementation.
#[verifier::external_body]
pub struct LabelFrequency {
    inner: frequency_hashmap::HashMapFrequency<usize, usize>,
}

/// Relies on `HashMapFrequency`'s `FromIterator`, which increments one
/// counter per element: afterwards the counter maps each distinct label
/// to its number of occurrences.
#[verifier::external_body]
fn from_labels(labels: &Vec<usize>) -> (m: LabelFrequency)
    ensures
        frequency_view(m).dom() == labels@.to_set(),
        forall|x: usize|
            labels@.to_set().contains(x) ==> #[trigger] frequency_view(m)[x] == seq_count(
                labels@,
                x,
            ),
{
    LabelFrequency { inner: labels.iter().copied().collect() }
}

/// Relies on `Frequency::count` for `HashMapFrequency`: the stored count
/// of the label, or zero when the label was never seen.
#[verifier::external_body]
fn count_of(m: &LabelFrequency, label: usize) -> (c: usize)
    ensures
        c as int == if frequency_view(*m).dom().contains(label) {
            frequency_view(*m)[label]
        } else {
            0int
        },
{
    m.inner.count(&label)
}

/// Relies on `Frequency::items` for `HashMapFrequency`: every distinct
/// counted label exactly once, in whatever order the backing hash map
/// walks its keys.
#[verifier::external_body]
fn items_list(m: &LabelFrequency) -> (r: Vec<usize>)
    ensures
        r@.no_duplicates(),
        r@.to_set() == frequency_view(*m).dom(),
{
    m.inner.items().copied().collect()
}

/// No category id is skipped: whenever an id occurs, so does every
/// smaller id. Since the ids are a dense zero-based enumeration of the
/// categories and every category has a member, each id lies below the
/// number of elements.
pub open spec fn labels_are_dense(labels: Seq<usize>) -> bool {
    &&& forall|x: usize, y: usize| labels.contains(x) && y < x ==> labels.contains(y)
    &&& forall|i: int| 0 <= i < labels.len() ==> (#[trigger] labels[i] as int) < labels.len()
}

/// One more than the largest label: the number of categories.
pub open spec fn group_count_of(labels: Seq<usize>) -> nat
    decreases labels.len(),
{
    if labels.len() == 0 {
        0
    } else {
        let rest = group_count_of(labels.drop_last());
        if labels.last() + 1 > rest {
            (labels.last() + 1) as nat
        } else {
            rest
        }
    }
}

/// For a dense non-empty label sequence the labels are exactly
/// `0 .. group_count_of(labels)`.
pub proof fn lemma_dense_range(labels: Seq<usize>)
    requires
        labels.len() >= 1,
        labels_are_dense(labels),
    ensures
        forall|x: usize| labels.contains(x) <==> (x as nat) < group_count_of(labels),
        group_count_of(labels) <= labels.len(),
{
    lemma_group_count_max(labels);
    let gc = group_count_of(labels);
    assert(gc - 1 <= usize::MAX) by {
        let w = choose|w: int| 0 <= w < labels.len() && (labels[w] as nat) == gc - 1;
        assert(labels[w] <= usize::MAX);
    }
    assert(labels.contains((gc - 1) as usize));
    assert(gc <= labels.len()) by {
        let p = choose|p: int| 0 <= p < labels.len() && labels[p] == (gc - 1) as usize;
        assert((labels[p] as int) < labels.len());
    }
    assert forall|x: usize| labels.contains(x) implies (x as nat) < gc by {}
    assert forall|x: usize| (x as nat) < gc implies labels.contains(x) by {
        if (x as nat) < gc - 1 {
            assert(labels.contains((gc - 1) as usize) && x < (gc - 1) as usize);
        }
    }
}

/// The maximum label is attained, and every label lies below the count.
proof fn lemma_group_count_max(labels: Seq<usize>)
    requires
        labels.len() >= 1,
    ensures
        group_count_of(labels) >= 1,
        exists|w: int| 0 <= w < labels.len() && (#[trigger] labels[w] as nat) == group_count_of(labels) - 1,
        labels.contains((group_count_of(labels) - 1) as usize),
        forall|i: int|
            0 <= i < labels.len() ==> (#[trigger] labels[i] as nat) < group_count_of(labels),
    decreases labels.len(),
{
    if labels.len() == 1 {
        assert(labels.drop_last().len() == 0);
        assert(labels.last() == labels[0]);
    } else {
        lemma_group_count_max(labels.drop_last());
        let gc = group_count_of(labels);
        let rest = group_count_of(labels.drop_last());
        if labels.last() + 1 > rest {
            assert(labels.contains(labels.last()));
        } else {
            assert(labels.drop_last().contains((rest - 1) as usize));
            let i = choose|i: int|
                0 <= i < labels.drop_last().len() && labels.drop_last()[i] == (rest - 1) as usize;
            assert(labels[i] == (rest - 1) as usize);
            assert(labels.contains((rest - 1) as usize));
        }
        assert forall|i: int|
            0 <= i < labels.len() implies (#[trigger] labels[i] as nat) < gc by {
            if i < labels.len() - 1 {
                assert(labels.drop_last()[i] == labels[i]);
            }
        }
    }
}

/// The value sum of the members of one category, read positionally.
pub open spec fn label_sum(labels: Seq<usize>, values: Seq<i64>, id: usize) -> int
    decreases labels.len(),
{
    if labels.len() == 0 || values.len() == 0 {
        0
    } else {
        (if labels.last() == id {
            values.last() as int
        } else {
            0
        }) + label_sum(labels.drop_last(), values.drop_last(), id)
    }
}

/// The absolute value of a partial category sum never exceeds the sum of
/// all absolute values.
proof fn lemma_label_sum_bound(labels: Seq<usize>, values: Seq<i64>, id: usize)
    requires
        labels.len() == values.len(),
    ensures
        label_sum(labels, values, id) <= crate::sum_abs(values),
        label_sum(labels, values, id) >= -crate::sum_abs(values),
        crate::sum_abs(values) >= 0,
    decreases labels.len(),
{
    if labels.len() == 0 {
    } else {
        lemma_label_sum_bound(labels.drop_last(), values.drop_last(), id);
        crate::lemma_sum_abs_drop_last(values);
    }
}

/// The per-category member counts, indexed by category id.
pub open spec fn counts_of(labels: Seq<usize>) -> Seq<usize> {
    Seq::new(group_count_of(labels), |id: int| seq_count(labels, id as usize) as usize)
}

/// The per-category value sums, indexed by category id.
pub open spec fn totals_of(labels: Seq<usize>, values: Seq<i64>) -> Seq<i64> {
    Seq::new(group_count_of(labels), |id: int| label_sum(labels, values, id as usize) as i64)
}

/// A category's member count and value sum for well-formed descriptors.
pub open spec fn metrics_wf(m: CategoryMetrics, labels: Seq<usize>, values: Seq<i64>) -> bool {
    let gc = group_count_of(labels);
    &&& m.elements_per_group@.len() == gc
    &&& m.group_total@.len() == gc
    &&& forall|id: usize|
        (id as nat) < gc ==> (#[trigger] m.elements_per_group@[id as int] as int) == seq_count(
            labels,
            id,
        )
    &&& forall|id: usize|
        (id as nat) < gc ==> #[trigger] m.group_total@[id as int] == label_sum(labels, values, id)
    &&& forall|id: usize| (id as nat) < gc ==> #[trigger] m.elements_per_group@[id as int] >= 1
    &&& m.group@.no_duplicates()
    &&& forall|x: usize| m.group@.contains(x) <==> (x as nat) < gc
    &&& m.group@.len() == gc
}

/// Build per-category descriptors from dense labels and matching values.
/// The counting itself is done by the outside frequency counter; the
/// value sums are accumulated here.
pub fn int_metrics(values: &Vec<i64>, group_definition: &Vec<usize>) -> (m: CategoryMetrics)
    requires
        values@.len() == group_definition@.len(),
        group_definition@.len() >= 1,
        labels_are_dense(group_definition@),
        crate::sum_abs(values@) <= 0x7fff_ffff_ffff,
    ensures
        metrics_wf(m, group_definition@, values@),
{
    let labels = group_definition;
    proof {
        lemma_dense_range(labels@);
        lemma_group_count_max(labels@);
    }
    let ghost gc = group_count_of(labels@);
    // number of categories: one past the largest label
    proof {
        assert(labels@.subrange(0, 1).drop_last() =~= Seq::<usize>::empty());
        assert(labels@.subrange(0, 1).last() == labels@[0]);
        assert(group_count_of(Seq::<usize>::empty()) == 0);
    }
    let mut max_label: usize = labels[0];
    let mut i: usize = 1;
    while i < labels.len()
        invariant
            1 <= i <= labels@.len(),
            max_label as nat == group_count_of(labels@.subrange(0, i as int)) - 1,
            group_count_of(labels@.subrange(0, i as int)) >= 1,
        decreases labels@.len() - i,
    {
        proof {
            assert(labels@.subrange(0, i + 1 as int).drop_last() =~= labels@.subrange(0, i as int));
            assert(labels@.subrange(0, i + 1 as int).last() == labels@[i as int]);
        }
        if labels[i] > max_label {
            max_label = labels[i];
        }
        i += 1;
    }
    proof {
        assert(labels@.subrange(0, labels@.len() as int) =~= labels@);
        assert(max_label as nat == gc - 1);
    }
    proof {
        assert(labels@.contains((gc - 1) as usize));
        assert(max_label as nat == gc - 1);
        assert((max_label as int) < labels@.len());
    }
    let n_groups = max_label + 1;
    let freq = from_labels(labels);
    let group = items_list(&freq);
    proof {
        assert forall|x: usize| group@.contains(x) <==> (x as nat) < gc by {
            assert(group@.contains(x) <==> group@.to_set().contains(x));
            assert(labels@.to_set().contains(x) <==> labels@.contains(x));
        }
        group@.lemma_multiset_has_no_duplicates();
        assert forall|y: usize| seq_count(group@, y) == seq_count(
            crate::summation::ident_seq(gc),
            y,
        ) by {
            crate::summation::lemma_seq_count_multiset(group@, y);
            crate::summation::lemma_ident_count(gc, y);
            crate::summation::lemma_ident_no_dup(gc);
            if group@.contains(y) {
                let p = choose|p: int| 0 <= p < group@.len() && group@[p] == y;
                lemma_position_count(group@, p);
                crate::summation::lemma_count_at_most_one(group@, y);
            } else {
                crate::summation::lemma_count_zero(group@, y);
            }
        }
        crate::summation::lemma_counts_give_multiset(group@, crate::summation::ident_seq(gc));
        vstd::seq_lib::to_multiset_len(group@);
        vstd::seq_lib::to_multiset_len(crate::summation::ident_seq(gc));
        assert(group@.len() == gc);
    }
    let mut elements_per_group: Vec<usize> = Vec::new();
    let mut id: usize = 0;
    while id < n_groups
        invariant
            0 <= id <= n_groups,
            n_groups == gc,
            gc == group_count_of(labels@),
            labels@.len() >= 1,
            labels_are_dense(labels@),
            forall|x: usize| labels@.contains(x) <==> (x as nat) < gc,
            frequency_view(freq).dom() == labels@.to_set(),
            forall|x: usize|
                labels@.to_set().contains(x) ==> #[trigger] frequency_view(freq)[x] == seq_count(
                    labels@,
                    x,
                ),
            elements_per_group@.len() == id,
            forall|j: usize|
                j < id ==> (#[trigger] elements_per_group@[j as int] as int) == seq_count(
                    labels@,
                    j,
                ),
        decreases n_groups - id,
    {
        let c = count_of(&freq, id);
        proof {
            assert(labels@.contains(id));
            assert(labels@.to_set().contains(id));
        }
        elements_per_group.push(c);
        id += 1;
    }
    proof {
        assert forall|j: usize| (j as nat) < gc implies #[trigger] elements_per_group@[j as int]
            >= 1 by {
            assert(labels@.contains(j));
            let p = choose|p: int| 0 <= p < labels@.len() && labels@[p] == j;
            lemma_position_count(labels@, p);
        }
    }
    let mut group_total: Vec<i64> = Vec::new();
    let mut zi: usize = 0;
    while zi < n_groups
        invariant
            0 <= zi <= n_groups,
            group_total@.len() == zi,
            forall|j: int| 0 <= j < zi ==> #[trigger] group_total@[j] == 0i64,
        decreases n_groups - zi,
    {
        group_total.push(0i64);
        zi += 1;
    }
    let mut t: usize = 0;
    while t < labels.len()
        invariant
            0 <= t <= labels@.len(),
            values@.len() == labels@.len(),
            n_groups == gc,
            gc == group_count_of(labels@),
            labels@.len() >= 1,
            labels_are_dense(labels@),
            forall|x: usize| labels@.contains(x) <==> (x as nat) < gc,
            forall|i2: int|
                0 <= i2 < labels@.len() ==> (#[trigger] labels@[i2] as nat) < gc,
            crate::sum_abs(values@) <= 0x7fff_ffff_ffff,
            group_total@.len() == gc,
            forall|j: usize|
                (j as nat) < gc ==> #[trigger] group_total@[j as int] == label_sum(
                    labels@.subrange(0, t as int),
                    values@.subrange(0, t as int),
                    j,
                ),
        decreases labels@.len() - t,
    {
        let l = labels[t];
        let v = values[t];
        let ghost pre = group_total@;
        proof {
            lemma_label_sum_bound(
                labels@.subrange(0, t as int),
                values@.subrange(0, t as int),
                l,
            );
            crate::lemma_sum_abs_prefix(values@, t as int);
            assert(group_total@[l as int] + v as int <= 0xffff_ffff_ffff_i64);
            assert(group_total@[l as int] + v as int >= -0xffff_ffff_ffff_i64);
        }
        let updated = group_total[l] + v;
        group_total.set(l, updated);
        proof {
            assert forall|j: usize|
                (j as nat) < gc implies #[trigger] group_total@[j as int] == label_sum(
                labels@.subrange(0, t + 1 as int),
                values@.subrange(0, t + 1 as int),
                j,
            ) by {
                assert(labels@.subrange(0, t + 1 as int).drop_last() =~= labels@.subrange(
                    0,
                    t as int,
                ));
                assert(values@.subrange(0, t + 1 as int).drop_last() =~= values@.subrange(
                    0,
                    t as int,
                ));
                assert(labels@.subrange(0, t + 1 as int).last() == l);
                assert(values@.subrange(0, t + 1 as int).last() == v);
                if j != l {
                    assert(group_total@[j as int] == pre[j as int]);
                }
            }
        }
        t += 1;
    }
    proof {
        assert(labels@.subrange(0, labels@.len() as int) =~= labels@);
        assert(values@.subrange(0, values@.len() as int) =~= values@);
    }
    CategoryMetrics { group, elements_per_group, group_total }
}

/// Build per-category descriptors for boolean data: the total is the
/// number of `true` members, so the mean is the true-rate.
pub fn bool_metrics(values: &Vec<bool>, group_definition: &Vec<usize>) -> (m: CategoryMetrics)
    requires
        values@.len() == group_definition@.len(),
        group_definition@.len() >= 1,
        group_definition@.len() <= 0x7fff_ffff_ffff,
        labels_are_dense(group_definition@),
    ensures
        metrics_wf(
            m,
            group_definition@,
            Seq::new(values@.len(), |i: int| if values@[i] {
                1i64
            } else {
                0i64
            }),
        ),
{
    let mut as_ints: Vec<i64> = Vec::new();
    let mut i: usize = 0;
    while i < values.len()
        invariant
            0 <= i <= values@.len(),
            as_ints@.len() == i,
            forall|j: int|
                0 <= j < i ==> #[trigger] as_ints@[j] == (if values@[j] {
                    1i64
                } else {
                    0i64
                }),
            forall|j: int| 0 <= j < i ==> 0 <= #[trigger] as_ints@[j] <= 1,
        decreases values@.len() - i,
    {
        if values[i] {
            as_ints.push(1i64);
        } else {
            as_ints.push(0i64);
        }
        i += 1;
    }
    proof {
        assert(as_ints@ =~= Seq::new(values@.len(), |j: int| if values@[j] {
            1i64
        } else {
            0i64
        }));
        crate::lemma_sum_abs_small(as_ints@);
    }
    int_metrics(&as_ints, group_definition)
}

} // verus!
