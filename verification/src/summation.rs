use vstd::prelude::*;

verus! {

/// Sum of `g` over the elements of `s`, from the left.
pub open spec fn sum_map<A>(s: Seq<A>, g: spec_fn(A) -> int) -> int
    decreases s.len(),
{
    if s.len() == 0 {
        0
    } else {
        g(s[0]) + sum_map(s.skip(1), g)
    }
}

/// The indicator of equality with `x`.
pub open spec fn eq_ind<A>(x: A) -> spec_fn(A) -> int {
    |e: A| if e == x {
        1int
    } else {
        0int
    }
}

/// Occurrences of `x` in `s`, as a sum of indicators.
pub open spec fn seq_count<A>(s: Seq<A>, x: A) -> int {
    sum_map(s, eq_ind(x))
}

/// Summing `g` inside each inner sequence.
pub open spec fn nested_sum_fn<A>(g: spec_fn(A) -> int) -> spec_fn(Seq<A>) -> int {
    |s: Seq<A>| sum_map(s, g)
}

/// Splitting a sum at a removed index.
pub proof fn lemma_sum_map_remove<A>(s: Seq<A>, i: int, g: spec_fn(A) -> int)
    requires
        0 <= i < s.len(),
    ensures
        sum_map(s, g) == g(s[i]) + sum_map(s.remove(i), g),
    decreases s.len(),
{
    if i == 0 {
        assert(s.remove(0) =~= s.skip(1));
    } else {
        assert(s.remove(i).skip(1) =~= s.skip(1).remove(i - 1));
        assert(s.remove(i)[0] == s[0]);
        lemma_sum_map_remove(s.skip(1), i - 1, g);
    }
}

/// Summing over a concatenation.
pub proof fn lemma_sum_map_concat<A>(a: Seq<A>, b: Seq<A>, g: spec_fn(A) -> int)
    ensures
        sum_map(a + b, g) == sum_map(a, g) + sum_map(b, g),
    decreases a.len(),
{
    if a.len() == 0 {
        assert(a + b =~= b);
    } else {
        assert((a + b).skip(1) =~= a.skip(1) + b);
        assert((a + b)[0] == a[0]);
        lemma_sum_map_concat(a.skip(1), b, g);
    }
}

/// Sums are invariant under reordering: sequences with equal multisets
/// have equal sums.
pub proof fn lemma_sum_map_permutation<A>(s1: Seq<A>, s2: Seq<A>, g: spec_fn(A) -> int)
    requires
        s1.to_multiset() == s2.to_multiset(),
    ensures
        sum_map(s1, g) == sum_map(s2, g),
    decreases s1.len(),
{
    broadcast use vstd::seq_lib::group_to_multiset_ensures;

    if s1.len() > 0 {
        let a = s1[0];
        assert(s1.to_multiset().count(a) > 0) by {
            assert(s1.contains(a));
        }
        assert(s2.to_multiset().count(a) > 0);
        assert(s2.contains(a));
        let i = choose|i: int| 0 <= i < s2.len() && s2[i] == a;
        lemma_sum_map_remove(s2, i, g);
        assert(s1.remove(0).to_multiset() == s1.to_multiset().remove(a));
        assert(s2.remove(i).to_multiset() == s2.to_multiset().remove(a));
        assert(s1.remove(0) =~= s1.skip(1));
        lemma_sum_map_permutation(s1.skip(1), s2.remove(i), g);
    } else {
        assert(s2.to_multiset().len() == 0);
        assert(s2.len() == 0);
    }
}

/// Removing the last element splits the sum.
pub proof fn lemma_sum_map_drop_last<A>(s: Seq<A>, g: spec_fn(A) -> int)
    requires
        s.len() > 0,
    ensures
        sum_map(s, g) == sum_map(s.drop_last(), g) + g(s.last()),
{
    lemma_sum_map_remove(s, s.len() - 1, g);
    assert(s.remove(s.len() - 1) =~= s.drop_last());
}

/// A sum of elementwise non-negative terms is non-negative.
pub proof fn lemma_sum_map_nonneg<A>(s: Seq<A>, g: spec_fn(A) -> int)
    requires
        forall|i: int| 0 <= i < s.len() ==> g(#[trigger] s[i]) >= 0,
    ensures
        sum_map(s, g) >= 0,
    decreases s.len(),
{
    if s.len() > 0 {
        assert(forall|i: int|
            0 <= i < s.skip(1).len() ==> #[trigger] s.skip(1)[i] == s[i + 1]);
        lemma_sum_map_nonneg(s.skip(1), g);
    }
}

/// The element count agrees with the multiset count.
pub proof fn lemma_seq_count_multiset<A>(s: Seq<A>, x: A)
    ensures
        seq_count(s, x) == s.to_multiset().count(x),
    decreases s.len(),
{
    broadcast use vstd::multiset::group_multiset_axioms;
    broadcast use vstd::seq_lib::group_to_multiset_ensures;

    if s.len() == 0 {
        assert(!s.contains(x));
    } else {
        assert(s.remove(0) =~= s.skip(1));
        lemma_seq_count_multiset(s.skip(1), x);
        assert(s.contains(s[0]));
        assert(s.to_multiset().count(s[0]) > 0);
        assert(s.remove(0).to_multiset() == s.to_multiset().remove(s[0]));
    }
}

/// Sequences with pointwise equal element counts have equal multisets.
pub proof fn lemma_counts_give_multiset<A>(s1: Seq<A>, s2: Seq<A>)
    requires
        forall|x: A| seq_count(s1, x) == seq_count(s2, x),
    ensures
        s1.to_multiset() == s2.to_multiset(),
{
    assert forall|x: A| s1.to_multiset().count(x) == s2.to_multiset().count(x) by {
        lemma_seq_count_multiset(s1, x);
        lemma_seq_count_multiset(s2, x);
    }
    assert(s1.to_multiset() =~= s2.to_multiset());
}

/// Counting distributes over concatenation.
pub proof fn lemma_seq_count_concat<A>(a: Seq<A>, b: Seq<A>, x: A)
    ensures
        seq_count(a + b, x) == seq_count(a, x) + seq_count(b, x),
    decreases a.len(),
{
    if a.len() == 0 {
        assert(a + b =~= b);
    } else {
        assert((a + b).skip(1) =~= a.skip(1) + b);
        assert((a + b)[0] == a[0]);
        lemma_seq_count_concat(a.skip(1), b, x);
    }
}

/// How an update at one index changes an element count.
pub proof fn lemma_seq_count_update<A>(s: Seq<A>, i: int, a: A, x: A)
    requires
        0 <= i < s.len(),
    ensures
        seq_count(s.update(i, a), x) == seq_count(s, x) + (if a == x {
            1int
        } else {
            0int
        }) - (if s[i] == x {
            1int
        } else {
            0int
        }),
{
    let u = s.update(i, a);
    assert(u =~= u.subrange(0, i) + seq![a] + u.subrange(i + 1, u.len() as int));
    assert(s =~= u.subrange(0, i) + seq![s[i]] + u.subrange(i + 1, u.len() as int)) by {
        assert(u.subrange(0, i) =~= s.subrange(0, i));
        assert(u.subrange(i + 1, u.len() as int) =~= s.subrange(i + 1, s.len() as int));
    }
    lemma_seq_count_concat(u.subrange(0, i) + seq![a], u.subrange(i + 1, u.len() as int), x);
    lemma_seq_count_concat(u.subrange(0, i), seq![a], x);
    lemma_seq_count_concat(u.subrange(0, i) + seq![s[i]], u.subrange(i + 1, u.len() as int), x);
    lemma_seq_count_concat(u.subrange(0, i), seq![s[i]], x);
    assert(seq![a].skip(1) =~= Seq::<A>::empty());
    assert(seq![s[i]].skip(1) =~= Seq::<A>::empty());
}

/// Exchanging two elements of a sequence keeps its multiset.
pub proof fn lemma_swap_multiset<A>(s: Seq<A>, i: int, j: int)
    requires
        0 <= i < s.len(),
        0 <= j < s.len(),
    ensures
        s.update(i, s[j]).update(j, s[i]).to_multiset() == s.to_multiset(),
{
    let t = s.update(i, s[j]).update(j, s[i]);
    assert forall|x: A| seq_count(t, x) == seq_count(s, x) by {
        lemma_seq_count_update(s, i, s[j], x);
        lemma_seq_count_update(s.update(i, s[j]), j, s[i], x);
    }
    lemma_counts_give_multiset(t, s);
}

/// Appending one element extends the sum by its term.
pub proof fn lemma_sum_map_push<A>(s: Seq<A>, e: A, g: spec_fn(A) -> int)
    ensures
        sum_map(s.push(e), g) == sum_map(s, g) + g(e),
{
    assert(s.push(e) =~= s + seq![e]);
    lemma_sum_map_concat(s, seq![e], g);
    assert(seq![e].skip(1) =~= Seq::<A>::empty());
    assert(seq![e][0] == e);
    assert(sum_map(Seq::<A>::empty(), g) == 0);
    assert(sum_map(seq![e], g) == g(e));
}

/// Summing over a flattened sequence of sequences equals the nested sum.
pub proof fn lemma_sum_map_flatten<A>(ss: Seq<Seq<A>>, g: spec_fn(A) -> int)
    ensures
        sum_map(ss.flatten(), g) == sum_map(ss, nested_sum_fn(g)),
    decreases ss.len(),
{
    if ss.len() == 0 {
    } else {
        assert(ss.flatten() == ss.first() + ss.drop_first().flatten());
        lemma_sum_map_concat(ss.first(), ss.drop_first().flatten(), g);
        assert(ss.drop_first() =~= ss.skip(1));
        lemma_sum_map_flatten(ss.skip(1), g);
        assert(nested_sum_fn(g)(ss[0]) == sum_map(ss[0], g));
    }
}

/// An element that stands at a position is counted at least once.
pub proof fn lemma_position_count<A>(s: Seq<A>, i: int)
    requires
        0 <= i < s.len(),
    ensures
        seq_count(s, s[i]) >= 1,
{
    lemma_sum_map_remove(s, i, eq_ind(s[i]));
    assert(eq_ind(s[i])(s[i]) == 1);
    assert forall|j: int| 0 <= j < s.remove(i).len() implies eq_ind(s[i])(
        #[trigger] s.remove(i)[j],
    ) >= 0 by {
    }
    lemma_sum_map_nonneg(s.remove(i), eq_ind(s[i]));
}

/// The identity index sequence `[0, 1, ..., k - 1]`.
pub open spec fn ident_seq(k: nat) -> Seq<usize> {
    Seq::new(k, |i: int| i as usize)
}

/// Each index below `k` appears exactly once in the identity sequence.
pub proof fn lemma_ident_count(k: nat, x: usize)
    requires
        k <= usize::MAX,
    ensures
        seq_count(ident_seq(k), x) == if (x as nat) < k {
            1int
        } else {
            0int
        },
    decreases k,
{
    if k == 0 {
    } else {
        lemma_sum_map_drop_last(ident_seq(k), eq_ind(x));
        assert(ident_seq(k).drop_last() =~= ident_seq((k - 1) as nat));
        lemma_ident_count((k - 1) as nat, x);
        assert(ident_seq(k).last() == (k - 1) as usize);
    }
}

/// The identity indices are pairwise distinct.
pub proof fn lemma_ident_no_dup(k: nat)
    requires
        k <= usize::MAX,
    ensures
        ident_seq(k).no_duplicates(),
{
    assert forall|i: int, j: int|
        0 <= i < k && 0 <= j < k && i != j implies ident_seq(k)[i] != ident_seq(k)[j] by {}
}

/// Without duplicates, nothing is counted twice.
pub proof fn lemma_count_at_most_one<A>(s: Seq<A>, y: A)
    requires
        s.no_duplicates(),
    ensures
        seq_count(s, y) <= 1,
{
    broadcast use vstd::multiset::group_multiset_axioms;

    s.lemma_multiset_has_no_duplicates();
    lemma_seq_count_multiset(s, y);
    if s.to_multiset().count(y) > 0 {
        assert(s.to_multiset().contains(y));
    }
}

/// A counted element is present.
pub proof fn lemma_count_positive<A>(s: Seq<A>, x: A)
    requires
        seq_count(s, x) >= 1,
    ensures
        s.contains(x),
{
    broadcast use vstd::seq_lib::group_to_multiset_ensures;

    lemma_seq_count_multiset(s, x);
    assert(s.to_multiset().count(x) > 0);
}

/// An absent element is counted zero times.
pub proof fn lemma_count_zero<A>(s: Seq<A>, y: A)
    requires
        !s.contains(y),
    ensures
        seq_count(s, y) == 0,
{
    broadcast use vstd::seq_lib::group_to_multiset_ensures;

    lemma_seq_count_multiset(s, y);
    lemma_sum_map_nonneg(s, eq_ind(y));
}

/// Summing `gi` over the identity indices equals summing `g` over `s`,
/// when the two agree position by position.
pub proof fn lemma_sum_map_ident<B>(s: Seq<B>, g: spec_fn(B) -> int, gi: spec_fn(usize) -> int)
    requires
        s.len() <= usize::MAX,
        forall|i: int| 0 <= i < s.len() ==> gi(i as usize) == g(#[trigger] s[i]),
    ensures
        sum_map(ident_seq(s.len()), gi) == sum_map(s, g),
    decreases s.len(),
{
    if s.len() == 0 {
        assert(ident_seq(0).len() == 0);
    } else {
        let n = s.len();
        lemma_sum_map_drop_last(ident_seq(n), gi);
        lemma_sum_map_drop_last(s, g);
        assert(ident_seq(n).drop_last() =~= ident_seq((n - 1) as nat));
        assert(s.drop_last().len() == n - 1);
        lemma_sum_map_ident(s.drop_last(), g, gi);
        assert(ident_seq(n).last() == (n - 1) as usize);
        assert(gi((n - 1) as usize) == g(s[n - 1]));
    }
}

} // verus!
