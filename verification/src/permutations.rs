use vstd::prelude::*;
use crate::summation::lemma_swap_multiset;

verus! {

/// `n!`, the number of orderings of `n` distinct labels.
pub open spec fn factorial(n: nat) -> nat
    decreases n,
{
    if n == 0 {
        1
    } else {
        n * factorial((n - 1) as nat)
    }
}

/// The number of leading `true` entries of a mask.
pub open spec fn fixed_len(p: Seq<bool>) -> nat
    decreases p.len(),
{
    if p.len() == 0 || !p[0] {
        0
    } else {
        1 + fixed_len(p.skip(1))
    }
}

/// The orderings that keep positions `0 .. d` fixed, in the order the
/// enumeration yields them: by the position swapped into slot `d`, then
/// recursively.
pub open spec fn perms_from_spec(v: Seq<usize>, d: int) -> Seq<Seq<usize>>
    decreases v.len() - d, v.len() + 1int,
{
    if v.len() == 0 || d < 0 || d >= v.len() - 1 {
        seq![v]
    } else {
        perms_upto(v, d, v.len() as int)
    }
}

/// The branches for swap positions `d .. i`, in order.
pub open spec fn perms_upto(v: Seq<usize>, d: int, i: int) -> Seq<Seq<usize>>
    decreases v.len() - d, i,
{
    if d < 0 || i <= d || i > v.len() || d >= v.len() - 1 || v.len() == 0 {
        Seq::empty()
    } else {
        perms_upto(v, d, i - 1) + perms_from_spec(
            v.update(d, v[i - 1]).update(i - 1, v[d]),
            d + 1,
        )
    }
}

proof fn lemma_fixed_len_char(p: Seq<bool>, d: int)
    requires
        0 <= d <= p.len(),
        forall|i: int| 0 <= i < d ==> p[i],
        d == p.len() || !p[d],
    ensures
        fixed_len(p) == d,
    decreases d,
{
    if d == 0 {
    } else {
        assert(p[0]);
        assert(forall|i: int| 0 <= i < d - 1 ==> p.skip(1)[i] == p[i + 1]);
        assert(d - 1 == p.skip(1).len() || !p.skip(1)[d - 1]);
        lemma_fixed_len_char(p.skip(1), d - 1);
    }
}

fn copy_labels(v: &Vec<usize>) -> (r: Vec<usize>)
    ensures
        r@ == v@,
{
    let mut r: Vec<usize> = Vec::new();
    let mut i: usize = 0;
    while i < v.len()
        invariant
            0 <= i <= v.len(),
            r@ == v@.subrange(0, i as int),
        decreases v.len() - i,
    {
        r.push(v[i]);
        i += 1;
    }
    assert(v@.subrange(0, v@.len() as int) =~= v@);
    r
}

/// All orderings of `v` that keep positions `0 .. d` fixed, produced by
/// trying every still-open position in slot `d` and recursing.
fn permutations_from(v: Vec<usize>, d: usize) -> (r: Vec<Vec<usize>>)
    requires
        d <= v@.len(),
    ensures
        r@.len() == factorial((v@.len() - d) as nat),
        forall|t: int| 0 <= t < r@.len() ==> (#[trigger] r@[t])@.len() == v@.len(),
        forall|t: int|
            0 <= t < r@.len() ==> (#[trigger] r@[t])@.subrange(0, d as int) == v@.subrange(
                0,
                d as int,
            ),
        forall|t: int| 0 <= t < r@.len() ==> (#[trigger] r@[t])@.to_multiset() == v@.to_multiset(),
        v@.no_duplicates() ==> forall|t1: int, t2: int|
            0 <= t1 < t2 < r@.len() ==> r@[t1]@ != r@[t2]@,
        r.deep_view() == perms_from_spec(v@, d as int),
    decreases v@.len() - d,
{
    let n = v.len();
    if n == 0 || d >= n - 1 {
        let ghost vs = v@;
        let mut out: Vec<Vec<usize>> = Vec::new();
        out.push(v);
        proof {
            assert(factorial(0) == 1);
            assert(factorial(1) == 1 * factorial(0));
            assert(out@[0]@.subrange(0, d as int) =~= vs.subrange(0, d as int));
            assert(out.deep_view() =~~= seq![vs]);
        }
        out
    } else {
        let ghost fsub = factorial((v@.len() - d - 1) as nat);
        let mut out: Vec<Vec<usize>> = Vec::new();
        let mut i = d;
        while i < n
            invariant
                d <= i <= n,
                n == v@.len(),
                d + 1 < n,
                fsub == factorial((v@.len() - d - 1) as nat),
                out@.len() == (i - d) * fsub,
                forall|t: int| 0 <= t < out@.len() ==> (#[trigger] out@[t])@.len() == v@.len(),
                forall|t: int|
                    0 <= t < out@.len() ==> (#[trigger] out@[t])@.subrange(0, d as int)
                        == v@.subrange(0, d as int),
                forall|t: int|
                    0 <= t < out@.len() ==> (#[trigger] out@[t])@.to_multiset()
                        == v@.to_multiset(),
                forall|t: int|
                    0 <= t < out@.len() ==> exists|j: int|
                        d <= j < i && (#[trigger] out@[t])@[d as int] == v@[j],
                v@.no_duplicates() ==> forall|t1: int, t2: int|
                    0 <= t1 < t2 < out@.len() ==> out@[t1]@ != out@[t2]@,
                out.deep_view() == perms_upto(v@, d as int, i as int),
            decreases n - i,
        {
            let ghost old_out = out@;
            let mut w = copy_labels(&v);
            let wd = w[d];
            let wi = w[i];
            w.set(d, wi);
            w.set(i, wd);
            proof {
                assert(w@ == v@.update(d as int, v@[i as int]).update(i as int, v@[d as int]));
                lemma_swap_multiset(v@, d as int, i as int);
                assert(w@.to_multiset() == v@.to_multiset());
                assert(w@.subrange(0, d as int) =~= v@.subrange(0, d as int));
                assert(w@[d as int] == v@[i as int]);
                if v@.no_duplicates() {
                    v@.lemma_multiset_has_no_duplicates();
                    w@.lemma_multiset_has_no_duplicates_conv();
                    assert(w@.no_duplicates());
                }
            }
            let ghost ws = w@;
            let mut sub = permutations_from(w, d + 1);
            proof {
                assert forall|t: int| 0 <= t < sub@.len() implies (#[trigger] sub@[t])@.subrange(
                    0,
                    d as int,
                ) == v@.subrange(0, d as int) && sub@[t]@[d as int] == v@[i as int] by {
                    assert(sub@[t]@.subrange(0, (d + 1) as int) == ws.subrange(0, (d + 1) as int));
                    assert(sub@[t]@.subrange(0, d as int) =~= sub@[t]@.subrange(
                        0,
                        (d + 1) as int,
                    ).subrange(0, d as int));
                    assert(v@.subrange(0, d as int) =~= ws.subrange(0, (d + 1) as int).subrange(
                        0,
                        d as int,
                    ));
                    assert(sub@[t]@[d as int] == sub@[t]@.subrange(0, (d + 1) as int)[d as int]);
                    assert(ws.subrange(0, (d + 1) as int)[d as int] == ws[d as int]);
                }
            }
            let ghost sub_dv = sub.deep_view();
            let ghost sub_v = sub@;
            let ghost out_dv = out.deep_view();
            out.append(&mut sub);
            proof {
                assert(out@.len() == old_out.len() + fsub);
                assert(ws == v@.update(d as int, v@[i as int]).update(i as int, v@[d as int]));
                assert(out.deep_view() =~~= perms_upto(v@, d as int, i + 1 as int)) by {
                    assert(perms_upto(v@, d as int, i + 1 as int) == perms_upto(
                        v@,
                        d as int,
                        i as int,
                    ) + perms_from_spec(
                        v@.update(d as int, v@[i as int]).update(i as int, v@[d as int]),
                        d + 1 as int,
                    ));
                    assert(sub_dv == perms_from_spec(ws, d + 1 as int));
                    assert forall|t: int|
                        0 <= t < out@.len() implies out.deep_view()[t] == (perms_upto(
                        v@,
                        d as int,
                        i as int,
                    ) + sub_dv)[t] by {
                        if t < old_out.len() {
                            assert(out@[t] == old_out[t]);
                            assert(out_dv[t] == perms_upto(v@, d as int, i as int)[t]);
                        } else {
                            assert(out@[t] == sub_v[t - old_out.len()]);
                            assert(out.deep_view()[t] == sub_dv[t - old_out.len()]);
                        }
                    }
                }
                assert((i - d + 1) * fsub == (i - d) * fsub + fsub) by (nonlinear_arith);
                if v@.no_duplicates() {
                    assert forall|t1: int, t2: int|
                        0 <= t1 < t2 < out@.len() implies out@[t1]@ != out@[t2]@ by {
                        if t1 < old_out.len() && t2 >= old_out.len() {
                            let j = choose|j: int|
                                d <= j < i && (#[trigger] old_out[t1])@[d as int] == v@[j];
                            assert(out@[t1]@[d as int] == v@[j]);
                            assert(out@[t2]@[d as int] == v@[i as int]);
                            assert(v@[j] != v@[i as int]);
                        }
                    }
                }
            }
            i += 1;
        }
        proof {
            assert(out@.len() == (n - d) * factorial((v@.len() - d - 1) as nat));
            assert(factorial((v@.len() - d) as nat) == (v@.len() - d) * factorial(
                (v@.len() - d - 1) as nat,
            ));
            assert(out.deep_view() == perms_from_spec(v@, d as int));
        }
        out
    }
}

/// Every ordering of `input` whose first `fixed_len(processed_input)`
/// positions stay as given; the mask must mark a leading block of
/// already-fixed slots.
pub fn exhaustive_permutations(input: Vec<usize>, processed_input: Vec<bool>) -> (r: Vec<
    Vec<usize>,
>)
    requires
        processed_input@.len() == input@.len(),
        forall|i: int, j: int|
            0 <= i <= j < processed_input@.len() && processed_input@[j] ==> processed_input@[i],
    ensures
        r@.len() == factorial((input@.len() - fixed_len(processed_input@)) as nat),
        forall|t: int| 0 <= t < r@.len() ==> (#[trigger] r@[t])@.len() == input@.len(),
        forall|t: int|
            0 <= t < r@.len() ==> (#[trigger] r@[t])@.subrange(
                0,
                fixed_len(processed_input@) as int,
            ) == input@.subrange(0, fixed_len(processed_input@) as int),
        forall|t: int|
            0 <= t < r@.len() ==> (#[trigger] r@[t])@.to_multiset() == input@.to_multiset(),
        input@.no_duplicates() ==> forall|t1: int, t2: int|
            0 <= t1 < t2 < r@.len() ==> r@[t1]@ != r@[t2]@,
        r.deep_view() == perms_from_spec(input@, fixed_len(processed_input@) as int),
{
    let n = input.len();
    let mut d: usize = 0;
    while d < n && processed_input[d]
        invariant
            0 <= d <= n,
            n == input@.len() == processed_input@.len(),
            forall|i: int| 0 <= i < d ==> processed_input@[i],
        decreases n - d,
    {
        d += 1;
    }
    proof {
        lemma_fixed_len_char(processed_input@, d as int);
    }
    permutations_from(input, d)
}

/// Every ordering of `input`: exactly `input.len()!` of them, each a
/// rearrangement of the labels, and pairwise distinct when the labels are.
pub fn find_all_permutations(input: Vec<usize>) -> (r: Vec<Vec<usize>>)
    ensures
        r@.len() == factorial(input@.len()),
        forall|t: int| 0 <= t < r@.len() ==> (#[trigger] r@[t])@.len() == input@.len(),
        forall|t: int|
            0 <= t < r@.len() ==> (#[trigger] r@[t])@.to_multiset() == input@.to_multiset(),
        input@.no_duplicates() ==> forall|t1: int, t2: int|
            0 <= t1 < t2 < r@.len() ==> r@[t1]@ != r@[t2]@,
        r.deep_view() == perms_from_spec(input@, 0),
{
    let mut processed_input: Vec<bool> = Vec::new();
    let mut i: usize = 0;
    while i < input.len()
        invariant
            0 <= i <= input@.len(),
            processed_input@.len() == i,
            forall|j: int| 0 <= j < i ==> !processed_input@[j],
        decreases input@.len() - i,
    {
        processed_input.push(false);
        i += 1;
    }
    let r = exhaustive_permutations(input, processed_input);
    r
}

} // verus!
