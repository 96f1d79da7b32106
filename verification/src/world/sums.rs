use vstd::prelude::*;

verus! {

/// The sum of a sequence of integers.
pub open spec fn sum_int(s: Seq<int>) -> int
    decreases s.len(),
{
    if s.len() == 0 {
        0
    } else {
        sum_int(s.drop_last()) + s.last()
    }
}

/// Changing one element changes the sum by the difference.
pub proof fn lemma_sum_update(s: Seq<int>, i: int, v: int)
    requires
        0 <= i < s.len(),
    ensures
        sum_int(s.update(i, v)) == sum_int(s) - s[i] + v,
    decreases s.len(),
{
    if i == s.len() - 1 {
        assert(s.update(i, v).drop_last() =~= s.drop_last());
    } else {
        lemma_sum_update(s.drop_last(), i, v);
        assert(s.update(i, v).drop_last() =~= s.drop_last().update(i, v));
    }
}

/// A sum of numbers that are not negative is not negative.
pub proof fn lemma_sum_nonneg(s: Seq<int>)
    requires
        forall|i: int| 0 <= i < s.len() ==> s[i] >= 0,
    ensures
        sum_int(s) >= 0,
    decreases s.len(),
{
    if s.len() > 0 {
        lemma_sum_nonneg(s.drop_last());
    }
}


/// The sum of `n` copies of `c`.
pub proof fn lemma_sum_constant(n: nat, c: int)
    ensures
        sum_int(Seq::new(n, |_i: int| c)) == n * c,
    decreases n,
{
    let s = Seq::new(n, |_i: int| c);
    if n > 0 {
        lemma_sum_constant((n - 1) as nat, c);
        assert(s.drop_last() =~= Seq::new((n - 1) as nat, |_i: int| c));
        assert(s.last() == c);
        assert(sum_int(s) == sum_int(s.drop_last()) + s.last());
        assert(n * c == (n - 1) * c + c) by (nonlinear_arith);
    } else {
        assert(n * c == 0) by (nonlinear_arith)
            requires
                n == 0,
        ;
    }
}

} // verus!

verus! {

/// A sum of pointwise smaller numbers is smaller.
pub proof fn lemma_sum_le(s1: Seq<int>, s2: Seq<int>)
    requires
        s1.len() == s2.len(),
        forall|i: int| 0 <= i < s1.len() ==> s1[i] <= s2[i],
    ensures
        sum_int(s1) <= sum_int(s2),
    decreases s1.len(),
{
    if s1.len() > 0 {
        lemma_sum_le(s1.drop_last(), s2.drop_last());
    }
}

} // verus!

verus! {

/// How many items of `s` satisfy `f`.
pub open spec fn count_where(s: Seq<usize>, f: spec_fn(usize) -> bool) -> nat
    decreases s.len(),
{
    if s.len() == 0 {
        0
    } else {
        count_where(s.drop_last(), f) + if f(s.last()) {
            1nat
        } else {
            0nat
        }
    }
}

/// Predicates that agree on the items of `s` count them alike.
pub proof fn lemma_count_where_same(s: Seq<usize>, f: spec_fn(usize) -> bool, g: spec_fn(usize) -> bool)
    requires
        forall|i: int| 0 <= i < s.len() ==> f(#[trigger] s[i]) == g(s[i]),
    ensures
        count_where(s, f) == count_where(s, g),
    decreases s.len(),
{
    if s.len() > 0 {
        lemma_count_where_same(s.drop_last(), f, g);
        assert(f(s[s.len() - 1]) == g(s[s.len() - 1]));
    }
}

/// When every item satisfies `f`, all of them are counted.
pub proof fn lemma_count_where_all(s: Seq<usize>, f: spec_fn(usize) -> bool)
    requires
        forall|i: int| 0 <= i < s.len() ==> f(#[trigger] s[i]),
    ensures
        count_where(s, f) == s.len(),
    decreases s.len(),
{
    if s.len() > 0 {
        lemma_count_where_all(s.drop_last(), f);
        assert(f(s[s.len() - 1]));
    }
}

/// Two predicates that agree on every item but `e`, held once, which only
/// the first satisfies, count one apart.
pub proof fn lemma_count_where_one_less(
    s: Seq<usize>,
    f: spec_fn(usize) -> bool,
    g: spec_fn(usize) -> bool,
    e: usize,
)
    requires
        s.no_duplicates(),
        s.contains(e),
        f(e),
        !g(e),
        forall|i: int| 0 <= i < s.len() && #[trigger] s[i] != e ==> f(s[i]) == g(s[i]),
    ensures
        count_where(s, f) == count_where(s, g) + 1,
    decreases s.len(),
{
    let t = s.drop_last();
    if s.last() == e {
        assert forall|i: int| 0 <= i < t.len() implies f(#[trigger] t[i]) == g(t[i]) by {
            assert(t[i] == s[i]);
            assert(s[i] != e);
        }
        lemma_count_where_same(t, f, g);
    } else {
        let k = choose|k: int| 0 <= k < s.len() && s[k] == e;
        assert(t[k] == e);
        assert(f(s[s.len() - 1]) == g(s[s.len() - 1]));
        lemma_count_where_one_less(t, f, g, e);
    }
}

/// A positive count has an item that satisfies the predicate.
pub proof fn lemma_count_where_witness(s: Seq<usize>, f: spec_fn(usize) -> bool)
    requires
        count_where(s, f) > 0,
    ensures
        exists|i: int| 0 <= i < s.len() && f(#[trigger] s[i]),
    decreases s.len(),
{
    if f(s.last()) {
        assert(f(s[s.len() - 1]));
    } else {
        lemma_count_where_witness(s.drop_last(), f);
        let i = choose|i: int| 0 <= i < s.len() - 1 && f(#[trigger] s.drop_last()[i]);
        assert(s[i] == s.drop_last()[i]);
    }
}

} // verus!
