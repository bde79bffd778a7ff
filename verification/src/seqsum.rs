use vstd::prelude::*;
use vstd::seq_lib::{commutative_foldr, lemma_fold_right_permutation};

verus! {

/// The accumulating step of a weighted sum.
pub open spec fn acc_fn<A>(w: spec_fn(A) -> int) -> spec_fn(A, int) -> int {
    |x: A, acc: int| acc + w(x)
}

/// The sum of the weight `w` over the elements of `s`.
pub open spec fn wsum<A>(s: Seq<A>, w: spec_fn(A) -> int) -> int {
    s.fold_right(acc_fn(w), 0)
}

/// Folding the weighted sum from a base `b` adds `b` to the sum from zero.
proof fn lemma_wsum_base<A>(s: Seq<A>, w: spec_fn(A) -> int, b: int)
    ensures
        s.fold_right(acc_fn(w), b) == wsum(s, w) + b,
    decreases s.len(),
{
    if s.len() > 0 {
        lemma_wsum_base(s.drop_last(), w, b + w(s.last()));
        lemma_wsum_base(s.drop_last(), w, 0 + w(s.last()));
    }
}

/// Appending an element adds its weight to the sum.
pub proof fn lemma_wsum_push<A>(s: Seq<A>, w: spec_fn(A) -> int, e: A)
    ensures
        wsum(s.push(e), w) == wsum(s, w) + w(e),
{
    assert(s.push(e).drop_last() =~= s);
    lemma_wsum_base(s, w, 0 + w(e));
}

/// Extending a prefix by one element adds that element's weight.
pub proof fn lemma_wsum_take_step<A>(s: Seq<A>, w: spec_fn(A) -> int, i: int)
    requires
        0 <= i < s.len(),
    ensures
        wsum(s.take(i + 1), w) == wsum(s.take(i), w) + w(s[i]),
{
    assert(s.take(i + 1) =~= s.take(i).push(s[i]));
    lemma_wsum_push(s.take(i), w, s[i]);
}

/// A sum of non-negative weights is non-negative.
pub proof fn lemma_wsum_nonneg<A>(s: Seq<A>, w: spec_fn(A) -> int)
    requires
        forall|i: int| 0 <= i < s.len() ==> w(s[i]) >= 0,
    ensures
        wsum(s, w) >= 0,
    decreases s.len(),
{
    if s.len() > 0 {
        lemma_wsum_nonneg(s.drop_last(), w);
        lemma_wsum_push(s.drop_last(), w, s.last());
        assert(s.drop_last().push(s.last()) =~= s);
    }
}

/// A sum of all-zero weights is zero.
pub proof fn lemma_wsum_zero<A>(s: Seq<A>, w: spec_fn(A) -> int)
    requires
        forall|i: int| 0 <= i < s.len() ==> w(#[trigger] s[i]) == 0,
    ensures
        wsum(s, w) == 0,
    decreases s.len(),
{
    if s.len() > 0 {
        lemma_wsum_zero(s.drop_last(), w);
        lemma_wsum_push(s.drop_last(), w, s.last());
        assert(s.drop_last().push(s.last()) =~= s);
    }
}

/// With non-negative weights, a prefix sum never exceeds the whole sum.
pub proof fn lemma_wsum_prefix_bound<A>(s: Seq<A>, w: spec_fn(A) -> int, i: int)
    requires
        0 <= i <= s.len(),
        forall|j: int| 0 <= j < s.len() ==> w(s[j]) >= 0,
    ensures
        wsum(s.take(i), w) <= wsum(s, w),
    decreases s.len() - i,
{
    if i == s.len() {
        assert(s.take(i) =~= s);
    } else {
        lemma_wsum_take_step(s, w, i);
        lemma_wsum_prefix_bound(s, w, i + 1);
    }
}

/// A weighted sum distributes over concatenation.
pub proof fn lemma_wsum_concat<A>(a: Seq<A>, b: Seq<A>, w: spec_fn(A) -> int)
    ensures
        wsum(a + b, w) == wsum(a, w) + wsum(b, w),
    decreases b.len(),
{
    if b.len() == 0 {
        assert(a + b =~= a);
    } else {
        lemma_wsum_concat(a, b.drop_last(), w);
        assert(a + b =~= (a + b.drop_last()).push(b.last()));
        lemma_wsum_push(a + b.drop_last(), w, b.last());
        lemma_wsum_push(b.drop_last(), w, b.last());
        assert(b.drop_last().push(b.last()) =~= b);
    }
}

/// Sequences with the same multiset of elements have the same weighted sum.
pub proof fn lemma_wsum_permutation<A>(s1: Seq<A>, s2: Seq<A>, w: spec_fn(A) -> int)
    requires
        s1.to_multiset() == s2.to_multiset(),
    ensures
        wsum(s1, w) == wsum(s2, w),
{
    let f = acc_fn(w);
    assert(commutative_foldr(f)) by {
        assert(forall|x: A, y: A, v: int| #[trigger] f(x, f(y, v)) == f(y, f(x, v)));
    }
    lemma_fold_right_permutation(s1, s2, f, 0);
}

/// Inserting an element anywhere adds its weight to the sum.
pub proof fn lemma_wsum_insert<A>(s: Seq<A>, p: int, v: A, w: spec_fn(A) -> int)
    requires
        0 <= p <= s.len(),
    ensures
        wsum(s.insert(p, v), w) == wsum(s, w) + w(v),
{
    lemma_insert_multiset(s, p, v);
    broadcast use vstd::seq_lib::group_to_multiset_ensures;

    lemma_wsum_permutation(s.insert(p, v), s.push(v), w);
    lemma_wsum_push(s, w, v);
}

/// Removing an element takes its weight out of the sum.
pub proof fn lemma_wsum_remove<A>(s: Seq<A>, i: int, w: spec_fn(A) -> int)
    requires
        0 <= i < s.len(),
    ensures
        wsum(s.remove(i), w) == wsum(s, w) - w(s[i]),
{
    broadcast use vstd::seq_lib::group_to_multiset_ensures;

    assert(s.remove(i).insert(i, s[i]) =~= s);
    lemma_wsum_insert(s.remove(i), i, s[i], w);
}

/// Replacing one element shifts the sum by the difference of the weights.
pub proof fn lemma_wsum_update<A>(s: Seq<A>, i: int, v: A, w: spec_fn(A) -> int)
    requires
        0 <= i < s.len(),
    ensures
        wsum(s.update(i, v), w) == wsum(s, w) - w(s[i]) + w(v),
{
    assert(s.remove(i).insert(i, v) =~= s.update(i, v));
    lemma_wsum_remove(s, i, w);
    lemma_wsum_insert(s.remove(i), i, v, w);
}

/// Sums agree when the weights agree position by position.
pub proof fn lemma_wsum_pointwise<A, B>(
    s1: Seq<A>,
    s2: Seq<B>,
    w1: spec_fn(A) -> int,
    w2: spec_fn(B) -> int,
)
    requires
        s1.len() == s2.len(),
        forall|i: int| 0 <= i < s1.len() ==> w1(#[trigger] s1[i]) == w2(#[trigger] s2[i]),
    ensures
        wsum(s1, w1) == wsum(s2, w2),
    decreases s1.len(),
{
    if s1.len() > 0 {
        lemma_wsum_pointwise(s1.drop_last(), s2.drop_last(), w1, w2);
        lemma_wsum_push(s1.drop_last(), w1, s1.last());
        lemma_wsum_push(s2.drop_last(), w2, s2.last());
        assert(s1.drop_last().push(s1.last()) =~= s1);
        assert(s2.drop_last().push(s2.last()) =~= s2);
    }
}

/// Inserting an element anywhere adds one occurrence of it to the multiset.
pub proof fn lemma_insert_multiset<A>(s: Seq<A>, p: int, v: A)
    requires
        0 <= p <= s.len(),
    ensures
        s.insert(p, v).to_multiset() == s.to_multiset().insert(v),
{
    broadcast use vstd::seq_lib::group_to_multiset_ensures;

    let s2 = s.insert(p, v);
    assert(s2.remove(p) =~= s);
    assert(s2[p] == v);
    assert(s.to_multiset() == s2.to_multiset().remove(v));
    assert(s2.contains(v));
    assert(s2.to_multiset().count(v) > 0);
    assert forall|x: A| s2.to_multiset().count(x) == s.to_multiset().insert(v).count(x) by {
        if x == v {
            assert(s.to_multiset().count(v) == s2.to_multiset().count(v) - 1);
        } else {
            assert(s.to_multiset().count(x) == s2.to_multiset().count(x));
        }
    }
    assert(s2.to_multiset() =~= s.to_multiset().insert(v));
}

} // verus!
