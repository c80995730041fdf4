//! Sorting of sampled lengths.

use vstd::prelude::*;
use vstd::relations::sorted_by;
use vstd::relations::total_ordering;
use vstd::seq_lib::lemma_multiset_commutative;
use vstd::seq_lib::lemma_sorted_unique;
use vstd::seq_lib::to_multiset_build;

verus! {

/// The order in which samples are sorted.
pub open spec fn at_most() -> spec_fn(i64, i64) -> bool {
    |a: i64, b: i64| a <= b
}

/// The values in ascending order.
pub open spec fn ascending(s: Seq<i64>) -> Seq<i64> {
    s.sort_by(at_most())
}

/// The order of the samples is a total order.
pub proof fn lemma_at_most_is_total()
    ensures
        total_ordering(at_most()),
{
}

/// A sequence in ascending order with the values of `s`, each as often as in
/// `s`, is `ascending(s)`.
pub proof fn lemma_ascending_is_unique(s: Seq<i64>, sorted: Seq<i64>)
    requires
        sorted_by(sorted, at_most()),
        sorted.to_multiset() == s.to_multiset(),
    ensures
        sorted == ascending(s),
{
    lemma_at_most_is_total();
    s.lemma_sort_by_ensures(at_most());
    lemma_sorted_unique(sorted, s.sort_by(at_most()), at_most());
}

/// The values `v[from..to]` in a vector of their own.
fn copy_part(v: &Vec<i64>, from: usize, to: usize) -> (out: Vec<i64>)
    requires
        from <= to <= v@.len(),
    ensures
        out@ == v@.subrange(from as int, to as int),
{
    let mut out: Vec<i64> = Vec::new();
    let mut i: usize = from;
    while i < to
        invariant
            from <= i <= to <= v@.len(),
            out@ == v@.subrange(from as int, i as int),
        decreases to - i,
    {
        out.push(v[i]);
        assert(out@ =~= v@.subrange(from as int, i + 1));
        i = i + 1;
    }
    out
}

/// Two ascending runs in one.
fn merge(a: &Vec<i64>, b: &Vec<i64>) -> (out: Vec<i64>)
    requires
        sorted_by(a@, at_most()),
        sorted_by(b@, at_most()),
    ensures
        sorted_by(out@, at_most()),
        out@.to_multiset() == a@.to_multiset().add(b@.to_multiset()),
{
    let mut out: Vec<i64> = Vec::new();
    let mut i: usize = 0;
    let mut j: usize = 0;
    proof {
        assert(a@.take(0) =~= Seq::<i64>::empty());
        assert(b@.take(0) =~= Seq::<i64>::empty());
        lemma_multiset_commutative(a@.take(0), b@.take(0));
        assert(a@.take(0) + b@.take(0) =~= out@);
    }
    while i < a.len() || j < b.len()
        invariant
            i <= a@.len(),
            j <= b@.len(),
            sorted_by(a@, at_most()),
            sorted_by(b@, at_most()),
            sorted_by(out@, at_most()),
            out@.to_multiset() == a@.take(i as int).to_multiset().add(
                b@.take(j as int).to_multiset(),
            ),
            forall|k: int| 0 <= k < out@.len() && i < a@.len() ==> #[trigger] out@[k] <= a@[i as int],
            forall|k: int| 0 <= k < out@.len() && j < b@.len() ==> #[trigger] out@[k] <= b@[j as int],
        decreases (a@.len() - i) + (b@.len() - j),
    {
        let ghost before = out@;
        let take_a = if i >= a.len() {
            false
        } else if j >= b.len() {
            true
        } else {
            a[i] <= b[j]
        };
        if take_a {
            let x = a[i];
            out.push(x);
            proof {
                to_multiset_build(before, x);
                to_multiset_build(a@.take(i as int), x);
                assert(a@.take(i + 1) =~= a@.take(i as int).push(x));
                assert(out@.to_multiset() =~= a@.take(i + 1).to_multiset().add(
                    b@.take(j as int).to_multiset(),
                ));
                assert forall|p: int, q: int| 0 <= p < q < out@.len() implies at_most()(
                    out@[p],
                    out@[q],
                ) by {
                    if q < before.len() {
                        assert(at_most()(before[p], before[q]));
                    }
                }
                assert forall|k: int| 0 <= k < out@.len() && i + 1 < a@.len() implies #[trigger] out@[k]
                    <= a@[i + 1] by {
                    assert(at_most()(a@[i as int], a@[i + 1]));
                }
            }
            i = i + 1;
        } else {
            let x = b[j];
            out.push(x);
            proof {
                to_multiset_build(before, x);
                to_multiset_build(b@.take(j as int), x);
                assert(b@.take(j + 1) =~= b@.take(j as int).push(x));
                assert(out@.to_multiset() =~= a@.take(i as int).to_multiset().add(
                    b@.take(j + 1).to_multiset(),
                ));
                assert forall|p: int, q: int| 0 <= p < q < out@.len() implies at_most()(
                    out@[p],
                    out@[q],
                ) by {
                    if q < before.len() {
                        assert(at_most()(before[p], before[q]));
                    }
                }
                assert forall|k: int| 0 <= k < out@.len() && j + 1 < b@.len() implies #[trigger] out@[k]
                    <= b@[j + 1] by {
                    assert(at_most()(b@[j as int], b@[j + 1]));
                }
            }
            j = j + 1;
        }
    }
    proof {
        assert(a@.take(a@.len() as int) =~= a@);
        assert(b@.take(b@.len() as int) =~= b@);
    }
    out
}

/// The values in ascending order: the same values, each as often as before.
pub fn sort_ascending(v: &Vec<i64>) -> (out: Vec<i64>)
    ensures
        out@ == ascending(v@),
        sorted_by(out@, at_most()),
        out@.to_multiset() == v@.to_multiset(),
        out@.len() == v@.len(),
    decreases v@.len(),
{
    let n = v.len();
    if n <= 1 {
        let out = copy_part(v, 0, n);
        proof {
            assert(out@ =~= v@);
            lemma_ascending_is_unique(v@, out@);
        }
        return out;
    }
    let middle = n / 2;
    let left = copy_part(v, 0, middle);
    let right = copy_part(v, middle, n);
    let left_sorted = sort_ascending(&left);
    let right_sorted = sort_ascending(&right);
    let out = merge(&left_sorted, &right_sorted);
    proof {
        assert(v@ =~= left@ + right@);
        lemma_multiset_commutative(left@, right@);
        lemma_ascending_is_unique(v@, out@);
        vstd::seq_lib::to_multiset_len(out@);
        vstd::seq_lib::to_multiset_len(v@);
    }
    out
}

} // verus!
