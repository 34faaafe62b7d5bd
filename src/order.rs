//! Order statistics: the sample sorted ascending.
use vstd::prelude::*;
use vstd::relations::{sorted_by, total_ordering};

verus! {

broadcast use vstd::multiset::group_multiset_axioms;

/// The ascending order on sample values.
pub open spec fn ascending() -> spec_fn(i32, i32) -> bool {
    |a: i32, b: i32| a <= b
}

/// The order statistics of a sample: its values sorted ascending.
pub open spec fn order_stats(v: Seq<i32>) -> Seq<i32> {
    v.sort_by(ascending())
}

pub proof fn lemma_ascending_total()
    ensures
        total_ordering(ascending()),
{
}

/// The order statistics are sorted and hold the same values as the sample.
pub proof fn lemma_order_stats(v: Seq<i32>)
    ensures
        sorted_by(order_stats(v), ascending()),
        order_stats(v).to_multiset() == v.to_multiset(),
        order_stats(v).len() == v.len(),
        forall|i: int| 0 <= i < v.len() ==> order_stats(v)[0] <= #[trigger] v[i],
        forall|i: int| 0 <= i < v.len() ==> #[trigger] v[i] <= order_stats(v)[v.len() - 1],
        v.len() > 0 ==> v.contains(order_stats(v)[0]),
        v.len() > 0 ==> v.contains(order_stats(v)[v.len() - 1]),
{
    lemma_ascending_total();
    v.lemma_sort_by_ensures(ascending());
    let s = order_stats(v);
    v.to_multiset_ensures();
    s.to_multiset_ensures();
    assert forall|i: int| 0 <= i < v.len() implies s[0] <= #[trigger] v[i]
        && v[i] <= s[v.len() - 1] by {
        assert(v.to_multiset().count(v[i]) > 0);
        assert(s.contains(v[i]));
        let k = choose|k: int| 0 <= k < s.len() && s[k] == v[i];
        if k > 0 {
            assert(ascending()(s[0], s[k]));
        }
        if k < s.len() - 1 {
            assert(ascending()(s[k], s[s.len() - 1]));
        }
    }
    if v.len() > 0 {
        assert(s.to_multiset().count(s[0]) > 0);
        assert(s.to_multiset().count(s[v.len() - 1]) > 0);
    }
}

proof fn lemma_swap_multiset(s: Seq<i32>, j: int)
    requires
        0 < j < s.len(),
    ensures
        s.update(j - 1, s[j]).update(j, s[j - 1]).to_multiset() == s.to_multiset(),
{
    let t = s.update(j - 1, s[j]);
    vstd::seq_lib::to_multiset_update(s, j - 1, s[j]);
    vstd::seq_lib::to_multiset_update(t, j, s[j - 1]);
    assert(t[j] == s[j]);
    s.to_multiset_ensures();
    assert(s.to_multiset().count(s[j - 1]) > 0);
    assert(s.to_multiset().count(s[j]) > 0);
    assert(t.update(j, s[j - 1]).to_multiset() =~= s.to_multiset());
}

/// Returns the order statistics of `v`, by insertion sort of a copy.
pub fn sorted_copy(v: &[i32]) -> (r: Vec<i32>)
    ensures
        r@ == order_stats(v@),
{
    let mut r: Vec<i32> = Vec::new();
    let mut i: usize = 0;
    while i < v.len()
        invariant
            i <= v@.len(),
            r@ == v@.subrange(0, i as int),
        decreases v.len() - i,
    {
        r.push(v[i]);
        i = i + 1;
    }
    assert(r@ =~= v@);
    let n = r.len();
    let mut i: usize = 1;
    while i < n
        invariant
            n == r@.len(),
            1 <= i,
            n > 0 ==> i <= n,
            r@.to_multiset() == v@.to_multiset(),
            forall|a: int, b: int| 0 <= a < b < i && b < n ==> r@[a] <= r@[b],
        decreases n - i,
    {
        let mut j: usize = i;
        while j > 0 && r[j - 1] > r[j]
            invariant
                n == r@.len(),
                j <= i < n,
                r@.to_multiset() == v@.to_multiset(),
                forall|a: int, b: int|
                    0 <= a < b <= i && a != j && b != j ==> r@[a] <= r@[b],
                forall|b: int| j < b <= i ==> r@[j as int] <= r@[b],
            decreases j,
        {
            proof {
                lemma_swap_multiset(r@, j as int);
            }
            let lo = r[j - 1];
            let hi = r[j];
            r.set(j - 1, hi);
            r.set(j, lo);
            j = j - 1;
        }
        i = i + 1;
    }
    proof {
        lemma_ascending_total();
        v@.lemma_sort_by_ensures(ascending());
        assert(sorted_by(r@, ascending()));
        vstd::seq_lib::lemma_sorted_unique(r@, order_stats(v@), ascending());
    }
    r
}

} // verus!
