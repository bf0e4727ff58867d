//! Stable sorting by an integer key.
use crate::number::Real32;
use vstd::prelude::*;
use vstd::set_lib::{lemma_int_range, lemma_subset_equality, set_int_range};

verus! {

/// Item `a` comes before item `b`: its key is greater, or the keys are equal
/// and it stands in front already.
pub open spec fn before(keys: Seq<i64>, a: int, b: int) -> bool {
    keys[a] > keys[b] || (keys[a] == keys[b] && a < b)
}

/// `p` lists distinct items among the first `n`, each before all later ones.
spec fn orders_first(keys: Seq<i64>, p: Seq<int>, n: int) -> bool {
    &&& forall|i: int| 0 <= i < p.len() ==> 0 <= #[trigger] p[i] < n
    &&& forall|i: int, j: int|
        #![trigger p[i], p[j]]
        0 <= i < j < p.len() ==> before(keys, p[i], p[j])
}

/// `p` lists all items, from the greatest key to the least; items with equal
/// keys keep their order.
pub open spec fn is_descending_order(keys: Seq<i64>, p: Seq<int>) -> bool {
    &&& p.len() == keys.len()
    &&& forall|i: int| 0 <= i < p.len() ==> 0 <= #[trigger] p[i] < keys.len()
    &&& forall|i: int, j: int|
        #![trigger p[i], p[j]]
        0 <= i < j < p.len() ==> before(keys, p[i], p[j])
}

/// The list that [`is_descending_order`] describes; there is exactly one.
pub open spec fn descending_order(keys: Seq<i64>) -> Seq<int> {
    choose|p: Seq<int>| is_descending_order(keys, p)
}

/// The items that `p` lists.
pub open spec fn gather<T>(items: Seq<T>, p: Seq<int>) -> Seq<T> {
    p.map_values(|i: int| items[i])
}

/// A descending order lists every item exactly once.
pub proof fn law_order_lists_every_item_once(keys: Seq<i64>, p: Seq<int>)
    requires
        is_descending_order(keys, p),
    ensures
        p.no_duplicates(),
        forall|a: int| 0 <= a < keys.len() ==> #[trigger] p.contains(a),
{
    p.unique_seq_to_set();
    let n = keys.len() as int;
    lemma_int_range(0, n);
    assert(p.to_set().subset_of(set_int_range(0, n)));
    lemma_subset_equality(p.to_set(), set_int_range(0, n));
    assert forall|a: int| 0 <= a < n implies #[trigger] p.contains(a) by {
        assert(set_int_range(0, n).contains(a));
        assert(p.to_set().contains(a));
    }
}

/// Two descending orders of the same keys are the same.
pub proof fn law_order_is_unique(keys: Seq<i64>, p: Seq<int>, q: Seq<int>)
    requires
        is_descending_order(keys, p),
        is_descending_order(keys, q),
    ensures
        p == q,
{
    lemma_orders_agree(keys, p, q, keys.len() as int);
    assert(p =~= q);
}

proof fn lemma_orders_agree(keys: Seq<i64>, p: Seq<int>, q: Seq<int>, n: int)
    requires
        is_descending_order(keys, p),
        is_descending_order(keys, q),
        0 <= n <= keys.len(),
    ensures
        forall|i: int| 0 <= i < n ==> p[i] == q[i],
    decreases n,
{
    if n > 0 {
        let k = n - 1;
        lemma_orders_agree(keys, p, q, k);
        law_order_lists_every_item_once(keys, p);
        law_order_lists_every_item_once(keys, q);
        if p[k] != q[k] {
            assert(q.contains(p[k]));
            let j = choose|j: int| 0 <= j < q.len() && q[j] == p[k];
            assert(p.contains(q[k]));
            let i = choose|i: int| 0 <= i < p.len() && p[i] == q[k];
            assert(j > k) by {
                if j < k {
                    assert(p[j] == q[j]);
                }
            }
            assert(i > k) by {
                if i < k {
                    assert(p[i] == q[i]);
                }
            }
            assert(before(keys, q[k], q[j]));
            assert(before(keys, p[k], p[i]));
        }
    }
}

/// The number of leading entries of `p` whose keys are at least `key`, given
/// that all entries from `j` on have lesser ones.
proof fn lemma_insertion_point(keys: Seq<i64>, p: Seq<int>, key: i64, j: int) -> (r: int)
    requires
        0 <= j <= p.len(),
        forall|i: int, k: int| #![trigger p[i], p[k]] 0 <= i < k < p.len() ==> keys[p[i]] >= keys[p[k]],
        forall|k: int| j <= k < p.len() ==> keys[#[trigger] p[k]] < key,
    ensures
        0 <= r <= p.len(),
        forall|k: int| 0 <= k < r ==> keys[#[trigger] p[k]] >= key,
        forall|k: int| r <= k < p.len() ==> keys[#[trigger] p[k]] < key,
    decreases j,
{
    if j > 0 && keys[p[j - 1]] < key {
        lemma_insertion_point(keys, p, key, j - 1)
    } else {
        j
    }
}

proof fn lemma_order_of_first(keys: Seq<i64>, n: int) -> (p: Seq<int>)
    requires
        0 <= n <= keys.len(),
    ensures
        p.len() == n,
        orders_first(keys, p, n),
    decreases n,
{
    if n == 0 {
        seq![]
    } else {
        let q = lemma_order_of_first(keys, n - 1);
        let j = lemma_insertion_point(keys, q, keys[n - 1], q.len() as int);
        q.insert(j, n - 1)
    }
}

/// Every list of keys has its descending order.
pub proof fn law_order_exists(keys: Seq<i64>)
    ensures
        is_descending_order(keys, descending_order(keys)),
{
    let p = lemma_order_of_first(keys, keys.len() as int);
    assert(is_descending_order(keys, p));
}

/// The key of a value: greater values have greater keys, the two zeros have
/// the same one, and what is not a number has the least.
#[verifier::allow_in_spec]
pub fn rank(x: Real32) -> i64
    returns
        (if x.is_nan() {
            (-0x8000_0000) as i64
        } else {
            x.key() as i64
        }),
{
    if x.is_nan() {
        -0x8000_0000
    } else if x.bits >= 0x8000_0000 {
        -((x.bits - 0x8000_0000) as i64)
    } else {
        x.bits as i64
    }
}

/// The ranks put the numbers in their order, and put what is not a number
/// below all of them.
pub proof fn law_rank_follows_lt(a: Real32, b: Real32)
    ensures
        !a.is_nan() && !b.is_nan() ==> (a.lt(b) <==> rank(a) < rank(b)),
        a.is_nan() && !b.is_nan() ==> rank(a) < rank(b),
{
}

pub open spec fn as_ints(p: Seq<usize>) -> Seq<int> {
    p.map_values(|i: usize| i as int)
}

/// Lists the items from the greatest key to the least, in the given order
/// where keys are equal.
pub fn sort_descending(keys: &Vec<i64>) -> (p: Vec<usize>)
    ensures
        as_ints(p@) == descending_order(keys@),
        is_descending_order(keys@, as_ints(p@)),
{
    let n: usize = keys.len();
    let mut p: Vec<usize> = Vec::new();
    for i in 0..n
        invariant
            n == keys.len(),
            p.len() == i,
            orders_first(keys@, as_ints(p@), i as int),
    {
        let mut j: usize = i;
        let ghost q = as_ints(p@);
        assert forall|k: int| 0 <= k < p.len() implies #[trigger] p[k] < i by {
            assert(q[k] == p[k]);
        }
        while j > 0 && keys[p[j - 1]] < keys[i]
            invariant
                i < n == keys.len(),
                0 <= j <= i == p.len(),
                q == as_ints(p@),
                forall|k: int| 0 <= k < p.len() ==> #[trigger] p[k] < i,
                orders_first(keys@, q, i as int),
                forall|k: int| j <= k < i ==> keys[#[trigger] q[k]] < keys[i as int],
            decreases j,
        {
            j = j - 1;
            assert(q[j as int] == p[j as int]);
        }
        proof {
            assert forall|k: int| 0 <= k < j implies keys[#[trigger] q[k]] >= keys[i as int] by {
                assert(q[j - 1] == p[j - 1]);
                if k < j - 1 {
                    assert(before(keys@, q[k], q[j - 1]));
                }
            }
        }
        p.insert(j, i);
        assert(as_ints(p@) =~= q.insert(j as int, i as int));
    }
    proof {
        law_order_is_unique(keys@, as_ints(p@), descending_order(keys@));
    }
    p
}

} // verus!
