//! Reordering a vector by a permutation.
//!
//! Forward reordering by `order` puts item `order[i]` at place `i`; backward
//! reordering puts item `i` at place `order[i]`.
use vstd::prelude::*;

verus! {

/// Whether `order` holds each of `0..n` once.
pub open spec fn is_order(order: Seq<usize>, n: nat) -> bool {
    &&& order.len() == n
    &&& forall|i: int| 0 <= i < n ==> #[trigger] order[i] < n
    &&& forall|i: int, j: int| 0 <= i < n && 0 <= j < n && i != j ==> #[trigger] order[i] != #[trigger] order[j]
}

/// Number of places `i < n` with `order[i] != i`.
pub open spec fn misplaced(order: Seq<usize>, n: int) -> nat
    decreases n,
{
    if n <= 0 {
        0
    } else {
        misplaced(order, n - 1) + if order[n - 1] != n - 1 { 1nat } else { 0nat }
    }
}

proof fn lemma_misplaced_update(order: Seq<usize>, n: int, a: int, x: usize)
    requires
        0 <= a < n <= order.len(),
    ensures
        misplaced(order.update(a, x), n) + (if order[a] != a { 1nat } else { 0nat }) == misplaced(order, n)
            + (if x != a { 1nat } else { 0nat }),
    decreases n,
{
    if a < n - 1 {
        lemma_misplaced_update(order, n - 1, a, x);
    } else {
        assert(misplaced(order.update(a, x), n - 1) == misplaced(order, n - 1)) by {
            lemma_misplaced_same(order, order.update(a, x), n - 1);
        }
    }
}

proof fn lemma_misplaced_same(s: Seq<usize>, t: Seq<usize>, n: int)
    requires
        n <= s.len(),
        n <= t.len(),
        forall|i: int| 0 <= i < n ==> s[i] == t[i],
    ensures
        misplaced(s, n) == misplaced(t, n),
    decreases n,
{
    if n > 0 {
        lemma_misplaced_same(s, t, n - 1);
    }
}

/// The items of `vec` in the order `order`: item `order[i]` at place `i`.
pub fn reorder_forward<'a, T>(vec: &'a [T], order: &[usize]) -> (r: Vec<&'a T>)
    requires
        forall|i: int| 0 <= i < order@.len() ==> #[trigger] order@[i] < vec@.len(),
    ensures
        r@.len() == order@.len(),
        forall|i: int| 0 <= i < order@.len() ==> *#[trigger] r@[i] == vec@[order@[i] as int],
{
    let mut r: Vec<&'a T> = Vec::new();
    let mut i: usize = 0;
    while i < order.len()
        invariant
            i <= order@.len(),
            r@.len() == i,
            forall|i: int| 0 <= i < order@.len() ==> #[trigger] order@[i] < vec@.len(),
            forall|j: int| 0 <= j < i ==> *#[trigger] r@[j] == vec@[order@[j] as int],
        decreases order@.len() - i,
    {
        r.push(&vec[order[i]]);
        i = i + 1;
    }
    r
}

/// The items of `vec` with item `i` at place `order[i]`.
pub fn reorder_backward<'a, T>(vec: &'a [T], order: &[usize]) -> (r: Vec<&'a T>)
    requires
        is_order(order@, vec@.len()),
    ensures
        r@.len() == vec@.len(),
        forall|i: int| 0 <= i < vec@.len() ==> *#[trigger] r@[order@[i] as int] == vec@[i],
{
    let n = vec.len();
    let mut inverse: Vec<usize> = Vec::new();
    let mut z: usize = 0;
    while z < n
        invariant
            z <= n,
            inverse@.len() == z,
        decreases n - z,
    {
        inverse.push(0);
        z = z + 1;
    }
    let mut i: usize = 0;
    while i < n
        invariant
            n == vec@.len(),
            is_order(order@, n as nat),
            inverse@.len() == n,
            i <= n,
            forall|j: int| 0 <= j < i ==> #[trigger] inverse@[order@[j] as int] == j,
        decreases n - i,
    {
        inverse.set(order[i], i);
        i = i + 1;
        assert forall|j: int| 0 <= j < i implies #[trigger] inverse@[order@[j] as int] == j by {
            if j < i - 1 {
                assert(order@[j] != order@[i - 1]);
            }
        }
    }
    proof {
        lemma_order_onto(order@, n as nat);
    }
    let mut r: Vec<&'a T> = Vec::new();
    let mut k: usize = 0;
    while k < n
        invariant
            n == vec@.len(),
            is_order(order@, n as nat),
            inverse@.len() == n,
            forall|j: int| 0 <= j < n ==> #[trigger] inverse@[order@[j] as int] == j,
            forall|p: int| 0 <= p < n ==> #[trigger] is_target(order@, n as nat, p),
            k <= n,
            r@.len() == k,
            forall|p: int| 0 <= p < k ==> *#[trigger] r@[p] == vec@[inverse@[p] as int] && inverse@[p] < n,
        decreases n - k,
    {
        proof {
            assert(is_target(order@, n as nat, k as int));
            let j = choose|j: int| 0 <= j < n && #[trigger] order@[j] == k;
            assert(inverse@[k as int] == j);
        }
        r.push(&vec[inverse[k]]);
        k = k + 1;
    }
    r
}

/// Whether some item among the first `n` goes to place `p`.
pub open spec fn is_target(order: Seq<usize>, n: nat, p: int) -> bool {
    exists|j: int| 0 <= j < n && #[trigger] order[j] == p
}

/// Every place is the target of some item.
proof fn lemma_order_onto(order: Seq<usize>, n: nat)
    requires
        is_order(order, n),
    ensures
        forall|p: int| 0 <= p < n ==> #[trigger] is_target(order, n, p),
{
    let oi = order.map_values(|x: usize| x as int);
    assert(oi.no_duplicates()) by {
        assert forall|a: int, b: int| 0 <= a < oi.len() && 0 <= b < oi.len() && a != b implies oi[a] != oi[b] by {
            assert(order[a] != order[b]);
        }
    }
    oi.unique_seq_to_set();
    vstd::seq_lib::seq_to_set_is_finite(oi);
    vstd::set_lib::lemma_int_range(0, n as int);
    assert(oi.to_set().subset_of(vstd::set_lib::set_int_range(0, n as int))) by {
        assert forall|x: int| oi.to_set().contains(x) implies vstd::set_lib::set_int_range(0, n as int).contains(x) by {
            let p = choose|p: int| 0 <= p < oi.len() && oi[p] == x;
            assert(oi[p] == order[p] as int);
        }
    }
    vstd::set_lib::lemma_subset_equality(oi.to_set(), vstd::set_lib::set_int_range(0, n as int));
    assert forall|p: int| 0 <= p < n implies #[trigger] is_target(order, n, p) by {
        assert(vstd::set_lib::set_int_range(0, n as int).contains(p));
        assert(oi.to_set().contains(p));
        let j = choose|j: int| 0 <= j < oi.len() && oi[j] == p;
        assert(order[j] == p);
    }
}

/// Puts item `i` of `vec` at place `order[i]`, in place; `order` ends as `0..n`.
pub fn reorder_backward_inplace<T: Copy>(vec: &mut Vec<T>, order: &mut Vec<usize>)
    requires
        is_order(old(order)@, old(vec)@.len()),
    ensures
        final(vec)@.len() == old(vec)@.len(),
        forall|i: int| 0 <= i < old(vec)@.len() ==> #[trigger] final(vec)@[old(order)@[i] as int] == old(vec)@[i],
        forall|i: int| 0 <= i < old(vec)@.len() ==> #[trigger] final(order)@[i] == i,
{
    let n = vec.len();
    let ghost target = Seq::new(n as nat, |p: int| old(vec)@[choose|j: int| 0 <= j < n && old(order)@[j] == p]);
    proof {
        lemma_order_onto(old(order)@, n as nat);
        assert forall|j: int| 0 <= j < n implies #[trigger] target[old(order)@[j] as int] == old(vec)@[j] by {
            let p = old(order)@[j] as int;
            assert(is_target(old(order)@, n as nat, p));
            let c = choose|c: int| 0 <= c < n && old(order)@[c] == p;
            assert(c == j);
        }
    }
    let mut i: usize = 0;
    while i < n
        invariant
            n == old(vec)@.len(),
            vec@.len() == n,
            is_order(order@, n as nat),
            forall|j: int| 0 <= j < n ==> #[trigger] target[order@[j] as int] == vec@[j],
            i <= n,
            forall|j: int| 0 <= j < i ==> #[trigger] order@[j] == j,
            target.len() == n,
            forall|j: int| 0 <= j < n ==> #[trigger] target[old(order)@[j] as int] == old(vec)@[j],
        decreases n - i,
    {
        let mut v = order[i];
        while i != v
            invariant
                n == old(vec)@.len(),
                vec@.len() == n,
                is_order(order@, n as nat),
                forall|j: int| 0 <= j < n ==> #[trigger] target[order@[j] as int] == vec@[j],
                i < n,
                v == order@[i as int],
                forall|j: int| 0 <= j < i ==> #[trigger] order@[j] == j,
                target.len() == n,
                forall|j: int| 0 <= j < n ==> #[trigger] target[old(order)@[j] as int] == old(vec)@[j],
            decreases misplaced(order@, n as int),
        {
            proof {
                if v < i {
                    assert(order@[v as int] == v);
                }
                assert(order@[v as int] != v);
            }
            let ghost before = order@;
            let item = vec[i];
            vec.set(i, vec[v]);
            vec.set(v, item);
            let ov = order[v];
            order.set(v, v);
            order.set(i, ov);
            proof {
                lemma_misplaced_update(before, n as int, v as int, v);
                lemma_misplaced_update(before.update(v as int, v), n as int, i as int, ov);
                assert forall|a: int, b: int| 0 <= a < n && 0 <= b < n && a != b implies #[trigger] order@[a]
                    != #[trigger] order@[b] by {
                    assert(before[i as int] != before[v as int]);
                    if a != i && a != v && b != i && b != v {
                        assert(before[a] != before[b]);
                    } else if a != i && a != v {
                        assert(before[a] != before[i as int] && before[a] != before[v as int]);
                    } else if b != i && b != v {
                        assert(before[b] != before[i as int] && before[b] != before[v as int]);
                    }
                }
            }
            v = order[i];
        }
        i = i + 1;
    }
    proof {
        assert forall|j: int| 0 <= j < n implies #[trigger] vec@[old(order)@[j] as int] == old(vec)@[j] by {
            let p = old(order)@[j] as int;
            assert(order@[p] == p);
            assert(target[order@[p] as int] == vec@[p]);
        }
    }
}

/// Puts item `order[i]` of `vec` at place `i`, in place; `order` ends as `0..n`.
pub fn reorder_forward_inplace<T: Copy>(vec: &mut Vec<T>, order: &mut Vec<usize>)
    requires
        is_order(old(order)@, old(vec)@.len()),
    ensures
        final(vec)@.len() == old(vec)@.len(),
        forall|i: int| 0 <= i < old(vec)@.len() ==> #[trigger] final(vec)@[i] == old(vec)@[old(order)@[i] as int],
        forall|i: int| 0 <= i < old(vec)@.len() ==> #[trigger] final(order)@[i] == i,
{
    let n = vec.len();
    let mut i: usize = 0;
    let mut gathered: Vec<T> = Vec::new();
    while i < n
        invariant
            n == old(vec)@.len(),
            vec@ == old(vec)@,
            order@ == old(order)@,
            is_order(order@, n as nat),
            i <= n,
            gathered@.len() == i,
            forall|j: int| 0 <= j < i ==> #[trigger] gathered@[j] == old(vec)@[old(order)@[j] as int],
        decreases n - i,
    {
        gathered.push(vec[order[i]]);
        i = i + 1;
    }
    let mut k: usize = 0;
    while k < n
        invariant
            n == old(vec)@.len(),
            vec@.len() == n,
            order@.len() == n,
            gathered@.len() == n,
            forall|j: int| 0 <= j < n ==> #[trigger] gathered@[j] == old(vec)@[old(order)@[j] as int],
            k <= n,
            forall|j: int| 0 <= j < k ==> #[trigger] vec@[j] == gathered@[j],
            forall|j: int| 0 <= j < k ==> #[trigger] order@[j] == j,
        decreases n - k,
    {
        vec.set(k, gathered[k]);
        order.set(k, k);
        k = k + 1;
    }
}

} // verus!
