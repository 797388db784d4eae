//! Ordering items by a pair of numbers, with ties in their given order.
use vstd::prelude::*;

verus! {

/// Whether item `j` comes before item `i`: by key, and by position where the
/// keys are equal.
pub open spec fn precedes(keys: Seq<(usize, usize)>, j: int, i: int) -> bool {
    let a = keys[j];
    let b = keys[i];
    a.0 < b.0 || (a.0 == b.0 && (a.1 < b.1 || (a.1 == b.1 && j < i)))
}

/// Whether `order` names each of the first `n` items once, in ascending order.
pub open spec fn is_order(keys: Seq<(usize, usize)>, order: Seq<usize>, n: int) -> bool {
    &&& order.len() == n <= keys.len()
    &&& forall|a: int| 0 <= a < n ==> 0 <= #[trigger] order[a] < n
    &&& forall|a: int, b: int|
        0 <= a < b < n ==> precedes(keys, #[trigger] order[a] as int, #[trigger] order[b] as int)
    &&& forall|i: int| 0 <= i < n ==> #[trigger] order.contains(i as usize)
}

/// The positions of `keys` in ascending order.
pub open spec fn sorted(keys: Seq<(usize, usize)>) -> Seq<usize> {
    choose|order: Seq<usize>| is_order(keys, order, keys.len() as int)
}

/// There is one ascending order only.
pub proof fn lemma_order_unique(keys: Seq<(usize, usize)>, x: Seq<usize>, y: Seq<usize>, n: int)
    requires
        is_order(keys, x, n),
        is_order(keys, y, n),
        n <= usize::MAX,
    ensures
        x == y,
{
    lemma_orders_agree(keys, x, y, n, n);
    assert(x =~= y);
}

proof fn lemma_orders_agree(
    keys: Seq<(usize, usize)>,
    x: Seq<usize>,
    y: Seq<usize>,
    n: int,
    a: int,
)
    requires
        is_order(keys, x, n),
        is_order(keys, y, n),
        0 <= a <= n <= usize::MAX,
    ensures
        forall|b: int| 0 <= b < a ==> #[trigger] x[b] == y[b],
    decreases a,
{
    if a > 0 {
        lemma_orders_agree(keys, x, y, n, a - 1);
        let p = x[a - 1] as int;
        let q = y[a - 1] as int;
        if p != q {
            assert(precedes(keys, p, q) || precedes(keys, q, p));
            if precedes(keys, p, q) {
                lemma_order_position(keys, y, n, a - 1, p);
                let b = choose|b: int| 0 <= b < a - 1 && #[trigger] y[b] == p;
                assert(x[b] == y[b]);
                assert(precedes(keys, x[b] as int, x[a - 1] as int));
            } else {
                lemma_order_position(keys, x, n, a - 1, q);
                let b = choose|b: int| 0 <= b < a - 1 && #[trigger] x[b] == q;
                assert(x[b] == y[b]);
                assert(precedes(keys, y[b] as int, y[a - 1] as int));
            }
        }
    }
}

/// Whether item `i` comes before all ordered items from place `at` on, and not
/// before the one in front of it.
spec fn is_place(keys: Seq<(usize, usize)>, order: Seq<usize>, i: int, at: int) -> bool {
    &&& 0 <= at <= order.len()
    &&& forall|b: int|
        at <= b < order.len() ==> precedes(keys, i, #[trigger] order[b] as int)
    &&& at > 0 ==> !precedes(keys, i, order[at - 1] as int)
}

proof fn lemma_insert(keys: Seq<(usize, usize)>, before: Seq<usize>, i: int, at: int)
    requires
        is_order(keys, before, i),
        i < keys.len(),
        i <= usize::MAX,
        is_place(keys, before, i, at),
    ensures
        is_order(keys, before.insert(at, i as usize), i + 1),
{
    let after = before.insert(at, i as usize);
    assert forall|a: int, b: int| 0 <= a < b < i + 1 implies precedes(
        keys,
        #[trigger] after[a] as int,
        #[trigger] after[b] as int,
    ) by {
        if a < at && b == at {
            assert(precedes(keys, before[at - 1] as int, i) || precedes(
                keys,
                i,
                before[at - 1] as int,
            ));
            if a < at - 1 {
                assert(precedes(keys, before[a] as int, before[at - 1] as int));
            }
        } else if a == at && b > at {
            assert(after[b] == before[b - 1]);
        } else {
            let x = if a < at {
                a
            } else {
                a - 1
            };
            let y = if b < at {
                b
            } else {
                b - 1
            };
            assert(after[a] == before[x]);
            assert(after[b] == before[y]);
        }
    }
    assert forall|k: int| 0 <= k < i + 1 implies #[trigger] after.contains(k as usize) by {
        if k == i {
            assert(after[at] == k as usize);
        } else {
            assert(before.contains(k as usize));
            let p = before.index_of(k as usize);
            if p < at {
                assert(after[p] == k as usize);
            } else {
                assert(after[p + 1] == k as usize);
            }
        }
    }
}

proof fn lemma_place(keys: Seq<(usize, usize)>, order: Seq<usize>, i: int, at: int) -> (p: int)
    requires
        0 <= at <= order.len(),
        forall|b: int|
            at <= b < order.len() ==> precedes(keys, i, #[trigger] order[b] as int),
    ensures
        is_place(keys, order, i, p),
    decreases at,
{
    if at > 0 && precedes(keys, i, order[at - 1] as int) {
        lemma_place(keys, order, i, at - 1)
    } else {
        at
    }
}

proof fn lemma_has_order(keys: Seq<(usize, usize)>, n: int)
    requires
        0 <= n <= keys.len(),
        n <= usize::MAX,
    ensures
        exists|order: Seq<usize>| is_order(keys, order, n),
    decreases n,
{
    if n == 0 {
        assert(is_order(keys, Seq::<usize>::empty(), 0));
    } else {
        let m = n - 1;
        lemma_has_order(keys, m);
        let order = choose|order: Seq<usize>| is_order(keys, order, m);
        let at = lemma_place(keys, order, m, order.len() as int);
        lemma_insert(keys, order, m, at);
    }
}

/// There always is an ascending order.
pub proof fn lemma_sorted(keys: Seq<(usize, usize)>)
    requires
        keys.len() <= usize::MAX,
    ensures
        is_order(keys, sorted(keys), keys.len() as int),
{
    lemma_has_order(keys, keys.len() as int);
}

fn comes_before(keys: &Vec<(usize, usize)>, j: usize, i: usize) -> (r: bool)
    requires
        j < keys.len(),
        i < keys.len(),
    ensures
        r == precedes(keys@, j as int, i as int),
{
    let a = keys[j];
    let b = keys[i];
    a.0 < b.0 || (a.0 == b.0 && (a.1 < b.1 || (a.1 == b.1 && j < i)))
}

/// The positions of `keys`, in ascending order of what they hold.
pub fn sorted_positions(keys: &Vec<(usize, usize)>) -> (order: Vec<usize>)
    ensures
        is_order(keys@, order@, keys@.len() as int),
        order@ == sorted(keys@),
{
    let mut order: Vec<usize> = Vec::new();
    let mut i: usize = 0;
    while i < keys.len()
        invariant
            i <= keys.len(),
            is_order(keys@, order@, i as int),
        decreases keys.len() - i,
    {
        let mut at: usize = order.len();
        while at > 0 && comes_before(keys, i, order[at - 1])
            invariant
                at <= order.len(),
                i < keys.len(),
                is_order(keys@, order@, i as int),
                forall|b: int|
                    at <= b < order.len() ==> precedes(keys@, i as int, #[trigger] order@[b] as int),
            decreases at,
        {
            at -= 1;
        }
        let ghost before = order@;
        order.insert(at, i);
        proof {
            lemma_insert(keys@, before, i as int, at as int);
            assert(order@ =~= before.insert(at as int, i));
        }
        i += 1;
    }
    proof {
        lemma_order_unique(keys@, order@, sorted(keys@), keys@.len() as int);
    }
    order
}

/// What comes before an ordered item stands in front of it.
pub proof fn lemma_order_position(keys: Seq<(usize, usize)>, order: Seq<usize>, n: int, a: int, j: int)
    requires
        is_order(keys, order, n),
        0 <= a < n,
        0 <= j < n,
        n <= usize::MAX,
        precedes(keys, j, order[a] as int),
    ensures
        exists|b: int| 0 <= b < a && #[trigger] order[b] == j,
{
    assert(order.contains(j as usize));
    let b = order.index_of(j as usize);
    assert(order[b] == j);
    if b >= a {
        if a < b {
            assert(precedes(keys, order[a] as int, order[b] as int));
        }
    }
}

} // verus!
