use vstd::prelude::*;

verus! {

/// Whether position `a` comes before position `b` when the positions of
/// `keys` are ranked by key: larger keys first if `descending`, smaller
/// keys first otherwise, and equal keys in the order of their positions.
pub open spec fn precedes(keys: Seq<u32>, descending: bool, a: int, b: int) -> bool {
    if keys[a] == keys[b] {
        a < b
    } else if descending {
        keys[a] > keys[b]
    } else {
        keys[a] < keys[b]
    }
}

/// Position `a` is an entry of `order`.
pub open spec fn occurs(order: Seq<usize>, a: int) -> bool {
    exists|i: int| 0 <= i < order.len() && #[trigger] order[i] == a
}

/// `order` lists every position of `keys` exactly once, ranked by
/// `precedes`: it is the stable sort of the positions by their keys.
pub open spec fn is_stable_order(keys: Seq<u32>, descending: bool, order: Seq<usize>) -> bool {
    &&& order.len() == keys.len()
    &&& forall|i: int| 0 <= i < order.len() ==> 0 <= #[trigger] order[i] < keys.len()
    &&& forall|a: int| 0 <= a < keys.len() ==> #[trigger] occurs(order, a)
    &&& forall|i: int, j: int|
        0 <= i < j < order.len() ==> precedes(
            keys,
            descending,
            #[trigger] order[i] as int,
            #[trigger] order[j] as int,
        )
}

/// `order` lists each of the first `n` positions of `keys` exactly once,
/// ranked by `precedes`.
pub open spec fn ranks_first(keys: Seq<u32>, descending: bool, order: Seq<usize>, n: int) -> bool {
    &&& order.len() == n
    &&& forall|i: int| 0 <= i < order.len() ==> 0 <= #[trigger] order[i] < n
    &&& forall|a: int| 0 <= a < n ==> #[trigger] occurs(order, a)
    &&& forall|i: int, j: int|
        0 <= i < j < order.len() ==> precedes(
            keys,
            descending,
            #[trigger] order[i] as int,
            #[trigger] order[j] as int,
        )
}

/// A ranking of the first `n` positions takes position `n` in at `pos`,
/// where every entry from `pos` on comes behind it and the entry in front of
/// `pos`, if there is one, does not.
proof fn lemma_insert_next_position(
    keys: Seq<u32>,
    descending: bool,
    before: Seq<usize>,
    n: int,
    pos: int,
)
    requires
        ranks_first(keys, descending, before, n),
        n < keys.len(),
        n <= usize::MAX,
        0 <= pos <= n,
        forall|k: int| pos <= k < n ==> precedes(keys, descending, n, #[trigger] before[k] as int),
        pos > 0 ==> !precedes(keys, descending, n, before[pos - 1] as int),
    ensures
        ranks_first(keys, descending, before.insert(pos, n as usize), n + 1),
{
    let order = before.insert(pos, n as usize);
    assert forall|a: int| 0 <= a < n + 1 implies #[trigger] occurs(order, a) by {
        if a == n {
            assert(order[pos] == a);
        } else {
            assert(occurs(before, a));
            let i = choose|i: int| 0 <= i < before.len() && #[trigger] before[i] == a;
            if i < pos {
                assert(order[i] == a);
            } else {
                assert(order[i + 1] == a);
            }
        }
    }
    assert forall|i: int, j: int| 0 <= i < j < order.len() implies precedes(
        keys,
        descending,
        #[trigger] order[i] as int,
        #[trigger] order[j] as int,
    ) by {
        if j < pos {
            assert(order[i] == before[i] && order[j] == before[j]);
        } else if j == pos {
            assert(order[i] == before[i]);
            assert(precedes(keys, descending, before[pos - 1] as int, n));
            if i < pos - 1 {
                assert(precedes(keys, descending, before[i] as int, before[pos - 1] as int));
            }
        } else if i < pos {
            assert(order[i] == before[i] && order[j] == before[j - 1]);
        } else if i == pos {
            assert(order[j] == before[j - 1]);
        } else {
            assert(order[i] == before[i - 1] && order[j] == before[j - 1]);
        }
    }
}

/// Decides `precedes` for two positions of `keys`.
pub fn comes_before(keys: &Vec<u32>, descending: bool, a: usize, b: usize) -> (r: bool)
    requires
        a < keys.len(),
        b < keys.len(),
    ensures
        r == precedes(keys@, descending, a as int, b as int),
{
    if keys[a] == keys[b] {
        a < b
    } else if descending {
        keys[a] > keys[b]
    } else {
        keys[a] < keys[b]
    }
}

/// Computes the stable ranking of the positions of `keys`.
pub fn stable_order(keys: &Vec<u32>, descending: bool) -> (order: Vec<usize>)
    ensures
        is_stable_order(keys@, descending, order@),
        order@ == stable_ranking(keys@, descending),
{
    let mut order: Vec<usize> = Vec::new();
    let mut next: usize = 0;
    while next < keys.len()
        invariant
            next <= keys.len(),
            ranks_first(keys@, descending, order@, next as int),
        decreases keys.len() - next,
    {
        let mut pos: usize = next;
        while pos > 0 && comes_before(keys, descending, next, order[pos - 1])
            invariant
                pos <= next,
                next < keys.len(),
                ranks_first(keys@, descending, order@, next as int),
                forall|k: int|
                    pos <= k < next ==> precedes(
                        keys@,
                        descending,
                        next as int,
                        #[trigger] order[k] as int,
                    ),
            decreases pos,
        {
            pos = pos - 1;
        }
        proof {
            lemma_insert_next_position(keys@, descending, order@, next as int, pos as int);
        }
        order.insert(pos, next);
        next = next + 1;
    }
    proof {
        lemma_stable_order_unique(
            keys@,
            descending,
            order@,
            stable_ranking(keys@, descending),
        );
    }
    order
}

/// The stable ranking of the positions of `keys`.
pub open spec fn stable_ranking(keys: Seq<u32>, descending: bool) -> Seq<usize> {
    choose|order: Seq<usize>| is_stable_order(keys, descending, order)
}

/// Two stable orders of the same keys agree on their first `n` entries.
proof fn lemma_stable_orders_agree(
    keys: Seq<u32>,
    descending: bool,
    p: Seq<usize>,
    q: Seq<usize>,
    n: int,
)
    requires
        is_stable_order(keys, descending, p),
        is_stable_order(keys, descending, q),
        0 <= n <= keys.len(),
    ensures
        forall|k: int| 0 <= k < n ==> p[k] == q[k],
    decreases n,
{
    if n > 0 {
        lemma_stable_orders_agree(keys, descending, p, q, n - 1);
        let i = n - 1;
        let a = p[i] as int;
        let b = q[i] as int;
        if a != b {
            if precedes(keys, descending, a, b) {
                assert(occurs(q, a));
                let j = choose|j: int| 0 <= j < q.len() && #[trigger] q[j] == a;
                if j > i {
                    assert(precedes(keys, descending, q[i] as int, q[j] as int));
                } else if j < i {
                    assert(precedes(keys, descending, p[j] as int, p[i] as int));
                }
            } else {
                assert(occurs(p, b));
                let j = choose|j: int| 0 <= j < p.len() && #[trigger] p[j] == b;
                if j > i {
                    assert(precedes(keys, descending, p[i] as int, p[j] as int));
                } else if j < i {
                    assert(precedes(keys, descending, q[j] as int, q[i] as int));
                }
            }
        }
    }
}

/// Keys have one stable order only.
pub proof fn lemma_stable_order_unique(
    keys: Seq<u32>,
    descending: bool,
    p: Seq<usize>,
    q: Seq<usize>,
)
    requires
        is_stable_order(keys, descending, p),
        is_stable_order(keys, descending, q),
    ensures
        p == q,
{
    lemma_stable_orders_agree(keys, descending, p, q, keys.len() as int);
    assert(p =~= q);
}

/// An entry of a stable order occurs in it once.
pub proof fn lemma_stable_order_distinct(
    keys: Seq<u32>,
    descending: bool,
    order: Seq<usize>,
    i: int,
    j: int,
)
    requires
        is_stable_order(keys, descending, order),
        0 <= i < order.len(),
        0 <= j < order.len(),
        order[i] == order[j],
    ensures
        i == j,
{
    if i < j {
        assert(precedes(keys, descending, order[i] as int, order[j] as int));
    } else if j < i {
        assert(precedes(keys, descending, order[j] as int, order[i] as int));
    }
}

/// Where position `a` goes among the first `bound` entries of `order`:
/// behind the last of them that it does not precede.
spec fn insertion_point(keys: Seq<u32>, descending: bool, order: Seq<usize>, a: int, bound: int) -> int
    decreases bound,
{
    if bound > 0 && precedes(keys, descending, a, order[bound - 1] as int) {
        insertion_point(keys, descending, order, a, bound - 1)
    } else {
        bound
    }
}

proof fn lemma_insertion_point(keys: Seq<u32>, descending: bool, order: Seq<usize>, a: int, bound: int)
    requires
        0 <= bound <= order.len(),
    ensures
        0 <= insertion_point(keys, descending, order, a, bound) <= bound,
        forall|k: int|
            insertion_point(keys, descending, order, a, bound) <= k < bound ==> precedes(
                keys,
                descending,
                a,
                #[trigger] order[k] as int,
            ),
        insertion_point(keys, descending, order, a, bound) > 0 ==> !precedes(
            keys,
            descending,
            a,
            order[insertion_point(keys, descending, order, a, bound) - 1] as int,
        ),
    decreases bound,
{
    if bound > 0 && precedes(keys, descending, a, order[bound - 1] as int) {
        lemma_insertion_point(keys, descending, order, a, bound - 1);
    }
}

/// Keys that a vector can hold have a stable order, and `stable_ranking` is it.
pub proof fn lemma_stable_ranking(keys: Seq<u32>, descending: bool)
    requires
        keys.len() <= usize::MAX,
    ensures
        is_stable_order(keys, descending, stable_ranking(keys, descending)),
    decreases keys.len(),
{
    if keys.len() == 0 {
        assert(is_stable_order(keys, descending, Seq::<usize>::empty()));
    } else {
        let fewer = keys.drop_last();
        let next = keys.len() - 1;
        lemma_stable_ranking(fewer, descending);
        let before = stable_ranking(fewer, descending);
        let pos = insertion_point(keys, descending, before, next, next);
        lemma_insertion_point(keys, descending, before, next, next);
        let order = before.insert(pos, next as usize);
        assert forall|i: int, j: int| 0 <= i < j < before.len() implies precedes(
            keys,
            descending,
            #[trigger] before[i] as int,
            #[trigger] before[j] as int,
        ) by {
            assert(precedes(fewer, descending, before[i] as int, before[j] as int));
        }
        lemma_insert_next_position(keys, descending, before, next, pos);
        assert(is_stable_order(keys, descending, order));
    }
}

/// Of two positions with equal keys, the earlier one has the earlier rank.
pub proof fn lemma_equal_keys_keep_their_order(
    keys: Seq<u32>,
    descending: bool,
    order: Seq<usize>,
    a: int,
    b: int,
)
    requires
        is_stable_order(keys, descending, order),
        0 <= a < order.len(),
        0 <= b < order.len(),
        keys[order[a] as int] == keys[order[b] as int],
        order[a] < order[b],
    ensures
        a < b,
{
    if b < a {
        assert(precedes(keys, descending, order[b] as int, order[a] as int));
    }
}

} // verus!
