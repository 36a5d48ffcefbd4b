//! A stable order of items by an integer key.
use vstd::prelude::*;

verus! {

/// Whether item `a` goes before item `b`: by key, and then by position.
pub open spec fn precedes(keys: Seq<u32>, a: int, b: int) -> bool {
    keys[a] < keys[b] || (keys[a] == keys[b] && a < b)
}

/// Whether `order` lists the items from `lo` up to `hi`, each once, by key; items
/// with equal keys stay in the order in which they come.
pub open spec fn lists_range(keys: Seq<u32>, order: Seq<int>, lo: int, hi: int) -> bool {
    &&& order.len() == hi - lo
    &&& forall|i: int| 0 <= i < order.len() ==> lo <= #[trigger] order[i] < hi
    &&& forall|i: int, j: int|
        0 <= i < j < order.len() ==> precedes(keys, #[trigger] order[i], #[trigger] order[j])
    &&& forall|k: int| lo <= k < hi ==> #[trigger] order.contains(k)
}

/// Whether `order` is the stable order of `keys`.
pub open spec fn is_order(keys: Seq<u32>, order: Seq<int>) -> bool {
    lists_range(keys, order, 0, keys.len() as int)
}

/// The stable order without the last item is that of the items in front of it. The
/// last item goes behind everything whose key is not greater.
pub proof fn lemma_order_without_last(keys: Seq<u32>, order: Seq<int>, p: int)
    requires
        is_order(keys, order),
        0 <= p < order.len(),
        order[p] == keys.len() - 1,
    ensures
        is_order(keys.drop_last(), order.remove(p)),
        forall|i: int| 0 <= i < p ==> keys[#[trigger] order[i]] <= keys.last(),
        forall|i: int| p < i < order.len() ==> keys[#[trigger] order[i]] > keys.last(),
{
    let n = keys.len() - 1;
    let front = keys.drop_last();
    let rest = order.remove(p);
    assert forall|i: int| 0 <= i < p implies keys[#[trigger] order[i]] <= keys.last() by {
        assert(precedes(keys, order[i], order[p]));
    }
    assert forall|i: int| p < i < order.len() implies keys[#[trigger] order[i]] > keys.last() by {
        assert(precedes(keys, order[p], order[i]));
    }
    assert forall|i: int| 0 <= i < rest.len() implies 0 <= #[trigger] rest[i] < n by {
        if i < p {
            assert(rest[i] == order[i] && precedes(keys, order[i], order[p]));
        } else {
            assert(rest[i] == order[i + 1] && precedes(keys, order[p], order[i + 1]));
        }
    }
    assert forall|i: int, j: int| 0 <= i < j < rest.len() implies precedes(
        front,
        #[trigger] rest[i],
        #[trigger] rest[j],
    ) by {
        let a = if i < p {
            i
        } else {
            i + 1
        };
        let b = if j < p {
            j
        } else {
            j + 1
        };
        assert(rest[i] == order[a] && rest[j] == order[b]);
        assert(precedes(keys, order[a], order[b]));
        assert(0 <= rest[i] < n && 0 <= rest[j] < n);
    }
    assert forall|k: int| 0 <= k < n implies #[trigger] rest.contains(k) by {
        assert(order.contains(k));
        let q = choose|q: int| 0 <= q < order.len() && order[q] == k;
        if q < p {
            assert(rest[q] == k);
        } else {
            assert(rest[q - 1] == k);
        }
    }
}

/// The indices that a vector holds, as mathematical integers.
pub open spec fn as_ints(v: Seq<usize>) -> Seq<int> {
    v.map_values(|x: usize| x as int)
}

/// Merges the order of the items from `lo` up to `mid` and of those from `mid` up
/// to `hi`.
fn merge(
    keys: &Vec<u32>,
    left: &Vec<usize>,
    right: &Vec<usize>,
    lo: usize,
    mid: usize,
    hi: usize,
) -> (r: Vec<usize>)
    requires
        lo <= mid <= hi <= keys@.len(),
        lists_range(keys@, as_ints(left@), lo as int, mid as int),
        lists_range(keys@, as_ints(right@), mid as int, hi as int),
    ensures
        lists_range(keys@, as_ints(r@), lo as int, hi as int),
{
    let ghost a = as_ints(left@);
    let ghost b = as_ints(right@);
    let mut out: Vec<usize> = Vec::new();
    let mut i: usize = 0;
    let mut j: usize = 0;
    while i < left.len() || j < right.len()
        invariant
            lo <= mid <= hi <= keys@.len(),
            a == as_ints(left@),
            b == as_ints(right@),
            lists_range(keys@, a, lo as int, mid as int),
            lists_range(keys@, b, mid as int, hi as int),
            i <= left@.len(),
            j <= right@.len(),
            out@.len() == i + j,
            forall|p: int| 0 <= p < out@.len() ==> lo <= #[trigger] out@[p] < hi,
            forall|p: int, q: int|
                0 <= p < q < out@.len() ==> precedes(
                    keys@,
                    #[trigger] out@[p] as int,
                    #[trigger] out@[q] as int,
                ),
            forall|p: int, q: int|
                0 <= p < out@.len() && i <= q < a.len() ==> precedes(
                    keys@,
                    #[trigger] out@[p] as int,
                    #[trigger] a[q],
                ),
            forall|p: int, q: int|
                0 <= p < out@.len() && j <= q < b.len() ==> precedes(
                    keys@,
                    #[trigger] out@[p] as int,
                    #[trigger] b[q],
                ),
            forall|q: int| 0 <= q < i ==> #[trigger] as_ints(out@).contains(a[q]),
            forall|q: int| 0 <= q < j ==> #[trigger] as_ints(out@).contains(b[q]),
        decreases left@.len() - i + right@.len() - j,
    {
        let ghost before = out@;
        let from_left: bool = if i == left.len() {
            false
        } else if j == right.len() {
            true
        } else {
            assert(a[i as int] == left@[i as int]);
            assert(b[j as int] == right@[j as int]);
            keys[left[i]] <= keys[right[j]]
        };
        let next: usize = if from_left {
            left[i]
        } else {
            right[j]
        };
        assert(i < a.len() ==> a[i as int] == left@[i as int]);
        assert(j < b.len() ==> b[j as int] == right@[j as int]);
        assert forall|q: int| (if from_left { i + 1 } else { i as int }) <= q < a.len() implies
            precedes(keys@, next as int, #[trigger] a[q]) by {
            if from_left {
                assert(precedes(keys@, a[i as int], a[q]));
            } else {
                assert(precedes(keys@, b[j as int], a[i as int]));
                assert(q == i || precedes(keys@, a[i as int], a[q]));
            }
        }
        assert forall|q: int| (if from_left { j as int } else { j + 1 }) <= q < b.len() implies
            precedes(keys@, next as int, #[trigger] b[q]) by {
            if from_left {
                assert(precedes(keys@, a[i as int], b[j as int]));
                assert(q == j || precedes(keys@, b[j as int], b[q]));
            } else {
                assert(precedes(keys@, b[j as int], b[q]));
            }
        }
        out.push(next);
        proof {
            lemma_push_keeps(before, next);
            assert(as_ints(out@)[out@.len() - 1] == next);
        }
        if from_left {
            i += 1;
        } else {
            j += 1;
        }
    }
    assert forall|k: int| lo <= k < hi implies #[trigger] as_ints(out@).contains(k) by {
        if k < mid {
            assert(a.contains(k));
            let q = choose|q: int| 0 <= q < a.len() && a[q] == k;
            assert(as_ints(out@).contains(a[q]));
        } else {
            assert(b.contains(k));
            let q = choose|q: int| 0 <= q < b.len() && b[q] == k;
            assert(as_ints(out@).contains(b[q]));
        }
    }
    out
}

proof fn lemma_push_keeps(v: Seq<usize>, x: usize)
    ensures
        forall|k: int| as_ints(v).contains(k) ==> #[trigger] as_ints(v.push(x)).contains(k),
        as_ints(v.push(x)).contains(x as int),
{
    assert forall|k: int| as_ints(v).contains(k) implies #[trigger] as_ints(v.push(x)).contains(
        k,
    ) by {
        let q = choose|q: int| 0 <= q < as_ints(v).len() && as_ints(v)[q] == k;
        assert(as_ints(v.push(x))[q] == k);
    }
    assert(as_ints(v.push(x))[v.len() as int] == x);
}

/// The stable order of the items from `lo` up to `hi`: each half is ordered, and the
/// two are merged.
fn order_range(keys: &Vec<u32>, lo: usize, hi: usize) -> (r: Vec<usize>)
    requires
        lo <= hi <= keys@.len(),
    ensures
        lists_range(keys@, as_ints(r@), lo as int, hi as int),
    decreases hi - lo,
{
    if hi - lo <= 1 {
        let mut one: Vec<usize> = Vec::new();
        if lo < hi {
            one.push(lo);
            assert(as_ints(one@)[0] == lo);
        }
        return one;
    }
    let mid: usize = lo + (hi - lo) / 2;
    let left: Vec<usize> = order_range(keys, lo, mid);
    let right: Vec<usize> = order_range(keys, mid, hi);
    merge(keys, &left, &right, lo, mid, hi)
}

/// The stable order of `keys`.
pub fn order_by(keys: &Vec<u32>) -> (r: Vec<usize>)
    ensures
        is_order(keys@, as_ints(r@)),
{
    order_range(keys, 0, keys.len())
}

} // verus!
