//! Column width and row height ranges, kept sorted and apart.
use crate::number::Number;
use crate::sort;
use vstd::prelude::*;

verus! {

/// A width that applies to the columns `min` to `max`.
#[derive(Debug, PartialEq)]
pub struct ColWidthRange {
    pub min: u32,
    pub max: u32,
    pub width: Number,
}

/// A height that applies to the rows `min` to `max`.
#[derive(Debug, PartialEq)]
pub struct RowHeightRange {
    pub min: u32,
    pub max: u32,
    pub height_pt: Number,
}

/// A range of columns or rows and the size that applies to it, as contracts
/// speak of it.
#[verifier::ext_equal]
pub struct RangeView {
    pub min: u32,
    pub max: u32,
    pub size: Seq<char>,
}

impl View for ColWidthRange {
    type V = RangeView;

    open spec fn view(&self) -> RangeView {
        RangeView { min: self.min, max: self.max, size: self.width@ }
    }
}

impl View for RowHeightRange {
    type V = RangeView;

    open spec fn view(&self) -> RangeView {
        RangeView { min: self.min, max: self.max, size: self.height_pt@ }
    }
}

impl Clone for ColWidthRange {
    fn clone(&self) -> (r: ColWidthRange)
        ensures
            r@ == self@,
    {
        ColWidthRange { min: self.min, max: self.max, width: self.width.clone() }
    }
}

impl Clone for RowHeightRange {
    fn clone(&self) -> (r: RowHeightRange)
        ensures
            r@ == self@,
    {
        RowHeightRange { min: self.min, max: self.max, height_pt: self.height_pt.clone() }
    }
}

/// What has a first and a last column or row.
pub trait Ranged: View<V = RangeView> + Sized {
    fn min(&self) -> (m: u32)
        ensures
            m == self@.min,
    ;

    fn max(&self) -> (m: u32)
        ensures
            m == self@.max,
    ;
}

impl Ranged for ColWidthRange {
    fn min(&self) -> (m: u32) {
        self.min
    }

    fn max(&self) -> (m: u32) {
        self.max
    }
}

impl Ranged for RowHeightRange {
    fn min(&self) -> (m: u32) {
        self.min
    }

    fn max(&self) -> (m: u32) {
        self.max
    }
}

/// The views of a list of ranges.
pub open spec fn views<R: Ranged>(ranges: Seq<R>) -> Seq<RangeView> {
    ranges.map_values(|r: R| r@)
}

/// Where a range that begins at `min` goes in `sorted`: behind everything that
/// does not begin later, found from the end.
pub open spec fn position_for(sorted: Seq<RangeView>, min: u32) -> int
    decreases sorted.len(),
{
    if sorted.len() > 0 && sorted.last().min > min {
        position_for(sorted.drop_last(), min)
    } else {
        sorted.len() as int
    }
}

/// The ranges in the order of their first column or row; ranges that begin
/// together stay in the order in which they come.
pub open spec fn arranged(ranges: Seq<RangeView>) -> Seq<RangeView>
    decreases ranges.len(),
{
    if ranges.len() == 0 {
        Seq::empty()
    } else {
        let front = arranged(ranges.drop_last());
        front.insert(position_for(front, ranges.last().min), ranges.last())
    }
}

/// Whether the first column or row never falls along the list.
pub open spec fn rising(ranges: Seq<RangeView>) -> bool {
    forall|i: int, j: int|
        0 <= i < j < ranges.len() ==> (#[trigger] ranges[i]).min <= (#[trigger] ranges[j]).min
}

proof fn lemma_position_for(sorted: Seq<RangeView>, min: u32)
    requires
        rising(sorted),
    ensures
        0 <= position_for(sorted, min) <= sorted.len(),
        forall|i: int| 0 <= i < position_for(sorted, min) ==> (#[trigger] sorted[i]).min <= min,
        forall|i: int|
            position_for(sorted, min) <= i < sorted.len() ==> (#[trigger] sorted[i]).min > min,
    decreases sorted.len(),
{
    if sorted.len() > 0 && sorted.last().min > min {
        let shorter = sorted.drop_last();
        assert(rising(shorter)) by {
            assert forall|i: int, j: int| 0 <= i < j < shorter.len() implies (
            #[trigger] shorter[i]).min <= (#[trigger] shorter[j]).min by {
                assert(shorter[i] == sorted[i] && shorter[j] == sorted[j]);
            }
        }
        lemma_position_for(shorter, min);
        let p = position_for(shorter, min);
        assert forall|i: int| 0 <= i < p implies (#[trigger] sorted[i]).min <= min by {
            assert(shorter[i] == sorted[i]);
        }
        assert forall|i: int| p <= i < sorted.len() implies (#[trigger] sorted[i]).min > min by {
            if i < shorter.len() {
                assert(shorter[i] == sorted[i]);
            }
        }
    }
}

/// Arranging keeps every range, adds none, and sorts them.
pub proof fn lemma_arranged(ranges: Seq<RangeView>)
    ensures
        rising(arranged(ranges)),
        arranged(ranges).len() == ranges.len(),
        arranged(ranges).to_multiset() == ranges.to_multiset(),
    decreases ranges.len(),
{
    broadcast use vstd::seq_lib::group_to_multiset_ensures;

    if ranges.len() > 0 {
        let front = arranged(ranges.drop_last());
        let x = ranges.last();
        lemma_arranged(ranges.drop_last());
        lemma_position_for(front, x.min);
        let p = position_for(front, x.min);
        let all = arranged(ranges);
        assert(all == front.insert(p, x));
        assert forall|i: int, j: int| 0 <= i < j < all.len() implies (#[trigger] all[i]).min <= (
        #[trigger] all[j]).min by {
            let a = if i < p {
                i
            } else {
                i - 1
            };
            let b = if j < p {
                j
            } else {
                j - 1
            };
            if i != p {
                assert(all[i] == front[a]);
            }
            if j != p {
                assert(all[j] == front[b]);
            }
        }
        assert(ranges =~= ranges.drop_last().push(x));
    } else {
        assert(arranged(ranges) =~= ranges);
    }
}

/// Every range is in order, and each ends before the next begins.
pub open spec fn apart(ranges: Seq<RangeView>) -> bool {
    &&& forall|i: int| 0 <= i < ranges.len() ==> (#[trigger] ranges[i]).min <= ranges[i].max
    &&& forall|i: int, j: int|
        0 <= i < j < ranges.len() ==> (#[trigger] ranges[i]).max < (#[trigger] ranges[j]).min
}

/// The size that applies at a column or row: that of the range which covers it,
/// else the default.
pub open spec fn is_size_at(
    ranges: Seq<RangeView>,
    default: Option<Seq<char>>,
    at: u32,
    size: Option<Seq<char>>,
) -> bool {
    &&& forall|i: int|
        0 <= i < ranges.len() && (#[trigger] ranges[i]).min <= at <= ranges[i].max ==> size
            == Some(ranges[i].size)
    &&& (forall|i: int|
        0 <= i < ranges.len() ==> !((#[trigger] ranges[i]).min <= at <= ranges[i].max)) ==> size
        == default
}

/// The range that covers `at`, found by halving.
pub fn find_range<R: Ranged>(ranges: &Vec<R>, at: u32) -> (found: Option<usize>)
    requires
        apart(views(ranges@)),
    ensures
        match found {
            Some(i) => i < ranges@.len() && ranges@[i as int]@.min <= at <= ranges@[i as int]@.max,
            None => forall|i: int|
                0 <= i < ranges@.len() ==> !((#[trigger] ranges@[i])@.min <= at
                    <= ranges@[i]@.max),
        },
{
    let ghost vs = views(ranges@);
    assert forall|i: int| 0 <= i < ranges@.len() implies #[trigger] vs[i] == ranges@[i]@ by {}
    let mut lo: usize = 0;
    let mut hi: usize = ranges.len();
    while lo < hi
        invariant
            lo <= hi <= ranges@.len(),
            vs == views(ranges@),
            apart(vs),
            forall|i: int| 0 <= i < ranges@.len() ==> #[trigger] vs[i] == ranges@[i]@,
            forall|i: int| 0 <= i < lo ==> (#[trigger] vs[i]).min <= at,
            forall|i: int| hi <= i < ranges@.len() ==> (#[trigger] vs[i]).min > at,
        decreases hi - lo,
    {
        let mid: usize = lo + (hi - lo) / 2;
        let m: u32 = ranges[mid].min();
        assert(vs[mid as int] == ranges@[mid as int]@);
        if m <= at {
            assert forall|i: int| 0 <= i < mid implies (#[trigger] vs[i]).min <= at by {
                assert(vs[i].min <= vs[i].max && vs[i].max < vs[mid as int].min);
            }
            lo = mid + 1;
        } else {
            assert forall|i: int| mid <= i < ranges@.len() implies (#[trigger] vs[i]).min > at by {
                if i > mid {
                    assert(vs[mid as int].min <= vs[mid as int].max && vs[mid as int].max < vs[i].min);
                }
            }
            hi = mid;
        }
    }
    if lo > 0 {
        let max: u32 = ranges[lo - 1].max();
        assert(vs[lo - 1] == ranges@[lo - 1]@);
        if at <= max {
            return Some(lo - 1);
        }
        assert forall|i: int| 0 <= i < ranges@.len() implies !((#[trigger] ranges@[i])@.min <= at
            <= ranges@[i]@.max) by {
            assert(vs[i] == ranges@[i]@);
            if i < lo - 1 {
                assert(vs[i].max < vs[lo - 1].min);
            }
        }
    } else {
        assert forall|i: int| 0 <= i < ranges@.len() implies !((#[trigger] ranges@[i])@.min <= at
            <= ranges@[i]@.max) by {
            assert(vs[i] == ranges@[i]@);
        }
    }
    None
}

/// The first range that ends before it begins.
pub open spec fn is_first_reversed(ranges: Seq<RangeView>, i: int) -> bool {
    &&& 0 <= i < ranges.len()
    &&& ranges[i].min > ranges[i].max
    &&& forall|k: int| 0 <= k < i ==> (#[trigger] ranges[k]).min <= ranges[k].max
}

/// The first range that begins before the one in front of it has ended.
pub open spec fn is_first_overlap(ranges: Seq<RangeView>, i: int) -> bool {
    &&& 0 < i < ranges.len()
    &&& ranges[i - 1].max >= ranges[i].min
    &&& forall|k: int| 0 < k < i ==> ranges[k - 1].max < (#[trigger] ranges[k]).min
}

/// Where some range is reversed, there is a first.
pub proof fn lemma_first_reversed(ranges: Seq<RangeView>, k: int)
    requires
        0 <= k < ranges.len(),
        ranges[k].min > ranges[k].max,
    ensures
        exists|i: int| is_first_reversed(ranges, i),
    decreases k,
{
    if exists|j: int| 0 <= j < k && (#[trigger] ranges[j]).min > ranges[j].max {
        let j = choose|j: int| 0 <= j < k && (#[trigger] ranges[j]).min > ranges[j].max;
        lemma_first_reversed(ranges, j);
    } else {
        assert(is_first_reversed(ranges, k));
    }
}

/// Where some range begins too early, there is a first.
pub proof fn lemma_first_overlap(ranges: Seq<RangeView>, k: int)
    requires
        0 < k < ranges.len(),
        ranges[k - 1].max >= ranges[k].min,
    ensures
        exists|i: int| is_first_overlap(ranges, i),
    decreases k,
{
    if exists|j: int| 0 < j < k && ranges[j - 1].max >= (#[trigger] ranges[j]).min {
        let j = choose|j: int| 0 < j < k && ranges[j - 1].max >= (#[trigger] ranges[j]).min;
        lemma_first_overlap(ranges, j);
    } else {
        assert(is_first_overlap(ranges, k));
    }
}

/// What stands in the sorted list stands in the list.
pub proof fn lemma_arranged_member(ranges: Seq<RangeView>, k: int)
    requires
        0 <= k < arranged(ranges).len(),
    ensures
        exists|i: int| 0 <= i < ranges.len() && #[trigger] ranges[i] == arranged(ranges)[k],
    decreases ranges.len(),
{
    let front = arranged(ranges.drop_last());
    let x = ranges.last();
    lemma_arranged(ranges.drop_last());
    lemma_position_for(front, x.min);
    let p = position_for(front, x.min);
    assert(arranged(ranges) == front.insert(p, x));
    if k == p {
        assert(ranges[ranges.len() - 1] == arranged(ranges)[k]);
    } else {
        let q = if k < p {
            k
        } else {
            k - 1
        };
        assert(arranged(ranges)[k] == front[q]);
        lemma_arranged_member(ranges.drop_last(), q);
        let i = choose|i: int|
            0 <= i < ranges.drop_last().len() && #[trigger] ranges.drop_last()[i] == front[q];
        assert(ranges[i] == arranged(ranges)[k]);
    }
}

/// Whether a range takes in a column or row.
pub open spec fn takes_in(r: RangeView, at: u32) -> bool {
    r.min <= at <= r.max
}

/// Whether no column or row lies in two ranges of a list.
pub open spec fn share_nothing(ranges: Seq<RangeView>) -> bool {
    forall|i: int, j: int, at: u32|
        #![trigger takes_in(ranges[i], at), takes_in(ranges[j], at)]
        0 <= i < j < ranges.len() ==> !(takes_in(ranges[i], at) && takes_in(ranges[j], at))
}

/// Ranges that lie apart share nothing.
pub proof fn lemma_apart_shares_nothing(ranges: Seq<RangeView>)
    requires
        apart(ranges),
    ensures
        share_nothing(ranges),
{
    assert forall|i: int, j: int, at: u32|
        #![trigger takes_in(ranges[i], at), takes_in(ranges[j], at)]
        0 <= i < j < ranges.len() implies !(takes_in(ranges[i], at) && takes_in(ranges[j], at)) by {
        assert(ranges[i].max < ranges[j].min);
    }
}

/// How many ranges of a list take in a column or row does not depend on their order.
pub proof fn lemma_sharing_is_by_members(a: Seq<RangeView>, b: Seq<RangeView>)
    requires
        a.to_multiset() == b.to_multiset(),
        share_nothing(a),
    ensures
        share_nothing(b),
{
    assert forall|i: int, j: int, at: u32|
        #![trigger takes_in(b[i], at), takes_in(b[j], at)]
        0 <= i < j < b.len() implies !(takes_in(b[i], at) && takes_in(b[j], at)) by {
        if takes_in(b[i], at) && takes_in(b[j], at) {
            lemma_two_members(b, a, i, j);
            let (k, l) = choose|k: int, l: int|
                0 <= k < l < a.len() && ((#[trigger] a[k] == b[i] && #[trigger] a[l] == b[j]) || (
                a[k] == b[j] && a[l] == b[i]));
            assert(takes_in(a[k], at) && takes_in(a[l], at));
        }
    }
}

proof fn lemma_two_members(b: Seq<RangeView>, a: Seq<RangeView>, i: int, j: int)
    requires
        a.to_multiset() == b.to_multiset(),
        0 <= i < j < b.len(),
    ensures
        exists|k: int, l: int|
            0 <= k < l < a.len() && ((#[trigger] a[k] == b[i] && #[trigger] a[l] == b[j]) || (a[k]
                == b[j] && a[l] == b[i])),
{
    broadcast use vstd::seq_lib::group_to_multiset_ensures;

    let x = b[i];
    let y = b[j];
    let rest = b.remove(i);
    assert(rest[j - 1] == y);
    assert(b.to_multiset().count(x) > 0) by {
        assert(b.contains(x));
    }
    assert(a.contains(x));
    let k = a.index_of(x);
    assert(rest.contains(y));
    assert(rest.to_multiset().count(y) > 0);
    let others = a.remove(k);
    assert(others.to_multiset() =~= rest.to_multiset());
    assert(others.contains(y));
    let m = others.index_of(y);
    let l = if m < k {
        m
    } else {
        m + 1
    };
    assert(a[l] == y);
    assert(a[k] == x);
    if k < l {
        assert(a[k] == b[i] && a[l] == b[j]);
    } else {
        assert(a[l] == b[j] && a[k] == b[i]);
    }
}

/// Looks for a range that ends before it begins.
pub fn find_reversed<R: Ranged>(ranges: &Vec<R>) -> (found: Option<usize>)
    ensures
        match found {
            Some(i) => is_first_reversed(views(ranges@), i as int),
            None => forall|k: int|
                0 <= k < ranges@.len() ==> (#[trigger] views(ranges@)[k]).min <= views(
                    ranges@,
                )[k].max,
        },
{
    let ghost vs = views(ranges@);
    let mut i: usize = 0;
    while i < ranges.len()
        invariant
            i <= ranges@.len(),
            vs == views(ranges@),
            forall|k: int| 0 <= k < i ==> (#[trigger] vs[k]).min <= vs[k].max,
        decreases ranges@.len() - i,
    {
        assert(vs[i as int] == ranges@[i as int]@);
        if ranges[i].min() > ranges[i].max() {
            return Some(i);
        }
        i += 1;
    }
    None
}

/// Looks for a range that begins before the one in front of it has ended.
pub fn find_overlap<R: Ranged>(ranges: &Vec<R>) -> (found: Option<usize>)
    ensures
        match found {
            Some(i) => is_first_overlap(views(ranges@), i as int),
            None => forall|k: int|
                0 < k < ranges@.len() ==> views(ranges@)[k - 1].max < (#[trigger] views(
                    ranges@,
                )[k]).min,
        },
{
    let ghost vs = views(ranges@);
    if ranges.len() == 0 {
        return None;
    }
    let mut i: usize = 1;
    while i < ranges.len()
        invariant
            1 <= i <= ranges@.len(),
            vs == views(ranges@),
            forall|k: int| 0 < k < i ==> vs[k - 1].max < (#[trigger] vs[k]).min,
        decreases ranges@.len() - i,
    {
        assert(vs[i as int] == ranges@[i as int]@);
        assert(vs[i - 1] == ranges@[i - 1]@);
        if ranges[i - 1].max() >= ranges[i].min() {
            return Some(i);
        }
        i += 1;
    }
    None
}

/// Sorted ranges of which each ends before its neighbour begins lie apart.
pub proof fn lemma_apart(ranges: Seq<RangeView>)
    requires
        forall|k: int| 0 <= k < ranges.len() ==> (#[trigger] ranges[k]).min <= ranges[k].max,
        forall|k: int| 0 < k < ranges.len() ==> ranges[k - 1].max < (#[trigger] ranges[k]).min,
    ensures
        apart(ranges),
{
    assert forall|i: int, j: int| 0 <= i < j < ranges.len() implies (#[trigger] ranges[i]).max < (
    #[trigger] ranges[j]).min by {
        lemma_apart_between(ranges, i, j);
    }
}

proof fn lemma_apart_between(ranges: Seq<RangeView>, i: int, j: int)
    requires
        forall|k: int| 0 <= k < ranges.len() ==> (#[trigger] ranges[k]).min <= ranges[k].max,
        forall|k: int| 0 < k < ranges.len() ==> ranges[k - 1].max < (#[trigger] ranges[k]).min,
        0 <= i < j < ranges.len(),
    ensures
        ranges[i].max < ranges[j].min,
    decreases j - i,
{
    assert(ranges[j].min > ranges[j - 1].max);
    if i < j - 1 {
        lemma_apart_between(ranges, i, j - 1);
        assert(ranges[j - 1].min <= ranges[j - 1].max);
    }
}

/// The first columns or rows of a list of ranges.
pub open spec fn mins(ranges: Seq<RangeView>) -> Seq<u32> {
    ranges.map_values(|r: RangeView| r.min)
}

/// The ranges taken in the order of their first column or row are the arranged
/// ranges.
proof fn lemma_ordered_is_arranged(ranges: Seq<RangeView>, order: Seq<int>)
    requires
        sort::is_order(mins(ranges), order),
    ensures
        order.map_values(|i: int| ranges[i]) == arranged(ranges),
    decreases ranges.len(),
{
    let taken = order.map_values(|i: int| ranges[i]);
    if ranges.len() == 0 {
        assert(taken =~= arranged(ranges));
    } else {
        let n = ranges.len() - 1;
        let front = ranges.drop_last();
        let x = ranges.last();
        assert(order.contains(n));
        let p = choose|p: int| 0 <= p < order.len() && order[p] == n;
        sort::lemma_order_without_last(mins(ranges), order, p);
        assert(mins(front) =~= mins(ranges).drop_last());
        let rest = order.remove(p);
        lemma_ordered_is_arranged(front, rest);
        let sorted = arranged(front);
        assert(sorted == rest.map_values(|i: int| front[i]));
        lemma_arranged(front);
        lemma_position_for(sorted, x.min);
        let q = position_for(sorted, x.min);
        assert forall|i: int| 0 <= i < rest.len() implies (#[trigger] sorted[i]) == ranges[rest[i]]
            && sorted[i].min == mins(ranges)[rest[i]] by {}
        if q < p {
            assert(rest[q] == order[q]);
            assert(sorted[q].min <= x.min);
        } else if q > p {
            assert(rest[p] == order[p + 1]);
            assert(sorted[p].min > x.min);
        }
        assert(taken =~= sorted.insert(p, x)) by {
            assert forall|i: int| 0 <= i < taken.len() implies #[trigger] taken[i] == sorted.insert(
                p,
                x,
            )[i] by {
                if i < p {
                    assert(rest[i] == order[i]);
                } else if i > p {
                    assert(rest[i - 1] == order[i]);
                }
            }
        }
    }
}

/// Sorts ranges by their first column or row, keeping ties in order.
pub fn arrange<R: Ranged>(ranges: Vec<R>) -> (sorted: Vec<R>)
    ensures
        views(sorted@) == arranged(views(ranges@)),
{
    let ghost vs = views(ranges@);
    let mut keys: Vec<u32> = Vec::new();
    let mut slots: Vec<Option<R>> = Vec::new();
    for r in it: ranges
        invariant
            it.seq() == ranges@,
            vs == views(ranges@),
            keys@ == mins(vs).take(it.index() as int),
            slots@.len() == it.index(),
            forall|k: int| 0 <= k < slots@.len() ==> #[trigger] slots@[k] == Some(ranges@[k]),
    {
        keys.push(r.min());
        slots.push(Some(r));
        assert(keys@ =~= mins(vs).take(it.index() as int + 1));
    }
    assert(keys@ =~= mins(vs));
    let order: Vec<usize> = sort::order_by(&keys);
    let ghost ints = sort::as_ints(order@);
    let mut sorted: Vec<R> = Vec::new();
    let mut i: usize = 0;
    while i < order.len()
        invariant
            vs == views(ranges@),
            ints == sort::as_ints(order@),
            sort::is_order(mins(vs), ints),
            slots@.len() == ranges@.len(),
            i <= order@.len(),
            sorted@.len() == i,
            forall|k: int| 0 <= k < i ==> #[trigger] sorted@[k] == ranges@[ints[k]],
            forall|k: int|
                i <= k < ints.len() ==> slots@[#[trigger] ints[k]] == Some(ranges@[ints[k]]),
        decreases order@.len() - i,
    {
        let at: usize = order[i];
        assert(ints[i as int] == at);
        let r: R = slots[at].take().unwrap();
        sorted.push(r);
        assert forall|k: int| i < k < ints.len() implies slots@[#[trigger] ints[k]] == Some(
            ranges@[ints[k]],
        ) by {
            assert(sort::precedes(mins(vs), ints[i as int], ints[k]));
        }
        i += 1;
    }
    proof {
        lemma_ordered_is_arranged(vs, ints);
        assert(views(sorted@) =~= ints.map_values(|i: int| vs[i]));
    }
    sorted
}

} // verus!
