//! Rectangular areas of a sheet, and which of them covers a cell.
use crate::model::cell::CellRef;
use crate::sort;
use vstd::prelude::*;

verus! {

/// A merged range: its top-left cell, which holds the data, and its
/// bottom-right cell.
#[derive(Debug, Clone, Copy, PartialEq, Eq, Structural)]
pub struct MergedRegion {
    pub start: CellRef,
    pub end: CellRef,
}

impl MergedRegion {
    /// Whether the corners are in order.
    pub open spec fn valid(self) -> bool {
        self.start.row <= self.end.row && self.start.col <= self.end.col
    }

    /// Whether a cell lies within the region.
    pub open spec fn covers(self, r: CellRef) -> bool {
        self.start.row <= r.row <= self.end.row && self.start.col <= r.col <= self.end.col
    }

    /// How many rows the region spans.
    pub fn row_span(&self) -> (n: u32)
        requires
            self.start.row <= self.end.row,
            self.end.row - self.start.row < u32::MAX,
        ensures
            n == self.end.row - self.start.row + 1,
    {
        self.end.row - self.start.row + 1
    }

    /// How many columns the region spans.
    pub fn col_span(&self) -> (n: u32)
        requires
            self.start.col <= self.end.col,
            self.end.col - self.start.col < u32::MAX,
        ensures
            n == self.end.col - self.start.col + 1,
    {
        self.end.col - self.start.col + 1
    }
}

/// Whether two regions meet on both axes.
pub open spec fn overlap(a: MergedRegion, b: MergedRegion) -> bool {
    a.start.row <= b.end.row && a.end.row >= b.start.row && a.start.col <= b.end.col && a.end.col
        >= b.start.col
}

/// Whether two regions overlap.
pub fn regions_overlap(a: &MergedRegion, b: &MergedRegion) -> (r: bool)
    ensures
        r == overlap(*a, *b),
{
    a.start.row <= b.end.row && a.end.row >= b.start.row && a.start.col <= b.end.col && a.end.col
        >= b.start.col
}

/// A region takes in the cells from its first row and column to its last, both
/// included.
pub proof fn law_regions_take_in_their_corners(m: MergedRegion, r: CellRef)
    ensures
        m.covers(r) <==> m.start.row <= r.row && r.row <= m.end.row && m.start.col <= r.col && r.col
            <= m.end.col,
        m.start.row <= m.end.row && m.start.col <= m.end.col ==> m.covers(m.start) && m.covers(
            m.end,
        ),
{
}

/// Two regions with ordered corners overlap exactly when some cell lies in both.
pub proof fn law_overlap_means_a_common_cell(a: MergedRegion, b: MergedRegion)
    requires
        a.valid(),
        b.valid(),
    ensures
        overlap(a, b) <==> exists|r: CellRef| #[trigger] a.covers(r) && b.covers(r),
{
    if overlap(a, b) {
        let r = CellRef {
            row: if a.start.row >= b.start.row {
                a.start.row
            } else {
                b.start.row
            },
            col: if a.start.col >= b.start.col {
                a.start.col
            } else {
                b.start.col
            },
        };
        assert(a.covers(r) && b.covers(r));
    }
}

/// Whether one region overlaps another does not depend on which comes first.
pub proof fn law_overlap_is_symmetric(a: MergedRegion, b: MergedRegion)
    ensures
        overlap(a, b) == overlap(b, a),
{
}

/// Every region has ordered corners and no two of them overlap.
pub open spec fn disjoint(areas: Seq<MergedRegion>) -> bool {
    &&& forall|i: int| 0 <= i < areas.len() ==> (#[trigger] areas[i]).valid()
    &&& forall|i: int, j: int|
        0 <= i < j < areas.len() ==> !overlap(#[trigger] areas[i], #[trigger] areas[j])
}

/// Of the regions that `active` lists, which lie side by side from left to
/// right, how many begin at or before column `col`.
fn begun_by(areas: &Vec<MergedRegion>, active: &Vec<usize>, col: u32) -> (p: usize)
    requires
        forall|a: int| 0 <= a < active@.len() ==> #[trigger] active@[a] < areas@.len(),
        forall|a: int, b: int|
            #![trigger active@[a], active@[b]]
            0 <= a < b < active@.len() ==> areas@[active@[a] as int].start.col
                <= areas@[active@[b] as int].start.col,
    ensures
        p <= active@.len(),
        forall|a: int|
            0 <= a < p ==> areas@[#[trigger] active@[a] as int].start.col <= col,
        forall|a: int|
            p <= a < active@.len() ==> areas@[#[trigger] active@[a] as int].start.col > col,
{
    let mut lo: usize = 0;
    let mut hi: usize = active.len();
    while lo < hi
        invariant
            lo <= hi <= active@.len(),
            forall|a: int| 0 <= a < active@.len() ==> #[trigger] active@[a] < areas@.len(),
            forall|a: int, b: int|
                #![trigger active@[a], active@[b]]
                0 <= a < b < active@.len() ==> areas@[active@[a] as int].start.col
                    <= areas@[active@[b] as int].start.col,
            forall|a: int|
                0 <= a < lo ==> areas@[#[trigger] active@[a] as int].start.col <= col,
            forall|a: int|
                hi <= a < active@.len() ==> areas@[#[trigger] active@[a] as int].start.col > col,
        decreases hi - lo,
    {
        let mid: usize = lo + (hi - lo) / 2;
        if areas[active[mid]].start.col <= col {
            lo = mid + 1;
        } else {
            hi = mid;
        }
    }
    lo
}

/// The active regions of a sweep lie side by side, all cross `row`, and are
/// among the first `s` of `order`.
spec fn sweep_inv(
    areas: Seq<MergedRegion>,
    order: Seq<int>,
    active: Seq<usize>,
    s: int,
    row: u32,
    min_end: u32,
) -> bool {
    &&& forall|a: int|
        #![trigger active[a]]
        0 <= a < active.len() ==> {
            &&& active[a] < areas.len()
            &&& areas[active[a] as int].start.row <= row <= areas[active[a] as int].end.row
            &&& min_end <= areas[active[a] as int].end.row
            &&& exists|p: int| 0 <= p < s && #[trigger] order[p] == active[a]
        }
    &&& forall|a: int, b: int|
        #![trigger active[a], active[b]]
        0 <= a < b < active.len() ==> areas[active[a] as int].end.col < areas[active[b] as int].start.col
    &&& forall|p: int|
        #![trigger order[p]]
        0 <= p < s ==> areas[order[p]].end.row < row || active.contains(order[p] as usize)
}

proof fn lemma_sorted_starts(areas: Seq<MergedRegion>, active: Seq<usize>)
    requires
        forall|i: int| 0 <= i < areas.len() ==> (#[trigger] areas[i]).valid(),
        forall|a: int| 0 <= a < active.len() ==> #[trigger] active[a] < areas.len(),
        forall|a: int, b: int|
            #![trigger active[a], active[b]]
            0 <= a < b < active.len() ==> areas[active[a] as int].end.col
                < areas[active[b] as int].start.col,
    ensures
        forall|a: int, b: int|
            #![trigger active[a], active[b]]
            0 <= a < b < active.len() ==> areas[active[a] as int].start.col
                <= areas[active[b] as int].start.col,
{
    assert forall|a: int, b: int|
        #![trigger active[a], active[b]]
        0 <= a < b < active.len() implies areas[active[a] as int].start.col
        <= areas[active[b] as int].start.col by {
        assert(areas[active[a] as int].valid());
    }
}

/// Drops from `active` what ends above `row`, and gives the least last row of
/// what stays.
fn expire(
    areas: &Vec<MergedRegion>,
    active: &Vec<usize>,
    row: u32,
    Ghost(order): Ghost<Seq<int>>,
    Ghost(s): Ghost<int>,
    Ghost(prev): Ghost<u32>,
    Ghost(min_end): Ghost<u32>,
) -> (r: (Vec<usize>, u32))
    requires
        prev <= row,
        sweep_inv(areas@, order, active@, s, prev, min_end),
        forall|p: int| 0 <= p < s ==> 0 <= #[trigger] order[p] < areas@.len(),
    ensures
        sweep_inv(areas@, order, r.0@, s, row, r.1),
{
    assert(areas@.len() == areas.len());
    let mut kept: Vec<usize> = Vec::new();
    let mut least: u32 = u32::MAX;
    let mut a: usize = 0;
    while a < active.len()
        invariant
            a <= active@.len(),
            prev <= row,
            sweep_inv(areas@, order, active@, s, prev, min_end),
            forall|k: int|
                #![trigger kept@[k]]
                0 <= k < kept@.len() ==> {
                    &&& exists|q: int| 0 <= q < a && #[trigger] active@[q] == kept@[k]
                    &&& areas@[kept@[k] as int].end.row >= row
                    &&& least <= areas@[kept@[k] as int].end.row
                },
            forall|k: int, l: int|
                #![trigger kept@[k], kept@[l]]
                0 <= k < l < kept@.len() ==> areas@[kept@[k] as int].end.col
                    < areas@[kept@[l] as int].start.col,
            forall|q: int|
                #![trigger active@[q]]
                0 <= q < a ==> areas@[active@[q] as int].end.row < row || kept@.contains(active@[q]),
        decreases active@.len() - a,
    {
        let i: usize = active[a];
        let end: u32 = areas[i].end.row;
        let ghost before = kept@;
        if end >= row {
            kept.push(i);
            if end < least {
                least = end;
            }
            proof {
                assert(kept@[kept@.len() - 1] == i);
                assert forall|q: int| #![trigger active@[q]] 0 <= q < a + 1 implies areas@[active@[q] as int].end.row
                    < row || kept@.contains(active@[q]) by {
                    if q < a && areas@[active@[q] as int].end.row >= row {
                        assert(before.contains(active@[q]));
                        let z = choose|z: int| 0 <= z < before.len() && before[z] == active@[q];
                        assert(kept@[z] == active@[q]);
                    }
                }
                assert forall|k: int, l: int|
                    #![trigger kept@[k], kept@[l]]
                    0 <= k < l < kept@.len() implies areas@[kept@[k] as int].end.col
                    < areas@[kept@[l] as int].start.col by {
                    if l == kept@.len() - 1 {
                        let q = choose|q: int| 0 <= q < a && #[trigger] active@[q] == before[k];
                        assert(kept@[k] == before[k]);
                        assert(active@[q] == kept@[k] && active@[a as int] == kept@[l]);
                    } else {
                        assert(before[k] == kept@[k] && before[l] == kept@[l]);
                    }
                }
                assert forall|k: int| #![trigger kept@[k]] 0 <= k < kept@.len() implies {
                    &&& exists|q: int| 0 <= q < a + 1 && #[trigger] active@[q] == kept@[k]
                    &&& areas@[kept@[k] as int].end.row >= row
                    &&& least <= areas@[kept@[k] as int].end.row
                } by {
                    if k < before.len() {
                        assert(kept@[k] == before[k]);
                        let q = choose|q: int| 0 <= q < a && #[trigger] active@[q] == before[k];
                        assert(active@[q] == kept@[k]);
                    } else {
                        assert(active@[a as int] == kept@[k]);
                    }
                }
            }
        }
        a += 1;
    }
    proof {
        assert forall|k: int| #![trigger kept@[k]] 0 <= k < kept@.len() implies {
            &&& kept@[k] < areas@.len()
            &&& areas@[kept@[k] as int].start.row <= row <= areas@[kept@[k] as int].end.row
            &&& least <= areas@[kept@[k] as int].end.row
            &&& exists|p: int| 0 <= p < s && #[trigger] order[p] == kept@[k]
        } by {
            let q = choose|q: int| 0 <= q < active@.len() && #[trigger] active@[q] == kept@[k];
            assert(active@[q] == kept@[k]);
        }
        assert forall|p: int| #![trigger order[p]] 0 <= p < s implies areas@[order[p]].end.row < row
            || kept@.contains(order[p] as usize) by {
            if areas@[order[p]].end.row >= row {
                assert(active@.contains(order[p] as usize));
                let q = choose|q: int| 0 <= q < active@.len() && active@[q] == order[p] as usize;
                assert(kept@.contains(active@[q]));
            }
        }
    }
    (kept, least)
}

/// Adds region `i`, which crosses `row`, to the active regions.
fn enter(
    areas: &Vec<MergedRegion>,
    active: &mut Vec<usize>,
    i: usize,
    row: u32,
    Ghost(order): Ghost<Seq<int>>,
    Ghost(s): Ghost<int>,
    Ghost(min_end): Ghost<u32>,
)
    requires
        disjoint(areas@),
        i < areas@.len(),
        areas@[i as int].start.row <= row <= areas@[i as int].end.row,
        0 <= s < order.len(),
        order[s] == i,
        forall|p: int| 0 <= p < s ==> #[trigger] order[p] != i && 0 <= order[p] < areas@.len(),
        sweep_inv(areas@, order, old(active)@, s, row, min_end),
    ensures
        sweep_inv(
            areas@,
            order,
            final(active)@,
            s + 1,
            row,
            if areas@[i as int].end.row < min_end {
                areas@[i as int].end.row
            } else {
                min_end
            },
        ),
{
    proof {
        lemma_sorted_starts(areas@, active@);
    }
    let p: usize = begun_by(areas, active, areas[i].start.col);
    let ghost before = active@;
    active.insert(p, i);
    proof {
        let area = areas@[i as int];
        assert(area.valid());
        assert forall|a: int| 0 <= a < before.len() implies (#[trigger] before[a]) != i && (a < p
            ==> areas@[before[a] as int].end.col < area.start.col) && (a >= p ==> area.end.col
            < areas@[before[a] as int].start.col) by {
            let q = choose|q: int| 0 <= q < s && #[trigger] order[q] == before[a];
            assert(order[q] != i);
            let other = areas@[before[a] as int];
            assert(other.valid());
            if before[a] < i {
                assert(!overlap(areas@[before[a] as int], areas@[i as int]));
            } else {
                assert(!overlap(areas@[i as int], areas@[before[a] as int]));
            }
        }
        assert forall|a: int| 0 <= a < active@.len() implies (#[trigger] active@[a]) == (if a < p {
            before[a]
        } else if a == p {
            i
        } else {
            before[a - 1]
        }) by {}
        assert forall|a: int, b: int|
            #![trigger active@[a], active@[b]]
            0 <= a < b < active@.len() implies areas@[active@[a] as int].end.col
            < areas@[active@[b] as int].start.col by {
            let x = if a < p {
                a
            } else {
                a - 1
            };
            let y = if b < p {
                b
            } else {
                b - 1
            };
            if a != p {
                assert(active@[a] == before[x]);
            }
            if b != p {
                assert(active@[b] == before[y]);
            }
        }
        assert forall|a: int| #![trigger active@[a]] 0 <= a < active@.len() implies {
            &&& active@[a] < areas@.len()
            &&& areas@[active@[a] as int].start.row <= row <= areas@[active@[a] as int].end.row
            &&& exists|q: int| 0 <= q < s + 1 && #[trigger] order[q] == active@[a]
        } by {
            if a == p {
                assert(order[s] == active@[a]);
            } else {
                let x = if a < p {
                    a
                } else {
                    a - 1
                };
                assert(active@[a] == before[x]);
                let q = choose|q: int| 0 <= q < s && #[trigger] order[q] == before[x];
                assert(order[q] == active@[a]);
            }
        }
        assert forall|q: int| #![trigger order[q]] 0 <= q < s + 1 implies areas@[order[q]].end.row
            < row || active@.contains(order[q] as usize) by {
            if q == s {
                assert(active@[p as int] == i);
            } else if areas@[order[q]].end.row >= row {
                assert(before.contains(order[q] as usize));
                let x = choose|x: int| 0 <= x < before.len() && before[x] == order[q] as usize;
                if x < p {
                    assert(active@[x] == order[q] as usize);
                } else {
                    assert(active@[x + 1] == order[q] as usize);
                }
            }
        }
    }
}

/// Which area, if any, covers a cell, as an index into the areas.
pub open spec fn is_cover(areas: Seq<MergedRegion>, r: CellRef, found: Option<usize>) -> bool {
    match found {
        Some(i) => i < areas.len() && areas[i as int].covers(r),
        None => forall|i: int| 0 <= i < areas.len() ==> !(#[trigger] areas[i]).covers(r),
    }
}

/// The active region that covers a cell of row `row`, if there is one.
fn locate(
    areas: &Vec<MergedRegion>,
    active: &Vec<usize>,
    cell: CellRef,
    Ghost(order): Ghost<Seq<int>>,
    Ghost(s): Ghost<int>,
    Ghost(min_end): Ghost<u32>,
) -> (found: Option<usize>)
    requires
        disjoint(areas@),
        sweep_inv(areas@, order, active@, s, cell.row, min_end),
        0 <= s <= order.len(),
        order.len() == areas@.len(),
        forall|p: int| 0 <= p < order.len() ==> 0 <= #[trigger] order[p] < areas@.len(),
        forall|k: int| 0 <= k < areas@.len() ==> #[trigger] order.contains(k),
        forall|p: int|
            s <= p < order.len() ==> areas@[#[trigger] order[p]].start.row > cell.row,
    ensures
        is_cover(areas@, cell, found),
{
    proof {
        assert(areas@.len() == areas.len());
        lemma_sorted_starts(areas@, active@);
    }
    let p: usize = begun_by(areas, active, cell.col);
    proof {
        assert forall|j: int| 0 <= j < areas@.len() && (#[trigger] areas@[j]).covers(cell) implies p > 0
            && active@[p - 1] == j by {
            assert(order.contains(j));
            let q = choose|q: int| 0 <= q < order.len() && order[q] == j;
            assert(q < s);
            assert(active@.contains(order[q] as usize));
            let b = choose|b: int| 0 <= b < active@.len() && active@[b] == order[q] as usize;
            assert(areas@[active@[b] as int].start.col <= cell.col);
            assert(b < p);
            if b < p - 1 {
                assert(areas@[active@[b] as int].end.col < areas@[active@[p - 1] as int].start.col);
            }
        }
    }
    if p == 0 {
        return None;
    }
    let candidate: usize = active[p - 1];
    if cell.col <= areas[candidate].end.col {
        Some(candidate)
    } else {
        None
    }
}

/// For each of `cells`, which come in row-major order, the area that covers it.
/// Sweeps down the rows with the areas that cross the current row at hand.
pub fn cover(areas: &Vec<MergedRegion>, cells: &Vec<CellRef>) -> (found: Vec<Option<usize>>)
    requires
        disjoint(areas@),
        forall|i: int, j: int|
            0 <= i < j < cells@.len() ==> (#[trigger] cells@[i]).row <= (#[trigger] cells@[j]).row,
    ensures
        found@.len() == cells@.len(),
        forall|k: int|
            0 <= k < cells@.len() ==> is_cover(areas@, cells@[k], #[trigger] found@[k]),
{
    let mut starts: Vec<u32> = Vec::new();
    let mut n: usize = 0;
    while n < areas.len()
        invariant
            n <= areas@.len(),
            starts@.len() == n,
            forall|i: int| 0 <= i < n ==> #[trigger] starts@[i] == areas@[i].start.row,
        decreases areas@.len() - n,
    {
        starts.push(areas[n].start.row);
        n += 1;
    }
    let order: Vec<usize> = sort::order_by(&starts);
    let ghost ints = sort::as_ints(order@);
    assert forall|p: int| 0 <= p < order@.len() implies #[trigger] order@[p] == ints[p] by {}
    let mut active: Vec<usize> = Vec::new();
    let mut min_end: u32 = u32::MAX;
    let mut s: usize = 0;
    let mut found: Vec<Option<usize>> = Vec::new();
    let mut k: usize = 0;
    let mut prev: u32 = 0;
    while k < cells.len()
        invariant
            disjoint(areas@),
            forall|i: int, j: int|
                0 <= i < j < cells@.len() ==> (#[trigger] cells@[i]).row <= (
                #[trigger] cells@[j]).row,
            k <= cells@.len(),
            k < cells@.len() ==> prev <= cells@[k as int].row,
            starts@.len() == areas@.len(),
            forall|i: int| 0 <= i < areas@.len() ==> #[trigger] starts@[i] == areas@[i].start.row,
            ints == sort::as_ints(order@),
            sort::is_order(starts@, ints),
            forall|p: int| 0 <= p < order@.len() ==> #[trigger] order@[p] == ints[p],
            s <= order@.len(),
            sweep_inv(areas@, ints, active@, s as int, prev, min_end),
            found@.len() == k,
            forall|q: int|
                0 <= q < k ==> is_cover(areas@, cells@[q], #[trigger] found@[q]),
        decreases cells@.len() - k,
    {
        let cell: CellRef = cells[k];
        let row: u32 = cell.row;
        if min_end < row {
            let (kept, least) = expire(
                areas,
                &active,
                row,
                Ghost(ints),
                Ghost(s as int),
                Ghost(prev),
                Ghost(min_end),
            );
            active = kept;
            min_end = least;
        } else {
            assert(sweep_inv(areas@, ints, active@, s as int, row, min_end));
        }
        while s < order.len() && starts[order[s]] <= row
            invariant
                disjoint(areas@),
                starts@.len() == areas@.len(),
                forall|i: int|
                    0 <= i < areas@.len() ==> #[trigger] starts@[i] == areas@[i].start.row,
                ints == sort::as_ints(order@),
                sort::is_order(starts@, ints),
                forall|p: int| 0 <= p < order@.len() ==> #[trigger] order@[p] == ints[p],
                s <= order@.len(),
                sweep_inv(areas@, ints, active@, s as int, row, min_end),
            decreases order@.len() - s,
        {
            let i: usize = order[s];
            assert(ints[s as int] == i);
            if areas[i].end.row >= row {
                enter(areas, &mut active, i, row, Ghost(ints), Ghost(s as int), Ghost(min_end));
                if areas[i].end.row < min_end {
                    min_end = areas[i].end.row;
                }
            }
            s += 1;
        }
        proof {
            assert forall|p: int| s <= p < ints.len() implies areas@[#[trigger] ints[p]].start.row
                > row by {
                if s < ints.len() {
                    assert(ints[s as int] == order@[s as int]);
                    assert(starts@[ints[p]] == areas@[ints[p]].start.row);
                    if p > s {
                        assert(starts@[ints[s as int]] <= starts@[ints[p]]);
                    }
                }
            }
        }
        found.push(locate(areas, &active, cell, Ghost(ints), Ghost(s as int), Ghost(min_end)));
        prev = row;
        k += 1;
    }
    found
}

} // verus!
