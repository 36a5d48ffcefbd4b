//! A sparse map from cell coordinates to values, kept in row-major order.
use crate::model::cell::CellRef;
use std::collections::BTreeMap;
use vstd::prelude::*;
use vstd::std_specs::btree::*;

verus! {

broadcast use group_btree_axioms;

/// A sparse map keyed by cell coordinates.
#[derive(Debug, Clone, PartialEq)]
pub struct GridMap<V> {
    map: BTreeMap<u64, V>,
}

/// The key of a cell: row-major, so that keys order as reading does.
spec fn key(r: CellRef) -> u64 {
    (r.row as int * 0x1_0000_0000 + r.col as int) as u64
}

fn key_of(r: CellRef) -> (k: u64)
    ensures
        k == key(r),
        k as int == r.row as int * 0x1_0000_0000 + r.col as int,
{
    (r.row as u64) * 0x1_0000_0000 + r.col as u64
}

fn ref_of(k: u64) -> (r: CellRef)
    ensures
        key(r) == k,
{
    CellRef { row: (k / 0x1_0000_0000) as u32, col: (k % 0x1_0000_0000) as u32 }
}

/// `a` comes before `b` when a sheet is read row by row.
pub open spec fn before(a: CellRef, b: CellRef) -> bool {
    a.row < b.row || (a.row == b.row && a.col < b.col)
}

proof fn lemma_key(a: CellRef, b: CellRef)
    ensures
        key(a) == key(b) <==> a == b,
        key(a) < key(b) <==> before(a, b),
{
    assert(key(a) as int == a.row as int * 0x1_0000_0000 + a.col as int);
    assert(key(b) as int == b.row as int * 0x1_0000_0000 + b.col as int);
}

/// Whether `entries` lists `map` in row-major order, each cell once.
pub open spec fn lists<V>(entries: Seq<(CellRef, &V)>, map: Map<CellRef, V>) -> bool {
    &&& forall|i: int|
        #![trigger entries[i]]
        0 <= i < entries.len() ==> map.contains_key(entries[i].0) && *entries[i].1
            == map[entries[i].0]
    &&& forall|i: int, j: int|
        #![trigger entries[i], entries[j]]
        0 <= i < j < entries.len() ==> before(entries[i].0, entries[j].0)
    &&& forall|r: CellRef| #[trigger]
        map.contains_key(r) ==> exists|i: int|
            0 <= i < entries.len() && (#[trigger] entries[i]).0 == r
}

impl<V> View for GridMap<V> {
    type V = Map<CellRef, V>;

    closed spec fn view(&self) -> Map<CellRef, V> {
        Map::new(|r: CellRef| self.map@.contains_key(key(r)), |r: CellRef| self.map@[key(r)])
    }
}

impl<V> GridMap<V> {
    /// An empty map.
    pub fn new() -> (m: GridMap<V>)
        ensures
            m@ == Map::<CellRef, V>::empty(),
    {
        let m = GridMap { map: BTreeMap::new() };
        assert(m@ =~= Map::<CellRef, V>::empty());
        m
    }

    /// Whether the map holds no cell.
    pub fn is_empty(&self) -> (b: bool)
        ensures
            b <==> forall|r: CellRef| !self@.contains_key(r),
    {
        let b: bool = self.map.is_empty();
        proof {
            if b {
                assert forall|r: CellRef| !self@.contains_key(r) by {
                    assert(!self.map@.contains_key(key(r)));
                }
            } else {
                if forall|r: CellRef| !self@.contains_key(r) {
                    assert forall|k: u64| !self.map@.contains_key(k) by {
                        let r = CellRef {
                            row: (k as int / 0x1_0000_0000) as u32,
                            col: (k as int % 0x1_0000_0000) as u32,
                        };
                        assert(key(r) == k);
                        assert(!self@.contains_key(r));
                    }
                    assert(self.map@ =~= Map::<u64, V>::empty());
                }
            }
        }
        b
    }

    /// Whether the map holds a value at `r`.
    pub fn contains(&self, r: CellRef) -> (b: bool)
        ensures
            b == self@.contains_key(r),
    {
        self.map.contains_key(&key_of(r))
    }

    /// The value at `r`.
    pub fn get(&self, r: CellRef) -> (v: Option<&V>)
        ensures
            match v {
                Some(x) => self@.contains_key(r) && *x == self@[r],
                None => !self@.contains_key(r),
            },
    {
        self.map.get(&key_of(r))
    }

    /// Puts a value at `r`, in place of the one that was there.
    pub fn insert(&mut self, r: CellRef, value: V)
        ensures
            final(self)@ == old(self)@.insert(r, value),
    {
        self.map.insert(key_of(r), value);
        proof {
            assert forall|q: CellRef| (key(q) == key(r)) == (q == r) by {
                lemma_key(q, r);
            }
            assert(self@ =~= old(self)@.insert(r, value));
        }
    }

    /// Takes the value at `r` out of the map.
    pub fn remove(&mut self, r: CellRef) -> (v: Option<V>)
        ensures
            final(self)@ == old(self)@.remove(r),
            match v {
                Some(x) => old(self)@.contains_key(r) && x == old(self)@[r],
                None => !old(self)@.contains_key(r),
            },
    {
        let v = self.map.remove(&key_of(r));
        proof {
            assert forall|q: CellRef| (key(q) == key(r)) == (q == r) by {
                lemma_key(q, r);
            }
            assert(self@ =~= old(self)@.remove(r));
        }
        v
    }

    /// Every cell with its value, in row-major order.
    pub fn entries(&self) -> (out: Vec<(CellRef, &V)>)
        ensures
            lists(out@, self@),
    {
        let mut out: Vec<(CellRef, &V)> = Vec::new();
        let it = self.map.iter();
        let ghost all: Seq<(&u64, &V)> = vstd::std_specs::iter::IteratorSpec::remaining(
            &it,
        );
        for entry in iter: it
            invariant
                iter.seq() == all,
                out@.len() == iter.index(),
                forall|i: int|
                    #![trigger out@[i]]
                    0 <= i < out@.len() ==> key(out@[i].0) == *all[i].0 && *out@[i].1 == *all[i].1,
        {
            out.push((ref_of(*entry.0), entry.1));
        }
        proof {
            let keys = all.map_values(|kv: (&u64, &V)| *kv.0);
            assert(increasing_seq(keys));
            assert forall|i: int| #![trigger out@[i]] 0 <= i < out@.len() implies self@.contains_key(
                out@[i].0,
            ) && *out@[i].1 == self@[out@[i].0] by {
                assert(self.map@.contains_key(*all[i].0));
            }
            assert forall|i: int, j: int|
                #![trigger out@[i], out@[j]]
                0 <= i < j < out@.len() implies before(out@[i].0, out@[j].0) by {
                assert(vstd::std_specs::cmp::OrdSpec::cmp_spec(&keys[i], &keys[j]) is Less);
                lemma_key(out@[i].0, out@[j].0);
            }
            assert forall|r: CellRef| #[trigger] self@.contains_key(r) implies exists|i: int|
                0 <= i < out@.len() && (#[trigger] out@[i]).0 == r by {
                assert(self.map@.contains_key(key(r)));
                assert(all.contains((&key(r), &self.map@[key(r)])));
                let i = choose|i: int|
                    0 <= i < all.len() && all[i] == (&key(r), &self.map@[key(r)]);
                lemma_key(out@[i].0, r);
                assert(out@[i].0 == r);
            }
        }
        out
    }
}

} // verus!
