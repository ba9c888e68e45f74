//! Travel costs between cities, as a dense table of integer costs.
use vstd::prelude::*;

verus! {

/// Directed travel costs between the cities `0 .. num_cities`. A missing entry
/// means that the pair cannot be travelled.
pub struct DistanceMap {
    num_cities: u32,
    rows: Vec<Vec<Option<u32>>>,
}

impl DistanceMap {
    pub closed spec fn wf(&self) -> bool {
        &&& self.rows@.len() == self.num_cities as nat
        &&& forall|a: int| 0 <= a < self.rows@.len() ==> #[trigger] self.rows@[a]@.len() == self.num_cities as nat
    }

    /// Number of cities the table covers.
    pub closed spec fn cities(&self) -> nat {
        self.num_cities as nat
    }

    /// The cost of going from `a` to `b`, if the table has it.
    pub closed spec fn cost_spec(&self, a: u32, b: u32) -> Option<u32> {
        if (a as int) < self.rows@.len() && (b as int) < self.rows@[a as int]@.len() {
            self.rows@[a as int]@[b as int]
        } else {
            None
        }
    }

    /// A table over `num_cities` cities with no entries.
    pub fn new(num_cities: u32) -> (r: Self)
        ensures
            r.wf(),
            r.cities() == num_cities as nat,
            forall|a: u32, b: u32| #[trigger] r.cost_spec(a, b) == None::<u32>,
    {
        let mut rows: Vec<Vec<Option<u32>>> = Vec::new();
        let mut i: u32 = 0;
        while i < num_cities
            invariant
                i <= num_cities,
                rows@.len() == i as nat,
                forall|a: int| 0 <= a < rows@.len() ==> #[trigger] rows@[a]@.len() == num_cities as nat,
                forall|a: int, b: int| 0 <= a < rows@.len() && 0 <= b < rows@[a]@.len() ==> #[trigger] rows@[a]@[b] == None::<u32>,
            decreases num_cities - i,
        {
            let mut row: Vec<Option<u32>> = Vec::new();
            let mut j: u32 = 0;
            while j < num_cities
                invariant
                    j <= num_cities,
                    row@.len() == j as nat,
                    forall|b: int| 0 <= b < row@.len() ==> #[trigger] row@[b] == None::<u32>,
                decreases num_cities - j,
            {
                row.push(None);
                j = j + 1;
            }
            rows.push(row);
            i = i + 1;
        }
        DistanceMap { num_cities, rows }
    }

    /// Number of cities the table covers.
    pub fn num_cities(&self) -> (r: u32)
        ensures
            r as nat == self.cities(),
    {
        self.num_cities
    }

    /// Records the cost of going from `a` to `b`; a pair outside the table is ignored.
    pub fn set_cost(&mut self, a: u32, b: u32, cost: u32)
        requires
            old(self).wf(),
        ensures
            final(self).wf(),
            final(self).cities() == old(self).cities(),
            forall|x: u32, y: u32| #[trigger] final(self).cost_spec(x, y) == if x == a && y == b && (a as nat) < old(self).cities() && (b as nat) < old(self).cities() {
                Some(cost)
            } else {
                old(self).cost_spec(x, y)
            },
    {
        if a < self.num_cities && b < self.num_cities {
            let ai = a as usize;
            let mut row: Vec<Option<u32>> = Vec::new();
            std::mem::swap(&mut row, &mut self.rows[ai]);
            row[b as usize] = Some(cost);
            std::mem::swap(&mut row, &mut self.rows[ai]);
        }
    }

    /// The cost of going from `a` to `b`, or `None` where the table has no entry.
    pub fn cost(&self, a: u32, b: u32) -> (r: Option<u32>)
        ensures
            r == self.cost_spec(a, b),
    {
        if (a as usize) < self.rows.len() && (b as usize) < self.rows[a as usize].len() {
            self.rows[a as usize][b as usize]
        } else {
            None
        }
    }
}

} // verus!
