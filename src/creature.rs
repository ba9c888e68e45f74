//! One candidate tour, and the ways to make and vary one.
use crate::distance::DistanceMap;
use crate::random::{draw_u32, shuffle_in_place};
use crate::tour::{
    absent_from, ascending, crossover, is_tour, lemma_ascending_is_tour, lemma_crossover_tour,
    lemma_rearranged_tour, lemma_swapped_tour, swapped, wrapped_index, wrapped_slice,
};
use vstd::prelude::*;

verus! {

/// The cost given to a tour that takes a pair missing from the distance table.
/// Any tour whose pairs are all present costs less.
pub const UNREACHABLE: u64 = u64::MAX;

/// A candidate tour: the cities in the order visited, the last one leading back
/// to the first.
pub struct Creature {
    pub cities: Vec<u32>,
}

impl View for Creature {
    type V = Seq<u32>;

    open spec fn view(&self) -> Seq<u32> {
        self.cities@
    }
}

/// The position visited before position `i` on a round trip of `len` stops.
pub open spec fn prev_index(len: int, i: int) -> int {
    if i == 0 {
        len - 1
    } else {
        i - 1
    }
}

/// The cost of the leg that arrives at position `i` of `s`.
pub open spec fn leg_cost(dm: &DistanceMap, s: Seq<u32>, i: int) -> Option<u32> {
    dm.cost_spec(s[prev_index(s.len() as int, i)], s[i])
}

/// The summed cost of the legs arriving at the first `k` positions of `s`, or
/// `None` if one of them is missing from the table.
pub open spec fn prefix_cost(dm: &DistanceMap, s: Seq<u32>, k: nat) -> Option<int>
    decreases k,
{
    if k == 0 {
        Some(0)
    } else {
        match (prefix_cost(dm, s, (k - 1) as nat), leg_cost(dm, s, k - 1)) {
            (Some(a), Some(c)) => Some(a + c),
            _ => None,
        }
    }
}

/// The cost of the round trip `s`: the sum of all its legs, the one from the
/// last city back to the first included, or `UNREACHABLE` if a leg is missing.
pub open spec fn tour_cost(dm: &DistanceMap, s: Seq<u32>) -> int {
    match prefix_cost(dm, s, s.len()) {
        Some(c) => c,
        None => UNREACHABLE as int,
    }
}

proof fn lemma_prefix_missing(dm: &DistanceMap, s: Seq<u32>, k: nat, m: nat)
    requires
        k <= m,
        prefix_cost(dm, s, k) is None,
    ensures
        prefix_cost(dm, s, m) is None,
    decreases m - k,
{
    if k < m {
        lemma_prefix_missing(dm, s, k, (m - 1) as nat);
    }
}

/// Whether `v` holds `x` among its first `k` entries.
fn prefix_contains(v: &Vec<u32>, k: usize, x: u32) -> (r: bool)
    requires
        k <= v@.len(),
    ensures
        r == v@.subrange(0, k as int).contains(x),
{
    let mut i: usize = 0;
    while i < k
        invariant
            k <= v@.len(),
            i <= k,
            !v@.subrange(0, i as int).contains(x),
        decreases k - i,
    {
        if v[i] == x {
            assert(v@.subrange(0, k as int)[i as int] == x);
            return true;
        }
        assert(v@.subrange(0, i as int + 1) =~= v@.subrange(0, i as int).push(v@[i as int]));
        i = i + 1;
    }
    false
}

impl Clone for Creature {
    /// A copy with the same tour.
    fn clone(&self) -> (r: Self)
        ensures
            r@ == self@,
    {
        let mut cities: Vec<u32> = Vec::new();
        let mut i: usize = 0;
        while i < self.cities.len()
            invariant
                i <= self.cities@.len(),
                cities@ == self.cities@.subrange(0, i as int),
            decreases self.cities@.len() - i,
        {
            cities.push(self.cities[i]);
            i = i + 1;
            assert(cities@ =~= self.cities@.subrange(0, i as int));
        }
        assert(cities@ =~= self.cities@);
        Creature { cities }
    }
}

impl Creature {
    /// A uniformly shuffled tour of the cities `0 .. num_cities`.
    pub fn new_random(rng: &mut rand::Isaac64Rng, num_cities: u32) -> (r: Creature)
        ensures
            is_tour(r@, num_cities as nat),
    {
        let mut v: Vec<u32> = Vec::new();
        let mut x: u32 = 0;
        while x < num_cities
            invariant
                x <= num_cities,
                v@ == ascending(x as nat),
            decreases num_cities - x,
        {
            v.push(x);
            x = x + 1;
            assert(v@ =~= ascending(x as nat));
        }
        let ghost before = v@;
        shuffle_in_place(rng, &mut v);
        proof {
            lemma_ascending_is_tour(num_cities as nat);
            lemma_rearranged_tour(before, v@, num_cities as nat);
        }
        Creature { cities: v }
    }

    /// Exchanges the cities at positions `i` and `j`.
    pub fn swap_cities(&mut self, i: usize, j: usize)
        requires
            i < old(self)@.len(),
            j < old(self)@.len(),
        ensures
            final(self)@ == swapped(old(self)@, i as int, j as int),
    {
        let a = self.cities[i];
        let b = self.cities[j];
        self.cities[i] = b;
        self.cities[j] = a;
        assert(self@ =~= swapped(old(self)@, i as int, j as int));
    }

    /// Swaps the cities at two positions drawn uniformly and independently; when
    /// the two coincide nothing changes.
    pub fn mutate(&mut self, rng: &mut rand::Isaac64Rng, num_cities: u32)
        requires
            old(self)@.len() == num_cities as nat,
            num_cities > 0,
        ensures
            exists|i: int, j: int|
                0 <= i < num_cities && 0 <= j < num_cities && final(self)@ == #[trigger] swapped(old(self)@, i, j),
            is_tour(old(self)@, num_cities as nat) ==> is_tour(final(self)@, num_cities as nat),
    {
        let ind_a = (draw_u32(rng) % num_cities) as usize;
        let ind_b = (draw_u32(rng) % num_cities) as usize;
        self.swap_cities(ind_a, ind_b);
        proof {
            if is_tour(old(self)@, num_cities as nat) {
                lemma_swapped_tour(old(self)@, ind_a as int, ind_b as int, num_cities as nat);
            }
        }
    }

    /// The child whose tour starts with the `count` cities of `self` from
    /// position `offset` on (wrapping round the end), followed by the cities of
    /// `other` that are not yet in it, in `other`'s order.
    pub fn crossover_at(&self, other: &Creature, offset: usize, count: usize) -> (r: Creature)
        requires
            offset < self@.len(),
            count <= self@.len(),
        ensures
            r@ == crossover(self@, other@, offset as int, count as int),
    {
        let len = self.cities.len();
        let ghost head = wrapped_slice(self@, offset as int, count as int);
        let mut v: Vec<u32> = Vec::with_capacity(len);
        let mut i: usize = 0;
        while i < count
            invariant
                offset < len == self@.len(),
                count <= len,
                i <= count,
                v@ == wrapped_slice(self@, offset as int, i as int),
            decreases count - i,
        {
            let index = if i < len - offset { i + offset } else { i - (len - offset) };
            assert(index as int == wrapped_index(len as int, offset as int, i as int));
            v.push(self.cities[index]);
            i = i + 1;
            assert(v@ =~= wrapped_slice(self@, offset as int, i as int));
        }
        assert(v@ == head);
        let mut j: usize = 0;
        while j < other.cities.len()
            invariant
                count <= len,
                head.len() == count,
                j <= other@.len(),
                v@ == head + absent_from(other@.subrange(0, j as int), head),
            decreases other@.len() - j,
        {
            let x = other.cities[j];
            assert(v@.subrange(0, count as int) =~= head);
            let ghost prefix = other@.subrange(0, j as int + 1);
            assert(prefix.drop_last() =~= other@.subrange(0, j as int));
            assert(prefix.last() == x);
            if !prefix_contains(&v, count, x) {
                v.push(x);
                assert(v@ =~= head + absent_from(prefix, head));
            }
            j = j + 1;
        }
        assert(other@.subrange(0, other@.len() as int) =~= other@);
        Creature { cities: v }
    }

    /// A child of `self` and `other`: a slice of `self` starting at an offset
    /// drawn from `0 .. num_cities`, of a length drawn from `0 ..= num_cities`,
    /// completed from `other`.
    pub fn breed_with(&self, other: &Creature, rng: &mut rand::Isaac64Rng, num_cities: u32) -> (r: Creature)
        requires
            self@.len() == num_cities as nat,
            other@.len() == num_cities as nat,
            num_cities > 0,
        ensures
            exists|offset: int, count: int|
                0 <= offset < num_cities && 0 <= count <= num_cities && r@ == #[trigger] crossover(self@, other@, offset, count),
            is_tour(self@, num_cities as nat) && is_tour(other@, num_cities as nat) ==> is_tour(r@, num_cities as nat),
    {
        let offset = (draw_u32(rng) % num_cities) as usize;
        let count = ((draw_u32(rng) as u64) % (num_cities as u64 + 1)) as usize;
        let r = self.crossover_at(other, offset, count);
        proof {
            if is_tour(self@, num_cities as nat) && is_tour(other@, num_cities as nat) {
                lemma_crossover_tour(self@, other@, offset as int, count as int, num_cities as nat);
            }
        }
        r
    }

    /// The cost of the round trip, or `UNREACHABLE` if the table misses a leg.
    pub fn fitness(&self, dm: &DistanceMap) -> (r: u64)
        requires
            self@.len() <= u32::MAX as nat,
        ensures
            r as int == tour_cost(dm, self@),
            r < UNREACHABLE <==> prefix_cost(dm, self@, self@.len()) is Some,
    {
        let len = self.cities.len();
        if len == 0 {
            return 0;
        }
        let mut tot: u64 = 0;
        let mut prev = self.cities[len - 1];
        let mut i: usize = 0;
        while i < len
            invariant
                0 < len == self@.len() <= u32::MAX as nat,
                i <= len,
                prefix_cost(dm, self@, i as nat) == Some(tot as int),
                tot as int <= i as int * (u32::MAX as int),
                i < len ==> prev == self@[prev_index(len as int, i as int)],
            decreases len - i,
        {
            let city = self.cities[i];
            match dm.cost(prev, city) {
                Some(c) => {
                    assert((i as int + 1) * (u32::MAX as int) <= (u32::MAX as int) * (u32::MAX as int)) by (nonlinear_arith)
                        requires
                            i as int + 1 <= u32::MAX as int,
                    ;
                    assert(i as int * (u32::MAX as int) + u32::MAX as int == (i as int + 1) * (u32::MAX as int)) by (nonlinear_arith);
                    tot = tot + c as u64;
                },
                None => {
                    proof {
                        lemma_prefix_missing(dm, self@, i as nat + 1, len as nat);
                    }
                    return UNREACHABLE;
                },
            }
            prev = city;
            i = i + 1;
        }
        assert(len as int * (u32::MAX as int) <= (u32::MAX as int) * (u32::MAX as int)) by (nonlinear_arith)
            requires
                len as int <= u32::MAX as int,
        ;
        tot
    }
}

} // verus!
