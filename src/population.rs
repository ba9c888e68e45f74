//! Populations of tours: ranking, deduplication, breeding and the era merge.
use crate::config::{Config, MIN_POPULATION};
use crate::creature::{tour_cost, Creature};
use crate::random::{draw_u32, weighted_bool};
use crate::tour::{crossover, is_tour, swapped};
use crate::distance::DistanceMap;
use crate::ranking::{is_ranked, lemma_rank_no_better_transitive, lemma_ranking_unique, lemma_rank_transitive, lemma_rank_trichotomy, ranks_before, ranks_before_by_cost, same_tour};
use vstd::multiset::Multiset;
use vstd::prelude::*;

verus! {

broadcast use vstd::seq_lib::group_to_multiset_ensures;

/// The tours of a population, in its order.
pub open spec fn tours_of(p: Seq<Creature>) -> Seq<Seq<u32>> {
    p.map_values(|c: Creature| c@)
}

/// Every tour of the population has at most `u32::MAX` stops.
pub open spec fn lengths_bounded(p: Seq<Creature>) -> bool {
    forall|i: int| 0 <= i < p.len() ==> (#[trigger] p[i]@.len()) <= u32::MAX as nat
}

/// `s` with each run of equal adjacent entries cut down to its first entry.
pub open spec fn dedup_adjacent(s: Seq<Seq<u32>>) -> Seq<Seq<u32>>
    decreases s.len(),
{
    if s.len() == 0 {
        s
    } else {
        let rest = dedup_adjacent(s.drop_last());
        if s.len() >= 2 && s[s.len() - 2] == s.last() {
            rest
        } else {
            rest.push(s.last())
        }
    }
}

proof fn lemma_push_contains<A>(d: Seq<A>, l: A)
    ensures
        forall|x: A| #[trigger] d.push(l).contains(x) <==> (d.contains(x) || x == l),
{
    assert forall|x: A| #[trigger] d.push(l).contains(x) <==> (d.contains(x) || x == l) by {
        if d.push(l).contains(x) && x != l {
            let i = choose|i: int| 0 <= i < d.push(l).len() && d.push(l)[i] == x;
            assert(d[i] == x);
        }
        if d.contains(x) {
            let i = choose|i: int| 0 <= i < d.len() && d[i] == x;
            assert(d.push(l)[i] == x);
        }
        if x == l {
            assert(d.push(l)[d.len() as int] == x);
        }
    }
}

proof fn lemma_tours_push(p: Seq<Creature>, c: Creature)
    ensures
        tours_of(p.push(c)) == tours_of(p).push(c@),
{
    assert(tours_of(p.push(c)) =~= tours_of(p).push(c@));
}

/// Deduplicating a ranked sequence leaves each tour that it holds exactly once:
/// copies of one tour all go but the first, and no distinct tour is lost.
pub proof fn lemma_dedup_ranked(dm: &DistanceMap, s: Seq<Seq<u32>>)
    requires
        is_ranked(dm, s),
    ensures
        dedup_adjacent(s).no_duplicates(),
        forall|x: Seq<u32>| #[trigger] dedup_adjacent(s).contains(x) <==> s.contains(x),
        is_ranked(dm, dedup_adjacent(s)),
    decreases s.len(),
{
    if s.len() > 0 {
        let d = s.drop_last();
        let l = s.last();
        assert(s == d.push(l));
        assert(is_ranked(dm, d)) by {
            assert forall|i: int, j: int| 0 <= i < j < d.len() implies !ranks_before(dm, #[trigger] d[j], #[trigger] d[i]) by {
                assert(d[j] == s[j] && d[i] == s[i]);
            }
        }
        lemma_dedup_ranked(dm, d);
        lemma_push_contains(d, l);
        let r = dedup_adjacent(d);
        if s.len() >= 2 && s[s.len() - 2] == l {
            assert(d.contains(l)) by {
                assert(d[d.len() - 1] == l);
            }
        } else {
            lemma_push_contains(r, l);
            assert(!d.contains(l)) by {
                if d.contains(l) {
                    let i = choose|i: int| 0 <= i < d.len() && d[i] == l;
                    let m = s.len() - 2;
                    if i < m {
                        assert(!ranks_before(dm, s[m], s[i]));
                    }
                    assert(!ranks_before(dm, s[m + 1], s[m]));
                    lemma_rank_trichotomy(dm, s[m], l);
                }
            }
            assert(!r.contains(l));
            let rl = r.push(l);
            assert forall|i: int, j: int| 0 <= i < rl.len() && 0 <= j < rl.len() && i != j implies rl[i] != rl[j] by {
                if i == rl.len() - 1 {
                    assert(r.contains(rl[j]));
                } else if j == rl.len() - 1 {
                    assert(r.contains(rl[i]));
                }
            }
            assert forall|i: int, j: int| 0 <= i < j < rl.len() implies !ranks_before(dm, #[trigger] rl[j], #[trigger] rl[i]) by {
                if j == rl.len() - 1 {
                    assert(r.contains(rl[i]));
                    assert(d.contains(rl[i]));
                    let k = choose|k: int| 0 <= k < d.len() && d[k] == rl[i];
                    assert(s[k] == rl[i]);
                    assert(s[s.len() - 1] == l);
                } else {
                    assert(rl[i] == r[i] && rl[j] == r[j]);
                }
            }
        }
    }
}

/// Cutting a deduplicated ranking to its first `p` entries keeps the best
/// distinct tours: they are distinct and in rank order, and a tour of the
/// ranking that is left out ranks before none of them.
pub proof fn lemma_truncation_keeps_best(dm: &DistanceMap, s: Seq<Seq<u32>>, p: int)
    requires
        is_ranked(dm, s),
        0 <= p <= dedup_adjacent(s).len(),
    ensures
        dedup_adjacent(s).take(p).len() == p,
        dedup_adjacent(s).take(p).no_duplicates(),
        is_ranked(dm, dedup_adjacent(s).take(p)),
        forall|x: Seq<u32>, i: int|
            s.contains(x) && !dedup_adjacent(s).take(p).contains(x) && 0 <= i < p ==> !#[trigger] ranks_before(
                dm,
                x,
                dedup_adjacent(s).take(p)[i],
            ),
{
    lemma_dedup_ranked(dm, s);
    let d = dedup_adjacent(s);
    let t = d.take(p);
    assert forall|i: int, j: int| 0 <= i < t.len() && 0 <= j < t.len() && i != j implies t[i] != t[j] by {
        assert(t[i] == d[i] && t[j] == d[j]);
    }
    assert forall|i: int, j: int| 0 <= i < j < t.len() implies !ranks_before(dm, #[trigger] t[j], #[trigger] t[i]) by {
        assert(t[i] == d[i] && t[j] == d[j]);
    }
    assert forall|x: Seq<u32>, i: int| s.contains(x) && !t.contains(x) && 0 <= i < p implies !#[trigger] ranks_before(dm, x, t[i]) by {
        assert(d.contains(x));
        let j = choose|j: int| 0 <= j < d.len() && d[j] == x;
        if j < p {
            assert(t[j] == x);
        }
        assert(t[i] == d[i]);
    }
}

/// Sorts the population by rank: cheapest tour first, equal costs in
/// lexicographic order of the tours.
pub fn sort_pop_objectively(population: &mut Vec<Creature>, distances: &DistanceMap)
    requires
        lengths_bounded(old(population)@),
    ensures
        is_ranked(distances, tours_of(final(population)@)),
        tours_of(final(population)@).to_multiset() == tours_of(old(population)@).to_multiset(),
        lengths_bounded(final(population)@),
{
    let ghost all = tours_of(population@).to_multiset();
    let mut sorted: Vec<Creature> = Vec::new();
    let mut costs: Vec<u64> = Vec::new();
    while population.len() > 0
        invariant
            costs@.len() == sorted@.len(),
            forall|k: int| 0 <= k < costs@.len() ==> costs@[k] as int == #[trigger] tour_cost(distances, sorted@[k]@),
            is_ranked(distances, tours_of(sorted@)),
            tours_of(sorted@).to_multiset().add(tours_of(population@).to_multiset()) == all,
            lengths_bounded(population@),
            lengths_bounded(sorted@),
        decreases population@.len(),
    {
        let ghost before = population@;
        let c = match population.pop() {
            Some(c) => c,
            None => { return; },
        };
        proof {
            assert(before == population@.push(c));
            lemma_tours_push(population@, c);
            assert(before[before.len() - 1] == c);
        }
        let cost = c.fitness(distances);
        let mut p: usize = 0;
        let mut found = false;
        while !found && p < sorted.len()
            invariant
                p <= sorted@.len(),
                costs@.len() == sorted@.len(),
                forall|k: int| 0 <= k < costs@.len() ==> costs@[k] as int == #[trigger] tour_cost(distances, sorted@[k]@),
                cost as int == tour_cost(distances, c@),
                forall|q: int| 0 <= q < p ==> !ranks_before(distances, c@, #[trigger] sorted@[q]@),
                found ==> p < sorted@.len() && ranks_before(distances, c@, sorted@[p as int]@),
            decreases sorted@.len() - p + (if found { 0int } else { 1int }),
        {
            if ranks_before_by_cost(cost, &c, costs[p], &sorted[p], distances) {
                found = true;
            } else {
                p = p + 1;
            }
        }
        let ghost old_sorted = sorted@;
        sorted.insert(p, c);
        costs.insert(p, cost);
        proof {
            let s = tours_of(old_sorted);
            let t = tours_of(sorted@);
            assert(t =~= s.insert(p as int, c@));
            assert forall|i: int, j: int| 0 <= i < j < t.len() implies !ranks_before(distances, #[trigger] t[j], #[trigger] t[i]) by {
                if j < p {
                    assert(t[i] == s[i] && t[j] == s[j]);
                } else if i > p {
                    assert(t[i] == s[i - 1] && t[j] == s[j - 1]);
                } else if i < p && j == p {
                    assert(t[i] == s[i]);
                } else if i < p && j > p {
                    assert(t[i] == s[i] && t[j] == s[j - 1]);
                } else {
                    // i == p < j
                    assert(t[j] == s[j - 1]);
                    assert(ranks_before(distances, c@, s[p as int]));
                    if j - 1 > p {
                        assert(!ranks_before(distances, s[j - 1], s[p as int]));
                        lemma_rank_trichotomy(distances, s[p as int], s[j - 1]);
                        if s[p as int] != s[j - 1] {
                            lemma_rank_transitive(distances, c@, s[p as int], s[j - 1]);
                        }
                    }
                    lemma_rank_trichotomy(distances, c@, s[j - 1]);
                }
            }
            assert(t.to_multiset() == s.to_multiset().insert(c@));
        }
    }
    proof {
        assert(tours_of(population@).to_multiset() =~= Multiset::empty());
    }
    *population = sorted;
}

/// The population with each run of adjacent equal tours cut down to its first.
pub fn dedup_tours(population: &Vec<Creature>) -> (r: Vec<Creature>)
    ensures
        tours_of(r@) == dedup_adjacent(tours_of(population@)),
{
    let mut r: Vec<Creature> = Vec::new();
    let mut i: usize = 0;
    while i < population.len()
        invariant
            i <= population@.len(),
            tours_of(r@) == dedup_adjacent(tours_of(population@).take(i as int)),
        decreases population@.len() - i,
    {
        let ghost s = tours_of(population@).take(i as int + 1);
        assert(s.drop_last() =~= tours_of(population@).take(i as int));
        if i == 0 || !same_tour(&population[i - 1], &population[i]) {
            let c = population[i].clone();
            proof {
                lemma_tours_push(r@, c);
            }
            r.push(c);
        }
        i = i + 1;
    }
    assert(tours_of(population@).take(i as int) =~= tours_of(population@));
    r
}

/// Every tour of the population visits the cities `0 .. n` once each.
pub open spec fn all_tours(p: Seq<Creature>, n: nat) -> bool {
    forall|i: int| 0 <= i < p.len() ==> is_tour(#[trigger] p[i]@, n)
}

/// `c` is a crossover of two different members of `group`.
pub open spec fn is_child_of(group: Seq<Seq<u32>>, c: Seq<u32>) -> bool {
    exists|i: int, j: int, offset: int, count: int|
        0 <= i < group.len() && 0 <= j < group.len() && i != j && 0 <= offset < group[i].len() && 0 <= count
            <= group[i].len() && c == #[trigger] crossover(group[i], group[j], offset, count)
}

/// `c` is a child of two members of `group`, with two of its entries swapped
/// (possibly one entry with itself, which leaves the child as it is).
pub open spec fn is_offspring(group: Seq<Seq<u32>>, c: Seq<u32>) -> bool {
    exists|p: Seq<u32>, a: int, b: int|
        is_child_of(group, p) && 0 <= a < p.len() && 0 <= b < p.len() && c == #[trigger] swapped(p, a, b)
}

/// The tours of all the populations, one after another.
pub open spec fn joined_tours(o: Seq<Vec<Creature>>) -> Seq<Seq<u32>>
    decreases o.len(),
{
    if o.len() == 0 {
        Seq::empty()
    } else {
        joined_tours(o.drop_last()) + tours_of(o.last()@)
    }
}

/// `pop_size` random tours of the cities `0 .. num_cities`.
pub fn fresh_group(pop_size: usize, rng: &mut rand::Isaac64Rng, num_cities: u32) -> (r: Vec<Creature>)
    ensures
        r@.len() == pop_size,
        all_tours(r@, num_cities as nat),
{
    let mut population: Vec<Creature> = Vec::new();
    let mut k: usize = 0;
    while k < pop_size
        invariant
            k <= pop_size,
            population@.len() == k,
            all_tours(population@, num_cities as nat),
        decreases pop_size - k,
    {
        let c = Creature::new_random(rng, num_cities);
        population.push(c);
        k = k + 1;
    }
    population
}

/// A child of two different members of the breeding group, both drawn
/// uniformly: the second is drawn among the members other than the first,
/// which gives the same choice as drawing again until they differ.
pub fn breed_from_pop(breeding_group: &Vec<Creature>, rng: &mut rand::Isaac64Rng, num_cities: u32) -> (r: Creature)
    requires
        breeding_group@.len() > 1,
        num_cities > 0,
        all_tours(breeding_group@, num_cities as nat),
    ensures
        is_child_of(tours_of(breeding_group@), r@),
        is_tour(r@, num_cities as nat),
{
    let len = breeding_group.len();
    let id1 = (draw_u32(rng) as usize) % len;
    let drawn = (draw_u32(rng) as usize) % (len - 1);
    let id2 = if drawn >= id1 { drawn + 1 } else { drawn };
    let a = &breeding_group[id1];
    let b = &breeding_group[id2];
    assert(is_tour(a@, num_cities as nat));
    assert(is_tour(b@, num_cities as nat));
    let r = a.breed_with(b, rng, num_cities);
    proof {
        let g = tours_of(breeding_group@);
        assert(g[id1 as int] == a@ && g[id2 as int] == b@);
        let (offset, count) = choose|offset: int, count: int|
            0 <= offset < num_cities && 0 <= count <= num_cities && r@ == #[trigger] crossover(a@, b@, offset, count);
        assert(r@ == crossover(g[id1 as int], g[id2 as int], offset, count));
    }
    r
}

/// The tours of all the populations, one after another.
pub fn gather(outputs: &Vec<Vec<Creature>>) -> (r: Vec<Creature>)
    ensures
        tours_of(r@) == joined_tours(outputs@),
{
    let mut r: Vec<Creature> = Vec::new();
    let mut i: usize = 0;
    while i < outputs.len()
        invariant
            i <= outputs@.len(),
            tours_of(r@) == joined_tours(outputs@.take(i as int)),
        decreases outputs@.len() - i,
    {
        let group = &outputs[i];
        let ghost start = r@;
        let mut j: usize = 0;
        while j < group.len()
            invariant
                j <= group@.len(),
                tours_of(r@) == tours_of(start) + tours_of(group@.take(j as int)),
            decreases group@.len() - j,
        {
            let c = group[j].clone();
            proof {
                lemma_tours_push(r@, c);
                assert(tours_of(group@.take(j as int + 1)) =~= tours_of(group@.take(j as int)).push(c@));
            }
            r.push(c);
            j = j + 1;
        }
        proof {
            assert(group@.take(j as int) =~= group@);
            assert(outputs@.take(i as int + 1).drop_last() =~= outputs@.take(i as int));
            assert(outputs@.take(i as int + 1).last() == *group);
            assert(tours_of(r@) =~= joined_tours(outputs@.take(i as int + 1)));
        }
        i = i + 1;
    }
    assert(outputs@.take(i as int) =~= outputs@);
    r
}

/// What an era's merge makes of the deduplicated ranking `d`: its best
/// `pop_size` tours, or all of them followed by fresh tours of `n` cities.
pub open spec fn merged_from(d: Seq<Seq<u32>>, r: Seq<Seq<u32>>, pop_size: nat, n: nat) -> bool {
    &&& r.len() == pop_size
    &&& if d.len() >= pop_size {
        r == d.take(pop_size as int)
    } else {
        &&& r.take(d.len() as int) == d
        &&& forall|k: int| d.len() <= k < r.len() ==> is_tour(#[trigger] r[k], n)
    }
}

proof fn lemma_tours_take(p: Seq<Creature>, k: int)
    requires
        0 <= k <= p.len(),
    ensures
        tours_of(p.take(k)) == tours_of(p).take(k),
{
    assert(tours_of(p.take(k)) =~= tours_of(p).take(k));
}

/// Merges the populations that the workers return: all their tours ranked,
/// copies of a tour removed, then cut to the best `pop_size` or filled up with
/// fresh random tours to exactly `pop_size`.
pub fn merge_era(outputs: &Vec<Vec<Creature>>, pop_size: usize, distances: &DistanceMap, rng: &mut rand::Isaac64Rng, num_cities: u32) -> (r: Vec<Creature>)
    requires
        forall|x: Seq<u32>| #[trigger] joined_tours(outputs@).contains(x) ==> x.len() == num_cities as nat,
    ensures
        r@.len() == pop_size,
        exists|ranked: Seq<Seq<u32>>|
            #[trigger] is_ranked(distances, ranked) && ranked.to_multiset() == joined_tours(outputs@).to_multiset()
                && merged_from(dedup_adjacent(ranked), tours_of(r@), pop_size as nat, num_cities as nat),
        (forall|x: Seq<u32>| #[trigger] joined_tours(outputs@).contains(x) ==> is_tour(x, num_cities as nat)) ==> all_tours(
            r@,
            num_cities as nat,
        ),
{
    let ghost joined = joined_tours(outputs@);
    let mut all = gather(outputs);
    proof {
        assert forall|i: int| 0 <= i < all@.len() implies (#[trigger] all@[i]@.len()) <= u32::MAX as nat by {
            assert(tours_of(all@)[i] == all@[i]@);
            assert(joined.contains(tours_of(all@)[i]));
        }
    }
    sort_pop_objectively(&mut all, distances);
    let ghost ranked = tours_of(all@);
    let mut next = dedup_tours(&all);
    let ghost d = tours_of(next@);
    proof {
        lemma_dedup_ranked(distances, ranked);
        ranked.to_multiset_ensures();
        joined.to_multiset_ensures();
    }
    if next.len() > pop_size {
        next.truncate(pop_size);
    }
    let ghost kept = next@.len();
    proof {
        lemma_tours_take(next@, kept as int);
        assert(tours_of(next@) =~= d.take(kept as int));
    }
    while next.len() < pop_size
        invariant
            kept <= next@.len(),
            kept == if d.len() >= pop_size { pop_size as nat } else { d.len() },
            tours_of(next@).take(kept as int) == d.take(kept as int),
            next@.len() <= pop_size || kept == next@.len(),
            forall|k: int| kept <= k < next@.len() ==> is_tour(#[trigger] next@[k]@, num_cities as nat),
        decreases pop_size - next@.len(),
    {
        let c = Creature::new_random(rng, num_cities);
        let ghost before = next@;
        next.push(c);
        proof {
            lemma_tours_push(before, c);
            assert(tours_of(next@).take(kept as int) =~= tours_of(before).take(kept as int));
        }
    }
    proof {
        let t = tours_of(next@);
        if d.len() >= pop_size {
            assert(t =~= t.take(kept as int));
        } else {
            assert(d.take(kept as int) =~= d);
            assert forall|k: int| d.len() <= k < t.len() implies is_tour(#[trigger] t[k], num_cities as nat) by {
                assert(t[k] == next@[k]@);
            }
        }
        assert(merged_from(dedup_adjacent(ranked), t, pop_size as nat, num_cities as nat));
        if forall|x: Seq<u32>| #[trigger] joined.contains(x) ==> is_tour(x, num_cities as nat) {
            assert forall|i: int| 0 <= i < next@.len() implies is_tour(#[trigger] next@[i]@, num_cities as nat) by {
                if i < kept {
                    assert(t[i] == next@[i]@);
                    assert(t.take(kept as int)[i] == d[i]);
                    assert(d.contains(d[i]));
                    assert(ranked.contains(d[i]));
                    assert(ranked.to_multiset().count(d[i]) > 0);
                    assert(joined.contains(d[i]));
                }
            }
        }
    }
    next
}

/// Merging does not depend on the order in which the workers' populations
/// arrive: populations that hold the same tours, each as often, rank into the
/// same deduplicated sequence.
pub proof fn lemma_merge_order_free(
    dm: &DistanceMap,
    o1: Seq<Vec<Creature>>,
    o2: Seq<Vec<Creature>>,
    ranked1: Seq<Seq<u32>>,
    ranked2: Seq<Seq<u32>>,
)
    requires
        joined_tours(o1).to_multiset() == joined_tours(o2).to_multiset(),
        is_ranked(dm, ranked1),
        ranked1.to_multiset() == joined_tours(o1).to_multiset(),
        is_ranked(dm, ranked2),
        ranked2.to_multiset() == joined_tours(o2).to_multiset(),
    ensures
        dedup_adjacent(ranked1) == dedup_adjacent(ranked2),
{
    lemma_ranking_unique(dm, ranked1, ranked2);
}

/// `after` is what one generation can make of `before`: its better half in
/// rank order, then offspring of that half, which are plain children when
/// `mutation_skip_one_in` spares every child from mutation.
pub open spec fn generation_step(dm: &DistanceMap, before: Seq<Seq<u32>>, after: Seq<Seq<u32>>, mutation_skip_one_in: u32) -> bool {
    exists|ranked: Seq<Seq<u32>>|
        #[trigger] is_ranked(dm, ranked) && ranked.to_multiset() == before.to_multiset() && after.len() == before.len()
            && after.take((before.len() / 2) as int) == ranked.take((before.len() / 2) as int) && (forall|k: int|
            (before.len() / 2) as int <= k < after.len() ==> is_offspring(ranked.take((before.len() / 2) as int), #[trigger] after[k]))
            && (mutation_skip_one_in <= 1 ==> forall|k: int|
            (before.len() / 2) as int <= k < after.len() ==> is_child_of(ranked.take((before.len() / 2) as int), #[trigger] after[k]))
}

/// After a generation, the first tour ranks no worse than any tour before it.
pub proof fn lemma_step_keeps_best(dm: &DistanceMap, before: Seq<Seq<u32>>, after: Seq<Seq<u32>>, mutation_skip_one_in: u32)
    requires
        generation_step(dm, before, after, mutation_skip_one_in),
        before.len() >= 2,
    ensures
        forall|i: int| 0 <= i < before.len() ==> !ranks_before(dm, #[trigger] before[i], after[0]),
{
    let half = (before.len() / 2) as int;
    let ranked = choose|ranked: Seq<Seq<u32>>|
        #[trigger] is_ranked(dm, ranked) && ranked.to_multiset() == before.to_multiset() && after.len() == before.len()
            && after.take(half) == ranked.take(half) && (forall|k: int|
            half <= k < after.len() ==> is_offspring(ranked.take(half), #[trigger] after[k]))
            && (mutation_skip_one_in <= 1 ==> forall|k: int|
            half <= k < after.len() ==> is_child_of(ranked.take(half), #[trigger] after[k]));
    before.to_multiset_ensures();
    ranked.to_multiset_ensures();
    assert(after[0] == after.take(half)[0]);
    assert(after[0] == ranked[0]);
    assert forall|i: int| 0 <= i < before.len() implies !ranks_before(dm, #[trigger] before[i], after[0]) by {
        assert(before.contains(before[i]));
        assert(before.to_multiset().count(before[i]) > 0);
        assert(ranked.contains(before[i]));
        let j = choose|j: int| 0 <= j < ranked.len() && ranked[j] == before[i];
        if j > 0 {
            assert(!ranks_before(dm, ranked[j], ranked[0]));
        } else {
            lemma_rank_trichotomy(dm, ranked[0], ranked[0]);
        }
    }
}

/// One generation: rank the population, keep its better half as the breeding
/// group, refill it with children of two different members of the group, and
/// swap two cities of each child unless a draw of weight
/// `1 / mutation_skip_one_in` spares it.
pub fn next_generation(
    population: &mut Vec<Creature>,
    distances: &DistanceMap,
    rng: &mut rand::Isaac64Rng,
    num_cities: u32,
    mutation_skip_one_in: u32,
)
    requires
        old(population)@.len() >= MIN_POPULATION,
        num_cities > 0,
        all_tours(old(population)@, num_cities as nat),
    ensures
        final(population)@.len() == old(population)@.len(),
        all_tours(final(population)@, num_cities as nat),
        is_ranked(distances, tours_of(final(population)@).take((old(population)@.len() / 2) as int)),
        generation_step(distances, tours_of(old(population)@), tours_of(final(population)@), mutation_skip_one_in),
{
    let ghost start = tours_of(population@);
    let pop_size = population.len();
    let breed_group_size = pop_size / 2;
    proof {
        assert forall|i: int| 0 <= i < population@.len() implies (#[trigger] population@[i]@.len()) <= u32::MAX as nat by {
            assert(is_tour(population@[i]@, num_cities as nat));
        }
    }
    sort_pop_objectively(population, distances);
    let ghost ranked = tours_of(population@);
    proof {
        ranked.to_multiset_ensures();
        start.to_multiset_ensures();
        assert forall|i: int| 0 <= i < population@.len() implies is_tour(#[trigger] population@[i]@, num_cities as nat) by {
            assert(ranked[i] == population@[i]@);
            assert(ranked.contains(ranked[i]));
            assert(ranked.to_multiset().count(ranked[i]) > 0);
            assert(start.contains(ranked[i]));
            let j = choose|j: int| 0 <= j < start.len() && start[j] == ranked[i];
            assert(start[j] == old(population)@[j]@);
        }
    }
    population.truncate(breed_group_size);
    let ghost group = tours_of(population@);
    proof {
        assert(group =~= ranked.take(breed_group_size as int));
    }
    let mut offspring: Vec<Creature> = Vec::new();
    while population.len() + offspring.len() < pop_size
        invariant
            population@.len() == breed_group_size,
            breed_group_size == pop_size / 2,
            pop_size >= MIN_POPULATION,
            num_cities > 0,
            tours_of(population@) == group,
            all_tours(population@, num_cities as nat),
            population@.len() + offspring@.len() <= pop_size,
            forall|k: int| 0 <= k < offspring@.len() ==> is_child_of(group, #[trigger] offspring@[k]@),
            all_tours(offspring@, num_cities as nat),
        decreases pop_size - population@.len() - offspring@.len(),
    {
        let c = breed_from_pop(population, rng, num_cities);
        offspring.push(c);
    }
    while offspring.len() > 0
        invariant
            breed_group_size == pop_size / 2,
            breed_group_size <= population@.len(),
            num_cities > 0,
            tours_of(population@).take(breed_group_size as int) == group,
            all_tours(population@, num_cities as nat),
            population@.len() + offspring@.len() == pop_size,
            forall|k: int| 0 <= k < offspring@.len() ==> is_child_of(group, #[trigger] offspring@[k]@),
            all_tours(offspring@, num_cities as nat),
            forall|k: int| breed_group_size <= k < population@.len() ==> is_offspring(group, #[trigger] population@[k]@),
            mutation_skip_one_in <= 1 ==> forall|k: int| breed_group_size <= k < population@.len() ==> is_child_of(group, #[trigger] population@[k]@),
        decreases offspring@.len(),
    {
        let ghost pending = offspring@;
        let mut o = match offspring.pop() {
            Some(o) => o,
            None => { return; },
        };
        let ghost child = o@;
        proof {
            assert(pending[pending.len() - 1] == o);
            assert(is_child_of(group, child));
            assert(is_tour(child, num_cities as nat));
        }
        if !weighted_bool(rng, mutation_skip_one_in) {
            o.mutate(rng, num_cities);
            proof {
                let (i, j) = choose|i: int, j: int| 0 <= i < num_cities && 0 <= j < num_cities && o@ == #[trigger] swapped(child, i, j);
                assert(is_offspring(group, o@));
            }
        } else {
            proof {
                assert(swapped(child, 0, 0) =~= child);
                assert(is_offspring(group, o@));
            }
        }
        let ghost before = population@;
        proof {
            if mutation_skip_one_in <= 1 {
                assert(o@ == child);
            }
        }
        population.push(o);
        proof {
            lemma_tours_push(before, o);
            assert(tours_of(population@).take(breed_group_size as int) =~= tours_of(before).take(breed_group_size as int));
        }
    }
    proof {
        assert(is_ranked(distances, ranked));
        let after = tours_of(population@);
        let top = after.take(breed_group_size as int);
        assert forall|i: int, j: int| 0 <= i < j < top.len() implies !ranks_before(distances, #[trigger] top[j], #[trigger] top[i]) by {
            assert(top[i] == ranked[i] && top[j] == ranked[j]);
        }
        assert(group == ranked.take(breed_group_size as int));
        assert forall|k: int| breed_group_size <= k < after.len() implies is_offspring(group, #[trigger] after[k]) by {
            assert(after[k] == population@[k]@);
        }
        if mutation_skip_one_in <= 1 {
            assert forall|k: int| breed_group_size <= k < after.len() implies is_child_of(group, #[trigger] after[k]) by {
                assert(after[k] == population@[k]@);
            }
        }
        assert(generation_step(distances, start, after, mutation_skip_one_in));
    }
}

/// Runs `config.generations` generations on a copy of `start` and returns the
/// final population. After at least one generation it is what the last
/// generation made of a population of valid tours, and its first tour ranks no
/// worse than any tour of `start`: the best tour found is never lost.
pub fn evolve(start: &Vec<Creature>, rng: rand::Isaac64Rng, distances: &DistanceMap, num_cities: u32, config: &Config) -> (r: Vec<Creature>)
    requires
        start@.len() >= MIN_POPULATION,
        num_cities > 0,
        all_tours(start@, num_cities as nat),
    ensures
        r@.len() == start@.len(),
        all_tours(r@, num_cities as nat),
        config.generations == 0 ==> tours_of(r@) == tours_of(start@),
        config.generations > 0 ==> is_ranked(distances, tours_of(r@).take((start@.len() / 2) as int)),
        config.generations > 0 ==> exists|prev: Seq<Seq<u32>>|
            #[trigger] generation_step(distances, prev, tours_of(r@), config.mutation_skip_one_in) && prev.len() == start@.len()
                && forall|i: int| 0 <= i < prev.len() ==> is_tour(#[trigger] prev[i], num_cities as nat),
        config.generations > 0 ==> forall|m: int| 0 <= m < start@.len() ==> !ranks_before(distances, #[trigger] start@[m]@, r@[0]@),
{
    let mut rng = rng;
    let mut population: Vec<Creature> = Vec::new();
    let mut i: usize = 0;
    while i < start.len()
        invariant
            i <= start@.len(),
            tours_of(population@) == tours_of(start@.take(i as int)),
            population@.len() == i,
        decreases start@.len() - i,
    {
        let c = start[i].clone();
        proof {
            lemma_tours_push(population@, c);
            assert(tours_of(start@.take(i as int + 1)) =~= tours_of(start@.take(i as int)).push(c@));
        }
        population.push(c);
        i = i + 1;
    }
    proof {
        assert(start@.take(i as int) =~= start@);
        assert forall|k: int| 0 <= k < population@.len() implies is_tour(#[trigger] population@[k]@, num_cities as nat) by {
            assert(tours_of(population@)[k] == tours_of(start@)[k]);
        }
    }
    let mut g: usize = 0;
    while g < config.generations
        invariant
            g <= config.generations,
            population@.len() == start@.len(),
            start@.len() >= MIN_POPULATION,
            num_cities > 0,
            all_tours(population@, num_cities as nat),
            g == 0 ==> tours_of(population@) == tours_of(start@),
            g > 0 ==> is_ranked(distances, tours_of(population@).take((start@.len() / 2) as int)),
            g > 0 ==> exists|prev: Seq<Seq<u32>>|
                #[trigger] generation_step(distances, prev, tours_of(population@), config.mutation_skip_one_in) && prev.len() == start@.len()
                    && forall|i: int| 0 <= i < prev.len() ==> is_tour(#[trigger] prev[i], num_cities as nat),
            g > 0 ==> forall|m: int| 0 <= m < start@.len() ==> !ranks_before(distances, #[trigger] start@[m]@, population@[0]@),
        decreases config.generations - g,
    {
        let ghost before = tours_of(population@);
        let ghost old_best = population@[0]@;
        let ghost prev_pop = population@;
        next_generation(&mut population, distances, &mut rng, num_cities, config.mutation_skip_one_in);
        proof {
            let after = tours_of(population@);
            assert(after[0] == population@[0]@);
            assert(before[0] == old_best);
            lemma_step_keeps_best(distances, before, after, config.mutation_skip_one_in);
            assert forall|i: int| 0 <= i < before.len() implies is_tour(#[trigger] before[i], num_cities as nat) by {
                assert(before[i] == prev_pop[i]@);
            }
            assert forall|m: int| 0 <= m < start@.len() implies !ranks_before(distances, #[trigger] start@[m]@, population@[0]@) by {
                if g == 0 {
                    assert(tours_of(start@)[m] == start@[m]@);
                    assert(before[m] == start@[m]@);
                } else {
                    assert(!ranks_before(distances, before[0], after[0]));
                    lemma_rank_no_better_transitive(distances, after[0], old_best, start@[m]@);
                }
            }
        }
        g = g + 1;
    }
    population
}

} // verus!
