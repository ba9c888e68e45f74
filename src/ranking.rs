//! The order in which tours are ranked: by cost, then by their city sequence.
use crate::creature::{tour_cost, Creature};
use crate::distance::DistanceMap;
use vstd::prelude::*;

verus! {

/// Lexicographic order on city sequences; a proper prefix comes first.
pub open spec fn lex_lt(a: Seq<u32>, b: Seq<u32>) -> bool
    decreases a.len(),
{
    if a.len() == 0 {
        b.len() > 0
    } else if b.len() == 0 {
        false
    } else if a[0] != b[0] {
        a[0] < b[0]
    } else {
        lex_lt(a.drop_first(), b.drop_first())
    }
}

/// `a` ranks strictly before `b`: it costs less, or costs the same and comes
/// first in lexicographic order.
pub open spec fn ranks_before(dm: &DistanceMap, a: Seq<u32>, b: Seq<u32>) -> bool {
    tour_cost(dm, a) < tour_cost(dm, b) || (tour_cost(dm, a) == tour_cost(dm, b) && lex_lt(a, b))
}

/// No entry of `s` ranks before an entry to its left.
pub open spec fn is_ranked(dm: &DistanceMap, s: Seq<Seq<u32>>) -> bool {
    forall|i: int, j: int| 0 <= i < j < s.len() ==> !ranks_before(dm, #[trigger] s[j], #[trigger] s[i])
}

proof fn lemma_lex_total(a: Seq<u32>, b: Seq<u32>)
    ensures
        lex_lt(a, b) || a == b || lex_lt(b, a),
        !(lex_lt(a, b) && lex_lt(b, a)),
        lex_lt(a, b) ==> a != b,
    decreases a.len(),
{
    if a.len() == 0 && b.len() == 0 {
        assert(a =~= b);
    } else if a.len() > 0 && b.len() > 0 && a[0] == b[0] {
        lemma_lex_total(a.drop_first(), b.drop_first());
        if a.drop_first() == b.drop_first() {
            lemma_same_head_and_rest(a, b);
        }
    }
}

proof fn lemma_same_head_and_rest<A>(a: Seq<A>, b: Seq<A>)
    requires
        a.len() > 0,
        b.len() > 0,
        a[0] == b[0],
        a.drop_first() == b.drop_first(),
    ensures
        a == b,
{
    assert(a.len() == a.drop_first().len() + 1);
    assert(b.len() == b.drop_first().len() + 1);
    assert forall|k: int| 0 <= k < a.len() implies a[k] == b[k] by {
        if k > 0 {
            assert(a[k] == a.drop_first()[k - 1]);
            assert(b[k] == b.drop_first()[k - 1]);
        }
    }
    assert(a =~= b);
}

proof fn lemma_lex_transitive(a: Seq<u32>, b: Seq<u32>, c: Seq<u32>)
    requires
        lex_lt(a, b),
        lex_lt(b, c),
    ensures
        lex_lt(a, c),
    decreases a.len(),
{
    if a.len() > 0 && b.len() > 0 && c.len() > 0 && a[0] == b[0] && b[0] == c[0] {
        lemma_lex_transitive(a.drop_first(), b.drop_first(), c.drop_first());
    }
}

/// For any two tours exactly one holds: the first ranks before the second,
/// they are the same sequence, or the second ranks before the first.
pub proof fn lemma_rank_trichotomy(dm: &DistanceMap, a: Seq<u32>, b: Seq<u32>)
    ensures
        ranks_before(dm, a, b) || a == b || ranks_before(dm, b, a),
        !(ranks_before(dm, a, b) && a == b),
        !(ranks_before(dm, b, a) && a == b),
        !(ranks_before(dm, a, b) && ranks_before(dm, b, a)),
{
    lemma_lex_total(a, b);
}

/// Ranking before is transitive.
pub proof fn lemma_rank_transitive(dm: &DistanceMap, a: Seq<u32>, b: Seq<u32>, c: Seq<u32>)
    requires
        ranks_before(dm, a, b),
        ranks_before(dm, b, c),
    ensures
        ranks_before(dm, a, c),
{
    if tour_cost(dm, a) == tour_cost(dm, b) && tour_cost(dm, b) == tour_cost(dm, c) {
        lemma_lex_transitive(a, b, c);
    }
}

/// Ranking no better is transitive: if `b` does not rank before `a`, nor `c`
/// before `b`, then `c` does not rank before `a`.
pub proof fn lemma_rank_no_better_transitive(dm: &DistanceMap, a: Seq<u32>, b: Seq<u32>, c: Seq<u32>)
    requires
        !ranks_before(dm, b, a),
        !ranks_before(dm, c, b),
    ensures
        !ranks_before(dm, c, a),
{
    lemma_rank_trichotomy(dm, a, b);
    lemma_rank_trichotomy(dm, b, c);
    lemma_rank_trichotomy(dm, a, c);
    if a != b && b != c {
        lemma_rank_transitive(dm, a, b, c);
    }
}

/// Two ranked sequences that hold the same tours, each as often, are equal:
/// ranking a population has exactly one outcome.
pub proof fn lemma_ranking_unique(dm: &DistanceMap, s: Seq<Seq<u32>>, t: Seq<Seq<u32>>)
    requires
        is_ranked(dm, s),
        is_ranked(dm, t),
        s.to_multiset() == t.to_multiset(),
    ensures
        s == t,
    decreases s.len(),
{
    broadcast use vstd::seq_lib::group_to_multiset_ensures;
    s.to_multiset_ensures();
    t.to_multiset_ensures();
    if s.len() == 0 {
        assert(t.len() == 0);
        assert(s =~= t);
    } else {
        assert(t.len() == s.len());
        assert(s.contains(s[0]));
        assert(t.to_multiset().count(s[0]) > 0);
        let j = choose|j: int| 0 <= j < t.len() && t[j] == s[0];
        assert(t.contains(t[0]));
        assert(s.to_multiset().count(t[0]) > 0);
        let i = choose|i: int| 0 <= i < s.len() && s[i] == t[0];
        if j > 0 {
            assert(!ranks_before(dm, t[j], t[0]));
        }
        if i > 0 {
            assert(!ranks_before(dm, s[i], s[0]));
        }
        lemma_rank_trichotomy(dm, s[0], t[0]);
        assert(s[0] == t[0]);
        assert(s.remove(0) =~= s.drop_first());
        assert(t.remove(0) =~= t.drop_first());
        assert(s.drop_first().to_multiset() == t.drop_first().to_multiset());
        lemma_ranking_unique(dm, s.drop_first(), t.drop_first());
        lemma_same_head_and_rest(s, t);
    }
}

/// Whether `a` comes before `b` in lexicographic order.
pub fn lex_less(a: &Vec<u32>, b: &Vec<u32>) -> (r: bool)
    ensures
        r == lex_lt(a@, b@),
{
    let mut i: usize = 0;
    assert(a@.skip(0) =~= a@);
    assert(b@.skip(0) =~= b@);
    while i < a.len() && i < b.len()
        invariant
            i <= a@.len(),
            i <= b@.len(),
            lex_lt(a@, b@) == lex_lt(a@.skip(i as int), b@.skip(i as int)),
        decreases a@.len() - i,
    {
        if a[i] != b[i] {
            return a[i] < b[i];
        }
        assert(a@.skip(i as int).drop_first() =~= a@.skip(i as int + 1));
        assert(b@.skip(i as int).drop_first() =~= b@.skip(i as int + 1));
        i = i + 1;
    }
    i < b.len()
}

/// Whether two tours are the same sequence.
pub fn same_tour(a: &Creature, b: &Creature) -> (r: bool)
    ensures
        r == (a@ == b@),
{
    if a.cities.len() != b.cities.len() {
        return false;
    }
    let mut i: usize = 0;
    while i < a.cities.len()
        invariant
            a@.len() == b@.len(),
            i <= a@.len(),
            a@.subrange(0, i as int) == b@.subrange(0, i as int),
        decreases a@.len() - i,
    {
        if a.cities[i] != b.cities[i] {
            return false;
        }
        assert(a@.subrange(0, i as int + 1) =~= a@.subrange(0, i as int).push(a@[i as int]));
        assert(b@.subrange(0, i as int + 1) =~= b@.subrange(0, i as int).push(b@[i as int]));
        i = i + 1;
    }
    assert(a@ =~= a@.subrange(0, i as int));
    assert(b@ =~= b@.subrange(0, i as int));
    true
}

/// Whether `a`, of cost `cost_a`, ranks before `b`, of cost `cost_b`.
pub fn ranks_before_by_cost(cost_a: u64, a: &Creature, cost_b: u64, b: &Creature, dm: &DistanceMap) -> (r: bool)
    requires
        cost_a as int == tour_cost(dm, a@),
        cost_b as int == tour_cost(dm, b@),
    ensures
        r == ranks_before(dm, a@, b@),
{
    cost_a < cost_b || (cost_a == cost_b && lex_less(&a.cities, &b.cities))
}

} // verus!
