//! Tours as sequences of city identifiers: what makes one valid, and the
//! operations that build one tour from others.
use vstd::prelude::*;

verus! {

broadcast use vstd::seq_lib::group_to_multiset_ensures;

/// `s` visits each of the cities `0 .. n` exactly once.
pub open spec fn is_tour(s: Seq<u32>, n: nat) -> bool {
    &&& s.len() == n
    &&& s.no_duplicates()
    &&& forall|i: int| 0 <= i < s.len() ==> (#[trigger] s[i] as nat) < n
}

/// The cities `0 .. n` in ascending order.
pub open spec fn ascending(n: nat) -> Seq<u32> {
    Seq::new(n, |i: int| i as u32)
}

/// `s` with the entries at `i` and `j` exchanged.
pub open spec fn swapped(s: Seq<u32>, i: int, j: int) -> Seq<u32> {
    s.update(i, s[j]).update(j, s[i])
}

/// Position `k` of a slice that starts at `offset` and wraps round the end of
/// a sequence of length `len`.
pub open spec fn wrapped_index(len: int, offset: int, k: int) -> int {
    if k + offset < len {
        k + offset
    } else {
        k + offset - len
    }
}

/// The `count` entries of `a` from `offset` on, wrapping round its end.
pub open spec fn wrapped_slice(a: Seq<u32>, offset: int, count: int) -> Seq<u32> {
    Seq::new(count as nat, |k: int| a[wrapped_index(a.len() as int, offset, k)])
}

/// The entries of `b`, in `b`'s order, that `head` does not hold.
pub open spec fn absent_from(b: Seq<u32>, head: Seq<u32>) -> Seq<u32>
    decreases b.len(),
{
    if b.len() == 0 {
        b
    } else {
        let rest = absent_from(b.drop_last(), head);
        if head.contains(b.last()) {
            rest
        } else {
            rest.push(b.last())
        }
    }
}

/// The child of `a` and `b`: a wrapped slice of `a`, then what `b` adds to it.
pub open spec fn crossover(a: Seq<u32>, b: Seq<u32>, offset: int, count: int) -> Seq<u32> {
    let head = wrapped_slice(a, offset, count);
    head + absent_from(b, head)
}

/// The set of cities `0 .. n`.
pub open spec fn city_range(n: nat) -> Set<u32> {
    Set::new(|x: u32| (x as nat) < n)
}

proof fn lemma_city_range_len(n: nat)
    requires
        n <= u32::MAX as nat + 1,
    ensures
        city_range(n).finite(),
        city_range(n).len() == n,
    decreases n,
{
    if n == 0 {
        assert(city_range(0) =~= Set::<u32>::empty());
    } else {
        let m = (n - 1) as nat;
        lemma_city_range_len(m);
        assert(city_range(n) =~= city_range(m).insert(m as u32));
    }
}

/// A sequence of distinct cities below `n` that holds every one of them has
/// length `n`.
proof fn lemma_full_set_is_tour(s: Seq<u32>, n: nat)
    requires
        n <= u32::MAX as nat + 1,
        s.no_duplicates(),
        forall|i: int| 0 <= i < s.len() ==> (#[trigger] s[i] as nat) < n,
        forall|x: u32| (x as nat) < n ==> #[trigger] s.contains(x),
    ensures
        is_tour(s, n),
{
    broadcast use vstd::seq_lib::seq_to_set_is_finite;
    s.unique_seq_to_set();
    lemma_city_range_len(n);
    assert(s.to_set() =~= city_range(n)) by {
        assert forall|x: u32| s.to_set().contains(x) implies city_range(n).contains(x) by {
            let i = choose|i: int| 0 <= i < s.len() && s[i] == x;
            assert((s[i] as nat) < n);
        }
    }
}

/// A tour of `n` cities visits every city below `n`.
pub proof fn lemma_tour_covers(s: Seq<u32>, n: nat)
    requires
        is_tour(s, n),
        n <= u32::MAX as nat + 1,
    ensures
        forall|x: u32| (x as nat) < n ==> #[trigger] s.contains(x),
{
    broadcast use vstd::seq_lib::seq_to_set_is_finite;
    s.unique_seq_to_set();
    lemma_city_range_len(n);
    assert(s.to_set().subset_of(city_range(n))) by {
        assert forall|x: u32| s.to_set().contains(x) implies city_range(n).contains(x) by {
            let i = choose|i: int| 0 <= i < s.len() && s[i] == x;
            assert((s[i] as nat) < n);
        }
    }
    vstd::set_lib::lemma_subset_equality(s.to_set(), city_range(n));
    assert forall|x: u32| (x as nat) < n implies #[trigger] s.contains(x) by {
        assert(city_range(n).contains(x));
        assert(s.to_set().contains(x));
    }
}

/// Rearranging a tour, keeping each value as often as before, gives a tour.
pub proof fn lemma_rearranged_tour(s: Seq<u32>, t: Seq<u32>, n: nat)
    requires
        is_tour(s, n),
        s.to_multiset() == t.to_multiset(),
    ensures
        is_tour(t, n),
{
    s.to_multiset_ensures();
    t.to_multiset_ensures();
    s.lemma_multiset_has_no_duplicates();
    t.lemma_multiset_has_no_duplicates_conv();
    assert forall|i: int| 0 <= i < t.len() implies (#[trigger] t[i] as nat) < n by {
        assert(t.contains(t[i]));
        assert(t.to_multiset().count(t[i]) > 0);
        assert(s.to_multiset().count(t[i]) > 0);
        assert(s.contains(t[i]));
        let k = choose|k: int| 0 <= k < s.len() && s[k] == t[i];
        assert((s[k] as nat) < n);
    }
}

/// The cities in ascending order form a tour.
pub proof fn lemma_ascending_is_tour(n: nat)
    requires
        n <= u32::MAX as nat + 1,
    ensures
        is_tour(ascending(n), n),
{
}

/// Exchanging two entries keeps each value as often as before.
pub proof fn lemma_swapped_multiset(s: Seq<u32>, i: int, j: int)
    requires
        0 <= i < s.len(),
        0 <= j < s.len(),
    ensures
        swapped(s, i, j).to_multiset() == s.to_multiset(),
        swapped(s, i, j).len() == s.len(),
{
    broadcast use vstd::seq_lib::to_multiset_update;
    broadcast use vstd::multiset::group_multiset_axioms;
    let t = s.update(i, s[j]);
    assert(t.to_multiset() == s.to_multiset().remove(s[i]).insert(s[j]));
    assert(swapped(s, i, j).to_multiset() == t.to_multiset().remove(t[j]).insert(s[i]));
    if i == j {
        assert(swapped(s, i, j) =~= s);
    } else {
        assert(t[j] == s[j]);
        assert(s.to_multiset().count(s[i]) > 0) by {
            assert(s.contains(s[i]));
        }
        assert(swapped(s, i, j).to_multiset() =~= s.to_multiset());
    }
}

/// Swapping a tour's entries gives a tour.
pub proof fn lemma_swapped_tour(s: Seq<u32>, i: int, j: int, n: nat)
    requires
        is_tour(s, n),
        0 <= i < s.len(),
        0 <= j < s.len(),
    ensures
        is_tour(swapped(s, i, j), n),
{
    lemma_swapped_multiset(s, i, j);
    lemma_rearranged_tour(s, swapped(s, i, j), n);
}

/// Swapping the same two positions twice gives back the sequence it started from.
pub proof fn lemma_swap_twice(s: Seq<u32>, i: int, j: int)
    requires
        0 <= i < s.len(),
        0 <= j < s.len(),
    ensures
        swapped(swapped(s, i, j), i, j) == s,
{
    assert(swapped(swapped(s, i, j), i, j) =~= s);
}

/// What `absent_from` holds: exactly the values of `b` that `head` lacks.
pub proof fn lemma_absent_from_contains(b: Seq<u32>, head: Seq<u32>)
    ensures
        forall|x: u32| #[trigger] absent_from(b, head).contains(x) <==> (b.contains(x) && !head.contains(x)),
    decreases b.len(),
{
    if b.len() > 0 {
        let d = b.drop_last();
        lemma_absent_from_contains(d, head);
        let l = b.last();
        let r = absent_from(b, head);
        let rd = absent_from(d, head);
        assert(b == d.push(l));
        assert forall|x: u32| #[trigger] b.contains(x) <==> (d.contains(x) || x == l) by {
            if b.contains(x) && x != l {
                let i = choose|i: int| 0 <= i < b.len() && b[i] == x;
                assert(d[i] == x);
            }
            if d.contains(x) {
                let i = choose|i: int| 0 <= i < d.len() && d[i] == x;
                assert(b[i] == x);
            }
            if x == l {
                assert(b[b.len() - 1] == x);
            }
        }
        if head.contains(l) {
            assert(r == rd);
        } else {
            assert(r == rd.push(l));
            assert forall|x: u32| #[trigger] r.contains(x) <==> (rd.contains(x) || x == l) by {
                if r.contains(x) && x != l {
                    let i = choose|i: int| 0 <= i < r.len() && r[i] == x;
                    assert(rd[i] == x);
                }
                if rd.contains(x) {
                    let i = choose|i: int| 0 <= i < rd.len() && rd[i] == x;
                    assert(r[i] == x);
                }
                if x == l {
                    assert(r[rd.len() as int] == x);
                }
            }
        }
    }
}

/// `absent_from` keeps a sequence free of duplicates.
pub proof fn lemma_absent_from_no_duplicates(b: Seq<u32>, head: Seq<u32>)
    requires
        b.no_duplicates(),
    ensures
        absent_from(b, head).no_duplicates(),
    decreases b.len(),
{
    if b.len() > 0 {
        let d = b.drop_last();
        assert(d.no_duplicates());
        lemma_absent_from_no_duplicates(d, head);
        lemma_absent_from_contains(d, head);
        if !head.contains(b.last()) {
            assert(!d.contains(b.last()));
            assert(!absent_from(d, head).contains(b.last()));
            let r = absent_from(b, head);
            assert(r == absent_from(d, head).push(b.last()));
            assert forall|i: int, j: int| 0 <= i < r.len() && 0 <= j < r.len() && i != j implies r[i] != r[j] by {
                if i == r.len() - 1 {
                    assert(absent_from(d, head).contains(r[j]));
                } else if j == r.len() - 1 {
                    assert(absent_from(d, head).contains(r[i]));
                }
            }
        }
    }
}

/// Whatever the offset and the length of the slice taken from the first
/// parent, crossing two tours gives a tour.
pub proof fn lemma_crossover_tour(a: Seq<u32>, b: Seq<u32>, offset: int, count: int, n: nat)
    requires
        is_tour(a, n),
        is_tour(b, n),
        n <= u32::MAX as nat + 1,
        0 <= offset < n,
        0 <= count <= n,
    ensures
        is_tour(crossover(a, b, offset, count), n),
{
    let head = wrapped_slice(a, offset, count);
    let tail = absent_from(b, head);
    let c = crossover(a, b, offset, count);
    assert(head.no_duplicates()) by {
        assert forall|i: int, j: int| 0 <= i < head.len() && 0 <= j < head.len() && i != j implies head[i] != head[j] by {
            let wi = wrapped_index(n as int, offset, i);
            let wj = wrapped_index(n as int, offset, j);
            assert(wi != wj);
        }
    }
    lemma_absent_from_contains(b, head);
    lemma_absent_from_no_duplicates(b, head);
    lemma_tour_covers(b, n);
    assert forall|i: int, j: int| 0 <= i < head.len() && 0 <= j < tail.len() implies head[i] != tail[j] by {
        assert(tail.contains(tail[j]));
        assert(head.contains(head[i]));
    }
    vstd::seq_lib::lemma_no_dup_in_concat(head, tail);
    assert forall|i: int| 0 <= i < c.len() implies (#[trigger] c[i] as nat) < n by {
        if i < head.len() {
            assert(c[i] == a[wrapped_index(n as int, offset, i)]);
        } else {
            assert(c[i] == tail[i - head.len()]);
            assert(tail.contains(tail[i - head.len()]));
            let k = choose|k: int| 0 <= k < b.len() && b[k] == c[i];
        }
    }
    assert forall|x: u32| (x as nat) < n implies #[trigger] c.contains(x) by {
        assert(b.contains(x));
        if head.contains(x) {
            let i = choose|i: int| 0 <= i < head.len() && head[i] == x;
            assert(c[i] == x);
        } else {
            assert(tail.contains(x));
            let j = choose|j: int| 0 <= j < tail.len() && tail[j] == x;
            assert(c[head.len() + j] == x);
        }
    }
    lemma_full_set_is_tour(c, n);
}

} // verus!
