//! The table of city names: each name gets the next free identifier the first
//! time it is seen, and keeps it.
use vstd::prelude::*;

verus! {

#[verifier::external_type_specification]
#[verifier::external_body]
#[verifier::reject_recursive_types(Kv1)]
#[verifier::reject_recursive_types(Kv2)]
pub struct ExBidirMap<Kv1: PartialEq, Kv2: PartialEq>(bidir_map::BidirMap<Kv1, Kv2>);

/// The pairs a `BidirMap` holds, in the order it keeps them.
pub uninterp spec fn pairs_of(m: &bidir_map::BidirMap<u32, String>) -> Seq<(u32, Seq<char>)>;

/// Relies on `BidirMap::new`: a map with no pairs.
#[verifier::external_body]
fn empty_map() -> (r: bidir_map::BidirMap<u32, String>)
    ensures
        pairs_of(&r) == Seq::<(u32, Seq<char>)>::empty(),
{
    bidir_map::BidirMap::new()
}

/// Relies on `BidirMap::insert`: where neither key is present yet, it appends
/// the pair to the pairs it holds.
#[verifier::external_body]
fn insert_pair(m: &mut bidir_map::BidirMap<u32, String>, id: u32, name: String)
    requires
        forall|k: int| 0 <= k < pairs_of(old(m)).len() ==> (#[trigger] pairs_of(old(m))[k]).0 != id && pairs_of(old(m))[k].1 != name@,
    ensures
        pairs_of(final(m)) == pairs_of(old(m)).push((id, name@)),
{
    m.insert(id, name);
}

/// Relies on `BidirMap::get_by_second`: the first value of the first pair
/// whose second value equals `name`, if any.
#[verifier::external_body]
fn first_by_second(m: &bidir_map::BidirMap<u32, String>, name: &String) -> (r: Option<u32>)
    ensures
        r is None <==> forall|k: int| 0 <= k < pairs_of(m).len() ==> (#[trigger] pairs_of(m)[k]).1 != name@,
        r matches Some(id) ==> exists|k: int| 0 <= k < pairs_of(m).len() && #[trigger] pairs_of(m)[k] == (id, name@),
{
    m.get_by_second(name).map(|id| *id)
}

/// Relies on `BidirMap::get_by_first`: the second value of the first pair
/// whose first value equals `id`, if any.
#[verifier::external_body]
fn second_by_first(m: &bidir_map::BidirMap<u32, String>, id: u32) -> (r: Option<String>)
    ensures
        r is None <==> forall|k: int| 0 <= k < pairs_of(m).len() ==> (#[trigger] pairs_of(m)[k]).0 != id,
        r matches Some(name) ==> exists|k: int| 0 <= k < pairs_of(m).len() && #[trigger] pairs_of(m)[k] == (id, name@),
{
    m.get_by_first(&id).map(|name| name.clone())
}

/// City names and their identifiers `0, 1, 2, ...` in order of first
/// appearance.
pub struct CityTable {
    map: bidir_map::BidirMap<u32, String>,
    next_id: u32,
}

impl CityTable {
    /// The names, the one of identifier `k` at position `k`.
    pub closed spec fn names(&self) -> Seq<Seq<char>> {
        pairs_of(&self.map).map_values(|p: (u32, Seq<char>)| p.1)
    }

    pub closed spec fn wf(&self) -> bool {
        &&& pairs_of(&self.map).len() == self.next_id as nat
        &&& forall|k: int| 0 <= k < pairs_of(&self.map).len() ==> (#[trigger] pairs_of(&self.map)[k]).0 == k as u32
        &&& self.names().no_duplicates()
    }

    /// A table with no cities.
    pub fn new() -> (r: Self)
        ensures
            r.wf(),
            r.names() == Seq::<Seq<char>>::empty(),
    {
        let r = CityTable { map: empty_map(), next_id: 0 };
        assert(r.names() =~= Seq::<Seq<char>>::empty());
        r
    }

    /// Number of cities in the table.
    pub fn len(&self) -> (r: u32)
        requires
            self.wf(),
        ensures
            r as nat == self.names().len(),
    {
        self.next_id
    }

    /// The identifier of `name`: the one it already has, or else the next free
    /// one, which it gets from now on. `None` when the name is new and all
    /// identifiers are taken.
    pub fn intern(&mut self, name: String) -> (r: Option<u32>)
        requires
            old(self).wf(),
        ensures
            final(self).wf(),
            old(self).names().contains(name@) ==> final(self).names() == old(self).names() && (r matches Some(id)
                && (id as int) < old(self).names().len() && old(self).names()[id as int] == name@),
            !old(self).names().contains(name@) && old(self).names().len() < u32::MAX ==> r == Some(
                old(self).names().len() as u32,
            ) && final(self).names() == old(self).names().push(name@),
            !old(self).names().contains(name@) && old(self).names().len() >= u32::MAX ==> r is None
                && final(self).names() == old(self).names(),
    {
        let ghost pairs = pairs_of(&self.map);
        match first_by_second(&self.map, &name) {
            Some(id) => {
                proof {
                    let k = choose|k: int| 0 <= k < pairs.len() && #[trigger] pairs[k] == (id, name@);
                    assert(self.names()[k] == name@);
                    assert(id == k as u32);
                }
                Some(id)
            },
            None => {
                proof {
                    assert(!self.names().contains(name@)) by {
                        if self.names().contains(name@) {
                            let k = choose|k: int| 0 <= k < self.names().len() && self.names()[k] == name@;
                            assert(pairs[k].1 == name@);
                        }
                    }
                }
                if self.next_id == u32::MAX {
                    return None;
                }
                let id = self.next_id;
                let ghost old_names = self.names();
                proof {
                    assert forall|k: int| 0 <= k < pairs.len() implies (#[trigger] pairs[k]).0 != id && pairs[k].1 != name@ by {
                        assert(pairs[k].0 == k as u32);
                    }
                }
                insert_pair(&mut self.map, id, name);
                self.next_id = id + 1;
                proof {
                    assert(self.names() =~= old_names.push(name@));
                    assert forall|i: int, j: int| 0 <= i < self.names().len() && 0 <= j < self.names().len() && i != j implies self.names()[i] != self.names()[j] by {
                        if i == old_names.len() {
                            assert(old_names.contains(self.names()[j]));
                        } else if j == old_names.len() {
                            assert(old_names.contains(self.names()[i]));
                        }
                    }
                }
                Some(id)
            },
        }
    }

    /// The name of city `id`, if the table has it.
    pub fn name_of(&self, id: u32) -> (r: Option<String>)
        requires
            self.wf(),
        ensures
            (id as nat) < self.names().len() ==> (r matches Some(name) && name@ == self.names()[id as int]),
            (id as nat) >= self.names().len() ==> r is None,
    {
        let r = second_by_first(&self.map, id);
        proof {
            let pairs = pairs_of(&self.map);
            if (id as nat) < pairs.len() {
                assert(pairs[id as int].0 == id);
                if r is Some {
                    let name = r->Some_0;
                    let k = choose|k: int| 0 <= k < pairs.len() && #[trigger] pairs[k] == (id, name@);
                    assert(pairs[k].0 == k as u32);
                }
            } else {
                assert forall|k: int| 0 <= k < pairs.len() implies (#[trigger] pairs[k]).0 != id by {
                    assert(pairs[k].0 == k as u32);
                }
            }
        }
        r
    }
}

} // verus!
