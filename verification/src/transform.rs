//! Locations in a MIR body and the source ranges they map to.

use crate::models::Range;
use vstd::prelude::*;

verus! {

/// A point in a MIR body: a basic block and a statement index within it.
#[derive(Clone, Copy, PartialEq, Eq, Hash, Debug, Structural)]
pub struct Location {
    pub block: u32,
    pub statement_index: usize,
}

impl Location {
    /// The index of the basic block.
    pub fn block(&self) -> (r: u32)
        ensures
            r == self.block,
    {
        self.block
    }

    /// The statement index, as a `u32`.
    pub fn statement(&self) -> (r: u32)
        ensures
            r == self.statement_index as u32,
    {
        self.statement_index as u32
    }

    /// The next location within the same block.
    pub fn successor(&self) -> (r: Self)
        requires
            self.statement_index < usize::MAX,
        ensures
            r.block == self.block,
            r.statement_index == self.statement_index + 1,
    {
        Location { block: self.block, statement_index: self.statement_index + 1 }
    }
}

/// A location at the start of a statement or in its middle.
#[derive(Clone, Copy, PartialEq, Eq, Debug, Structural)]
pub enum RichLocation {
    Start(Location),
    Mid(Location),
}

impl RichLocation {
    pub open spec fn location_of(self) -> Location {
        match self {
            RichLocation::Start(l) => l,
            RichLocation::Mid(l) => l,
        }
    }
}

/// The source range of each location of a body that has one; a location
/// occurs at most once.
pub struct LocationRanges {
    map: Vec<(Location, Range)>,
}

/// No location occurs twice among the entries.
pub open spec fn unique_keys(s: Seq<(Location, Range)>) -> bool {
    forall|a: int, b: int| 0 <= a < b < s.len() ==> (#[trigger] s[a]).0 != (#[trigger] s[b]).0
}

impl LocationRanges {
    #[verifier::type_invariant]
    closed spec fn inv(self) -> bool {
        unique_keys(self.map@)
    }

    /// The map from locations to ranges.
    pub closed spec fn view(&self) -> Map<Location, Range> {
        Map::new(
            |l: Location| exists|k: int| 0 <= k < self.map@.len() && (#[trigger] self.map@[k]).0 == l,
            |l: Location|
                self.map@[choose|k: int| 0 <= k < self.map@.len() && (#[trigger] self.map@[k]).0 == l].1,
        )
    }

    /// No location has a range yet.
    pub fn new() -> (r: Self)
        ensures
            r@ == Map::<Location, Range>::empty(),
    {
        let r = LocationRanges { map: Vec::new() };
        assert(r@ =~= Map::<Location, Range>::empty());
        r
    }

    /// Gives `location` the range `range`, replacing any range it had.
    pub fn insert(&mut self, location: Location, range: Range)
        ensures
            final(self)@ == old(self)@.insert(location, range),
    {
        proof {
            use_type_invariant(&*self);
        }
        let ghost m0 = self.map@;
        let mut k: usize = 0;
        let mut found = false;
        while k < self.map.len() && !found
            invariant
                self.map@ == m0,
                unique_keys(m0),
                k <= m0.len(),
                found ==> k < m0.len() && m0[k as int].0 == location,
                !found ==> forall|t: int| 0 <= t < k ==> (#[trigger] m0[t]).0 != location,
            decreases m0.len() - k + (if found {
                0int
            } else {
                1int
            }),
        {
            if self.map[k].0 == location {
                found = true;
            } else {
                k = k + 1;
            }
        }
        let ghost old_view = self@;
        if found {
            let mut map: Vec<(Location, Range)> = Vec::new();
            std::mem::swap(&mut map, &mut self.map);
            map.set(k, (location, range));
            proof {
                assert(unique_keys(map@)) by {
                    assert forall|a: int, b: int| 0 <= a < b < map@.len() implies (
                    #[trigger] map@[a]).0 != (#[trigger] map@[b]).0 by {
                        assert(m0[a].0 != m0[b].0);
                    }
                }
            }
            self.map = map;
            proof {
                assert forall|l: Location| #[trigger] self@.dom().contains(l) <==> old_view.insert(
                    location,
                    range,
                ).dom().contains(l) by {
                    if l != location && old_view.dom().contains(l) {
                        let t = choose|t: int| 0 <= t < m0.len() && (#[trigger] m0[t]).0 == l;
                        assert(self.map@[t].0 == l);
                    }
                    if l == location {
                        assert(self.map@[k as int].0 == l);
                    }
                    if self@.dom().contains(l) && l != location {
                        let t = choose|t: int|
                            0 <= t < self.map@.len() && (#[trigger] self.map@[t]).0 == l;
                        assert(m0[t].0 == l);
                    }
                }
                assert forall|l: Location| #[trigger] self@.dom().contains(l) implies self@[l]
                    == old_view.insert(location, range)[l] by {
                    let t = choose|t: int|
                        0 <= t < self.map@.len() && (#[trigger] self.map@[t]).0 == l;
                    if l == location {
                        assert(t == k);
                    } else {
                        let t0 = choose|t0: int| 0 <= t0 < m0.len() && (#[trigger] m0[t0]).0 == l;
                        assert(t0 == t);
                    }
                }
                assert(self@ =~= old_view.insert(location, range));
            }
        } else {
            let mut map: Vec<(Location, Range)> = Vec::new();
            std::mem::swap(&mut map, &mut self.map);
            map.push((location, range));
            self.map = map;
            proof {
                let n = m0.len() as int;
                assert forall|l: Location| #[trigger] self@.dom().contains(l) <==> old_view.insert(
                    location,
                    range,
                ).dom().contains(l) by {
                    if l != location && old_view.dom().contains(l) {
                        let t = choose|t: int| 0 <= t < m0.len() && (#[trigger] m0[t]).0 == l;
                        assert(self.map@[t].0 == l);
                    }
                    if l == location {
                        assert(self.map@[n].0 == l);
                    }
                    if self@.dom().contains(l) && l != location {
                        let t = choose|t: int|
                            0 <= t < self.map@.len() && (#[trigger] self.map@[t]).0 == l;
                        assert(m0[t].0 == l);
                    }
                }
                assert forall|l: Location| #[trigger] self@.dom().contains(l) implies self@[l]
                    == old_view.insert(location, range)[l] by {
                    let t = choose|t: int|
                        0 <= t < self.map@.len() && (#[trigger] self.map@[t]).0 == l;
                    if l == location {
                        assert(t == n);
                    } else {
                        let t0 = choose|t0: int| 0 <= t0 < m0.len() && (#[trigger] m0[t0]).0 == l;
                        assert(t0 == t);
                    }
                }
                assert(self@ =~= old_view.insert(location, range));
            }
        }
    }

    /// The range of `location`, where it has one.
    pub fn get(&self, location: &Location) -> (r: Option<Range>)
        ensures
            r == (if self@.dom().contains(*location) {
                Some(self@[*location])
            } else {
                None
            }),
    {
        proof {
            use_type_invariant(self);
        }
        let mut k: usize = 0;
        while k < self.map.len()
            invariant
                unique_keys(self.map@),
                k <= self.map@.len(),
                forall|t: int| 0 <= t < k ==> (#[trigger] self.map@[t]).0 != *location,
            decreases self.map@.len() - k,
        {
            if self.map[k].0 == *location {
                let r = self.map[k].1;
                proof {
                    let t = choose|t: int|
                        0 <= t < self.map@.len() && (#[trigger] self.map@[t]).0 == *location;
                    assert(t == k);
                }
                return Some(r);
            }
            k = k + 1;
        }
        None
    }
}

/// The ranges of those of `locations` that have one, in order.
pub open spec fn ranges_of(m: Map<Location, Range>, locations: Seq<RichLocation>) -> Seq<Range>
    decreases locations.len(),
{
    if locations.len() == 0 {
        Seq::empty()
    } else {
        let rest = ranges_of(m, locations.drop_last());
        let l = locations.last().location_of();
        if m.dom().contains(l) {
            rest.push(m[l])
        } else {
            rest
        }
    }
}

/// The source ranges of the given locations, skipping those that have none.
pub fn rich_locations_to_ranges(location_ranges: &LocationRanges, locations: &[RichLocation]) -> (r:
    Vec<Range>)
    ensures
        r@ == ranges_of(location_ranges@, locations@),
{
    let mut r: Vec<Range> = Vec::new();
    let mut i: usize = 0;
    while i < locations.len()
        invariant
            i <= locations@.len(),
            r@ == ranges_of(location_ranges@, locations@.take(i as int)),
        decreases locations@.len() - i,
    {
        let loc = match &locations[i] {
            RichLocation::Start(l) => l,
            RichLocation::Mid(l) => l,
        };
        let got = location_ranges.get(loc);
        proof {
            assert(locations@.take(i + 1).drop_last() =~= locations@.take(i as int));
        }
        if let Some(range) = got {
            r.push(range);
        }
        i = i + 1;
    }
    proof {
        assert(locations@.take(i as int) =~= locations@);
    }
    r
}

/// What a lookup gives back after an insertion: the inserted range for the
/// location inserted, and what it gave before for every other location.
pub proof fn law_location_ranges_read_after_write(m: Map<Location, Range>, l: Location, r: Range, other: Location)
    requires
        other != l,
    ensures
        m.insert(l, r).dom().contains(l) && m.insert(l, r)[l] == r,
        m.insert(l, r).dom().contains(other) == m.dom().contains(other),
        m.dom().contains(other) ==> m.insert(l, r)[other] == m[other],
{
}

} // verus!
