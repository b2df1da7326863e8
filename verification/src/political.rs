use vstd::prelude::*;
use crate::hex::Hex;
use crate::map::CountryId;
use crate::table::Table;

verus! {

/// Tiles held by a country other than their owner before the war: each
/// occupied tile maps to the country it was taken from.
pub struct Occupied {
    pub map: Table<Hex, CountryId>,
}

impl Occupied {
    pub open spec fn wf(&self) -> bool {
        self.map.wf()
    }

    pub fn new() -> (o: Occupied)
        ensures
            o.wf(),
            o.map@ == Map::<Hex, CountryId>::empty(),
    {
        Occupied { map: Table::new() }
    }
}

/// Every occupied tile has an owner, and that owner is not the country the
/// tile was taken from.
pub open spec fn occupation_consistent(
    owners: Map<Hex, CountryId>,
    occupied: Map<Hex, CountryId>,
) -> bool {
    forall|h: Hex|
        #[trigger] occupied.contains_key(h) ==> owners.contains_key(h) && owners[h] != occupied[h]
}

} // verus!
