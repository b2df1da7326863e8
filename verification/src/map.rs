use vstd::prelude::*;
use crate::hex::Hex;
use crate::table::Table;
use crate::buildings::BuildingsAggregate;
use crate::army::Army;

verus! {

/// Countries are told apart by the number of the entity that stands for them.
pub type CountryId = u64;

/// The kind of land a tile is.
#[derive(Clone, Copy, PartialEq, Eq, Structural, Debug)]
pub enum TerrainType {
    Flat,
    Forest,
    Mountain,
    Water,
}

/// What the board holds on one tile.
#[derive(Clone, Copy, Debug)]
pub struct Tile {
    pub terrain: TerrainType,
    pub buildings: BuildingsAggregate,
}

/// The board: its tiles, who owns which tile, and the armies on it.
pub struct HexMap {
    /// Tiles are coloured by owner rather than by terrain.
    pub political: bool,
    pub entities: Table<Hex, Tile>,
    pub hex_owners: Table<Hex, CountryId>,
    pub armies: Table<Hex, Army>,
}

impl HexMap {
    pub open spec fn wf(&self) -> bool {
        &&& self.entities.wf()
        &&& self.hex_owners.wf()
        &&& self.armies.wf()
    }

    /// An empty board, shown by terrain.
    pub fn new() -> (m: HexMap)
        ensures
            m.wf(),
            !m.political,
            m.entities@ == Map::<Hex, Tile>::empty(),
            m.hex_owners@ == Map::<Hex, CountryId>::empty(),
            m.armies@ == Map::<Hex, Army>::empty(),
    {
        HexMap {
            political: false,
            entities: Table::new(),
            hex_owners: Table::new(),
            armies: Table::new(),
        }
    }
}

/// Every army stands on a tile that its own country owns.
pub open spec fn armies_on_own_land(
    armies: Map<Hex, Army>,
    owners: Map<Hex, CountryId>,
) -> bool {
    forall|h: Hex|
        #[trigger] armies.contains_key(h) ==> owners.contains_key(h) && owners[h]
            == armies[h].owner
}

} // verus!

verus! {

/// `a` with all its move points back.
pub open spec fn rested(a: Army) -> Army {
    Army { move_points_left: a.move_points_max, ..a }
}

impl HexMap {
    /// Every army gets all its move points back.
    pub fn reset_all_move_points(&mut self)
        requires
            old(self).wf(),
        ensures
            final(self).wf(),
            final(self).political == old(self).political,
            final(self).entities == old(self).entities,
            final(self).hex_owners == old(self).hex_owners,
            final(self).armies@ == Map::new(
                |h: Hex| old(self).armies@.contains_key(h),
                |h: Hex| rested(old(self).armies@[h]),
            ),
    {
        let ghost s0 = self.armies.entries@;
        proof {
            crate::table::lemma_entries_map_all(s0);
        }
        let n = self.armies.entries.len();
        let mut i: usize = 0;
        while i < n
            invariant
                n == self.armies.entries@.len(),
                n == s0.len(),
                i <= n,
                self.political == old(self).political,
                self.entities == old(self).entities,
                self.hex_owners == old(self).hex_owners,
                s0 == old(self).armies.entries@,
                forall|j: int|
                    0 <= j < n ==> #[trigger] self.armies.entries@[j].0 == s0[j].0,
                forall|j: int| 0 <= j < i ==> #[trigger] self.armies.entries@[j].1 == rested(s0[j].1),
                forall|j: int| i <= j < n ==> #[trigger] self.armies.entries@[j].1 == s0[j].1,
            decreases n - i,
        {
            let (h, a) = self.armies.entries[i];
            self.armies.entries.set(i, (h, Army { move_points_left: a.move_points_max, ..a }));
            i = i + 1;
        }
        let ghost s1 = self.armies.entries@;
        assert(crate::table::keys_distinct(s1)) by {
            assert forall|a: int, b: int|
                0 <= a < s1.len() && 0 <= b < s1.len() && #[trigger] s1[a].0 == #[trigger] s1[b].0 implies a == b by {
                assert(s0[a].0 == s0[b].0);
            }
        }
        proof {
            crate::table::lemma_entries_map_all(s1);
        }
        assert(self.armies@ =~= Map::new(
            |h: Hex| old(self).armies@.contains_key(h),
            |h: Hex| rested(old(self).armies@[h]),
        )) by {
            assert forall|h: Hex| #[trigger] self.armies@.contains_key(h) <==> old(self).armies@.contains_key(h) by {
                if self.armies@.contains_key(h) {
                    let j = choose|j: int| 0 <= j < s1.len() && s1[j].0 == h;
                    assert(s0[j].0 == h);
                }
                if old(self).armies@.contains_key(h) {
                    let j = choose|j: int| 0 <= j < s0.len() && s0[j].0 == h;
                    assert(s1[j].0 == h);
                }
            }
            assert forall|h: Hex| #[trigger] self.armies@.contains_key(h) implies self.armies@[h] == rested(
                old(self).armies@[h],
            ) by {
                let j = choose|j: int| 0 <= j < s1.len() && s1[j].0 == h;
                assert(s0[j].0 == h);
            }
        }
    }
}

} // verus!
