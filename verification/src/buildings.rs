use vstd::prelude::*;
use crate::errors::{MyErrors, inconsistent};
use crate::hex::Hex;
use crate::map::{HexMap, TerrainType, Tile};
use crate::countries::Treasury;

verus! {

/// Gold that a market costs.
pub const PRICE: i32 = 90;

/// A building that can stand on a tile.
#[derive(Clone, Copy, PartialEq, Eq, Structural, Debug)]
pub enum Building {
    Market,
}

impl Building {
    pub open spec fn spec_bonus(self) -> int {
        match self {
            Building::Market => 2,
        }
    }

    /// Gold that the building brings each round.
    pub fn bonus_gold(&self) -> (g: i32)
        ensures
            g == self.spec_bonus(),
    {
        match self {
            Building::Market => 2,
        }
    }
}

/// The building slots of a tile: one on a mountain, three on flat land or
/// forest, none on water.
#[derive(Clone, Copy, Debug)]
pub enum BuildingsAggregate {
    Mountains(Option<Building>),
    Flat([Option<Building>; 3]),
    Empty,
}

/// Gold that an optional building in a slot brings.
pub open spec fn slot_bonus(o: Option<Building>) -> int {
    match o {
        Some(b) => b.spec_bonus(),
        None => 0,
    }
}

/// Where the next market goes on a set of slots, and what the slots then hold:
/// the single mountain slot if it is free, else the first free flat slot.
pub open spec fn place_market(b: BuildingsAggregate) -> Option<(BuildingsAggregate, int)> {
    match b {
        BuildingsAggregate::Mountains(None) => Some(
            (BuildingsAggregate::Mountains(Some(Building::Market)), 0),
        ),
        BuildingsAggregate::Flat(arr) => {
            if arr@[0] is None {
                Some(
                    (BuildingsAggregate::Flat([Some(Building::Market), arr@[1], arr@[2]]), 0),
                )
            } else if arr@[1] is None {
                Some(
                    (BuildingsAggregate::Flat([arr@[0], Some(Building::Market), arr@[2]]), 1),
                )
            } else if arr@[2] is None {
                Some(
                    (BuildingsAggregate::Flat([arr@[0], arr@[1], Some(Building::Market)]), 2),
                )
            } else {
                None
            }
        },
        _ => None,
    }
}

impl BuildingsAggregate {
    /// Gold that all buildings on the tile bring each round.
    pub open spec fn spec_bonus(self) -> int {
        match self {
            BuildingsAggregate::Mountains(b) => slot_bonus(b),
            BuildingsAggregate::Flat(arr) => slot_bonus(arr@[0]) + slot_bonus(arr@[1])
                + slot_bonus(arr@[2]),
            BuildingsAggregate::Empty => 0,
        }
    }

    /// The slots a tile of the given terrain has, all free.
    pub open spec fn spec_new_by_terrain(terrain: TerrainType) -> BuildingsAggregate {
        match terrain {
            TerrainType::Flat | TerrainType::Forest => BuildingsAggregate::Flat([None, None, None]),
            TerrainType::Mountain => BuildingsAggregate::Mountains(None),
            TerrainType::Water => BuildingsAggregate::Empty,
        }
    }

    pub fn new_by_terrain(terrain: &TerrainType) -> (b: BuildingsAggregate)
        ensures
            b == Self::spec_new_by_terrain(*terrain),
    {
        match terrain {
            TerrainType::Flat | TerrainType::Forest => Self::new_flat(),
            TerrainType::Mountain => Self::new_mountain(),
            TerrainType::Water => Self::new_empty(),
        }
    }

    pub fn new_mountain() -> (b: BuildingsAggregate)
        ensures
            b == BuildingsAggregate::Mountains(None),
    {
        BuildingsAggregate::Mountains(None)
    }

    pub fn new_flat() -> (b: BuildingsAggregate)
        ensures
            b == BuildingsAggregate::Flat([None, None, None]),
    {
        BuildingsAggregate::Flat([None, None, None])
    }

    pub fn new_empty() -> (b: BuildingsAggregate)
        ensures
            b == BuildingsAggregate::Empty,
    {
        BuildingsAggregate::Empty
    }

    fn slot_gold(o: &Option<Building>) -> (g: i32)
        ensures
            g == slot_bonus(*o),
    {
        match o {
            Some(b) => b.bonus_gold(),
            None => 0,
        }
    }

    /// Gold that all buildings on the tile bring each round.
    pub fn bonus_gold(&self) -> (g: i32)
        ensures
            g == self.spec_bonus(),
            0 <= g <= 6,
    {
        match self {
            BuildingsAggregate::Mountains(building) => Self::slot_gold(building),
            BuildingsAggregate::Flat(arr) => {
                let mut sum: i32 = 0;
                sum = sum + Self::slot_gold(&arr[0]);
                sum = sum + Self::slot_gold(&arr[1]);
                sum = sum + Self::slot_gold(&arr[2]);
                sum
            },
            BuildingsAggregate::Empty => 0,
        }
    }

    /// Puts a market in the first free slot; `None` when every slot is taken
    /// or the tile has none.
    pub fn with_market(&self) -> (r: Option<(BuildingsAggregate, usize)>)
        ensures
            r matches Some((b, i)) ==> place_market(*self) == Some((b, i as int)),
            r is None <==> place_market(*self) is None,
    {
        match self {
            BuildingsAggregate::Mountains(building) => {
                if building.is_none() {
                    Some((BuildingsAggregate::Mountains(Some(Building::Market)), 0))
                } else {
                    None
                }
            },
            BuildingsAggregate::Flat(arr) => {
                let a0 = arr[0];
                let a1 = arr[1];
                let a2 = arr[2];
                if a0.is_none() {
                    Some((BuildingsAggregate::Flat([Some(Building::Market), a1, a2]), 0))
                } else if a1.is_none() {
                    Some((BuildingsAggregate::Flat([a0, Some(Building::Market), a2]), 1))
                } else if a2.is_none() {
                    Some((BuildingsAggregate::Flat([a0, a1, Some(Building::Market)]), 2))
                } else {
                    None
                }
            },
            BuildingsAggregate::Empty => None,
        }
    }
}

/// Builds a market on `hex` for the country whose treasury is given, paying
/// `PRICE` gold. Returns the slot the market went into, or `None` when the
/// country cannot pay or the tile has no free slot.
pub fn build_market_bot(map: &mut HexMap, hex: &Hex, treasury: &mut Treasury) -> (r: Result<
    Option<usize>,
    MyErrors,
>)
    requires
        old(map).wf(),
    ensures
        final(map).wf(),
        final(map).political == old(map).political,
        final(map).hex_owners == old(map).hex_owners,
        final(map).armies == old(map).armies,
        final(treasury).base_income == old(treasury).base_income,
        !old(map).entities@.contains_key(*hex) ==> r is Err,
        r is Err ==> final(map).entities@ == old(map).entities@ && *final(treasury) == *old(treasury),
        r matches Err(e) ==> e is InconsistentData,
        r is Err <==> !old(map).entities@.contains_key(*hex) || (old(treasury).gold >= PRICE
            && old(map).entities@[*hex].buildings is Empty),
        r matches Ok(Some(slot)) ==> ({
            let tile = old(map).entities@[*hex];
            &&& old(treasury).gold >= PRICE
            &&& place_market(tile.buildings) matches Some((b, i)) && i == slot
                && final(map).entities@ == old(map).entities@.insert(
                *hex,
                Tile { terrain: tile.terrain, buildings: b },
            )
            &&& final(treasury).gold == old(treasury).gold - PRICE
        }),
        r matches Ok(None) ==> {
            &&& final(map).entities@ == old(map).entities@
            &&& final(treasury).gold == old(treasury).gold
            &&& old(treasury).gold < PRICE || place_market(old(map).entities@[*hex].buildings) is None
        },
        r is Ok && old(treasury).gold >= PRICE && place_market(
            old(map).entities@[*hex].buildings,
        ) is Some ==> r matches Ok(Some(_)),
{
    let tile = match map.entities.get(hex) {
        Some(t) => t,
        None => {
            return Err(inconsistent("Couldn't find Hex Entity to build market on"));
        },
    };
    if treasury.gold < PRICE {
        return Ok(None);
    }
    if let BuildingsAggregate::Empty = tile.buildings {
        return Err(inconsistent("Somehow trying to build market on water"));
    }
    match tile.buildings.with_market() {
        Some((b, slot)) => {
            map.entities.insert(*hex, Tile { terrain: tile.terrain, buildings: b });
            treasury.gold = treasury.gold - PRICE;
            Ok(Some(slot))
        },
        None => Ok(None),
    }
}

} // verus!

verus! {

/// The slots of a tile whose markets are drawn: the mountain slot if built,
/// else the flat slots from the first up to the first empty one.
pub open spec fn drawn_slots(b: BuildingsAggregate) -> Seq<usize> {
    match b {
        BuildingsAggregate::Mountains(Some(_)) => seq![0usize],
        BuildingsAggregate::Mountains(None) => Seq::empty(),
        BuildingsAggregate::Flat(arr) => if arr[0] is None {
            Seq::empty()
        } else if arr[1] is None {
            seq![0usize]
        } else if arr[2] is None {
            seq![0usize, 1usize]
        } else {
            seq![0usize, 1usize, 2usize]
        },
        BuildingsAggregate::Empty => Seq::empty(),
    }
}

/// The markets drawn on the tiles `s`, tile by tile, each as its hex and
/// slot.
pub open spec fn drawn_markets(s: Seq<(Hex, Tile)>) -> Seq<(Hex, usize)>
    decreases s.len(),
{
    if s.len() == 0 {
        Seq::empty()
    } else {
        drawn_markets(s.drop_last()) + drawn_slots(s.last().1.buildings).map_values(
            |i: usize| (s.last().0, i),
        )
    }
}

/// The markets to draw on the board, tile by tile in the board's order, each
/// as its hex and the slot it stands in.
pub fn redraw_markets(map: &HexMap) -> (r: Vec<(Hex, usize)>)
    ensures
        r@ == drawn_markets(map.entities.seq()),
{
    let ghost s = map.entities.seq();
    let mut marks: Vec<(Hex, usize)> = Vec::new();
    let n = map.entities.entries.len();
    let mut i: usize = 0;
    while i < n
        invariant
            s == map.entities.seq(),
            n == s.len(),
            i <= n,
            marks@ == drawn_markets(s.take(i as int)),
        decreases n - i,
    {
        let (hex, tile) = map.entities.entries[i];
        assert(s.take(i + 1).drop_last() =~= s.take(i as int));
        assert(s.take(i + 1).last() == (hex, tile));
        let ghost before = marks@;
        match tile.buildings {
            BuildingsAggregate::Mountains(b) => {
                if b.is_some() {
                    marks.push((hex, 0));
                }
            },
            BuildingsAggregate::Flat(arr) => {
                handle_flat_aggregate_markets(&mut marks, hex, &arr);
            },
            BuildingsAggregate::Empty => {},
        }
        assert(marks@ =~= before + drawn_slots(tile.buildings).map_values(|j: usize| (hex, j)));
        i = i + 1;
    }
    assert(s.take(n as int) =~= s);
    marks
}

/// Adds the markets of a tile's flat slots, from the first up to the first
/// empty one.
fn handle_flat_aggregate_markets(marks: &mut Vec<(Hex, usize)>, hex: Hex, arr: &[Option<Building>; 3])
    ensures
        final(marks)@ == old(marks)@ + drawn_slots(BuildingsAggregate::Flat(*arr)).map_values(
            |j: usize| (hex, j),
        ),
{
    let ghost m0 = marks@;
    let mut i: usize = 0;
    while i < 3
        invariant
            i <= 3,
            forall|k: int| 0 <= k < i ==> arr@[k] is Some,
            marks@ == m0 + Seq::new(i as nat, |j: int| (hex, j as usize)),
        ensures
            i <= 3,
            forall|k: int| 0 <= k < i ==> arr@[k] is Some,
            marks@ == m0 + Seq::new(i as nat, |j: int| (hex, j as usize)),
            i == 3 || arr@[i as int] is None,
        decreases 3 - i,
    {
        if arr[i].is_none() {
            break;
        }
        marks.push((hex, i));
        assert(marks@ =~= m0 + Seq::new((i + 1) as nat, |j: int| (hex, j as usize)));
        i = i + 1;
    }
    assert(arr@[0] == arr[0] && arr@[1] == arr[1] && arr@[2] == arr[2]);
    assert(marks@ =~= m0 + drawn_slots(BuildingsAggregate::Flat(*arr)).map_values(|j: usize| (hex, j)));
}

} // verus!
