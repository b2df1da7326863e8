use vstd::prelude::*;
use crate::buildings::BuildingsAggregate;
use crate::countries::{CountriesSolidersNumbers, CountryState, PeaceProposals, PlayerType, Treasury};
use crate::hex::{Hex, hex_distance, hexagon};
use crate::map::{CountryId, HexMap, TerrainType, Tile};
use crate::random::random_u32;
use crate::table::Table;
use crate::war::AtWarLists;

verus! {

/// Radius of the board around its centre.
pub const MAP_RADIUS: u32 = 20;

/// Tiles farther than this from the centre along any axis are water.
pub const LAND_LIMIT: i32 = 15;

/// The terrain that a random roll gives an inland tile: of thirteen equal
/// chances, five flat land, five forest, two mountains and one lake.
pub open spec fn terrain_for_roll(roll: u32) -> TerrainType {
    let r = roll % 13;
    if r <= 4 {
        TerrainType::Flat
    } else if r <= 9 {
        TerrainType::Forest
    } else if r <= 11 {
        TerrainType::Mountain
    } else {
        TerrainType::Water
    }
}

/// `hex` lies beyond the land limit: on the sea around the land.
pub open spec fn beyond_land(hex: Hex, land_limit: int) -> bool {
    crate::hex::abs(hex.x as int) > land_limit || crate::hex::abs(hex.y as int) > land_limit
        || crate::hex::abs(hex.x + hex.y) > land_limit
}

/// The terrain of `hex` for a roll: water beyond the land limit, else by
/// `terrain_for_roll`.
pub open spec fn terrain_for(hex: Hex, land_limit: int, roll: u32) -> TerrainType {
    if beyond_land(hex, land_limit) {
        TerrainType::Water
    } else {
        terrain_for_roll(roll)
    }
}

/// Coordinates small enough for the terrain rules' arithmetic.
pub open spec fn small_coords(hex: Hex) -> bool {
    -0x3fff_ffff <= hex.x <= 0x3fff_ffff && -0x3fff_ffff <= hex.y <= 0x3fff_ffff
}

pub fn terrain_for_roll_exec(roll: u32) -> (t: TerrainType)
    ensures
        t == terrain_for_roll(roll),
{
    let r = roll % 13;
    if r <= 4 {
        TerrainType::Flat
    } else if r <= 9 {
        TerrainType::Forest
    } else if r <= 11 {
        TerrainType::Mountain
    } else {
        TerrainType::Water
    }
}

/// The terrain of a new tile: water beyond the land limit, else drawn at
/// random (see `terrain_for_roll`).
pub fn gen_hex_terrain(hex: &Hex, land_limit: &i32) -> (t: TerrainType)
    requires
        small_coords(*hex),
    ensures
        exists|roll: u32| t == terrain_for(*hex, *land_limit as int, roll),
{
    let ax = if hex.x < 0 {
        -hex.x
    } else {
        hex.x
    };
    let ay = if hex.y < 0 {
        -hex.y
    } else {
        hex.y
    };
    let s = hex.x + hex.y;
    let az = if s < 0 {
        -s
    } else {
        s
    };
    if ax > *land_limit || ay > *land_limit || az > *land_limit {
        assert(terrain_for(*hex, *land_limit as int, 0) == TerrainType::Water);
        TerrainType::Water
    } else {
        let roll = random_u32();
        let t = terrain_for_roll_exec(roll);
        assert(t == terrain_for(*hex, *land_limit as int, roll));
        t
    }
}

/// A new tile is valid: water beyond the land limit, and with the free
/// building slots of its terrain.
pub open spec fn new_tile_ok(hex: Hex, tile: Tile) -> bool {
    &&& beyond_land(hex, LAND_LIMIT as int) ==> tile.terrain == TerrainType::Water
    &&& tile.buildings == BuildingsAggregate::spec_new_by_terrain(tile.terrain)
}

/// The tiles of a new board: one for every hex within `MAP_RADIUS` of the
/// centre, in hexx's order, each with a random terrain (see
/// `gen_hex_terrain`) and free building slots.
pub fn create_hex_entities() -> (t: Table<Hex, Tile>)
    ensures
        t.wf(),
        forall|h: Hex| #[trigger] t@.contains_key(h) <==> hex_distance(Hex { x: 0, y: 0 }, h) <= MAP_RADIUS,
        forall|h: Hex| #[trigger] t@.contains_key(h) ==> new_tile_ok(h, t@[h]),
{
    let hexes = hexagon(Hex::new(0, 0), MAP_RADIUS);
    let mut t: Table<Hex, Tile> = Table::new();
    let n = hexes.len();
    let mut i: usize = 0;
    while i < n
        invariant
            n == hexes@.len(),
            i <= n,
            hexes@.no_duplicates(),
            forall|h: Hex| hexes@.contains(h) <==> hex_distance(Hex { x: 0, y: 0 }, h) <= MAP_RADIUS,
            t.wf(),
            forall|h: Hex| #[trigger] t@.contains_key(h) <==> hexes@.take(i as int).contains(h),
            forall|h: Hex| #[trigger] t@.contains_key(h) ==> new_tile_ok(h, t@[h]),
        decreases n - i,
    {
        let hex = hexes[i];
        assert(hexes@.contains(hex));
        assert(small_coords(hex));
        let terrain = gen_hex_terrain(&hex, &LAND_LIMIT);
        let buildings = BuildingsAggregate::new_by_terrain(&terrain);
        t.insert(hex, Tile { terrain, buildings });
        proof {
            assert forall|h: Hex| #[trigger] t@.contains_key(h) <==> hexes@.take(i + 1).contains(h) by {
                if hexes@.take(i + 1).contains(h) {
                    let q = choose|q: int| 0 <= q < i + 1 && #[trigger] hexes@.take(i + 1)[q] == h;
                    if q < i {
                        assert(hexes@.take(i as int)[q] == h);
                    }
                }
                if hexes@.take(i as int).contains(h) {
                    let q = choose|q: int| 0 <= q < i && #[trigger] hexes@.take(i as int)[q] == h;
                    assert(hexes@.take(i + 1)[q] == h);
                }
                assert(hexes@.take(i + 1)[i as int] == hex);
            }
        }
        i = i + 1;
    }
    assert(hexes@.take(n as int) =~= hexes@);
    t
}

/// A new board: the tiles of `create_hex_entities`, with no owners and no
/// armies, shown by terrain.
pub fn setup_map(hex_map: &mut HexMap)
    ensures
        final(hex_map).wf(),
        !final(hex_map).political,
        forall|h: Hex|
            #[trigger] final(hex_map).entities@.contains_key(h) <==> hex_distance(Hex { x: 0, y: 0 }, h)
                <= MAP_RADIUS,
        forall|h: Hex|
            #[trigger] final(hex_map).entities@.contains_key(h) ==> new_tile_ok(
                h,
                final(hex_map).entities@[h],
            ),
        final(hex_map).hex_owners@ == Map::<Hex, CountryId>::empty(),
        final(hex_map).armies@ == Map::<Hex, crate::army::Army>::empty(),
{
    let entities = create_hex_entities();
    hex_map.political = false;
    hex_map.entities = entities;
    hex_map.hex_owners = Table::new();
    hex_map.armies = Table::new();
}

/// Where the three countries' lands begin.
pub fn country_origins() -> (o: [Hex; 3])
    ensures
        o@ == seq![Hex { x: -5i32, y: -5i32 }, Hex { x: 10i32, y: -5i32 }, Hex { x: -5i32, y: 10i32 }],
{
    [Hex::new(-5, -5), Hex::new(10, -5), Hex::new(-5, 10)]
}

/// Who plays the `i`-th country when the player chose country `choice`.
pub fn player_type_for(i: usize, choice: usize) -> (p: PlayerType)
    ensures
        p == (if i == choice {
            PlayerType::Player
        } else {
            PlayerType::Bot
        }),
{
    if i == choice {
        PlayerType::Player
    } else {
        PlayerType::Bot
    }
}

/// A country at the start of a new game: 70 gold, 10 gold a round, no peace
/// offers.
pub fn new_country_state(entity: CountryId, i: usize, choice: usize) -> (c: CountryState)
    ensures
        c.entity == entity,
        c.player_type == (if i == choice {
            PlayerType::Player
        } else {
            PlayerType::Bot
        }),
        c.treasury == (Treasury { gold: 70, base_income: 10 }),
        c.proposals.senders@.len() == 0,
{
    CountryState {
        entity,
        player_type: player_type_for(i, choice),
        proposals: PeaceProposals::new(),
        treasury: Treasury::new(70, 10),
    }
}

/// The owners after each country `ids[k]` claims the land tiles of
/// `claims[k]`, in order.
pub open spec fn claimed_owners(
    owners: Map<Hex, CountryId>,
    ents: Map<Hex, Tile>,
    ids: Seq<CountryId>,
    claims: Seq<Seq<Hex>>,
) -> Map<Hex, CountryId>
    decreases ids.len(),
{
    if ids.len() == 0 || claims.len() == 0 {
        owners
    } else {
        let k = if ids.len() < claims.len() {
            ids.len() - 1
        } else {
            claims.len() - 1
        };
        let prev = claimed_owners(owners, ents, ids.take(k), claims.take(k));
        claim_tiles(prev, ents, ids[k], claims[k])
    }
}

/// The owners after `id` claims the land tiles (not water, on the board) of
/// `hexes`.
pub open spec fn claim_tiles(
    owners: Map<Hex, CountryId>,
    ents: Map<Hex, Tile>,
    id: CountryId,
    hexes: Seq<Hex>,
) -> Map<Hex, CountryId>
    decreases hexes.len(),
{
    if hexes.len() == 0 {
        owners
    } else {
        let prev = claim_tiles(owners, ents, id, hexes.drop_last());
        let h = hexes.last();
        if ents.contains_key(h) && ents[h].terrain != TerrainType::Water {
            prev.insert(h, id)
        } else {
            prev
        }
    }
}

/// The countries of a new game: each starts with no soldiers and no wars,
/// and country `ids[k]` owns the land tiles of `claims[k]` (the tiles around
/// its origin).
pub fn setup_countries(map: &mut HexMap, ids: &Vec<CountryId>, claims: &Vec<Vec<Hex>>) -> (r: (
    CountriesSolidersNumbers,
    AtWarLists,
))
    requires
        old(map).wf(),
    ensures
        final(map).wf(),
        final(map).political == old(map).political,
        final(map).entities == old(map).entities,
        final(map).armies == old(map).armies,
        r.0.wf(),
        r.1.wf(),
        forall|c: CountryId| #[trigger] r.0.numbers@.contains_key(c) <==> ids@.contains(c),
        forall|c: CountryId| #[trigger] r.0.numbers@.contains_key(c) ==> r.0.numbers@[c] == 0,
        forall|c: CountryId| #[trigger] r.1@.contains_key(c) <==> ids@.contains(c),
        forall|c: CountryId| #[trigger] r.1@.contains_key(c) ==> r.1@[c].len() == 0,
        final(map).hex_owners@ == claimed_owners(
            old(map).hex_owners@,
            old(map).entities@,
            ids@,
            claims@.map_values(|v: Vec<Hex>| v@),
        ),
{
    let mut soldiers_num = CountriesSolidersNumbers { numbers: Table::new() };
    let mut wars = AtWarLists::new();
    let n = ids.len();
    let mut i: usize = 0;
    while i < n
        invariant
            n == ids@.len(),
            i <= n,
            soldiers_num.wf(),
            wars.wf(),
            forall|c: CountryId| #[trigger] soldiers_num.numbers@.contains_key(c) <==> ids@.take(i as int).contains(c),
            forall|c: CountryId| #[trigger] soldiers_num.numbers@.contains_key(c) ==> soldiers_num.numbers@[c] == 0,
            forall|c: CountryId| #[trigger] wars@.contains_key(c) <==> ids@.take(i as int).contains(c),
            forall|c: CountryId| #[trigger] wars@.contains_key(c) ==> wars@[c].len() == 0,
        decreases n - i,
    {
        let id = ids[i];
        soldiers_num.numbers.insert(id, 0);
        wars.set_list(id, Vec::new());
        proof {
            assert(ids@.take(i + 1)[i as int] == id);
            assert forall|c: CountryId| ids@.take(i + 1).contains(c) <==> (ids@.take(i as int).contains(c) || c == id) by {
                if ids@.take(i + 1).contains(c) {
                    let q = choose|q: int| 0 <= q < i + 1 && #[trigger] ids@.take(i + 1)[q] == c;
                    if q < i {
                        assert(ids@.take(i as int)[q] == c);
                    }
                }
                if ids@.take(i as int).contains(c) {
                    let q = choose|q: int| 0 <= q < i && #[trigger] ids@.take(i as int)[q] == c;
                    assert(ids@.take(i + 1)[q] == c);
                }
            }
        }
        i = i + 1;
    }
    assert(ids@.take(n as int) =~= ids@);
    let ghost cl = claims@.map_values(|v: Vec<Hex>| v@);
    let ghost o0 = map.hex_owners@;
    let m = if ids.len() < claims.len() {
        ids.len()
    } else {
        claims.len()
    };
    let mut k: usize = 0;
    assert(claimed_owners(o0, map.entities@, ids@.take(0), cl.take(0)) == o0);
    while k < m
        invariant
            m == (if ids@.len() < claims@.len() {
                ids@.len()
            } else {
                claims@.len()
            }),
            k <= m,
            map.wf(),
            map.political == old(map).political,
            map.entities == old(map).entities,
            map.armies == old(map).armies,
            o0 == old(map).hex_owners@,
            cl == claims@.map_values(|v: Vec<Hex>| v@),
            map.hex_owners@ == claimed_owners(o0, map.entities@, ids@.take(k as int), cl.take(k as int)),
        decreases m - k,
    {
        let id = ids[k];
        let ghost before = map.hex_owners@;
        let hexes = &claims[k];
        let hn = hexes.len();
        let mut j: usize = 0;
        while j < hn
            invariant
                hn == hexes@.len(),
                j <= hn,
                map.wf(),
                map.political == old(map).political,
                map.entities == old(map).entities,
                map.armies == old(map).armies,
                map.hex_owners@ == claim_tiles(before, map.entities@, id, hexes@.take(j as int)),
            decreases hn - j,
        {
            let hex = hexes[j];
            assert(hexes@.take(j + 1).drop_last() =~= hexes@.take(j as int));
            assert(hexes@.take(j + 1).last() == hex);
            match map.entities.get(&hex) {
                Some(tile) => {
                    if let TerrainType::Water = tile.terrain {
                    } else {
                        map.hex_owners.insert(hex, id);
                    }
                },
                None => {},
            }
            j = j + 1;
        }
        assert(hexes@.take(hn as int) =~= hexes@);
        proof {
            let ik = ids@.take(k + 1);
            let ck = cl.take(k + 1);
            assert(ik.take(k as int) =~= ids@.take(k as int));
            assert(ck.take(k as int) =~= cl.take(k as int));
            assert(ck[k as int] == hexes@);
            assert(ik[k as int] == id);
        }
        k = k + 1;
    }
    assert(ids@.take(m as int) =~= ids@ || cl.take(m as int) =~= cl);
    proof {
        lemma_claimed_owners_full(o0, map.entities@, ids@, cl);
    }
    (soldiers_num, wars)
}

/// Claiming with the shorter of the two lists in full is claiming with both.
pub proof fn lemma_claimed_owners_full(
    owners: Map<Hex, CountryId>,
    ents: Map<Hex, Tile>,
    ids: Seq<CountryId>,
    claims: Seq<Seq<Hex>>,
)
    ensures
        ({
            let m = if ids.len() < claims.len() {
                ids.len()
            } else {
                claims.len()
            };
            claimed_owners(owners, ents, ids.take(m as int), claims.take(m as int)) == claimed_owners(
                owners,
                ents,
                ids,
                claims,
            )
        }),
{
    let m = if ids.len() < claims.len() {
        ids.len()
    } else {
        claims.len()
    };
    if m > 0 {
        let it = ids.take(m as int);
        let ct = claims.take(m as int);
        assert(it.take(m - 1) =~= ids.take(m - 1));
        assert(ct.take(m - 1) =~= claims.take(m - 1));
    } else {
    }
}

} // verus!
