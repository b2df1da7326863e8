use vstd::prelude::*;
use crate::army::Army;
use crate::bots::{MarketBuilt, Realm, board_ok, bots_ran, built_of, free_land_of, my_hexes, run_bots, same_terrain, wars_cover};
use crate::countries::PlayerType;
use crate::countries::{CountriesSolidersNumbers, CountryState, has_army, soldier_counts_fit, soldiers_of};
use crate::errors::{MyErrors, inconsistent};
use crate::hex::Hex;
use crate::map::{CountryId, HexMap, Tile, rested};
use crate::movement::overflow_error;
use crate::political::Occupied;
use crate::table::Table;
use crate::war::{AtWarLists, end_war_with_empty_countries, owns_no_land, wars_no_duplicates, wars_symmetric};

verus! {

/// Gold that the buildings on `hexes` bring each round.
pub open spec fn bonus_of(hexes: Seq<Hex>, ents: Map<Hex, Tile>) -> int
    decreases hexes.len(),
{
    if hexes.len() == 0 {
        0
    } else {
        bonus_of(hexes.drop_last(), ents) + ents[hexes.last()].buildings.spec_bonus()
    }
}

pub proof fn lemma_bonus_of_bounds(hexes: Seq<Hex>, ents: Map<Hex, Tile>)
    ensures
        0 <= bonus_of(hexes, ents) <= 6 * hexes.len(),
    decreases hexes.len(),
{
    if hexes.len() > 0 {
        lemma_bonus_of_bounds(hexes.drop_last(), ents);
        let b = ents[hexes.last()].buildings;
        assert(0 <= b.spec_bonus() <= 6) by {
            match b {
                crate::buildings::BuildingsAggregate::Flat(arr) => {
                    assert(0 <= crate::buildings::slot_bonus(arr@[0]) <= 2);
                    assert(0 <= crate::buildings::slot_bonus(arr@[1]) <= 2);
                    assert(0 <= crate::buildings::slot_bonus(arr@[2]) <= 2);
                },
                crate::buildings::BuildingsAggregate::Mountains(o) => {
                    assert(0 <= crate::buildings::slot_bonus(o) <= 2);
                },
                _ => {},
            }
        }
    }
}

/// Every tile of `hexes` is on the board.
pub open spec fn all_tiles_known(hexes: Seq<Hex>, ents: Map<Hex, Tile>) -> bool {
    forall|x: Hex| #[trigger] hexes.contains(x) ==> ents.contains_key(x)
}

/// The income of a country with the given treasury and free land fits in
/// `i32`.
pub open spec fn income_fits(c: CountryState, map: &HexMap, occ: Map<Hex, CountryId>) -> bool {
    let b = bonus_of(free_land_of(map.hex_owners.seq(), occ, c.entity), map.entities@);
    &&& b <= i32::MAX
    &&& i32::MIN <= c.treasury.base_income + b <= i32::MAX
    &&& i32::MIN <= c.treasury.gold + c.treasury.base_income + b <= i32::MAX
}

/// Gold after a round's income: base income plus the buildings on the
/// country's own, unoccupied land.
pub open spec fn gold_after_income(c: CountryState, map: &HexMap, occ: Map<Hex, CountryId>) -> int {
    c.treasury.gold + c.treasury.base_income + bonus_of(
        free_land_of(map.hex_owners.seq(), occ, c.entity),
        map.entities@,
    )
}

fn land_bonus(hexes: &Vec<Hex>, map: &HexMap) -> (r: Result<i32, MyErrors>)
    requires
        map.wf(),
    ensures
        r is Ok <==> all_tiles_known(hexes@, map.entities@) && bonus_of(hexes@, map.entities@)
            <= i32::MAX,
        r matches Ok(b) ==> b == bonus_of(hexes@, map.entities@),
{
    let mut bonus: i32 = 0;
    let n = hexes.len();
    let mut i: usize = 0;
    while i < n
        invariant
            n == hexes@.len(),
            i <= n,
            map.wf(),
            bonus == bonus_of(hexes@.take(i as int), map.entities@),
            all_tiles_known(hexes@.take(i as int), map.entities@),
        decreases n - i,
    {
        let h = hexes[i];
        assert(hexes@.take(i + 1).drop_last() =~= hexes@.take(i as int));
        assert(hexes@.take(i + 1).last() == h);
        let tile = match map.entities.get(&h) {
            Some(t) => t,
            None => {
                proof {
                    assert(hexes@.contains(h));
                    if all_tiles_known(hexes@, map.entities@) {
                        assert(map.entities@.contains_key(h));
                    }
                }
                return Err(inconsistent("Hex Entity not found"));
            },
        };
        let g = tile.buildings.bonus_gold();
        if bonus > i32::MAX - g {
            proof {
                lemma_bonus_of_bounds(hexes@.take(i + 1), map.entities@);
                lemma_bonus_stays_above(hexes@, map.entities@, i + 1);
                assert(hexes@.take(i + 1).len() == i + 1);
            }
            return Err(overflow_error());
        }
        bonus = bonus + g;
        assert(all_tiles_known(hexes@.take(i + 1), map.entities@)) by {
            assert forall|x: Hex| #[trigger] hexes@.take(i + 1).contains(x) implies map.entities@.contains_key(x) by {
                let q = choose|q: int| 0 <= q < i + 1 && #[trigger] hexes@.take(i + 1)[q] == x;
                if q < i {
                    assert(hexes@.take(i as int).contains(x)) by {
                        assert(hexes@.take(i as int)[q] == x);
                    }
                }
            }
        }
        i = i + 1;
    }
    assert(hexes@.take(n as int) =~= hexes@);
    Ok(bonus)
}

/// A prefix's bonus is no more than the whole's.
pub proof fn lemma_bonus_stays_above(hexes: Seq<Hex>, ents: Map<Hex, Tile>, k: int)
    requires
        0 <= k <= hexes.len(),
    ensures
        bonus_of(hexes.take(k), ents) <= bonus_of(hexes, ents),
    decreases hexes.len() - k,
{
    if k < hexes.len() {
        lemma_bonus_stays_above(hexes, ents, k + 1);
        assert(hexes.take(k + 1).drop_last() =~= hexes.take(k));
        lemma_bonus_of_bounds(Seq::<Hex>::empty().push(hexes[k]), ents);
        let b = ents[hexes[k]].buildings;
        assert(0 <= b.spec_bonus()) by {
            lemma_bonus_of_bounds(hexes.take(k + 1), ents);
            lemma_bonus_of_bounds(hexes.take(k), ents);
            assert(bonus_of(Seq::<Hex>::empty().push(hexes[k]), ents) == bonus_of(Seq::<Hex>::empty(), ents) + b.spec_bonus()) by {
                assert(Seq::<Hex>::empty().push(hexes[k]).drop_last() =~= Seq::<Hex>::empty());
            }
        }
    } else {
        assert(hexes.take(k) =~= hexes);
    }
}

/// Each country earns its round's income: base income plus the buildings
/// on its own, unoccupied land. Fails on land missing from the board and on
/// overflow, at the first country where that happens: the countries before
/// it have already earned their income, it and those after it are left as
/// they were.
pub fn update_countries_gold(players: &mut Vec<CountryState>, map: &HexMap, occupied: &Occupied) -> (r:
    Result<(), MyErrors>)
    requires
        map.wf(),
        occupied.wf(),
    ensures
        final(players)@.len() == old(players)@.len(),
        forall|j: int|
            0 <= j < final(players)@.len() ==> (#[trigger] final(players)@[j]).entity == old(
                players,
            )@[j].entity && final(players)@[j].player_type == old(players)@[j].player_type
                && final(players)@[j].proposals == old(players)@[j].proposals
                && final(players)@[j].treasury.base_income == old(players)@[j].treasury.base_income,
        r is Ok <==> forall|j: int|
            0 <= j < old(players)@.len() ==> all_tiles_known(
                free_land_of(map.hex_owners.seq(), occupied.map@, (#[trigger] old(players)@[j]).entity),
                map.entities@,
            ) && income_fits(old(players)@[j], map, occupied.map@),
        r is Ok ==> forall|j: int|
            0 <= j < final(players)@.len() ==> (#[trigger] final(players)@[j]).treasury.gold
                == gold_after_income(old(players)@[j], map, occupied.map@),
        r is Err ==> exists|f: int|
            #![trigger old(players)@[f]]
            {
                &&& 0 <= f < old(players)@.len()
                &&& !(all_tiles_known(
                    free_land_of(map.hex_owners.seq(), occupied.map@, old(players)@[f].entity),
                    map.entities@,
                ) && income_fits(old(players)@[f], map, occupied.map@))
                &&& forall|j: int|
                    0 <= j < f ==> (#[trigger] final(players)@[j]).treasury.gold == gold_after_income(
                        old(players)@[j],
                        map,
                        occupied.map@,
                    )
                &&& forall|j: int| f <= j < old(players)@.len() ==> #[trigger] final(players)@[j] == old(players)@[j]
            },
{
    let n = players.len();
    let mut i: usize = 0;
    while i < n
        invariant
            n == players@.len(),
            n == old(players)@.len(),
            i <= n,
            map.wf(),
            occupied.wf(),
            forall|j: int|
                0 <= j < n ==> (#[trigger] players@[j]).entity == old(players)@[j].entity
                    && players@[j].player_type == old(players)@[j].player_type
                    && players@[j].proposals == old(players)@[j].proposals
                    && players@[j].treasury.base_income == old(players)@[j].treasury.base_income,
            forall|j: int| i <= j < n ==> #[trigger] players@[j] == old(players)@[j],
            forall|j: int|
                0 <= j < i ==> all_tiles_known(
                    free_land_of(map.hex_owners.seq(), occupied.map@, (#[trigger] old(players)@[j]).entity),
                    map.entities@,
                ) && income_fits(old(players)@[j], map, occupied.map@)
                    && players@[j].treasury.gold == gold_after_income(old(players)@[j], map, occupied.map@),
        decreases n - i,
    {
        let entity = players[i].entity;
        let hexes = my_hexes(map, &entity, occupied);
        let bonus = match land_bonus(&hexes, map) {
            Ok(b) => b,
            Err(e) => {
                return Err(e);
            },
        };
        let mut treasury = players[i].treasury;
        let inc = treasury.base_income as i64 + bonus as i64;
        if inc < i32::MIN as i64 || inc > i32::MAX as i64 {
            return Err(overflow_error());
        }
        let total = treasury.gold as i64 + inc;
        if total < i32::MIN as i64 || total > i32::MAX as i64 {
            return Err(overflow_error());
        }
        treasury.update_gold(bonus);
        crate::countries::set_treasury(players, i, treasury);
        i = i + 1;
    }
    Ok(())
}

} // verus!

verus! {

/// Whether every running count of soldiers per country over the board's
/// armies fits in an `i32`.
pub fn soldier_counts_fit_exec(map: &HexMap) -> (b: bool)
    requires
        map.wf(),
    ensures
        b == soldier_counts_fit(map.armies.seq()),
{
    let ghost s = map.armies.seq();
    let mut running: Table<CountryId, i64> = Table::new();
    let n = map.armies.entries.len();
    let mut k: usize = 0;
    assert(s.take(0) =~= Seq::<(Hex, Army)>::empty());
    while k < n
        invariant
            s == map.armies.seq(),
            n == s.len(),
            k <= n,
            running.wf(),
            forall|c: CountryId|
                #[trigger] running@.contains_key(c) <==> has_army(s.take(k as int), c),
            forall|c: CountryId|
                #[trigger] running@.contains_key(c) ==> running@[c] == soldiers_of(s.take(k as int), c),
            forall|i: int, c: CountryId|
                0 <= i <= k ==> i32::MIN <= #[trigger] soldiers_of(s.take(i), c) <= i32::MAX,
        decreases n - k,
    {
        let army = map.armies.entries[k].1;
        let ghost t0 = s.take(k as int);
        let ghost t1 = s.take(k + 1);
        assert(t1.drop_last() =~= t0);
        assert(t1.last() == s[k as int]);
        let cur: i64 = match running.get(&army.owner) {
            Some(v) => v,
            None => {
                proof {
                    crate::countries::lemma_soldiers_of_absent(t0, army.owner);
                }
                0
            },
        };
        let new_total: i64 = cur + army.number_of_soldiers as i64;
        if new_total < i32::MIN as i64 || new_total > i32::MAX as i64 {
            assert(soldiers_of(s.take(k + 1), army.owner) == new_total);
            return false;
        }
        running.insert(army.owner, new_total);
        proof {
            assert(t1[k as int].1.owner == army.owner);
            assert forall|c: CountryId| #[trigger] has_army(t1, c) && c != army.owner implies has_army(t0, c) by {
                let j = choose|j: int| 0 <= j < t1.len() && #[trigger] t1[j].1.owner == c;
                assert(j != k);
                assert(t0[j].1.owner == c);
            }
            assert forall|c: CountryId| #[trigger] has_army(t0, c) implies has_army(t1, c) by {
                let j = choose|j: int| 0 <= j < t0.len() && #[trigger] t0[j].1.owner == c;
                assert(t1[j].1.owner == c);
            }
            assert(has_army(t1, army.owner));
            assert forall|i: int, c: CountryId| 0 <= i <= k + 1 implies i32::MIN <= #[trigger] soldiers_of(
                s.take(i),
                c,
            ) <= i32::MAX by {
                if i == k + 1 {
                    if c != army.owner {
                        assert(soldiers_of(t1, c) == soldiers_of(t0, c));
                    }
                }
            }
        }
        k = k + 1;
    }
    true
}

/// The soldier counts of a new round: every country counted before or with
/// an army on the board, with the soldiers of its armies.
pub open spec fn recounted(nums: Map<CountryId, i32>, armies: Seq<(Hex, Army)>) -> Map<CountryId, i32> {
    Map::new(
        |c: CountryId| nums.contains_key(c) || has_army(armies, c),
        |c: CountryId| soldiers_of(armies, c) as i32,
    )
}

/// The realm as the bots find it at the start of a round.
pub open spec fn round_start(
    players: Seq<CountryState>,
    nums: CountriesSolidersNumbers,
    wars: Map<CountryId, Seq<CountryId>>,
    map: HexMap,
    occ: Occupied,
) -> Realm {
    Realm { players, nums, wars, map, occ, built: Seq::empty() }
}

/// The countries of `players`, in order.
pub open spec fn entities_of(players: Seq<CountryState>) -> Seq<CountryId> {
    players.map_values(|p: CountryState| p.entity)
}

/// What the end of a round makes of the realm `s` the bots left: countries
/// without land make peace with everyone, every army gets its move points
/// back, and every country earns its income (`ok` exactly when every income
/// can be counted); `events` is then the markets the bots built.
pub open spec fn round_end(
    s: Realm,
    players2: Seq<CountryState>,
    nums2: CountriesSolidersNumbers,
    wars2: Map<CountryId, Seq<CountryId>>,
    map2: HexMap,
    occ2: Occupied,
    events: Seq<MarketBuilt>,
    ok: bool,
) -> bool {
    &&& nums2 == s.nums
    &&& map2.political == s.map.political
    &&& map2.entities == s.map.entities
    &&& map2.hex_owners == s.map.hex_owners
    &&& map2.armies@ == Map::new(|h: Hex| s.map.armies@.contains_key(h), |h: Hex| rested(s.map.armies@[h]))
    &&& (wars2, occ2.map@) == end_war_spec(s)
    &&& players2.len() == s.players.len()
    &&& forall|j: int|
        0 <= j < players2.len() ==> (#[trigger] players2[j]).entity == s.players[j].entity
            && players2[j].player_type == s.players[j].player_type && players2[j].proposals
            == s.players[j].proposals && players2[j].treasury.base_income == s.players[j].treasury.base_income
    &&& ok <==> forall|j: int|
        0 <= j < s.players.len() ==> all_tiles_known(
            free_land_of(map2.hex_owners.seq(), occ2.map@, (#[trigger] s.players[j]).entity),
            map2.entities@,
        ) && income_fits(s.players[j], &map2, occ2.map@)
    &&& ok ==> forall|j: int|
        0 <= j < players2.len() ==> (#[trigger] players2[j]).treasury.gold == gold_after_income(
            s.players[j],
            &map2,
            occ2.map@,
        )
    &&& ok ==> events == s.built
}

/// The wars and occupation once every country of `s` without land has made
/// peace with everyone.
pub open spec fn end_war_spec(s: Realm) -> (Map<CountryId, Seq<CountryId>>, Map<Hex, CountryId>) {
    crate::war::end_empty_wars(s.wars, s.occ.map@, s.map.hex_owners@, entities_of(s.players))
}

/// A new round: soldiers are counted anew, the bots take their turns,
/// countries without land make peace with everyone, armies rest, and every
/// country earns its income. Returns the markets the bots built.
pub fn start_new_round(
    map: &mut HexMap,
    players: &mut Vec<CountryState>,
    countries_wars: &mut AtWarLists,
    occupied: &mut Occupied,
    soldiers_nums: &mut CountriesSolidersNumbers,
) -> (r: Result<Vec<MarketBuilt>, MyErrors>)
    requires
        old(map).wf(),
        old(occupied).wf(),
        old(soldiers_nums).wf(),
        old(countries_wars).wf(),
    ensures
        final(map).wf(),
        final(occupied).wf(),
        final(soldiers_nums).wf(),
        final(countries_wars).wf(),
        wars_no_duplicates(old(countries_wars)@) ==> wars_no_duplicates(final(countries_wars)@),
        final(map).political == old(map).political,
        same_terrain(old(map).entities@, final(map).entities@),
        board_ok(old(map), old(occupied)) ==> board_ok(final(map), final(occupied)),
        wars_no_duplicates(old(countries_wars)@) && wars_symmetric(old(countries_wars)@) && wars_cover(
            old(countries_wars)@,
            old(players)@,
            old(soldiers_nums).numbers@,
        ) && (forall|c: CountryId|
            #[trigger] has_army(old(map).armies.seq(), c) ==> old(countries_wars)@.contains_key(c))
            ==> wars_symmetric(final(countries_wars)@) && wars_cover(
            final(countries_wars)@,
            final(players)@,
            final(soldiers_nums).numbers@,
        ),
        final(players)@.len() == old(players)@.len(),
        forall|j: int|
            0 <= j < final(players)@.len() ==> (#[trigger] final(players)@[j]).entity == old(
                players,
            )@[j].entity && final(players)@[j].player_type == old(players)@[j].player_type,
        !soldier_counts_fit(old(map).armies.seq()) ==> (r matches Err(e) && e is Unexpected) && *final(map)
            == *old(map) && final(players)@ == old(players)@ && final(countries_wars)@ == old(countries_wars)@
            && *final(occupied) == *old(occupied) && *final(soldiers_nums) == *old(soldiers_nums),
        soldier_counts_fit(old(map).armies.seq()) ==> exists|nums1: CountriesSolidersNumbers, s2: Realm, okb: bool|
            #![trigger bots_ran(round_start(old(players)@, nums1, old(countries_wars)@, *old(map), *old(occupied)), s2, okb)]
            {
                &&& nums1.numbers@ == recounted(old(soldiers_nums).numbers@, old(map).armies.seq())
                &&& bots_ran(round_start(old(players)@, nums1, old(countries_wars)@, *old(map), *old(occupied)), s2, okb)
                &&& !okb ==> r is Err && final(players)@ == s2.players && *final(soldiers_nums) == s2.nums
                    && final(countries_wars)@ == s2.wars && *final(map) == s2.map && *final(occupied) == s2.occ
                &&& okb ==> round_end(
                    s2,
                    final(players)@,
                    *final(soldiers_nums),
                    final(countries_wars)@,
                    *final(map),
                    *final(occupied),
                    built_of(r),
                    r is Ok,
                )
            },
        r is Ok ==> forall|h: Hex|
            #[trigger] final(map).armies@.contains_key(h) ==> final(map).armies@[h].move_points_left
                == final(map).armies@[h].move_points_max,
        r is Ok ==> forall|j: int|
            0 <= j < final(players)@.len() && owns_no_land(
                final(map).hex_owners@,
                (#[trigger] final(players)@[j]).entity,
            ) && final(countries_wars)@.contains_key(final(players)@[j].entity) ==> final(countries_wars)@[final(players)@[j].entity].len() == 0,
        r is Ok ==> forall|j: int|
            0 <= j < final(players)@.len() && (#[trigger] old(players)@[j]).player_type == PlayerType::Player
                ==> final(players)@[j].treasury.gold == gold_after_income(
                old(players)@[j],
                final(map),
                final(occupied).map@,
            ),
{
    if !soldier_counts_fit_exec(map) {
        return Err(overflow_error());
    }
    crate::countries::recalculate_soldiers_numbers(soldiers_nums, map);
    let ghost cover_before = wars_cover(countries_wars@, players@, soldiers_nums.numbers@);
    proof {
        if wars_cover(countries_wars@, old(players)@, old(soldiers_nums).numbers@) && (forall|c: CountryId|
            #[trigger] has_army(old(map).armies.seq(), c) ==> countries_wars@.contains_key(c)) {
            assert forall|c: CountryId| #[trigger] soldiers_nums.numbers@.contains_key(c) implies countries_wars@.contains_key(c) by {
                if !old(soldiers_nums).numbers@.contains_key(c) {
                    assert(has_army(old(map).armies.seq(), c));
                }
            }
        }
    }
    let ghost nums1 = *soldiers_nums;
    let ghost start = round_start(players@, nums1, countries_wars@, *map, *occupied);
    let bots = run_bots(players, soldiers_nums, countries_wars, map, occupied);
    let ghost s2 = Realm {
        players: players@,
        nums: *soldiers_nums,
        wars: countries_wars@,
        map: *map,
        occ: *occupied,
        built: built_of(bots),
    };
    let ghost okb = bots is Ok;
    assert(bots_ran(start, s2, okb));
    let events = match bots {
        Ok(ev) => ev,
        Err(e) => {
            return Err(e);
        },
    };
    let mut countries: Vec<CountryId> = Vec::new();
    let n = players.len();
    let mut i: usize = 0;
    while i < n
        invariant
            n == players@.len(),
            i <= n,
            countries@.len() == i,
            forall|j: int| 0 <= j < i ==> #[trigger] countries@[j] == players@[j].entity,
        decreases n - i,
    {
        countries.push(players[i].entity);
        i = i + 1;
    }
    let ghost w0 = countries_wars@;
    let ghost o0 = occupied.map@;
    assert(countries@ =~= entities_of(s2.players));
    end_war_with_empty_countries(countries_wars, map, &countries, occupied);
    proof {
        crate::war::lemma_end_empty_wars_occupation(w0, o0, map.hex_owners@, countries@);
        crate::war::lemma_end_empty_wars_clears(w0, o0, map.hex_owners@, countries@);
        if wars_no_duplicates(w0) {
            crate::war::lemma_end_empty_wars(w0, o0, map.hex_owners@, countries@);
        }
    }
    map.reset_all_move_points();
    let ghost pb = players@;
    let ghost nb = soldiers_nums.numbers@;
    let gold = update_countries_gold(players, map, occupied);
    assert(round_end(s2, players@, *soldiers_nums, countries_wars@, *map, *occupied, events@, gold is Ok));
    match gold {
        Ok(()) => {},
        Err(e) => {
            assert(round_end(s2, players@, *soldiers_nums, countries_wars@, *map, *occupied, Seq::empty(), false));
            return Err(e);
        },
    }
    proof {
        assert forall|j: int|
            0 <= j < players@.len() && owns_no_land(map.hex_owners@, (#[trigger] players@[j]).entity)
                && countries_wars@.contains_key(players@[j].entity) implies countries_wars@[players@[j].entity].len()
            == 0 by {
            assert(countries@[j] == players@[j].entity);
            assert(countries@.contains(players@[j].entity));
        }
        assert forall|j: int|
            0 <= j < players@.len() && (#[trigger] old(players)@[j]).player_type == PlayerType::Player implies players@[j].treasury.gold
            == gold_after_income(old(players)@[j], map, occupied.map@) by {
            assert(pb[j].treasury == old(players)@[j].treasury);
            assert(pb[j].entity == old(players)@[j].entity);
        }
    }
    Ok(events)
}

} // verus!
