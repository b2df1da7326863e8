use hexkingdoms::army::Army;
use hexkingdoms::bots::{declare_wars, div10_exec, my_armies_nums, my_hexes, recruit_army_on_random_hex, run_bots};
use hexkingdoms::buildings::{Building, BuildingsAggregate};
use hexkingdoms::countries::{CountriesSolidersNumbers, CountryState, PeaceProposals, PlayerType, Treasury};
use hexkingdoms::errors::MyErrors;
use hexkingdoms::hex::Hex;
use hexkingdoms::map::{HexMap, TerrainType, Tile};
use hexkingdoms::pathfinding::{find_closest_enemy_hex, find_closest_unowned_hex};
use hexkingdoms::political::Occupied;
use hexkingdoms::recruitment::{RecruitNumber, recruit_to_map, recruitment_system};
use hexkingdoms::round::{start_new_round, update_countries_gold};
use hexkingdoms::setup::{
    LAND_LIMIT, create_hex_entities, gen_hex_terrain, new_country_state, setup_countries, setup_map,
    terrain_for_roll_exec,
};
use hexkingdoms::table::Table;
use hexkingdoms::war::{AtWarLists, end_war_with_empty_countries};

fn h(x: i32, y: i32) -> Hex {
    Hex::new(x, y)
}

fn tile(t: TerrainType) -> Tile {
    Tile { terrain: t, buildings: BuildingsAggregate::new_by_terrain(&t) }
}

fn flat_board(radius: u32) -> HexMap {
    let mut map = HexMap::new();
    let r = radius as i32;
    for x in -r..=r {
        for y in -r..=r {
            if (x + y).abs() <= r {
                map.entities.insert(h(x, y), tile(TerrainType::Flat));
            }
        }
    }
    map
}

fn state(entity: u64, p: PlayerType, gold: i32) -> CountryState {
    CountryState { entity, player_type: p, proposals: PeaceProposals::new(), treasury: Treasury::new(gold, 10) }
}

fn adjacent(a: Hex, b: Hex) -> bool {
    let (dx, dy) = (b.x - a.x, b.y - a.y);
    matches!((dx, dy), (1, 0) | (0, 1) | (-1, 1) | (-1, 0) | (0, -1) | (1, -1))
}

#[test]
fn terrain_rolls_split_thirteen_ways() {
    assert_eq!(terrain_for_roll_exec(0), TerrainType::Flat);
    assert_eq!(terrain_for_roll_exec(4), TerrainType::Flat);
    assert_eq!(terrain_for_roll_exec(5), TerrainType::Forest);
    assert_eq!(terrain_for_roll_exec(9), TerrainType::Forest);
    assert_eq!(terrain_for_roll_exec(10), TerrainType::Mountain);
    assert_eq!(terrain_for_roll_exec(11), TerrainType::Mountain);
    assert_eq!(terrain_for_roll_exec(12), TerrainType::Water);
    assert_eq!(terrain_for_roll_exec(13), TerrainType::Flat);
}

#[test]
fn beyond_the_land_limit_is_sea() {
    assert_eq!(gen_hex_terrain(&h(16, 0), &LAND_LIMIT), TerrainType::Water);
    assert_eq!(gen_hex_terrain(&h(10, 6), &LAND_LIMIT), TerrainType::Water);
    assert_eq!(gen_hex_terrain(&h(-8, -8), &LAND_LIMIT), TerrainType::Water);
}

#[test]
fn a_new_map_is_a_hexagon_of_radius_twenty() {
    let t = create_hex_entities();
    assert_eq!(t.len(), 1261);
    let mut map = flat_board(1);
    map.hex_owners.insert(h(0, 0), 1);
    setup_map(&mut map);
    assert_eq!(map.entities.len(), 1261);
    assert_eq!(map.hex_owners.len(), 0);
    let edge = map.entities.get(&h(20, 0)).unwrap();
    assert_eq!(edge.terrain, TerrainType::Water);
    assert!(matches!(edge.buildings, BuildingsAggregate::Empty));
    let land: Vec<TerrainType> = map.entities.entries.iter().map(|(_, t)| t.terrain).filter(|t| *t != TerrainType::Water).collect();
    assert!(land.contains(&TerrainType::Flat));
    assert!(land.contains(&TerrainType::Forest));
    assert!(land.contains(&TerrainType::Mountain));
}

#[test]
fn countries_start_at_peace_with_no_soldiers() {
    let mut map = flat_board(2);
    map.entities.insert(h(1, 0), tile(TerrainType::Water));
    let claims = vec![vec![h(0, 0), h(1, 0)], vec![h(0, 1)]];
    let (nums, wars) = setup_countries(&mut map, &vec![7, 8], &claims);
    assert_eq!(map.hex_owners.get(&h(0, 0)), Some(7));
    assert_eq!(map.hex_owners.get(&h(1, 0)), None);
    assert_eq!(map.hex_owners.get(&h(0, 1)), Some(8));
    assert_eq!(nums.numbers.get(&7), Some(0));
    assert_eq!(wars.lists.get_ref(&8).unwrap().len(), 0);
    let c = new_country_state(7, 1, 1);
    assert_eq!(c.player_type, PlayerType::Player);
    assert_eq!(c.treasury, Treasury::new(70, 10));
    assert_eq!(new_country_state(8, 0, 1).player_type, PlayerType::Bot);
}

#[test]
fn income_counts_markets_on_free_land_only() {
    let mut map = flat_board(1);
    map.entities.insert(
        h(0, 0),
        Tile { terrain: TerrainType::Flat, buildings: BuildingsAggregate::Flat([Some(Building::Market), None, None]) },
    );
    map.entities.insert(
        h(1, 0),
        Tile { terrain: TerrainType::Flat, buildings: BuildingsAggregate::Flat([Some(Building::Market), None, None]) },
    );
    map.hex_owners.insert(h(0, 0), 1);
    map.hex_owners.insert(h(1, 0), 1);
    let mut occ = Occupied::new();
    occ.map.insert(h(1, 0), 2);
    let mut players = vec![state(1, PlayerType::Bot, 70), state(2, PlayerType::Player, 5)];
    update_countries_gold(&mut players, &map, &occ).unwrap();
    assert_eq!(players[0].treasury.gold, 82);
    assert_eq!(players[1].treasury.gold, 15);
    map.hex_owners.insert(h(9, 9), 2);
    assert!(matches!(update_countries_gold(&mut players, &map, &occ), Err(MyErrors::InconsistentData(_))));
    assert_eq!(players[0].treasury.gold, 94);
    assert_eq!(players[1].treasury.gold, 15);
}

#[test]
fn recruiting_pays_and_joins_the_army_on_the_tile() {
    let mut map = flat_board(1);
    map.hex_owners.insert(h(0, 0), 1);
    map.armies.insert(h(0, 0), Army::new(4, 1, 2, 2));
    let mut nums = CountriesSolidersNumbers { numbers: Table::new() };
    nums.numbers.insert(1, 4);
    let mut t = Treasury::new(100, 10);
    recruit_to_map(&mut t, 3, 30, &1, &mut map, h(0, 0), &mut nums);
    assert_eq!(t.gold, 70);
    assert_eq!(map.armies.get(&h(0, 0)).unwrap(), Army::new(7, 1, 0, 2));
    assert_eq!(nums.numbers.get(&1), Some(7));
}

#[test]
fn recruitment_needs_a_number_and_clears_it() {
    let mut map = flat_board(1);
    map.hex_owners.insert(h(0, 0), 2);
    let mut countries = vec![state(1, PlayerType::Bot, 0), state(2, PlayerType::Player, 100)];
    let mut nums = CountriesSolidersNumbers { numbers: Table::new() };
    let occ = Occupied::new();
    let mut r = RecruitNumber::new();
    recruitment_system(Some(h(0, 0)), &mut map, &mut r, &mut countries, &mut nums, &occ).unwrap();
    assert!(!map.armies.contains_key(&h(0, 0)));
    r.up_number(5);
    r.up_number(-2);
    assert_eq!((r.number, r.price), (3, 30));
    recruitment_system(Some(h(0, 0)), &mut map, &mut r, &mut countries, &mut nums, &occ).unwrap();
    assert_eq!(map.armies.get(&h(0, 0)).unwrap().number_of_soldiers, 3);
    assert_eq!(countries[1].treasury.gold, 70);
    assert_eq!((r.number, r.price), (0, 0));
    r.up_number(-4);
    assert_eq!((r.number, r.price), (0, 0));
    r.up_number(1);
    assert!(matches!(
        recruitment_system(None, &mut map, &mut r, &mut countries, &mut nums, &occ),
        Err(MyErrors::InconsistentData(_))
    ));
}

#[test]
fn the_closest_enemy_tile_is_found_by_steps() {
    let mut map = flat_board(3);
    map.hex_owners.insert(h(0, 0), 1);
    map.hex_owners.insert(h(3, 0), 2);
    let p = find_closest_enemy_hex(h(0, 0), &map, &vec![2], &1).unwrap();
    assert_eq!(p.len(), 3);
    assert_eq!(*p.last().unwrap(), h(3, 0));
    assert!(adjacent(h(0, 0), p[0]));
    for k in 0..p.len() - 1 {
        assert!(adjacent(p[k], p[k + 1]));
    }
    assert!(find_closest_enemy_hex(h(0, 0), &map, &vec![5], &1).is_none());
}

#[test]
fn the_closest_unowned_tile_is_next_door() {
    let mut map = flat_board(2);
    map.hex_owners.insert(h(0, 0), 1);
    let p = find_closest_unowned_hex(h(0, 0), &map, &1).unwrap();
    assert_eq!(p.len(), 1);
    assert!(adjacent(h(0, 0), p[0]));
    let mut small = flat_board(0);
    small.hex_owners.insert(h(0, 0), 1);
    assert!(find_closest_unowned_hex(h(0, 0), &small, &1).is_none());
}

#[test]
fn bots_see_their_free_land_and_armies_moves() {
    let mut map = flat_board(1);
    map.hex_owners.insert(h(0, 0), 1);
    map.hex_owners.insert(h(1, 0), 1);
    map.hex_owners.insert(h(0, 1), 2);
    map.armies.insert(h(1, 0), Army::new(8, 1, 2, 2));
    let mut occ = Occupied::new();
    occ.map.insert(h(0, 0), 2);
    assert_eq!(my_hexes(&map, &1, &occ), vec![h(1, 0)]);
    assert_eq!(my_armies_nums(&map, &1), vec![(h(1, 0), 2)]);
    assert_eq!(div10_exec(95), 9);
}

#[test]
fn landless_countries_are_left_in_peace() {
    let mut map = flat_board(1);
    map.hex_owners.insert(h(0, 0), 1);
    let mut wars = AtWarLists::new();
    wars.set_list(1, vec![2]);
    wars.set_list(2, vec![1]);
    let mut occ = Occupied::new();
    end_war_with_empty_countries(&mut wars, &map, &vec![1, 2], &mut occ);
    assert!(wars.lists.get_ref(&1).unwrap().is_empty());
    assert!(wars.lists.get_ref(&2).unwrap().is_empty());
}

#[test]
fn a_new_round_rests_armies_and_pays_income() {
    let mut map = flat_board(2);
    map.hex_owners.insert(h(0, 0), 1);
    map.hex_owners.insert(h(2, 0), 2);
    map.armies.insert(h(0, 0), Army::new(3, 1, 0, 2));
    map.armies.insert(h(2, 0), Army::new(3, 2, 0, 2));
    let mut players = vec![state(1, PlayerType::Player, 0), state(2, PlayerType::Bot, 0)];
    let mut wars = AtWarLists::new();
    wars.set_list(1, vec![]);
    wars.set_list(2, vec![]);
    let mut occ = Occupied::new();
    let mut nums = CountriesSolidersNumbers { numbers: Table::new() };
    nums.numbers.insert(1, 0);
    nums.numbers.insert(2, 0);
    start_new_round(&mut map, &mut players, &mut wars, &mut occ, &mut nums).unwrap();
    assert_eq!(map.armies.get(&h(0, 0)).unwrap().move_points_left, 2);
    assert_eq!(players[0].treasury.gold, 10);
    assert_eq!(nums.numbers.get(&1), Some(3));
    assert_eq!(nums.numbers.get(&2), Some(3));
}

#[test]
fn a_weaker_bot_without_armies_fails_to_reinforce() {
    let mut map = flat_board(2);
    map.hex_owners.insert(h(0, 0), 1);
    map.hex_owners.insert(h(2, 0), 2);
    map.armies.insert(h(0, 0), Army::new(3, 1, 0, 2));
    let mut players = vec![state(1, PlayerType::Player, 0), state(2, PlayerType::Bot, 0)];
    let mut wars = AtWarLists::new();
    wars.set_list(1, vec![]);
    wars.set_list(2, vec![]);
    let mut occ = Occupied::new();
    let mut nums = CountriesSolidersNumbers { numbers: Table::new() };
    nums.numbers.insert(1, 0);
    nums.numbers.insert(2, 0);
    let r = start_new_round(&mut map, &mut players, &mut wars, &mut occ, &mut nums);
    assert!(matches!(r, Err(MyErrors::Unexpected(_))));
}

#[test]
fn bots_leave_the_person_alone() {
    let mut map = flat_board(3);
    map.hex_owners.insert(h(0, 0), 1);
    map.hex_owners.insert(h(2, 0), 2);
    let mut players = vec![state(1, PlayerType::Player, 50), state(2, PlayerType::Bot, 300)];
    players[1].proposals.senders.push(1);
    let mut wars = AtWarLists::new();
    wars.set_list(1, vec![2]);
    wars.set_list(2, vec![1]);
    let mut occ = Occupied::new();
    let mut nums = CountriesSolidersNumbers { numbers: Table::new() };
    nums.numbers.insert(1, 0);
    nums.numbers.insert(2, 0);
    let r = run_bots(&mut players, &mut nums, &mut wars, &mut map, &mut occ);
    assert_eq!(players[0].treasury, Treasury::new(50, 10));
    if r.is_ok() {
        assert!(players[1].proposals.senders.is_empty());
    }
}

#[test]
fn bots_declare_war_only_on_much_weaker_countries() {
    let mut nums = CountriesSolidersNumbers { numbers: Table::new() };
    nums.numbers.insert(1, 10);
    nums.numbers.insert(2, 5);
    nums.numbers.insert(3, 6);
    let mut wars = AtWarLists::new();
    wars.set_list(1, vec![]);
    wars.set_list(2, vec![]);
    wars.set_list(3, vec![]);
    declare_wars(1, 10, &nums, &mut wars).unwrap();
    assert_eq!(wars.lists.get_ref(&1).unwrap(), &vec![2u64]);
    assert_eq!(wars.lists.get_ref(&2).unwrap(), &vec![1u64]);
    assert!(wars.lists.get_ref(&3).unwrap().is_empty());
    let mut none = AtWarLists::new();
    none.set_list(1, vec![]);
    declare_wars(1, 0, &nums, &mut none).unwrap();
    assert!(none.lists.get_ref(&1).unwrap().is_empty());
    nums.numbers.insert(4, i32::MAX);
    assert!(matches!(declare_wars(1, 10, &nums, &mut wars), Err(MyErrors::Unexpected(_))));
}

#[test]
fn recruitment_waits_for_gold_and_refuses_overflow() {
    let mut map = flat_board(1);
    map.hex_owners.insert(h(0, 0), 2);
    let mut countries = vec![state(2, PlayerType::Player, 20)];
    let mut nums = CountriesSolidersNumbers { numbers: Table::new() };
    let occ = Occupied::new();
    let mut r = RecruitNumber::new();
    r.up_number(3);
    recruitment_system(Some(h(0, 0)), &mut map, &mut r, &mut countries, &mut nums, &occ).unwrap();
    assert!(!map.armies.contains_key(&h(0, 0)));
    assert_eq!(countries[0].treasury.gold, 20);
    assert_eq!((r.number, r.price), (0, 0));
    map.armies.insert(h(0, 0), Army::new(i32::MAX, 2, 0, 2));
    r.up_number(1);
    let res = recruitment_system(Some(h(0, 0)), &mut map, &mut r, &mut countries, &mut nums, &occ);
    assert!(matches!(res, Err(MyErrors::Unexpected(_))));
    assert_eq!((r.number, r.price), (1, 10));
    assert_eq!(countries[0].treasury.gold, 20);
}

#[test]
fn a_bot_spends_its_gold_on_soldiers_on_its_land() {
    let mut map = flat_board(1);
    map.hex_owners.insert(h(0, 0), 1);
    let mut nums = CountriesSolidersNumbers { numbers: Table::new() };
    let mut t = Treasury::new(35, 10);
    recruit_army_on_random_hex(&vec![h(0, 0)], &mut t, &1, &mut map, &mut nums).unwrap();
    assert_eq!(map.armies.get(&h(0, 0)).unwrap().number_of_soldiers, 2);
    assert_eq!(t.gold, 15);
    assert_eq!(nums.numbers.get(&1), Some(2));
}

fn no_repeats(wars: &AtWarLists) -> bool {
    wars.lists.entries.iter().all(|(_, enemies)| {
        enemies.iter().enumerate().all(|(i, a)| !enemies[i + 1..].contains(a))
    })
}

fn two_sided(wars: &AtWarLists) -> bool {
    wars.lists.entries.iter().all(|(a, enemies)| {
        enemies.iter().all(|b| wars.lists.get_ref(b).map_or(false, |l| l.contains(a)))
    })
}

#[test]
fn wars_stay_two_sided_through_a_round() {
    let mut map = flat_board(3);
    map.hex_owners.insert(h(0, 0), 1);
    map.hex_owners.insert(h(3, 0), 2);
    map.hex_owners.insert(h(-3, 0), 3);
    map.armies.insert(h(0, 0), Army::new(40, 1, 0, 2));
    map.armies.insert(h(3, 0), Army::new(3, 2, 0, 2));
    map.armies.insert(h(-3, 0), Army::new(30, 3, 0, 2));
    let mut players = vec![
        state(1, PlayerType::Player, 0),
        state(2, PlayerType::Bot, 100),
        state(3, PlayerType::Bot, 100),
    ];
    let mut wars = AtWarLists::new();
    wars.set_list(1, vec![2]);
    wars.set_list(2, vec![1]);
    wars.set_list(3, vec![]);
    let mut occ = Occupied::new();
    let mut nums = CountriesSolidersNumbers { numbers: Table::new() };
    nums.numbers.insert(1, 0);
    nums.numbers.insert(2, 0);
    nums.numbers.insert(3, 0);
    assert!(two_sided(&wars));
    for _ in 0..3 {
        let _ = start_new_round(&mut map, &mut players, &mut wars, &mut occ, &mut nums);
        assert!(two_sided(&wars));
        assert!(no_repeats(&wars));
    }
}

#[test]
fn a_round_runs_with_a_repeated_enemy() {
    let mut map = flat_board(3);
    map.hex_owners.insert(h(0, 0), 1);
    map.hex_owners.insert(h(3, 0), 2);
    map.armies.insert(h(0, 0), Army::new(5, 1, 0, 2));
    map.armies.insert(h(3, 0), Army::new(5, 2, 0, 2));
    let mut players = vec![state(1, PlayerType::Player, 0), state(2, PlayerType::Player, 0)];
    let mut wars = AtWarLists::new();
    wars.set_list(1, vec![2, 2]);
    wars.set_list(2, vec![1]);
    let mut occ = Occupied::new();
    let mut nums = CountriesSolidersNumbers { numbers: Table::new() };
    let built = start_new_round(&mut map, &mut players, &mut wars, &mut occ, &mut nums);
    assert!(matches!(built, Ok(ref b) if b.is_empty()));
    assert_eq!(wars.lists.get_ref(&1).unwrap(), &vec![2, 2]);
    assert_eq!(wars.lists.get_ref(&2).unwrap(), &vec![1]);
    assert_eq!(nums.numbers.get(&1), Some(5));
}

#[test]
fn landless_country_with_a_repeated_enemy_ends_at_peace() {
    let mut map = flat_board(2);
    map.hex_owners.insert(h(0, 0), 2);
    let mut wars = AtWarLists::new();
    wars.set_list(1, vec![2, 2, 3]);
    wars.set_list(2, vec![1]);
    wars.set_list(3, vec![1, 1]);
    let mut occ = Occupied::new();
    end_war_with_empty_countries(&mut wars, &map, &vec![1, 2, 3], &mut occ);
    assert!(wars.lists.get_ref(&1).unwrap().is_empty());
    assert!(wars.lists.get_ref(&2).unwrap().is_empty());
    assert!(wars.lists.get_ref(&3).unwrap().is_empty());
}

#[test]
fn bots_declare_war_with_a_repeated_list_too() {
    let mut nums = CountriesSolidersNumbers { numbers: Table::new() };
    nums.numbers.insert(1, 10);
    nums.numbers.insert(2, 5);
    let mut wars = AtWarLists::new();
    wars.set_list(1, vec![3, 3]);
    wars.set_list(2, vec![]);
    wars.set_list(3, vec![1]);
    declare_wars(1, 10, &nums, &mut wars).unwrap();
    assert_eq!(wars.lists.get_ref(&1).unwrap(), &vec![3u64, 3, 2]);
    assert_eq!(wars.lists.get_ref(&2).unwrap(), &vec![1u64]);
}
