use hexkingdoms::army::Army;
use hexkingdoms::buildings::{Building, BuildingsAggregate, PRICE, build_market_bot, redraw_markets};
use hexkingdoms::countries::{CountriesSolidersNumbers, Treasury, recalculate_soldiers_numbers};
use hexkingdoms::errors::MyErrors;
use hexkingdoms::hex::Hex;
use hexkingdoms::map::{HexMap, TerrainType, Tile};
use hexkingdoms::movement::{move_army, move_army_checked, possible_moves_vec};
use hexkingdoms::political::Occupied;
use hexkingdoms::table::Table;
use hexkingdoms::war::{AtWarLists, end_war, start_war};

fn h(x: i32, y: i32) -> Hex {
    Hex::new(x, y)
}

fn tile(t: TerrainType) -> Tile {
    Tile { terrain: t, buildings: BuildingsAggregate::new_by_terrain(&t) }
}

fn flat_board(radius: u32) -> HexMap {
    let mut map = HexMap::new();
    let r = radius as i32;
    for x in -r..=r {
        for y in -r..=r {
            if (x + y).abs() <= r {
                map.entities.insert(h(x, y), tile(TerrainType::Flat));
            }
        }
    }
    map
}

fn wars_of(pairs: &[(u64, Vec<u64>)]) -> AtWarLists {
    let mut w = AtWarLists::new();
    for (c, l) in pairs {
        w.set_list(*c, l.clone());
    }
    w
}

#[test]
fn battle_bigger_army_wins_difference() {
    let a = Army::new(10, 1, 2, 2);
    let b = Army::new(4, 2, 1, 2);
    let w = Army::battle(&a, &b).unwrap();
    assert_eq!(w.number_of_soldiers, 6);
    assert_eq!(w.owner, 1);
    let w2 = Army::battle(&b, &a).unwrap();
    assert_eq!(w2, w);
    assert!(Army::battle(&a, &Army::new(10, 3, 0, 2)).is_none());
}

#[test]
fn merge_adds_soldiers_and_keeps_fewest_moves() {
    let mut a = Army::new(5, 1, 2, 2);
    a.merge_with_other(Army::new(7, 1, 0, 2));
    assert_eq!(a.number_of_soldiers, 12);
    assert_eq!(a.move_points_left, 0);
    a.reset_move_points();
    assert_eq!(a.move_points_left, 2);
}

#[test]
fn start_war_is_two_sided_and_not_repeated() {
    let mut w = wars_of(&[(1, vec![]), (2, vec![]), (3, vec![])]);
    start_war(1, 2, &mut w);
    start_war(2, 1, &mut w);
    start_war(3, 3, &mut w);
    assert_eq!(w.lists.get_ref(&1).unwrap(), &vec![2u64]);
    assert_eq!(w.lists.get_ref(&2).unwrap(), &vec![1u64]);
    assert_eq!(w.lists.get_ref(&3).unwrap(), &Vec::<u64>::new());
}

#[test]
fn end_war_clears_lists_and_gives_back_taken_tiles() {
    let map_base = flat_board(1);
    let mut map = map_base;
    map.hex_owners.insert(h(0, 0), 1);
    map.hex_owners.insert(h(1, 0), 2);
    map.hex_owners.insert(h(0, 1), 1);
    let mut occupied = Occupied::new();
    occupied.map.insert(h(0, 0), 2);
    occupied.map.insert(h(0, 1), 3);
    let mut w = wars_of(&[(1, vec![2, 3]), (2, vec![1]), (3, vec![1])]);
    end_war(1, 2, &mut w, &map, &mut occupied);
    assert_eq!(w.lists.get_ref(&1).unwrap(), &vec![3u64]);
    assert_eq!(w.lists.get_ref(&2).unwrap(), &Vec::<u64>::new());
    assert!(!occupied.map.contains_key(&h(0, 0)));
    assert_eq!(occupied.map.get(&h(0, 1)), Some(3));
}

#[test]
fn possible_moves_skip_water_and_neutral_land() {
    let mut map = flat_board(1);
    map.entities.insert(h(0, 1), tile(TerrainType::Water));
    map.hex_owners.insert(h(0, 0), 1);
    map.hex_owners.insert(h(1, 0), 2);
    map.hex_owners.insert(h(-1, 1), 3);
    let army = Army::new(3, 1, 1, 2);
    let moves = possible_moves_vec(&army, h(0, 0), &map, &1, &vec![3]);
    assert_eq!(moves, vec![h(-1, 1), h(-1, 0), h(0, -1), h(1, -1)]);
    let tired = Army::new(3, 1, 0, 2);
    assert!(possible_moves_vec(&tired, h(0, 0), &map, &1, &vec![3]).is_empty());
}

#[test]
fn moving_onto_unowned_land_claims_it() {
    let mut map = flat_board(1);
    map.hex_owners.insert(h(0, 0), 1);
    map.armies.insert(h(0, 0), Army::new(5, 1, 2, 2));
    let mut occupied = Occupied::new();
    assert!(move_army(&h(0, 0), &h(1, 0), &mut map, &mut occupied, 1).is_ok());
    assert_eq!(map.hex_owners.get(&h(1, 0)), Some(1));
    let a = map.armies.get(&h(1, 0)).unwrap();
    assert_eq!(a.move_points_left, 1);
    assert!(!map.armies.contains_key(&h(0, 0)));
}

#[test]
fn only_the_owner_moves_its_army() {
    let mut map = flat_board(1);
    map.hex_owners.insert(h(0, 0), 1);
    map.armies.insert(h(0, 0), Army::new(5, 1, 2, 2));
    let mut occupied = Occupied::new();
    assert!(move_army(&h(0, 0), &h(1, 0), &mut map, &mut occupied, 2).is_ok());
    assert!(map.armies.contains_key(&h(0, 0)));
    assert!(!map.hex_owners.contains_key(&h(1, 0)));
}

#[test]
fn winning_a_battle_takes_and_occupies_the_tile() {
    let mut map = flat_board(1);
    map.hex_owners.insert(h(0, 0), 1);
    map.hex_owners.insert(h(1, 0), 2);
    map.armies.insert(h(0, 0), Army::new(9, 1, 2, 2));
    map.armies.insert(h(1, 0), Army::new(4, 2, 2, 2));
    let mut occupied = Occupied::new();
    assert!(move_army(&h(0, 0), &h(1, 0), &mut map, &mut occupied, 1).is_ok());
    assert_eq!(map.hex_owners.get(&h(1, 0)), Some(1));
    assert_eq!(map.armies.get(&h(1, 0)).unwrap().number_of_soldiers, 5);
    assert_eq!(occupied.map.get(&h(1, 0)), Some(2));
    // taking it back frees it
    map.armies.insert(h(2, -1), Army::new(20, 2, 2, 2));
    map.hex_owners.insert(h(2, -1), 2);
    assert!(move_army(&h(2, -1), &h(1, 0), &mut map, &mut occupied, 2).is_ok());
    assert_eq!(map.hex_owners.get(&h(1, 0)), Some(2));
    assert!(!occupied.map.contains_key(&h(1, 0)));
}

#[test]
fn an_army_on_unowned_land_is_an_error() {
    let mut map = flat_board(1);
    map.hex_owners.insert(h(0, 0), 1);
    map.armies.insert(h(0, 0), Army::new(5, 1, 2, 2));
    map.armies.insert(h(1, 0), Army::new(5, 2, 2, 2));
    let mut occupied = Occupied::new();
    let r = move_army(&h(0, 0), &h(1, 0), &mut map, &mut occupied, 1);
    assert!(matches!(r, Err(MyErrors::InconsistentData(_))));
}

#[test]
fn overflowing_merge_is_refused_unchanged() {
    let mut map = flat_board(1);
    map.hex_owners.insert(h(0, 0), 1);
    map.hex_owners.insert(h(1, 0), 1);
    map.armies.insert(h(0, 0), Army::new(i32::MAX, 1, 2, 2));
    map.armies.insert(h(1, 0), Army::new(1, 1, 2, 2));
    let mut occupied = Occupied::new();
    let r = move_army_checked(&h(0, 0), &h(1, 0), &mut map, &mut occupied, 1);
    assert!(matches!(r, Err(MyErrors::Unexpected(_))));
    assert_eq!(map.armies.get(&h(0, 0)).unwrap().number_of_soldiers, i32::MAX);
}

#[test]
fn a_huge_attack_on_a_small_army_is_fought() {
    let mut map = flat_board(1);
    map.hex_owners.insert(h(0, 0), 1);
    map.hex_owners.insert(h(1, 0), 2);
    map.armies.insert(h(0, 0), Army::new(i32::MAX, 1, 2, 2));
    map.armies.insert(h(1, 0), Army::new(1, 2, 2, 2));
    let mut occupied = Occupied::new();
    let r = move_army_checked(&h(0, 0), &h(1, 0), &mut map, &mut occupied, 1);
    assert!(r.is_ok());
    assert_eq!(map.armies.get(&h(1, 0)).unwrap().number_of_soldiers, i32::MAX - 1);
    assert_eq!(map.hex_owners.get(&h(1, 0)), Some(1));
    assert_eq!(occupied.map.get(&h(1, 0)), Some(2));
}

#[test]
fn merging_armies_only_adds() {
    let mut map = flat_board(1);
    map.hex_owners.insert(h(0, 0), 1);
    map.hex_owners.insert(h(1, 0), 1);
    map.armies.insert(h(0, 0), Army::new(-1, 1, 2, 2));
    map.armies.insert(h(1, 0), Army::new(i32::MAX, 1, 2, 2));
    let mut occupied = Occupied::new();
    let r = move_army_checked(&h(0, 0), &h(1, 0), &mut map, &mut occupied, 1);
    assert!(r.is_ok());
    assert_eq!(map.armies.get(&h(1, 0)).unwrap().number_of_soldiers, i32::MAX - 1);
}

#[test]
fn another_countrys_spent_army_is_left_alone() {
    let mut map = flat_board(1);
    map.hex_owners.insert(h(0, 0), 2);
    map.armies.insert(h(0, 0), Army::new(5, 2, i32::MIN, 2));
    let mut occupied = Occupied::new();
    let r = move_army_checked(&h(0, 0), &h(1, 0), &mut map, &mut occupied, 1);
    assert!(r.is_ok());
    assert_eq!(map.armies.get(&h(0, 0)).unwrap().move_points_left, i32::MIN);
    assert!(!map.hex_owners.contains_key(&h(1, 0)));
}

#[test]
fn markets_cost_gold_and_fill_slots_in_order() {
    let mut map = flat_board(0);
    let mut t = Treasury::new(200, 10);
    assert_eq!(build_market_bot(&mut map, &h(0, 0), &mut t).unwrap(), Some(0));
    assert_eq!(build_market_bot(&mut map, &h(0, 0), &mut t).unwrap(), Some(1));
    assert_eq!(t.gold, 200 - 2 * PRICE);
    assert_eq!(build_market_bot(&mut map, &h(0, 0), &mut t).unwrap(), None);
    assert_eq!(t.gold, 20);
    assert_eq!(map.entities.get(&h(0, 0)).unwrap().buildings.bonus_gold(), 4);
    assert_eq!(redraw_markets(&map), vec![(h(0, 0), 0), (h(0, 0), 1)]);
    let r = build_market_bot(&mut map, &h(5, 5), &mut t);
    assert!(matches!(r, Err(MyErrors::InconsistentData(_))));
}

#[test]
fn water_has_no_slots_for_markets() {
    let mut map = HexMap::new();
    map.entities.insert(h(0, 0), tile(TerrainType::Water));
    let mut t = Treasury::new(200, 10);
    let r = build_market_bot(&mut map, &h(0, 0), &mut t);
    assert!(matches!(r, Err(MyErrors::InconsistentData(_))));
    assert_eq!(t.gold, 200);
}

#[test]
fn buildings_bonus_counts_markets() {
    let b = BuildingsAggregate::Flat([Some(Building::Market), None, Some(Building::Market)]);
    assert_eq!(b.bonus_gold(), 4);
    assert_eq!(BuildingsAggregate::Mountains(Some(Building::Market)).bonus_gold(), 2);
    assert_eq!(BuildingsAggregate::new_empty().bonus_gold(), 0);
}

#[test]
fn soldiers_are_counted_per_country() {
    let mut map = HexMap::new();
    map.armies.insert(h(0, 0), Army::new(5, 1, 2, 2));
    map.armies.insert(h(1, 0), Army::new(7, 1, 2, 2));
    map.armies.insert(h(2, 0), Army::new(3, 2, 2, 2));
    let mut nums = CountriesSolidersNumbers { numbers: Table::new() };
    nums.numbers.insert(3, 99);
    recalculate_soldiers_numbers(&mut nums, &map);
    assert_eq!(nums.numbers.get(&1), Some(12));
    assert_eq!(nums.numbers.get(&2), Some(3));
    assert_eq!(nums.numbers.get(&3), Some(0));
}

#[test]
fn treasury_gains_base_income_and_bonus() {
    let mut t = Treasury::new(70, 10);
    t.update_gold(4);
    assert_eq!(t.gold, 84);
}

#[test]
fn table_insert_get_remove() {
    let mut t: Table<u64, i32> = Table::new();
    t.insert(4, 1);
    t.insert(9, 2);
    t.insert(4, 3);
    assert_eq!(t.len(), 2);
    assert_eq!(t.get(&4), Some(3));
    assert_eq!(t.remove(&4), Some(3));
    assert_eq!(t.get(&4), None);
    assert_eq!(t.copied().get(&9), Some(2));
}
