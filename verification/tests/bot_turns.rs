use hexkingdoms::army::Army;
use hexkingdoms::bots::{
    build_markets_during_peace, compare_with_other, manage_during_peace, manage_peace_talks, manage_wars,
    move_armies_during_peace, move_armies_for_war, recruit_armies_during_peace,
};
use hexkingdoms::buildings::{Building, BuildingsAggregate};
use hexkingdoms::countries::{CountriesSolidersNumbers, PeaceProposals, Treasury};
use hexkingdoms::errors::MyErrors;
use hexkingdoms::hex::Hex;
use hexkingdoms::map::{HexMap, TerrainType, Tile};
use hexkingdoms::political::Occupied;
use hexkingdoms::table::Table;
use hexkingdoms::war::AtWarLists;

fn h(x: i32, y: i32) -> Hex {
    Hex::new(x, y)
}

fn tile(t: TerrainType) -> Tile {
    Tile { terrain: t, buildings: BuildingsAggregate::new_by_terrain(&t) }
}

fn board(radius: i32, t: TerrainType) -> HexMap {
    let mut map = HexMap::new();
    for x in -radius..=radius {
        for y in -radius..=radius {
            if (x + y).abs() <= radius {
                map.entities.insert(h(x, y), tile(t));
            }
        }
    }
    map
}

fn counts(pairs: &[(u64, i32)]) -> CountriesSolidersNumbers {
    let mut nums = CountriesSolidersNumbers { numbers: Table::new() };
    for (c, n) in pairs {
        nums.numbers.insert(*c, *n);
    }
    nums
}

#[test]
fn an_army_at_war_marches_onto_the_nearest_enemy_tile() {
    let mut map = board(2, TerrainType::Flat);
    map.hex_owners.insert(h(0, 0), 1);
    map.hex_owners.insert(h(2, 0), 2);
    map.armies.insert(h(0, 0), Army::new(5, 1, 2, 2));
    let mut occ = Occupied::new();
    move_armies_for_war(&vec![(h(0, 0), 2)], &mut map, &vec![2], &1, &mut occ).unwrap();
    assert_eq!(map.armies.get(&h(0, 0)), None);
    assert_eq!(map.armies.get(&h(2, 0)), Some(Army::new(5, 1, 0, 2)));
    assert_eq!(map.hex_owners.get(&h(1, 0)), Some(1));
    assert_eq!(map.hex_owners.get(&h(2, 0)), Some(1));
    assert_eq!(occ.map.get(&h(2, 0)), Some(2));
    assert_eq!(occ.map.get(&h(1, 0)), None);
}

#[test]
fn an_army_at_war_stops_when_no_enemy_land_is_reachable() {
    let mut map = board(1, TerrainType::Flat);
    map.hex_owners.insert(h(0, 0), 1);
    map.armies.insert(h(0, 0), Army::new(5, 1, 2, 2));
    let mut occ = Occupied::new();
    move_armies_for_war(&vec![(h(0, 0), 2)], &mut map, &vec![2], &1, &mut occ).unwrap();
    assert_eq!(map.armies.get(&h(0, 0)), Some(Army::new(5, 1, 2, 2)));
    assert_eq!(map.hex_owners.len(), 1);
}

#[test]
fn an_army_in_peace_claims_a_neighbouring_tile() {
    let mut map = board(2, TerrainType::Flat);
    map.hex_owners.insert(h(0, 0), 1);
    map.armies.insert(h(0, 0), Army::new(3, 1, 1, 2));
    let mut occ = Occupied::new();
    move_armies_during_peace(&mut map, &1, &mut occ).unwrap();
    assert_eq!(map.armies.len(), 1);
    let (at, army) = map.armies.entries[0];
    assert_eq!(army, Army::new(3, 1, 0, 2));
    assert_eq!((at.x.abs() + at.y.abs() + (at.x + at.y).abs()) / 2, 1);
    assert_eq!(map.hex_owners.get(&at), Some(1));
    assert_eq!(map.hex_owners.get(&h(0, 0)), Some(1));
    assert_eq!(map.hex_owners.len(), 2);
}

#[test]
fn small_armies_fill_up_to_five() {
    let mut map = board(1, TerrainType::Flat);
    map.hex_owners.insert(h(0, 0), 1);
    let mut t = Treasury::new(100, 10);
    let mut nums = counts(&[(1, 6)]);
    recruit_armies_during_peace(3, &mut t, &vec![h(0, 0)], &mut map, &1, &mut nums).unwrap();
    assert_eq!(t, Treasury::new(60, 10));
    assert_eq!(map.armies.get(&h(0, 0)).unwrap().number_of_soldiers, 4);
    assert_eq!(nums.numbers.get(&1), Some(10));
    let mut poor = Treasury::new(30, 10);
    recruit_armies_during_peace(0, &mut poor, &vec![h(0, 0)], &mut map, &1, &mut nums).unwrap();
    assert_eq!(poor, Treasury::new(10, 10));
    let mut none = Treasury::new(100, 10);
    let r = recruit_armies_during_peace(0, &mut none, &vec![], &mut map, &1, &mut nums);
    assert!(matches!(r, Err(MyErrors::Unexpected(_))));
}

#[test]
fn an_outnumbered_bot_spends_all_on_soldiers() {
    let mut map = board(1, TerrainType::Flat);
    map.hex_owners.insert(h(0, 0), 1);
    map.armies.insert(h(0, 0), Army::new(5, 1, 0, 2));
    let mut t = Treasury::new(110, 10);
    let mut nums = counts(&[(1, 5), (2, 20)]);
    compare_with_other(5, &mut nums, &vec![(h(0, 0), 0)], &mut map, 1, &mut t, &1).unwrap();
    assert_eq!(t, Treasury::new(10, 10));
    assert_eq!(map.armies.get(&h(0, 0)).unwrap().number_of_soldiers, 15);
    assert_eq!(nums.numbers.get(&1), Some(15));
    let mut calm = counts(&[(1, 5), (2, 10)]);
    let mut t2 = Treasury::new(110, 10);
    compare_with_other(5, &mut calm, &vec![(h(0, 0), 0)], &mut map, 1, &mut t2, &1).unwrap();
    assert_eq!(t2, Treasury::new(110, 10));
    assert_eq!(calm.numbers.get(&1), Some(5));
}

#[test]
fn a_rich_bot_fills_its_market_slots() {
    let mut map = board(1, TerrainType::Flat);
    let mut t = Treasury::new(300, 10);
    let built = build_markets_during_peace(&mut map, &mut t, &vec![h(0, 0)]).unwrap();
    assert_eq!(built.len(), 3);
    assert_eq!(built.iter().map(|m| m.slot).collect::<Vec<_>>(), vec![0, 1, 2]);
    assert_eq!(t, Treasury::new(30, 10));
    assert!(matches!(
        map.entities.get(&h(0, 0)).unwrap().buildings,
        BuildingsAggregate::Flat([Some(Building::Market), Some(Building::Market), Some(Building::Market)])
    ));
    let mut mountains = board(1, TerrainType::Mountain);
    let mut t2 = Treasury::new(300, 10);
    let built2 = build_markets_during_peace(&mut mountains, &mut t2, &vec![h(0, 0)]).unwrap();
    assert_eq!(built2.len(), 1);
    assert_eq!(t2, Treasury::new(210, 10));
    let mut sea = board(1, TerrainType::Water);
    let mut t3 = Treasury::new(300, 10);
    let r = build_markets_during_peace(&mut sea, &mut t3, &vec![h(0, 0)]);
    assert!(matches!(r, Err(MyErrors::InconsistentData(_))));
    let mut t4 = Treasury::new(200, 10);
    assert!(build_markets_during_peace(&mut map, &mut t4, &vec![h(0, 0)]).unwrap().is_empty());
}

#[test]
fn a_weaker_bot_accepts_peace() {
    let map = board(1, TerrainType::Flat);
    let mut wars = AtWarLists::new();
    wars.set_list(1, vec![2]);
    wars.set_list(2, vec![1]);
    let nums = counts(&[(1, 10), (2, 20)]);
    let mut props = PeaceProposals { senders: vec![2] };
    let mut occ = Occupied::new();
    manage_peace_talks(&mut props, &mut wars, &1, &nums, &Treasury::new(0, 10), &mut occ, &map).unwrap();
    assert!(props.senders.is_empty());
    assert!(wars.lists.get_ref(&1).unwrap().is_empty());
    assert!(wars.lists.get_ref(&2).unwrap().is_empty());
    let mut wars2 = AtWarLists::new();
    wars2.set_list(1, vec![2]);
    wars2.set_list(2, vec![1]);
    let mut props2 = PeaceProposals { senders: vec![2] };
    manage_peace_talks(&mut props2, &mut wars2, &1, &nums, &Treasury::new(200, 10), &mut occ, &map).unwrap();
    assert!(props2.senders.is_empty());
    assert_eq!(wars2.lists.get_ref(&1).unwrap(), &vec![2u64]);
}

#[test]
fn a_bot_at_war_without_land_or_war_list() {
    let mut map = board(1, TerrainType::Flat);
    let wars = AtWarLists::new();
    let mut t = Treasury::new(100, 10);
    let mut occ = Occupied::new();
    let mut nums = counts(&[(1, 0)]);
    manage_wars(&wars, &mut map, &1, &mut t, &mut occ, &mut nums).unwrap();
    assert_eq!(t, Treasury::new(100, 10));
    map.hex_owners.insert(h(0, 0), 1);
    let r = manage_wars(&wars, &mut map, &1, &mut t, &mut occ, &mut nums);
    assert!(matches!(r, Err(MyErrors::InconsistentData(_))));
}

#[test]
fn a_bot_at_war_marches_then_recruits() {
    let mut map = board(2, TerrainType::Flat);
    map.hex_owners.insert(h(0, 0), 1);
    map.hex_owners.insert(h(2, 0), 2);
    map.armies.insert(h(0, 0), Army::new(5, 1, 1, 2));
    let mut wars = AtWarLists::new();
    wars.set_list(1, vec![2]);
    wars.set_list(2, vec![1]);
    let mut t = Treasury::new(50, 10);
    let mut occ = Occupied::new();
    let mut nums = counts(&[(1, 5), (2, 0)]);
    manage_wars(&wars, &mut map, &1, &mut t, &mut occ, &mut nums).unwrap();
    assert_eq!(map.armies.get(&h(1, 0)), Some(Army::new(5, 1, 0, 2)));
    assert_eq!(map.armies.get(&h(0, 0)), Some(Army::new(4, 1, 0, 2)));
    assert_eq!(t, Treasury::new(10, 10));
    assert_eq!(nums.numbers.get(&1), Some(9));
}

#[test]
fn a_bot_in_peace_marches_recruits_and_builds() {
    let mut map = board(2, TerrainType::Flat);
    map.hex_owners.insert(h(0, 0), 1);
    map.armies.insert(h(0, 0), Army::new(2, 1, 1, 2));
    let mut t = Treasury::new(300, 10);
    let mut occ = Occupied::new();
    let mut nums = counts(&[(1, 2)]);
    let built = manage_during_peace(&mut map, &1, &mut t, &mut occ, &mut nums).unwrap();
    assert_eq!(map.hex_owners.len(), 2);
    assert_eq!(nums.numbers.get(&1), Some(10));
    let soldiers: i32 = map.armies.entries.iter().map(|(_, a)| a.number_of_soldiers).sum();
    assert_eq!(soldiers, 10);
    assert_eq!(t.gold, 300 - 4 * 20 - 90 * built.len() as i32);
    assert!(t.gold <= 100);
}

#[test]
fn of_equally_near_enemy_tiles_the_first_direction_wins() {
    let mut map = board(2, TerrainType::Flat);
    map.hex_owners.insert(h(0, 0), 1);
    map.hex_owners.insert(h(1, 1), 2);
    map.hex_owners.insert(h(-1, -1), 2);
    let path = hexkingdoms::pathfinding::find_closest_enemy_hex(h(0, 0), &map, &vec![2], &1).unwrap();
    assert_eq!(path, vec![h(1, 0), h(1, 1)]);
}

fn war_board() -> (HexMap, Occupied) {
    let mut map = board(3, TerrainType::Flat);
    map.hex_owners.insert(h(0, 0), 1);
    map.hex_owners.insert(h(-1, 0), 1);
    map.hex_owners.insert(h(2, 1), 2);
    map.hex_owners.insert(h(-2, -1), 2);
    map.armies.insert(h(0, 0), Army::new(5, 1, 2, 2));
    map.armies.insert(h(-1, 0), Army::new(3, 1, 2, 2));
    map.armies.insert(h(2, 1), Army::new(4, 2, 0, 2));
    (map, Occupied::new())
}

#[test]
fn a_war_march_is_the_same_every_time() {
    let (mut a, mut occ_a) = war_board();
    let (mut b, mut occ_b) = war_board();
    let list = vec![(h(0, 0), 2), (h(-1, 0), 2)];
    let ra = move_armies_for_war(&list, &mut a, &vec![2], &1, &mut occ_a);
    let rb = move_armies_for_war(&list, &mut b, &vec![2], &1, &mut occ_b);
    assert_eq!(ra.is_ok(), rb.is_ok());
    for x in -3..=3 {
        for y in -3..=3 {
            assert_eq!(a.armies.get(&h(x, y)), b.armies.get(&h(x, y)));
            assert_eq!(a.hex_owners.get(&h(x, y)), b.hex_owners.get(&h(x, y)));
            assert_eq!(occ_a.map.get(&h(x, y)), occ_b.map.get(&h(x, y)));
        }
    }
}

#[test]
fn peace_frees_the_tiles_taken_between_the_two() {
    let mut map = board(2, TerrainType::Flat);
    map.hex_owners.insert(h(0, 0), 1);
    map.hex_owners.insert(h(1, 0), 1);
    map.hex_owners.insert(h(2, 0), 2);
    map.hex_owners.insert(h(-1, 0), 3);
    let mut wars = AtWarLists::new();
    wars.set_list(1, vec![2, 3]);
    wars.set_list(2, vec![1]);
    wars.set_list(3, vec![1]);
    let mut occ = Occupied::new();
    occ.map.insert(h(1, 0), 2);
    occ.map.insert(h(-1, 0), 1);
    let nums = counts(&[(1, 10), (2, 20), (3, 1)]);
    let mut props = PeaceProposals { senders: vec![2] };
    manage_peace_talks(&mut props, &mut wars, &1, &nums, &Treasury::new(0, 10), &mut occ, &map).unwrap();
    assert_eq!(wars.lists.get_ref(&1).unwrap(), &vec![3u64]);
    assert!(wars.lists.get_ref(&2).unwrap().is_empty());
    assert_eq!(wars.lists.get_ref(&3).unwrap(), &vec![1u64]);
    assert_eq!(occ.map.get(&h(1, 0)), None);
    assert_eq!(occ.map.get(&h(-1, 0)), Some(1));
}

#[test]
fn peace_takes_one_entry_off_a_repeated_list() {
    let map = board(1, TerrainType::Flat);
    let mut wars = AtWarLists::new();
    wars.set_list(1, vec![2, 2]);
    wars.set_list(2, vec![1]);
    let nums = counts(&[(1, 10), (2, 20)]);
    let mut props = PeaceProposals { senders: vec![2] };
    let mut occ = Occupied::new();
    manage_peace_talks(&mut props, &mut wars, &1, &nums, &Treasury::new(0, 10), &mut occ, &map).unwrap();
    assert!(props.senders.is_empty());
    assert_eq!(wars.lists.get_ref(&1).unwrap(), &vec![2u64]);
    assert!(wars.lists.get_ref(&2).unwrap().is_empty());
}

#[test]
fn small_recruits_near_the_limit_still_fit() {
    let mut map = board(1, TerrainType::Flat);
    map.hex_owners.insert(h(0, 0), 1);
    map.armies.insert(h(0, 0), hexkingdoms::army::Army::new(i32::MAX - 2, 1, 0, 2));
    let mut nums = counts(&[(1, i32::MAX - 2)]);
    let mut t = Treasury::new(25, 10);
    recruit_armies_during_peace(4, &mut t, &vec![h(0, 0)], &mut map, &1, &mut nums).unwrap();
    assert_eq!(t, Treasury::new(5, 10));
    assert_eq!(map.armies.get(&h(0, 0)).unwrap().number_of_soldiers, i32::MAX);
    assert_eq!(nums.numbers.get(&1), Some(i32::MAX));
    let mut t2 = Treasury::new(20, 10);
    let r = recruit_armies_during_peace(4, &mut t2, &vec![h(0, 0)], &mut map, &1, &mut nums);
    assert!(matches!(r, Err(MyErrors::Unexpected(_))));
    assert_eq!(t2, Treasury::new(20, 10));
}

#[test]
fn outnumbered_without_armies_or_with_a_huge_count_fails() {
    let mut map = board(1, TerrainType::Flat);
    let mut t = Treasury::new(110, 10);
    let mut nums = counts(&[(1, 5), (2, 20)]);
    let r = compare_with_other(5, &mut nums, &vec![], &mut map, 0, &mut t, &1);
    assert!(matches!(r, Err(MyErrors::Unexpected(_))));
    assert_eq!(t, Treasury::new(110, 10));
    let r2 = compare_with_other(i32::MAX, &mut nums, &vec![(h(0, 0), 0)], &mut map, 1, &mut t, &1);
    assert!(matches!(r2, Err(MyErrors::Unexpected(_))));
    let mut none = counts(&[]);
    assert!(compare_with_other(i32::MAX, &mut none, &vec![], &mut map, 0, &mut t, &1).is_ok());
}
