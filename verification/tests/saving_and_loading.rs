use hexkingdoms::army::Army;
use hexkingdoms::buildings::BuildingsAggregate;
use hexkingdoms::countries::{Country, PeaceProposals, PlayerType, Treasury};
use hexkingdoms::errors::MyErrors;
use hexkingdoms::hex::Hex;
use hexkingdoms::map::{HexMap, TerrainType, Tile};
use hexkingdoms::political::Occupied;
use hexkingdoms::saves::{
    SerializationHelper, SerializedCountry, build_entity_id_map, create_serialization_struct_and_player_info,
    load_game_state, save_label,
};
use hexkingdoms::war::AtWarLists;

fn h(x: i32, y: i32) -> Hex {
    Hex::new(x, y)
}

fn country(entity: u64, id: usize, gold: i32, p: PlayerType) -> SerializedCountry {
    SerializedCountry::new(entity, Country::new(id), Treasury::new(gold, 10), p, PeaceProposals::new())
}

fn board() -> HexMap {
    let mut map = HexMap::new();
    map.political = true;
    for (x, y) in [(0, 0), (1, 0), (0, 1)] {
        let t = TerrainType::Flat;
        map.entities.insert(h(x, y), Tile { terrain: t, buildings: BuildingsAggregate::new_by_terrain(&t) });
    }
    map.hex_owners.insert(h(0, 0), 11);
    map.hex_owners.insert(h(1, 0), 12);
    map.hex_owners.insert(h(0, 1), 11);
    map.armies.insert(h(0, 0), Army::new(5, 11, 2, 2));
    map.armies.insert(h(0, 1), Army::new(7, 11, 1, 2));
    map.armies.insert(h(1, 0), Army::new(3, 12, 0, 2));
    map
}

fn wars() -> AtWarLists {
    let mut w = AtWarLists::new();
    w.set_list(11, vec![12]);
    w.set_list(12, vec![11]);
    w
}

fn saved() -> (SerializationHelper, Option<usize>, Option<i32>) {
    let mut occ = Occupied::new();
    occ.map.insert(h(0, 1), 12);
    let countries = vec![country(11, 0, 50, PlayerType::Bot), country(12, 2, 80, PlayerType::Player)];
    create_serialization_struct_and_player_info(&board(), &wars(), countries, &occ)
}

#[test]
fn save_records_the_last_player_country() {
    let (_, name, gold) = saved();
    assert_eq!(name, Some(2));
    assert_eq!(gold, Some(80));
    let (_, n2, g2) = create_serialization_struct_and_player_info(
        &board(),
        &wars(),
        vec![country(11, 0, 50, PlayerType::Bot)],
        &Occupied::new(),
    );
    assert_eq!(n2, None);
    assert_eq!(g2, None);
}

#[test]
fn save_label_defaults_without_a_player() {
    let names = vec!["Red".to_string(), "Blue".to_string(), "Green".to_string()];
    assert_eq!(save_label(&names, Some(2), Some(80)), ("Green".to_string(), 80));
    assert_eq!(save_label(&names, None, None), ("name_error".to_string(), -42));
}

#[test]
fn loading_with_the_same_entities_restores_the_game() {
    let (state, _, _) = saved();
    let mut map = HexMap::new();
    let mut occ = Occupied::new();
    let (w, nums) = load_game_state(&state, &mut map, &mut occ, &vec![11, 12]).unwrap();
    let before = board();
    assert!(map.political);
    for hex in [h(0, 0), h(1, 0), h(0, 1)] {
        assert_eq!(map.hex_owners.get(&hex), before.hex_owners.get(&hex));
        assert_eq!(map.armies.get(&hex), before.armies.get(&hex));
        assert_eq!(map.entities.get(&hex).unwrap().terrain, TerrainType::Flat);
    }
    assert_eq!(occ.map.get(&h(0, 1)), Some(12));
    assert_eq!(w.lists.get_ref(&11).unwrap(), &vec![12u64]);
    assert_eq!(w.lists.get_ref(&12).unwrap(), &vec![11u64]);
    assert_eq!(nums.numbers.get(&11), Some(12));
    assert_eq!(nums.numbers.get(&12), Some(3));
}

#[test]
fn loading_renames_every_country() {
    let (state, _, _) = saved();
    let mut map = HexMap::new();
    let mut occ = Occupied::new();
    let (w, nums) = load_game_state(&state, &mut map, &mut occ, &vec![101, 102]).unwrap();
    assert_eq!(map.hex_owners.get(&h(0, 0)), Some(101));
    assert_eq!(map.hex_owners.get(&h(1, 0)), Some(102));
    assert_eq!(map.armies.get(&h(0, 1)).unwrap().owner, 101);
    assert_eq!(occ.map.get(&h(0, 1)), Some(102));
    assert_eq!(w.lists.get_ref(&101).unwrap(), &vec![102u64]);
    assert_eq!(nums.numbers.get(&101), Some(12));
    assert_eq!(nums.numbers.get(&11), None);
}

#[test]
fn countries_without_armies_count_zero_soldiers() {
    let mut occ = Occupied::new();
    let countries = vec![
        country(11, 0, 50, PlayerType::Bot),
        country(12, 1, 80, PlayerType::Player),
        country(13, 2, 10, PlayerType::Bot),
    ];
    let (state, _, _) = create_serialization_struct_and_player_info(&board(), &wars(), countries, &occ);
    let mut map = HexMap::new();
    let (_, nums) = load_game_state(&state, &mut map, &mut occ, &vec![1, 2, 3]).unwrap();
    assert_eq!(nums.numbers.get(&3), Some(0));
}

#[test]
fn an_unknown_country_fails_the_load_and_changes_nothing() {
    let (state, _, _) = saved();
    let mut map = HexMap::new();
    map.hex_owners.insert(h(9, 9), 7);
    let mut occ = Occupied::new();
    let only_first = SerializationHelper {
        hex_map: state.hex_map,
        war_list: state.war_list,
        countries: vec![country(11, 0, 50, PlayerType::Bot)],
        occupied: state.occupied,
    };
    let r = load_game_state(&only_first, &mut map, &mut occ, &vec![11]);
    assert!(matches!(r, Err(MyErrors::InconsistentData(_))));
    assert_eq!(map.hex_owners.len(), 1);
    assert_eq!(map.hex_owners.get(&h(9, 9)), Some(7));
    assert_eq!(occ.map.len(), 0);
}

#[test]
fn too_many_soldiers_fail_the_load() {
    let mut b = board();
    b.armies.insert(h(0, 0), Army::new(i32::MAX, 11, 2, 2));
    let countries = vec![country(11, 0, 50, PlayerType::Bot), country(12, 2, 80, PlayerType::Player)];
    let (state, _, _) = create_serialization_struct_and_player_info(&b, &wars(), countries, &Occupied::new());
    let mut map = HexMap::new();
    let mut occ = Occupied::new();
    let r = load_game_state(&state, &mut map, &mut occ, &vec![11, 12]);
    assert!(matches!(r, Err(MyErrors::Unexpected(_))));
    assert_eq!(map.armies.len(), 0);
}

#[test]
fn entity_map_pairs_saved_and_new_entities() {
    let countries = vec![country(11, 0, 50, PlayerType::Bot), country(12, 2, 80, PlayerType::Player)];
    let m = build_entity_id_map(&countries, &vec![5, 6]);
    assert_eq!(m.get(&11), Some(5));
    assert_eq!(m.get(&12), Some(6));
    assert_eq!(m.get(&5), None);
}
