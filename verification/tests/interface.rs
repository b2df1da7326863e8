use hexkingdoms::army::Army;
use hexkingdoms::buildings::BuildingsAggregate;
use hexkingdoms::countries::{CountryState, PeaceProposals, PlayerType, Treasury};
use hexkingdoms::errors::MyErrors;
use hexkingdoms::hex::Hex;
use hexkingdoms::map::{HexMap, TerrainType, Tile};
use hexkingdoms::movement::PossibleMoves;
use hexkingdoms::political::Occupied;
use hexkingdoms::ui::{
    CountryChoice, CountryTabUpdate, HighlightedHexes, MenuVisibility, SaveWindowUpdate, SelectedHex, TileColor,
    build_market, change_map_mode, change_message, color_occupied_hexes, color_player_possible_moves,
    declare_war_on_selected, go_to_game_menu_system, highlight_hex, left_arrow_choice, propose_peace_to_selected,
    recolor_old_possible_moves, recolor_old_selected_hex, right_arrow_choice, select_hex, select_possible_moves,
    show_country_tab_system, update_army_tab, update_war_flags,
};
use hexkingdoms::war::AtWarLists;

fn h(x: i32, y: i32) -> Hex {
    Hex::new(x, y)
}

fn tile(t: TerrainType) -> Tile {
    Tile { terrain: t, buildings: BuildingsAggregate::new_by_terrain(&t) }
}

fn state(entity: u64, p: PlayerType, gold: i32) -> CountryState {
    CountryState { entity, player_type: p, proposals: PeaceProposals::new(), treasury: Treasury::new(gold, 10) }
}

fn countries() -> Vec<CountryState> {
    vec![state(1, PlayerType::Bot, 40), state(2, PlayerType::Player, 100), state(3, PlayerType::Bot, 5)]
}

/// A row of tiles: (0,0) flat owned by 1, (1,0) forest owned by 2,
/// (2,0) water, (3,0) mountain unowned.
fn board() -> HexMap {
    let mut map = HexMap::new();
    map.entities.insert(h(0, 0), tile(TerrainType::Flat));
    map.entities.insert(h(1, 0), tile(TerrainType::Forest));
    map.entities.insert(h(2, 0), tile(TerrainType::Water));
    map.entities.insert(h(3, 0), tile(TerrainType::Mountain));
    map.hex_owners.insert(h(0, 0), 1);
    map.hex_owners.insert(h(1, 0), 2);
    map
}

fn wars() -> AtWarLists {
    let mut w = AtWarLists::new();
    w.set_list(1, vec![3]);
    w.set_list(2, vec![]);
    w.set_list(3, vec![1]);
    w
}

#[test]
fn old_selection_gets_its_view_colour_back() {
    let mut map = board();
    let cs = countries();
    assert_eq!(recolor_old_selected_hex(&map, &h(1, 0), &cs).unwrap(), Some(TileColor::Terrain(TerrainType::Forest)));
    assert_eq!(recolor_old_selected_hex(&map, &h(9, 9), &cs).unwrap(), None);
    map.political = true;
    assert_eq!(recolor_old_selected_hex(&map, &h(1, 0), &cs).unwrap(), Some(TileColor::Country(2)));
    assert_eq!(recolor_old_selected_hex(&map, &h(3, 0), &cs).unwrap(), Some(TileColor::NoOwner));
    assert_eq!(recolor_old_selected_hex(&map, &h(2, 0), &cs).unwrap(), Some(TileColor::Terrain(TerrainType::Water)));
    map.hex_owners.insert(h(3, 0), 77);
    assert!(matches!(recolor_old_selected_hex(&map, &h(3, 0), &cs), Err(MyErrors::InconsistentData(_))));
}

#[test]
fn highlight_moves_with_the_cursor() {
    let map = board();
    let cs = countries();
    let mut hl = HighlightedHexes { pointing_at: None };
    let p = highlight_hex(&map, &mut hl, h(0, 0), &cs, None).unwrap();
    assert_eq!(p, vec![(h(0, 0), TileColor::Highlighted)]);
    assert_eq!(hl.pointing_at, Some(h(0, 0)));
    let p = highlight_hex(&map, &mut hl, h(1, 0), &cs, None).unwrap();
    assert_eq!(p, vec![(h(0, 0), TileColor::Terrain(TerrainType::Flat)), (h(1, 0), TileColor::Highlighted)]);
    let p = highlight_hex(&map, &mut hl, h(8, 8), &cs, Some(h(1, 0))).unwrap();
    assert_eq!(p, vec![(h(1, 0), TileColor::Selected)]);
    assert_eq!(hl.pointing_at, Some(h(1, 0)));
}

#[test]
fn clicking_a_possible_move_moves_the_army() {
    let mut map = board();
    map.armies.insert(h(0, 0), Army::new(6, 1, 2, 2));
    let mut occ = Occupied::new();
    let mut sel = SelectedHex { hex: Some(h(0, 0)) };
    let cs = countries();
    let (paints, moved) = select_hex(&mut map, &mut occ, &mut sel, h(1, 0), &vec![h(1, 0)], &cs).unwrap();
    assert!(moved);
    assert_eq!(paints, vec![(h(0, 0), TileColor::Terrain(TerrainType::Flat)), (h(1, 0), TileColor::Selected)]);
    assert_eq!(sel.hex, Some(h(1, 0)));
    assert_eq!(map.hex_owners.get(&h(1, 0)), Some(1));
    assert_eq!(occ.map.get(&h(1, 0)), Some(2));
}

#[test]
fn clicking_elsewhere_only_selects() {
    let mut map = board();
    map.armies.insert(h(0, 0), Army::new(6, 1, 2, 2));
    let mut occ = Occupied::new();
    let mut sel = SelectedHex { hex: Some(h(0, 0)) };
    let cs = countries();
    let (paints, moved) = select_hex(&mut map, &mut occ, &mut sel, h(3, 0), &vec![h(1, 0)], &cs).unwrap();
    assert!(!moved);
    assert_eq!(paints.len(), 2);
    assert!(map.armies.contains_key(&h(0, 0)));
    let (paints, _) = select_hex(&mut map, &mut occ, &mut sel, h(3, 0), &vec![], &cs).unwrap();
    assert_eq!(paints, vec![(h(3, 0), TileColor::Selected)]);
}

#[test]
fn moving_from_an_unowned_tile_is_an_error() {
    let mut map = board();
    let mut occ = Occupied::new();
    let mut sel = SelectedHex { hex: Some(h(3, 0)) };
    let r = select_hex(&mut map, &mut occ, &mut sel, h(2, 0), &vec![h(2, 0)], &countries());
    assert!(matches!(r, Err(MyErrors::InconsistentData(_))));
    assert_eq!(sel.hex, Some(h(3, 0)));
}

#[test]
fn moves_are_offered_only_to_the_player() {
    let mut map = board();
    map.armies.insert(h(1, 0), Army::new(6, 2, 2, 2));
    map.armies.insert(h(0, 0), Army::new(6, 1, 2, 2));
    let w = wars();
    let cs = countries();
    let mut pm = PossibleMoves { moves: vec![h(5, 5)] };
    select_possible_moves(Some(h(1, 0)), &map, &mut pm, &w, &cs).unwrap();
    assert_eq!(pm.moves, vec![h(1, 1), h(0, 1), h(1, -1), h(2, -1)]);
    select_possible_moves(Some(h(0, 0)), &map, &mut pm, &w, &cs).unwrap();
    assert!(pm.moves.is_empty());
    select_possible_moves(None, &map, &mut pm, &w, &cs).unwrap();
    assert!(pm.moves.is_empty());
    let marks = color_player_possible_moves(&map, &PossibleMoves { moves: vec![h(3, 0), h(9, 9)] });
    assert_eq!(marks, vec![(h(3, 0), TileColor::PossibleMove)]);
    let back = recolor_old_possible_moves(&map, &PossibleMoves { moves: vec![h(3, 0), h(2, 0)] }, &cs).unwrap();
    assert_eq!(back, vec![(h(3, 0), TileColor::Terrain(TerrainType::Mountain)), (h(2, 0), TileColor::Terrain(TerrainType::Water))]);
}

#[test]
fn an_army_on_unowned_land_offers_no_moves_but_fails() {
    let mut map = board();
    map.armies.insert(h(3, 0), Army::new(6, 2, 2, 2));
    let mut pm = PossibleMoves { moves: vec![h(5, 5)] };
    let r = select_possible_moves(Some(h(3, 0)), &map, &mut pm, &wars(), &countries());
    assert!(matches!(r, Err(MyErrors::InconsistentData(_))));
    assert_eq!(pm.moves, vec![h(5, 5)]);
}

#[test]
fn map_mode_switches_and_repaints_land() {
    let mut map = board();
    let cs = countries();
    let (p, outcome) = change_map_mode(&mut map, Some(h(0, 0)), &cs);
    assert!(outcome.is_ok());
    assert!(map.political);
    assert_eq!(p, vec![(h(1, 0), TileColor::Country(2)), (h(3, 0), TileColor::NoOwner)]);
    let (p, outcome) = change_map_mode(&mut map, None, &cs);
    assert!(outcome.is_ok());
    assert!(!map.political);
    assert_eq!(p.len(), 3);
    assert_eq!(p[2], (h(3, 0), TileColor::Terrain(TerrainType::Mountain)));
}

#[test]
fn occupation_marks_show_only_in_political_view() {
    let mut map = board();
    let mut occ = Occupied::new();
    occ.map.insert(h(1, 0), 3);
    assert!(color_occupied_hexes(&map, &occ, &countries()).unwrap().is_empty());
    map.political = true;
    assert_eq!(color_occupied_hexes(&map, &occ, &countries()).unwrap(), vec![(h(1, 0), 3)]);
    occ.map.insert(h(0, 0), 99);
    assert!(color_occupied_hexes(&map, &occ, &countries()).is_err());
}

#[test]
fn country_tab_shows_the_owner() {
    let map = board();
    let w = wars();
    let cs = countries();
    let (flags, done, update) = show_country_tab_system(&map, &w, &cs, &SelectedHex { hex: Some(h(0, 0)) }, 5);
    assert_eq!(flags, vec![3]);
    assert!(done);
    match update.unwrap() {
        CountryTabUpdate::Show(t) => {
            assert_eq!(t.owner, 1);
            assert_eq!(t.gold, 40);
            assert!(!t.player);
        },
        _ => panic!("expected the country to be shown"),
    }
    assert!(matches!(
        show_country_tab_system(&map, &w, &cs, &SelectedHex { hex: Some(h(3, 0)) }, 5).2.unwrap(),
        CountryTabUpdate::HideAll
    ));
    assert!(matches!(show_country_tab_system(&map, &w, &cs, &SelectedHex { hex: None }, 5).2.unwrap(), CountryTabUpdate::Nothing));
    let (none_shown, outcome) = update_war_flags(&map, &w, &cs, &SelectedHex { hex: Some(h(0, 0)) }, 0);
    assert!(none_shown.is_empty());
    assert!(matches!(outcome, Ok(true)));
    let no_wars = AtWarLists::new();
    assert!(show_country_tab_system(&map, &no_wars, &cs, &SelectedHex { hex: Some(h(0, 0)) }, 5).2.is_err());
}

#[test]
fn army_tab_shows_the_selected_army() {
    let mut map = board();
    map.armies.insert(h(0, 0), Army::new(6, 1, 1, 2));
    assert_eq!(update_army_tab(&SelectedHex { hex: Some(h(0, 0)) }, &map), Some((6, 1)));
    assert_eq!(update_army_tab(&SelectedHex { hex: Some(h(1, 0)) }, &map), None);
}

#[test]
fn the_player_declares_war_and_offers_peace() {
    let map = board();
    let mut w = wars();
    let mut cs = countries();
    declare_war_on_selected(&SelectedHex { hex: Some(h(0, 0)) }, &map, &cs, &mut w).unwrap();
    assert_eq!(w.lists.get_ref(&2).unwrap(), &vec![1u64]);
    assert_eq!(w.lists.get_ref(&1).unwrap(), &vec![3u64, 2]);
    propose_peace_to_selected(&SelectedHex { hex: Some(h(0, 0)) }, &map, &mut cs).unwrap();
    assert_eq!(cs[0].proposals.senders, vec![2]);
    let r = declare_war_on_selected(&SelectedHex { hex: Some(h(3, 0)) }, &map, &cs, &mut w);
    assert!(matches!(r, Err(MyErrors::InconsistentData(_))));
    let mut bots = vec![state(1, PlayerType::Bot, 0)];
    assert!(propose_peace_to_selected(&SelectedHex { hex: Some(h(0, 0)) }, &map, &mut bots).is_err());
    assert!(bots[0].proposals.senders.is_empty());
}

#[test]
fn the_player_builds_a_market_on_its_land() {
    let mut map = board();
    let mut cs = countries();
    let occ = Occupied::new();
    assert_eq!(build_market(&SelectedHex { hex: Some(h(1, 0)) }, &mut map, &mut cs, &occ).unwrap(), Some(0));
    assert_eq!(cs[1].treasury.gold, 10);
    assert_eq!(build_market(&SelectedHex { hex: Some(h(1, 0)) }, &mut map, &mut cs, &occ).unwrap(), None);
    assert!(build_market(&SelectedHex { hex: None }, &mut map, &mut cs, &occ).is_err());
    assert!(build_market(&SelectedHex { hex: Some(h(3, 0)) }, &mut map, &mut cs, &occ).is_err());
}

#[test]
fn country_choice_goes_round() {
    let mut c = CountryChoice { id: 0 };
    left_arrow_choice(&mut c);
    assert_eq!(c.id, 2);
    right_arrow_choice(&mut c);
    assert_eq!(c.id, 0);
    right_arrow_choice(&mut c);
    assert_eq!(c.id, 1);
}

#[test]
fn menu_toggles_and_save_message_shows_once() {
    assert_eq!(go_to_game_menu_system(MenuVisibility::Hidden), MenuVisibility::Visible);
    assert_eq!(go_to_game_menu_system(MenuVisibility::Inherited), MenuVisibility::Hidden);
    let mut msg = Some("Saved".to_string());
    assert!(matches!(change_message(&mut msg, false), SaveWindowUpdate::Show(t) if t == "Saved"));
    assert!(msg.is_none());
    assert!(matches!(change_message(&mut msg, false), SaveWindowUpdate::Keep));
    assert!(matches!(change_message(&mut msg, true), SaveWindowUpdate::Hide));
}

#[test]
fn a_failed_repaint_keeps_the_tiles_before_it() {
    let mut map = board();
    map.hex_owners.insert(h(3, 0), 9);
    let (p, outcome) = change_map_mode(&mut map, None, &countries());
    assert!(map.political);
    assert!(matches!(outcome, Err(MyErrors::InconsistentData(_))));
    assert_eq!(p, vec![(h(0, 0), TileColor::Country(1)), (h(1, 0), TileColor::Country(2))]);
}

#[test]
fn flags_before_an_unknown_enemy_are_set() {
    let map = board();
    let mut w = wars();
    w.set_list(1, vec![3, 9, 2]);
    let cs = countries();
    let (flags, done, update) = show_country_tab_system(&map, &w, &cs, &SelectedHex { hex: Some(h(0, 0)) }, 5);
    assert_eq!(flags, vec![3]);
    assert!(!done);
    assert!(matches!(update, Err(MyErrors::InconsistentData(_))));
    let (shown, outcome) = update_war_flags(&map, &w, &cs, &SelectedHex { hex: Some(h(0, 0)) }, 1);
    assert_eq!(shown, vec![3]);
    assert!(matches!(outcome, Ok(true)));
}

#[test]
fn left_arrow_steps_back_from_any_choice() {
    let mut c = CountryChoice { id: 5 };
    left_arrow_choice(&mut c);
    assert_eq!(c.id, 4);
}
