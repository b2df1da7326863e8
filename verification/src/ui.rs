use vstd::prelude::*;
use crate::countries::{CountryState, PeaceProposals, PlayerType, find_country, set_treasury};
use crate::buildings::{PRICE, build_market_bot, place_market};
use crate::errors::{MyErrors, inconsistent};
use crate::hex::{Hex, coords_ok, neighbors_of};
use crate::map::{CountryId, HexMap, Tile, TerrainType};
use crate::movement::{PossibleMoves, allowed_moves, move_army_checked, move_fits, move_outcome, possible_moves_vec};
use crate::war::{AtWarLists, spec_start_war, start_war};
use crate::util::copy_ids;
use crate::political::Occupied;
use crate::util::vec_contains_hex;

verus! {

/// What a tile is painted with.
#[derive(Clone, Copy, PartialEq, Eq, Structural, Debug)]
pub enum TileColor {
    /// The colour of its terrain.
    Terrain(TerrainType),
    /// The colour of the country that owns it.
    Country(CountryId),
    /// The colour of land that nobody owns.
    NoOwner,
    /// The colour of the selected tile.
    Selected,
    /// The colour of the tile under the cursor.
    Highlighted,
    /// The colour of a tile the selected army may move to.
    PossibleMove,
}

/// The tile that was clicked last, if any.
pub struct SelectedHex {
    pub hex: Option<Hex>,
}

/// The tile under the cursor, if it is on the board.
pub struct HighlightedHexes {
    pub pointing_at: Option<Hex>,
}

/// Which of the three countries the player chose to play.
pub struct CountryChoice {
    pub id: usize,
}

/// `c` is one of the countries.
pub open spec fn is_country(countries: Seq<CountryState>, c: CountryId) -> bool {
    exists|j: int| 0 <= j < countries.len() && #[trigger] countries[j].entity == c
}

/// Whether `c` is one of the countries.
pub fn country_exists(countries: &Vec<CountryState>, c: CountryId) -> (b: bool)
    ensures
        b == is_country(countries@, c),
{
    let n = countries.len();
    let mut i: usize = 0;
    while i < n
        invariant
            n == countries@.len(),
            i <= n,
            forall|j: int| 0 <= j < i ==> countries@[j].entity != c,
        decreases n - i,
    {
        if countries[i].entity == c {
            return true;
        }
        i = i + 1;
    }
    false
}

/// The colour of a land tile `hex` holding `tile` in the political view
/// (`political`) or the terrain view.
pub open spec fn mode_color(map: &HexMap, hex: Hex, tile: Tile, political: bool) -> TileColor {
    if political {
        if map.hex_owners@.contains_key(hex) {
            TileColor::Country(map.hex_owners@[hex])
        } else {
            TileColor::NoOwner
        }
    } else {
        TileColor::Terrain(tile.terrain)
    }
}

/// A tile can be painted in the political view `political`: it is shown by
/// terrain, unowned, or owned by a known country.
pub open spec fn color_known(map: &HexMap, countries: Seq<CountryState>, hex: Hex, political: bool) -> bool {
    political && map.hex_owners@.contains_key(hex) ==> is_country(countries, map.hex_owners@[hex])
}

/// The colour of a land tile in the board's current view; fails when its
/// owner is not a known country.
pub fn recolors_based_on_mode(map: &HexMap, current: &Hex, tile: &Tile, countries: &Vec<CountryState>) -> (r:
    Result<TileColor, MyErrors>)
    requires
        map.wf(),
    ensures
        r is Ok <==> color_known(map, countries@, *current, map.political),
        r matches Ok(c) ==> c == mode_color(map, *current, *tile, map.political),
        r matches Err(e) ==> e is InconsistentData,
{
    if map.political {
        match map.hex_owners.get(current) {
            Some(owner) => {
                if country_exists(countries, owner) {
                    Ok(TileColor::Country(owner))
                } else {
                    Err(inconsistent("Couldn't find country color in query"))
                }
            },
            None => Ok(TileColor::NoOwner),
        }
    } else {
        Ok(TileColor::Terrain(tile.terrain))
    }
}

/// The colour a tile shows when nothing is drawn over it: water is always
/// water, land follows the board's view.
pub open spec fn rest_color(map: &HexMap, hex: Hex) -> TileColor {
    let tile = map.entities@[hex];
    if tile.terrain == TerrainType::Water {
        TileColor::Terrain(TerrainType::Water)
    } else {
        mode_color(map, hex, tile, map.political)
    }
}

/// The tile can be given its resting colour.
pub open spec fn rest_known(map: &HexMap, countries: Seq<CountryState>, hex: Hex) -> bool {
    map.entities@[hex].terrain == TerrainType::Water || color_known(map, countries, hex, map.political)
}

/// The colour that a tile no longer selected goes back to; none for a hex
/// off the board. Fails when its owner is not a known country.
pub fn recolor_old_selected_hex(map: &HexMap, selected_old: &Hex, countries: &Vec<CountryState>) -> (r: Result<
    Option<TileColor>,
    MyErrors,
>)
    requires
        map.wf(),
    ensures
        !map.entities@.contains_key(*selected_old) ==> r == Ok::<Option<TileColor>, MyErrors>(None),
        map.entities@.contains_key(*selected_old) ==> {
            &&& r is Ok <==> rest_known(map, countries@, *selected_old)
            &&& r matches Ok(c) ==> c == Some(rest_color(map, *selected_old))
        },
        r matches Err(e) ==> e is InconsistentData,
{
    let tile = match map.entities.get(selected_old) {
        Some(t) => t,
        None => {
            return Ok(None);
        },
    };
    if let TerrainType::Water = tile.terrain {
        return Ok(Some(TileColor::Terrain(tile.terrain)));
    }
    match recolors_based_on_mode(map, selected_old, &tile, countries) {
        Ok(c) => Ok(Some(c)),
        Err(e) => Err(e),
    }
}

/// What to do with the tile `current` that the cursor has left for
/// `coord`: the colour to paint it, if any, and whether to forget it as the
/// highlighted tile. Nothing when the cursor has not moved or `current` is
/// off the board; water gets its colour back, the selected tile its
/// selection colour (and stays remembered), other land its resting colour.
pub fn recolor_highlighted_hex(
    current: &Hex,
    coord: &Hex,
    map: &HexMap,
    countries: &Vec<CountryState>,
    selected: Option<Hex>,
) -> (r: Result<(Option<TileColor>, bool), MyErrors>)
    requires
        map.wf(),
    ensures
        *current == *coord || !map.entities@.contains_key(*current) ==> r == Ok::<
            (Option<TileColor>, bool),
            MyErrors,
        >((None, false)),
        *current != *coord && map.entities@.contains_key(*current) ==> {
            let tile = map.entities@[*current];
            if tile.terrain == TerrainType::Water {
                r == Ok::<(Option<TileColor>, bool), MyErrors>(
                    (Some(TileColor::Terrain(TerrainType::Water)), true),
                )
            } else if selected == Some(*current) {
                r == Ok::<(Option<TileColor>, bool), MyErrors>((Some(TileColor::Selected), false))
            } else {
                &&& r is Ok <==> color_known(map, countries@, *current, map.political)
                &&& r matches Ok(p) ==> p == (Some(mode_color(map, *current, tile, map.political)), true)
                &&& r matches Err(e) ==> e is InconsistentData
            }
        },
{
    if current.x == coord.x && current.y == coord.y {
        return Ok((None, false));
    }
    match map.entities.get(current) {
        Some(tile) => {
            if let TerrainType::Water = tile.terrain {
                return Ok((Some(TileColor::Terrain(tile.terrain)), true));
            }
            if let Some(hex) = selected {
                if hex.x == current.x && hex.y == current.y {
                    return Ok((Some(TileColor::Selected), false));
                }
            }
            match recolors_based_on_mode(map, current, &tile, countries) {
                Ok(c) => Ok((Some(c), true)),
                Err(e) => Err(e),
            }
        },
        None => Ok((None, false)),
    }
}

/// The cursor points at `coord`: the tile it left is repainted as
/// `recolor_highlighted_hex` says, and `coord`, if on the board, is painted
/// highlighted and remembered. Returns the tiles to paint, in order; fails,
/// remembering the same tile, when the tile left behind cannot be coloured.
pub fn highlight_hex(
    map: &HexMap,
    highligthed: &mut HighlightedHexes,
    coord: Hex,
    countries: &Vec<CountryState>,
    selected: Option<Hex>,
) -> (r: Result<Vec<(Hex, TileColor)>, MyErrors>)
    requires
        map.wf(),
    ensures
        ({
            let left = match old(highligthed).pointing_at {
                Some(cur) => cur != coord && map.entities@.contains_key(cur) && map.entities@[cur].terrain
                    != TerrainType::Water && selected != Some(cur) && !color_known(
                    map,
                    countries@,
                    cur,
                    map.political,
                ),
                None => false,
            };
            &&& r is Err <==> left
            &&& r is Err ==> final(highligthed).pointing_at == old(highligthed).pointing_at
        }),
        r matches Ok(paints) ==> {
            let first: Seq<(Hex, TileColor)> = match old(highligthed).pointing_at {
                Some(cur) => if cur == coord || !map.entities@.contains_key(cur) {
                    Seq::empty()
                } else if map.entities@[cur].terrain == TerrainType::Water {
                    seq![(cur, TileColor::Terrain(TerrainType::Water))]
                } else if selected == Some(cur) {
                    seq![(cur, TileColor::Selected)]
                } else {
                    seq![(cur, mode_color(map, cur, map.entities@[cur], map.political))]
                },
                None => Seq::empty(),
            };
            let kept: Option<Hex> = match old(highligthed).pointing_at {
                Some(cur) => if cur == coord || !map.entities@.contains_key(cur) || (
                map.entities@[cur].terrain != TerrainType::Water && selected == Some(cur)) {
                    Some(cur)
                } else {
                    None
                },
                None => None,
            };
            if map.entities@.contains_key(coord) {
                &&& paints@ == first.push((coord, TileColor::Highlighted))
                &&& final(highligthed).pointing_at == Some(coord)
            } else {
                &&& paints@ == first
                &&& final(highligthed).pointing_at == kept
            }
        },
{
    let mut paints: Vec<(Hex, TileColor)> = Vec::new();
    if let Some(current) = highligthed.pointing_at {
        match recolor_highlighted_hex(&current, &coord, map, countries, selected) {
            Ok((c, clear)) => {
                if let Some(c) = c {
                    paints.push((current, c));
                }
                if clear {
                    highligthed.pointing_at = None;
                }
            },
            Err(e) => {
                return Err(e);
            },
        }
    }
    if map.entities.contains_key(&coord) {
        paints.push((coord, TileColor::Highlighted));
        highligthed.pointing_at = Some(coord);
    }
    Ok(paints)
}

/// The colour that a tile no longer selected goes back to, as
/// `recolor_old_selected_hex` gives it.
pub open spec fn old_color(map: &HexMap, hex: Hex) -> Option<TileColor> {
    if map.entities@.contains_key(hex) {
        Some(rest_color(map, hex))
    } else {
        None
    }
}

/// The tile at `hex` cannot be given back its colour.
pub open spec fn recolor_fails(map: &HexMap, countries: Seq<CountryState>, hex: Hex) -> bool {
    map.entities@.contains_key(hex) && !rest_known(map, countries, hex)
}

/// The board, occupation and outcome are those of moving the army on
/// `from` to `to` for `mover` (see `move_army_checked`).
pub open spec fn moved_as(
    map0: &HexMap,
    occ0: &Occupied,
    map1: &HexMap,
    occ1: &Occupied,
    from: Hex,
    to: Hex,
    mover: CountryId,
    ok: bool,
) -> bool {
    if !move_fits(map0.armies@, from, to, mover) {
        &&& !ok
        &&& map1.armies@ == map0.armies@
        &&& map1.hex_owners@ == map0.hex_owners@
        &&& occ1.map@ == occ0.map@
    } else {
        let o = move_outcome(map0.armies@, map0.hex_owners@, occ0.map@, from, to, mover);
        &&& map1.armies@ == o.0
        &&& map1.hex_owners@ == o.1
        &&& occ1.map@ == o.2
        &&& ok == o.3
    }
}

/// A click on `clicked` while `selected` was selected. Nothing happens when
/// nothing was selected or the same tile is clicked again. Otherwise the
/// old tile gets its colour back (returned, with the hex), and when the
/// click is one of the possible moves the army there is moved to it for the
/// old tile's owner (then `true` is returned). Fails when the old tile
/// cannot be coloured or has no owner (changing nothing), or when the move
/// fails.
pub fn handle_old_selected(
    map: &mut HexMap,
    occupied: &mut Occupied,
    selected: Option<Hex>,
    clicked: Hex,
    possible_moves: &Vec<Hex>,
    countries: &Vec<CountryState>,
) -> (r: Result<(Option<(Hex, TileColor)>, bool), MyErrors>)
    requires
        old(map).wf(),
        old(occupied).wf(),
    ensures
        final(map).wf(),
        final(occupied).wf(),
        final(map).political == old(map).political,
        final(map).entities == old(map).entities,
        match selected {
            None => r == Ok::<(Option<(Hex, TileColor)>, bool), MyErrors>((None, false))
                && *final(map) == *old(map) && *final(occupied) == *old(occupied),
            Some(prev) => if prev == clicked {
                r == Ok::<(Option<(Hex, TileColor)>, bool), MyErrors>((None, false)) && *final(map)
                    == *old(map) && *final(occupied) == *old(occupied)
            } else if recolor_fails(old(map), countries@, prev) {
                (r matches Err(e) && e is InconsistentData) && *final(map) == *old(map)
                    && *final(occupied) == *old(occupied)
            } else if !possible_moves@.contains(clicked) {
                r == Ok::<(Option<(Hex, TileColor)>, bool), MyErrors>(
                    (
                        match old_color(old(map), prev) {
                            Some(c) => Some((prev, c)),
                            None => None,
                        },
                        false,
                    ),
                ) && *final(map) == *old(map) && *final(occupied) == *old(occupied)
            } else if !old(map).hex_owners@.contains_key(prev) {
                (r matches Err(e) && e is InconsistentData) && *final(map) == *old(map)
                    && *final(occupied) == *old(occupied)
            } else {
                &&& moved_as(
                    old(map),
                    old(occupied),
                    final(map),
                    final(occupied),
                    prev,
                    clicked,
                    old(map).hex_owners@[prev],
                    r is Ok,
                )
                &&& r is Ok ==> r == Ok::<(Option<(Hex, TileColor)>, bool), MyErrors>(
                    (
                        match old_color(old(map), prev) {
                            Some(c) => Some((prev, c)),
                            None => None,
                        },
                        true,
                    ),
                )
            },
        },
{
    let prev = match selected {
        Some(h) => h,
        None => {
            return Ok((None, false));
        },
    };
    if prev.x == clicked.x && prev.y == clicked.y {
        return Ok((None, false));
    }
    let color = match recolor_old_selected_hex(map, &prev, countries) {
        Ok(c) => c,
        Err(e) => {
            return Err(e);
        },
    };
    let repaint = match color {
        Some(c) => Some((prev, c)),
        None => None,
    };
    if !vec_contains_hex(possible_moves, clicked) {
        return Ok((repaint, false));
    }
    let me = match map.hex_owners.get(&prev) {
        Some(e) => e,
        None => {
            return Err(
                inconsistent(
                    "Before functions used old selected hex but currently there is none selected",
                ),
            );
        },
    };
    match move_army_checked(&prev, &clicked, map, occupied, me) {
        Ok(()) => Ok((repaint, true)),
        Err(e) => Err(e),
    }
}

/// A click on `clicked`: handles the old selection as `handle_old_selected`
/// does, then selects `clicked`. Returns the tiles to paint, in order (the
/// old tile's colour, then the selection colour on `clicked` if it is on the
/// board), and whether an army moved. On failure the selection stays.
pub fn select_hex(
    map: &mut HexMap,
    occupied: &mut Occupied,
    selected: &mut SelectedHex,
    clicked: Hex,
    possible_moves: &Vec<Hex>,
    countries: &Vec<CountryState>,
) -> (r: Result<(Vec<(Hex, TileColor)>, bool), MyErrors>)
    requires
        old(map).wf(),
        old(occupied).wf(),
    ensures
        final(map).wf(),
        final(occupied).wf(),
        final(map).political == old(map).political,
        final(map).entities == old(map).entities,
        r is Err ==> final(selected).hex == old(selected).hex,
        r is Ok ==> final(selected).hex == Some(clicked),
        r matches Ok((paints, moved)) ==> {
            let idle = match old(selected).hex {
                None => true,
                Some(prev) => prev == clicked,
            };
            let first: Seq<(Hex, TileColor)> = match old(selected).hex {
                Some(prev) => if idle {
                    Seq::empty()
                } else {
                    match old_color(old(map), prev) {
                        Some(c) => seq![(prev, c)],
                        None => Seq::empty(),
                    }
                },
                None => Seq::empty(),
            };
            &&& moved <==> !idle && possible_moves@.contains(clicked)
            &&& !moved ==> *final(map) == *old(map) && *final(occupied) == *old(occupied)
            &&& moved ==> moved_as(
                old(map),
                old(occupied),
                final(map),
                final(occupied),
                old(selected).hex.unwrap(),
                clicked,
                old(map).hex_owners@[old(selected).hex.unwrap()],
                true,
            )
            &&& paints@ == if old(map).entities@.contains_key(clicked) {
                first.push((clicked, TileColor::Selected))
            } else {
                first
            }
        },
        r is Err <==> match old(selected).hex {
            None => false,
            Some(prev) => prev != clicked && (recolor_fails(old(map), countries@, prev) || (
            possible_moves@.contains(clicked) && (!old(map).hex_owners@.contains_key(prev) || !moved_ok(
                old(map),
                old(occupied),
                prev,
                clicked,
            )))),
        },
{
    let (repaint, moved) = match handle_old_selected(map, occupied, selected.hex, clicked, possible_moves, countries) {
        Ok(p) => p,
        Err(e) => {
            return Err(e);
        },
    };
    selected.hex = Some(clicked);
    let mut paints: Vec<(Hex, TileColor)> = Vec::new();
    if let Some(p) = repaint {
        paints.push(p);
    }
    if map.entities.contains_key(&clicked) {
        paints.push((clicked, TileColor::Selected));
    }
    Ok((paints, moved))
}

/// The army on `from` can be moved to `to` by the tile's owner: the
/// arithmetic fits and the move is consistent.
pub open spec fn moved_ok(map: &HexMap, occ: &Occupied, from: Hex, to: Hex) -> bool {
    move_fits(map.armies@, from, to, map.hex_owners@[from]) && move_outcome(
        map.armies@,
        map.hex_owners@,
        occ.map@,
        from,
        to,
        map.hex_owners@[from],
    ).3
}

/// `j` is the first position of the country `c` among `countries`.
pub open spec fn first_of(countries: Seq<CountryState>, c: CountryId, j: int) -> bool {
    &&& 0 <= j < countries.len()
    &&& countries[j].entity == c
    &&& forall|k: int| 0 <= k < j ==> countries[k].entity != c
}

/// The country `c` is played by a person (by its first entry).
pub open spec fn is_player(countries: Seq<CountryState>, c: CountryId) -> bool {
    exists|j: int| #[trigger] first_of(countries, c, j) && countries[j].player_type == PlayerType::Player
}

/// Whether the country `c`, known to be among `countries`, is played by a
/// person.
fn country_is_player(countries: &Vec<CountryState>, c: CountryId) -> (b: bool)
    requires
        is_country(countries@, c),
    ensures
        b == is_player(countries@, c),
{
    match find_country(countries, c) {
        Some(j) => {
            assert(first_of(countries@, c, j as int));
            assert forall|q: int| #[trigger] first_of(countries@, c, q) implies q == j by {
                if q < j {
                    assert(countries@[q].entity != c);
                } else if q > j {
                    assert(countries@[j as int].entity != c);
                }
            }
            match countries[j].player_type {
                PlayerType::Player => true,
                PlayerType::Bot => false,
            }
        },
        None => {
            proof {
                let q = choose|q: int| 0 <= q < countries@.len() && #[trigger] countries@[q].entity == c;
                assert(countries@[q].entity != c);
            }
            false
        },
    }
}

/// The moves offered for the selected tile: none when nothing is selected,
/// there is no army on it, or its owner is played by the computer;
/// otherwise those of `possible_moves_vec` for the army, its tile's owner
/// and that owner's enemies. Fails, changing nothing, when the tile with
/// the army has no owner, the owner is not a known country or has no list
/// of wars.
pub fn select_possible_moves(
    selected: Option<Hex>,
    map: &HexMap,
    possible_moves: &mut PossibleMoves,
    at_war_with: &AtWarLists,
    countries: &Vec<CountryState>,
) -> (r: Result<(), MyErrors>)
    requires
        map.wf(),
        at_war_with.wf(),
        selected matches Some(h) ==> coords_ok(h),
    ensures
        r matches Err(e) ==> e is InconsistentData && final(possible_moves).moves@ == old(
            possible_moves,
        ).moves@,
        match selected {
            None => r is Ok && final(possible_moves).moves@.len() == 0,
            Some(h) => if !map.armies@.contains_key(h) {
                r is Ok && final(possible_moves).moves@.len() == 0
            } else if !map.hex_owners@.contains_key(h) || !is_country(countries@, map.hex_owners@[h]) {
                r is Err
            } else if !is_player(countries@, map.hex_owners@[h]) {
                r is Ok && final(possible_moves).moves@.len() == 0
            } else if !at_war_with@.contains_key(map.hex_owners@[h]) {
                r is Err
            } else {
                &&& r is Ok
                &&& map.armies@[h].move_points_left > 0 ==> final(possible_moves).moves@ == allowed_moves(
                    map,
                    map.hex_owners@[h],
                    at_war_with@[map.hex_owners@[h]],
                    neighbors_of(h),
                )
                &&& map.armies@[h].move_points_left <= 0 ==> final(possible_moves).moves@.len() == 0
            },
        },
{
    let selected_hex = match selected {
        Some(h) => h,
        None => {
            possible_moves.moves = Vec::new();
            return Ok(());
        },
    };
    let army = match map.armies.get(&selected_hex) {
        Some(a) => a,
        None => {
            possible_moves.moves = Vec::new();
            return Ok(());
        },
    };
    let owner = match map.hex_owners.get(&selected_hex) {
        Some(o) => o,
        None => {
            return Err(inconsistent("Failed to get Hex Entity"));
        },
    };
    if !country_exists(countries, owner) {
        return Err(inconsistent("Failed to get player from query"));
    }
    if !country_is_player(countries, owner) {
        possible_moves.moves = Vec::new();
        return Ok(());
    }
    let enemies = match at_war_with.lists.get_ref(&owner) {
        Some(l) => l,
        None => {
            return Err(inconsistent("War Lists"));
        },
    };
    possible_moves.moves = possible_moves_vec(&army, selected_hex, map, &owner, enemies);
    Ok(())
}

/// The colours that the tiles of `s` go back to, in order, leaving out
/// those off the board.
pub open spec fn old_colors(map: &HexMap, s: Seq<Hex>) -> Seq<(Hex, TileColor)>
    decreases s.len(),
{
    if s.len() == 0 {
        Seq::empty()
    } else {
        let r = old_colors(map, s.drop_last());
        if map.entities@.contains_key(s.last()) {
            r.push((s.last(), rest_color(map, s.last())))
        } else {
            r
        }
    }
}

/// The colours that the previously offered moves go back to, as
/// `recolor_old_selected_hex` gives them. Fails when one of them cannot be
/// coloured.
pub fn recolor_old_possible_moves(map: &HexMap, possible_moves: &PossibleMoves, countries: &Vec<CountryState>) -> (r:
    Result<Vec<(Hex, TileColor)>, MyErrors>)
    requires
        map.wf(),
    ensures
        r is Ok <==> forall|i: int|
            0 <= i < possible_moves.moves@.len() ==> !recolor_fails(
                map,
                countries@,
                #[trigger] possible_moves.moves@[i],
            ),
        r matches Err(e) ==> e is InconsistentData,
        r matches Ok(paints) ==> paints@ == old_colors(map, possible_moves.moves@),
{
    let ghost s = possible_moves.moves@;
    let mut paints: Vec<(Hex, TileColor)> = Vec::new();
    let n = possible_moves.moves.len();
    let mut i: usize = 0;
    while i < n
        invariant
            s == possible_moves.moves@,
            n == s.len(),
            i <= n,
            map.wf(),
            forall|j: int| 0 <= j < i ==> !recolor_fails(map, countries@, #[trigger] s[j]),
            paints@ == old_colors(map, s.take(i as int)),
        decreases n - i,
    {
        let hex = possible_moves.moves[i];
        assert(s.take(i + 1).drop_last() =~= s.take(i as int));
        assert(s.take(i + 1).last() == hex);
        match recolor_old_selected_hex(map, &hex, countries) {
            Ok(Some(c)) => {
                paints.push((hex, c));
            },
            Ok(None) => {},
            Err(e) => {
                return Err(e);
            },
        }
        i = i + 1;
    }
    assert(s.take(n as int) =~= s);
    Ok(paints)
}

/// The tiles of `s` on the board, each with the possible-move colour.
pub open spec fn move_marks(map: &HexMap, s: Seq<Hex>) -> Seq<(Hex, TileColor)>
    decreases s.len(),
{
    if s.len() == 0 {
        Seq::empty()
    } else {
        let r = move_marks(map, s.drop_last());
        if map.entities@.contains_key(s.last()) {
            r.push((s.last(), TileColor::PossibleMove))
        } else {
            r
        }
    }
}

/// The offered moves on the board, to be painted in the possible-move
/// colour.
pub fn color_player_possible_moves(map: &HexMap, possible_moves: &PossibleMoves) -> (r: Vec<(Hex, TileColor)>)
    requires
        map.wf(),
    ensures
        r@ == move_marks(map, possible_moves.moves@),
{
    let ghost s = possible_moves.moves@;
    let mut paints: Vec<(Hex, TileColor)> = Vec::new();
    let n = possible_moves.moves.len();
    let mut i: usize = 0;
    while i < n
        invariant
            s == possible_moves.moves@,
            n == s.len(),
            i <= n,
            map.wf(),
            paints@ == move_marks(map, s.take(i as int)),
        decreases n - i,
    {
        let hex = possible_moves.moves[i];
        assert(s.take(i + 1).drop_last() =~= s.take(i as int));
        if map.entities.contains_key(&hex) {
            paints.push((hex, TileColor::PossibleMove));
        }
        i = i + 1;
    }
    assert(s.take(n as int) =~= s);
    paints
}

/// The tile is repainted when the view changes: it is land and not the
/// selected tile.
pub open spec fn repainted(tile: Tile, hex: Hex, selected: Option<Hex>) -> bool {
    tile.terrain != TerrainType::Water && selected != Some(hex)
}

/// The colours of the tiles `s` in the view `political`, in order, leaving
/// out water and the selected tile.
pub open spec fn mode_paints(map: &HexMap, s: Seq<(Hex, Tile)>, selected: Option<Hex>, political: bool) -> Seq<
    (Hex, TileColor),
>
    decreases s.len(),
{
    if s.len() == 0 {
        Seq::empty()
    } else {
        let r = mode_paints(map, s.drop_last(), selected, political);
        let (hex, tile) = s.last();
        if repainted(tile, hex, selected) {
            r.push((hex, mode_color(map, hex, tile, political)))
        } else {
            r
        }
    }
}

/// Every tile repainted in the view `political` can be coloured.
pub open spec fn mode_known(map: &HexMap, countries: Seq<CountryState>, selected: Option<Hex>, political: bool) -> bool {
    forall|i: int|
        0 <= i < map.entities.seq().len() && repainted(
            map.entities.seq()[i].1,
            map.entities.seq()[i].0,
            selected,
        ) ==> color_known(map, countries, #[trigger] map.entities.seq()[i].0, political)
}

/// The `k`-th tile of the board is the first repainted one whose colour in
/// the view `political` is not known.
pub open spec fn first_unknown(
    map: &HexMap,
    countries: Seq<CountryState>,
    selected: Option<Hex>,
    political: bool,
    k: int,
) -> bool {
    let s = map.entities.seq();
    &&& 0 <= k < s.len()
    &&& repainted(s[k].1, s[k].0, selected)
    &&& !color_known(map, countries, s[k].0, political)
    &&& forall|j: int|
        0 <= j < k && repainted(s[j].1, s[j].0, selected) ==> color_known(
            map,
            countries,
            #[trigger] s[j].0,
            political,
        )
}

/// A repaint of the board in the view `political`: `paints` are the colours
/// given, in the board's order; when every colour is known the whole board is
/// repainted and `outcome` is `Ok`, else the tiles before the first unknown
/// one are repainted and it is an `InconsistentData` error.
pub open spec fn repaint_done(
    map: &HexMap,
    countries: Seq<CountryState>,
    selected: Option<Hex>,
    political: bool,
    paints: Seq<(Hex, TileColor)>,
    outcome: Result<(), MyErrors>,
) -> bool {
    &&& outcome is Ok <==> mode_known(map, countries, selected, political)
    &&& outcome matches Err(e) ==> e is InconsistentData
    &&& outcome is Ok ==> paints == mode_paints(map, map.entities.seq(), selected, political)
    &&& outcome is Err ==> exists|k: int|
        #[trigger] first_unknown(map, countries, selected, political, k) && paints == mode_paints(
            map,
            map.entities.seq().take(k),
            selected,
            political,
        )
}

fn paint_board(map: &HexMap, selected: Option<Hex>, political: bool, countries: &Vec<CountryState>) -> (r: (
    Vec<(Hex, TileColor)>,
    Result<(), MyErrors>,
))
    requires
        map.wf(),
    ensures
        repaint_done(map, countries@, selected, political, r.0@, r.1),
{
    let ghost s = map.entities.seq();
    let mut paints: Vec<(Hex, TileColor)> = Vec::new();
    let n = map.entities.entries.len();
    let mut i: usize = 0;
    while i < n
        invariant
            s == map.entities.seq(),
            n == s.len(),
            i <= n,
            map.wf(),
            forall|j: int|
                0 <= j < i && repainted(s[j].1, s[j].0, selected) ==> color_known(
                    map,
                    countries@,
                    #[trigger] s[j].0,
                    political,
                ),
            paints@ == mode_paints(map, s.take(i as int), selected, political),
        decreases n - i,
    {
        let (hex, tile) = map.entities.entries[i];
        assert(s.take(i + 1).drop_last() =~= s.take(i as int));
        assert(s.take(i + 1).last() == (hex, tile));
        let mut skip = false;
        if let TerrainType::Water = tile.terrain {
            skip = true;
        }
        if let Some(h) = selected {
            if h.x == hex.x && h.y == hex.y {
                skip = true;
            }
        }
        if !skip {
            if political {
                match map.hex_owners.get(&hex) {
                    Some(owner) => {
                        if !country_exists(countries, owner) {
                            assert(first_unknown(map, countries@, selected, political, i as int));
                            return (paints, Err(inconsistent("Couldn't find country color in query")));
                        }
                        paints.push((hex, TileColor::Country(owner)));
                    },
                    None => {
                        paints.push((hex, TileColor::NoOwner));
                    },
                }
            } else {
                paints.push((hex, TileColor::Terrain(tile.terrain)));
            }
        }
        i = i + 1;
    }
    assert(s.take(n as int) =~= s);
    (paints, Ok(()))
}

/// Shows the board by terrain: every land tile but the selected one takes
/// its terrain's colour.
pub fn change_map_to_terrain(map: &mut HexMap, selected: Option<Hex>) -> (r: Vec<(Hex, TileColor)>)
    requires
        old(map).wf(),
    ensures
        *final(map) == (HexMap { political: false, ..*old(map) }),
        r@ == mode_paints(final(map), final(map).entities.seq(), selected, false),
{
    map.political = false;
    let empty: Vec<CountryState> = Vec::new();
    let (p, _outcome) = paint_board(map, selected, false, &empty);
    proof {
        assert(mode_known(map, empty@, selected, false));
    }
    p
}

/// Shows the board by owner: every land tile but the selected one takes its
/// owner's colour, or the colour of land nobody owns. The view is switched
/// even when it fails, as it does when an owner is not a known country; the
/// tiles before that one are repainted all the same.
pub fn change_map_to_political(map: &mut HexMap, selected: Option<Hex>, countries: &Vec<CountryState>) -> (r: (
    Vec<(Hex, TileColor)>,
    Result<(), MyErrors>,
))
    requires
        old(map).wf(),
    ensures
        *final(map) == (HexMap { political: true, ..*old(map) }),
        repaint_done(final(map), countries@, selected, true, r.0@, r.1),
{
    map.political = true;
    paint_board(map, selected, true, countries)
}

/// Repaints the board in its current view.
pub fn update_ownership_colors(map: &mut HexMap, selected: Option<Hex>, countries: &Vec<CountryState>) -> (r: (
    Vec<(Hex, TileColor)>,
    Result<(), MyErrors>,
))
    requires
        old(map).wf(),
    ensures
        *final(map) == *old(map),
        repaint_done(old(map), countries@, selected, old(map).political, r.0@, r.1),
{
    if map.political {
        change_map_to_political(map, selected, countries)
    } else {
        let p = change_map_to_terrain(map, selected);
        proof {
            assert(mode_known(old(map), countries@, selected, false));
        }
        (p, Ok(()))
    }
}

/// Switches the board between the terrain and the political view and
/// repaints it.
pub fn change_map_mode(map: &mut HexMap, selected: Option<Hex>, countries: &Vec<CountryState>) -> (r: (
    Vec<(Hex, TileColor)>,
    Result<(), MyErrors>,
))
    requires
        old(map).wf(),
    ensures
        *final(map) == (HexMap { political: !old(map).political, ..*old(map) }),
        repaint_done(final(map), countries@, selected, !old(map).political, r.0@, r.1),
{
    if !map.political {
        change_map_to_political(map, selected, countries)
    } else {
        let p = change_map_to_terrain(map, selected);
        proof {
            assert(mode_known(final(map), countries@, selected, false));
        }
        (p, Ok(()))
    }
}

/// The markers of occupied tiles in the political view: each occupied tile
/// with the country it was taken from, in order; none in the terrain view.
/// Fails when such a country is not known.
pub fn color_occupied_hexes(map: &HexMap, occupied: &Occupied, countries: &Vec<CountryState>) -> (r: Result<
    Vec<(Hex, CountryId)>,
    MyErrors,
>)
    ensures
        !map.political ==> (r matches Ok(v) && v@.len() == 0),
        map.political ==> {
            &&& r is Ok <==> forall|i: int|
                0 <= i < occupied.map.seq().len() ==> is_country(countries@, #[trigger] occupied.map.seq()[i].1)
            &&& r matches Ok(v) ==> v@ == occupied.map.seq()
        },
        r matches Err(e) ==> e is InconsistentData,
{
    let mut marks: Vec<(Hex, CountryId)> = Vec::new();
    if !map.political {
        return Ok(marks);
    }
    let ghost s = occupied.map.seq();
    let n = occupied.map.entries.len();
    let mut i: usize = 0;
    while i < n
        invariant
            s == occupied.map.seq(),
            n == s.len(),
            i <= n,
            map.political,
            forall|j: int| 0 <= j < i ==> is_country(countries@, #[trigger] s[j].1),
            marks@ == s.take(i as int),
        decreases n - i,
    {
        let (hex, occupator) = occupied.map.entries[i];
        if !country_exists(countries, occupator) {
            return Err(inconsistent("Couldn't find country color in query"));
        }
        marks.push((hex, occupator));
        assert(s.take(i + 1) =~= s.take(i as int).push((hex, occupator)));
        i = i + 1;
    }
    assert(s.take(n as int) =~= s);
    Ok(marks)
}

/// What the country panel shows for a tile's owner.
pub struct CountryTab {
    /// The country shown.
    pub owner: CountryId,
    /// Its gold.
    pub gold: i32,
    /// It is played by a person: the player's panel shows, else the enemy's.
    pub player: bool,
}

/// What a click does to the country panels.
pub enum CountryTabUpdate {
    /// Nothing is selected: the panels stay as they are.
    Nothing,
    /// The selected tile has no owner: both panels hide.
    HideAll,
    /// The selected tile's owner is shown.
    Show(CountryTab),
}

/// How many of a list of `len` enemies fill `slots` flag slots.
pub open spec fn shown(slots: usize, len: nat) -> int {
    if slots < len {
        slots as int
    } else {
        len as int
    }
}

/// Every enemy of `o` shown in the `slots` flag slots is a known country.
pub open spec fn flags_known(
    wars: Map<CountryId, Seq<CountryId>>,
    countries: Seq<CountryState>,
    o: CountryId,
    slots: usize,
) -> bool {
    forall|k: int| 0 <= k < shown(slots, wars[o].len()) ==> is_country(countries, #[trigger] wars[o][k])
}

/// The flags `set` fill the enemy slots of `o`, slot by slot, up to the
/// first enemy that is not a known country: all the shown ones when every
/// one is known (`done`), else those before the first unknown one. Without
/// a list of wars nothing is set.
pub open spec fn flags_set(
    wars: Map<CountryId, Seq<CountryId>>,
    countries: Seq<CountryState>,
    o: CountryId,
    slots: usize,
    set: Seq<CountryId>,
    done: bool,
) -> bool {
    if !wars.contains_key(o) {
        set.len() == 0 && !done
    } else {
        let l = wars[o];
        let n = shown(slots, l.len());
        &&& set.len() <= n
        &&& set == l.take(set.len() as int)
        &&& done <==> flags_known(wars, countries, o, slots)
        &&& done ==> set.len() == n
        &&& !done ==> set.len() < n && !is_country(countries, l[set.len() as int])
    }
}

/// The enemies of `o` whose flags fill the first `slots` slots, slot by
/// slot, and whether all of them could be set. Fails when `o` has no list
/// of wars or one of those enemies is not a known country; the flags before
/// that one are set all the same.
pub fn enemy_flags(wars: &AtWarLists, countries: &Vec<CountryState>, o: CountryId, slots: usize) -> (r: (
    Vec<CountryId>,
    Result<(), MyErrors>,
))
    requires
        wars.wf(),
    ensures
        flags_set(wars@, countries@, o, slots, r.0@, r.1 is Ok),
        r.1 matches Err(e) ==> e is InconsistentData,
{
    let mut flags: Vec<CountryId> = Vec::new();
    let list = match wars.lists.get_ref(&o) {
        Some(l) => l,
        None => {
            return (flags, Err(inconsistent("Couldn't find War List")));
        },
    };
    let n: usize = if slots < list.len() {
        slots
    } else {
        list.len()
    };
    let mut k: usize = 0;
    while k < n
        invariant
            n == shown(slots, list@.len()),
            n <= list@.len(),
            wars@.contains_key(o),
            list@ == wars@[o],
            k <= n,
            forall|q: int| 0 <= q < k ==> is_country(countries@, #[trigger] list@[q]),
            flags@ == list@.take(k as int),
        decreases n - k,
    {
        if !country_exists(countries, list[k]) {
            return (flags, Err(inconsistent("Couldn't find flag image in query")));
        }
        flags.push(list[k]);
        assert(list@.take(k + 1) =~= list@.take(k as int).push(list@[k as int]));
        k = k + 1;
    }
    (flags, Ok(()))
}

/// The country panels after a click with `slots` enemy flag slots: nothing
/// changes with nothing selected, both hide for an unowned tile, else the
/// enemies' flags are set (see `enemy_flags`) and the owner is shown with its
/// gold and the panel for who plays it. Returns the flags set, whether every
/// flag slot was dealt with (the slots past the flags then hide), and the
/// panel update. Fails when the owner has no list of wars, a shown enemy or
/// the owner is not a known country; the flags set before that stay set.
pub fn show_country_tab_system(
    map: &HexMap,
    war_lists: &AtWarLists,
    countries: &Vec<CountryState>,
    selected: &SelectedHex,
    slots: usize,
) -> (r: (Vec<CountryId>, bool, Result<CountryTabUpdate, MyErrors>))
    requires
        map.wf(),
        war_lists.wf(),
    ensures
        r.2 matches Err(e) ==> e is InconsistentData,
        match selected.hex {
            None => r.0@.len() == 0 && !r.1 && r.2 matches Ok(CountryTabUpdate::Nothing),
            Some(h) => if !map.hex_owners@.contains_key(h) {
                r.0@.len() == 0 && !r.1 && r.2 matches Ok(CountryTabUpdate::HideAll)
            } else {
                let o = map.hex_owners@[h];
                &&& flags_set(war_lists@, countries@, o, slots, r.0@, r.1)
                &&& r.2 is Ok <==> r.1 && is_country(countries@, o)
                &&& r.2 matches Ok(u) ==> (u matches CountryTabUpdate::Show(t) && t.owner == o && exists|j: int|
                    #[trigger] first_of(countries@, o, j) && t.gold == countries@[j].treasury.gold && t.player
                    == (countries@[j].player_type == PlayerType::Player))
            },
        },
{
    let clicked_hex = match selected.hex {
        Some(h) => h,
        None => {
            return (Vec::new(), false, Ok(CountryTabUpdate::Nothing));
        },
    };
    let owner = match map.hex_owners.get(&clicked_hex) {
        Some(o) => o,
        None => {
            return (Vec::new(), false, Ok(CountryTabUpdate::HideAll));
        },
    };
    let (flags, done) = enemy_flags(war_lists, countries, owner, slots);
    match done {
        Ok(()) => {},
        Err(e) => {
            return (flags, false, Err(e));
        },
    }
    let j = match find_country(countries, owner) {
        Some(j) => j,
        None => {
            return (flags, true, Err(inconsistent("Couldn't find country in query")));
        },
    };
    assert(first_of(countries@, owner, j as int));
    let player = match countries[j].player_type {
        PlayerType::Player => true,
        PlayerType::Bot => false,
    };
    (flags, true, Ok(CountryTabUpdate::Show(CountryTab { owner, gold: countries[j].treasury.gold, player })))
}

/// The enemies whose flags fill the `slots` slots for the selected tile's
/// owner, and whether there was anything to update: nothing when nothing is
/// selected or the tile has no owner, `Ok(true)` when every flag was set (the
/// slots past them then hide). Fails as `enemy_flags` does, with the flags
/// before the failure set.
pub fn update_war_flags(
    map: &HexMap,
    war_lists: &AtWarLists,
    countries: &Vec<CountryState>,
    selected: &SelectedHex,
    slots: usize,
) -> (r: (Vec<CountryId>, Result<bool, MyErrors>))
    requires
        map.wf(),
        war_lists.wf(),
    ensures
        r.1 matches Err(e) ==> e is InconsistentData,
        match selected.hex {
            None => r.0@.len() == 0 && r.1 matches Ok(false),
            Some(h) => if !map.hex_owners@.contains_key(h) {
                r.0@.len() == 0 && r.1 matches Ok(false)
            } else {
                let o = map.hex_owners@[h];
                &&& flags_set(war_lists@, countries@, o, slots, r.0@, r.1 is Ok)
                &&& r.1 is Ok ==> r.1 matches Ok(true)
            },
        },
{
    let clicked_hex = match selected.hex {
        Some(h) => h,
        None => {
            return (Vec::new(), Ok(false));
        },
    };
    let owner = match map.hex_owners.get(&clicked_hex) {
        Some(o) => o,
        None => {
            return (Vec::new(), Ok(false));
        },
    };
    let (flags, done) = enemy_flags(war_lists, countries, owner, slots);
    match done {
        Ok(()) => (flags, Ok(true)),
        Err(e) => (flags, Err(e)),
    }
}

/// The army panel for the selected tile: its army's soldiers and move
/// points left, or nothing (the panel hides).
pub fn update_army_tab(selected: &SelectedHex, map: &HexMap) -> (r: Option<(i32, i32)>)
    requires
        map.wf(),
    ensures
        match selected.hex {
            None => r is None,
            Some(h) => if map.armies@.contains_key(h) {
                r == Some((map.armies@[h].number_of_soldiers, map.armies@[h].move_points_left))
            } else {
                r is None
            },
        },
{
    let h = match selected.hex {
        Some(h) => h,
        None => {
            return None;
        },
    };
    match map.armies.get(&h) {
        Some(army) => Some((army.number_of_soldiers, army.move_points_left)),
        None => None,
    }
}

/// `j` is the first country among `countries` that a person plays.
pub open spec fn first_player(countries: Seq<CountryState>, j: int) -> bool {
    &&& 0 <= j < countries.len()
    &&& countries[j].player_type == PlayerType::Player
    &&& forall|k: int| 0 <= k < j ==> countries[k].player_type == PlayerType::Bot
}

/// No country is played by a person.
pub open spec fn no_player(countries: Seq<CountryState>) -> bool {
    forall|k: int| 0 <= k < countries.len() ==> #[trigger] countries[k].player_type == PlayerType::Bot
}

/// Position of the first country that a person plays.
fn find_player(countries: &Vec<CountryState>) -> (r: Option<usize>)
    ensures
        r is None <==> no_player(countries@),
        r matches Some(j) ==> first_player(countries@, j as int),
{
    let n = countries.len();
    let mut i: usize = 0;
    while i < n
        invariant
            n == countries@.len(),
            i <= n,
            forall|k: int| 0 <= k < i ==> #[trigger] countries@[k].player_type == PlayerType::Bot,
        decreases n - i,
    {
        match countries[i].player_type {
            PlayerType::Player => {
                return Some(i);
            },
            PlayerType::Bot => {},
        }
        i = i + 1;
    }
    None
}

/// The first country that a person plays declares war on `owner`. Fails,
/// changing nothing, when no country is played by a person.
pub fn start_war_button_click(owner: CountryId, countries: &Vec<CountryState>, countries_wars: &mut AtWarLists) -> (r:
    Result<(), MyErrors>)
    requires
        old(countries_wars).wf(),
    ensures
        final(countries_wars).wf(),
        r is Err <==> no_player(countries@),
        r matches Err(e) ==> e is InconsistentData && final(countries_wars)@ == old(countries_wars)@,
        r is Ok ==> exists|j: int| #[trigger] first_player(countries@, j) && final(countries_wars)@ == spec_start_war(
            old(countries_wars)@,
            countries@[j].entity,
            owner,
        ),
{
    match find_player(countries) {
        Some(j) => {
            start_war(countries[j].entity, owner, countries_wars);
            assert(first_player(countries@, j as int));
            Ok(())
        },
        None => Err(inconsistent("Player is declaring war but there is no player entity")),
    }
}

/// The "declare war" button: the player declares war on the owner of the
/// selected tile. Fails, changing nothing, when nothing is selected, the
/// tile has no owner or no country is played by a person.
pub fn declare_war_on_selected(
    selected: &SelectedHex,
    map: &HexMap,
    countries: &Vec<CountryState>,
    countries_wars: &mut AtWarLists,
) -> (r: Result<(), MyErrors>)
    requires
        map.wf(),
        old(countries_wars).wf(),
    ensures
        final(countries_wars).wf(),
        r matches Err(e) ==> e is InconsistentData && final(countries_wars)@ == old(countries_wars)@,
        r is Ok <==> (selected.hex matches Some(h) && map.hex_owners@.contains_key(h)) && !no_player(countries@),
        r is Ok ==> exists|j: int| #[trigger] first_player(countries@, j) && final(countries_wars)@ == spec_start_war(
            old(countries_wars)@,
            countries@[j].entity,
            map.hex_owners@[selected.hex.unwrap()],
        ),
{
    let h = match selected.hex {
        Some(h) => h,
        None => {
            return Err(inconsistent("Managed to start war without selected hex"));
        },
    };
    let owner = match map.hex_owners.get(&h) {
        Some(o) => o,
        None => {
            return Err(inconsistent("Declaring war to unowned hex"));
        },
    };
    start_war_button_click(owner, countries, countries_wars)
}

/// The first country that a person plays offers peace to `owner`: it is
/// added at the end of the peace proposals of `owner`'s first entry. Fails,
/// changing nothing, when no country is played by a person or `owner` is not
/// a known country.
pub fn try_to_make_peace_button_click(countries: &mut Vec<CountryState>, owner: CountryId) -> (r: Result<
    (),
    MyErrors,
>)
    ensures
        r is Err <==> no_player(old(countries)@) || !is_country(old(countries)@, owner),
        r matches Err(e) ==> e is InconsistentData && final(countries)@ == old(countries)@,
        r is Ok ==> exists|p: int, j: int|
            #[trigger] first_player(old(countries)@, p) && #[trigger] first_of(old(countries)@, owner, j) && {
                &&& final(countries)@.len() == old(countries)@.len()
                &&& forall|k: int| 0 <= k < old(countries)@.len() && k != j ==> #[trigger] final(countries)@[k]
                    == old(countries)@[k]
                &&& final(countries)@[j].entity == old(countries)@[j].entity
                &&& final(countries)@[j].player_type == old(countries)@[j].player_type
                &&& final(countries)@[j].treasury == old(countries)@[j].treasury
                &&& final(countries)@[j].proposals.senders@ == old(countries)@[j].proposals.senders@.push(
                    old(countries)@[p].entity,
                )
            },
{
    let p = match find_player(countries) {
        Some(p) => p,
        None => {
            return Err(inconsistent("Player is proposing peace but there is no player entity"));
        },
    };
    let j = match find_country(countries, owner) {
        Some(j) => j,
        None => {
            return Err(inconsistent("Couldn't get peace proposals list"));
        },
    };
    let player = countries[p].entity;
    let mut senders = copy_ids(&countries[j].proposals.senders);
    senders.push(player);
    countries[j].proposals = PeaceProposals { senders };
    assert(first_player(old(countries)@, p as int));
    assert(first_of(old(countries)@, owner, j as int));
    Ok(())
}

/// The "propose peace" button: the player offers peace to the owner of the
/// selected tile. Fails, changing nothing, when nothing is selected, the
/// tile has no owner, or as `try_to_make_peace_button_click` does.
pub fn propose_peace_to_selected(selected: &SelectedHex, map: &HexMap, countries: &mut Vec<CountryState>) -> (r:
    Result<(), MyErrors>)
    requires
        map.wf(),
    ensures
        r matches Err(e) ==> e is InconsistentData && final(countries)@ == old(countries)@,
        r is Ok <==> (selected.hex matches Some(h) && map.hex_owners@.contains_key(h)) && !no_player(
            old(countries)@,
        ) && is_country(old(countries)@, map.hex_owners@[selected.hex.unwrap()]),
        r is Ok ==> exists|p: int, j: int|
            #[trigger] first_player(old(countries)@, p) && #[trigger] first_of(
                old(countries)@,
                map.hex_owners@[selected.hex.unwrap()],
                j,
            ) && {
                &&& final(countries)@.len() == old(countries)@.len()
                &&& forall|k: int| 0 <= k < old(countries)@.len() && k != j ==> #[trigger] final(countries)@[k]
                    == old(countries)@[k]
                &&& final(countries)@[j].entity == old(countries)@[j].entity
                &&& final(countries)@[j].player_type == old(countries)@[j].player_type
                &&& final(countries)@[j].treasury == old(countries)@[j].treasury
                &&& final(countries)@[j].proposals.senders@ == old(countries)@[j].proposals.senders@.push(
                    old(countries)@[p].entity,
                )
            },
{
    let h = match selected.hex {
        Some(h) => h,
        None => {
            return Err(inconsistent("Proposing peace with no selected hex"));
        },
    };
    let owner = match map.hex_owners.get(&h) {
        Some(o) => o,
        None => {
            return Err(inconsistent("Proposing peace to unowned"));
        },
    };
    try_to_make_peace_button_click(countries, owner)
}

/// The flag shown before `id` among the three countries, going round.
pub fn left_arrow_choice(choice: &mut CountryChoice)
    ensures
        final(choice).id == (if old(choice).id == 0 {
            2
        } else {
            old(choice).id - 1
        }),
        old(choice).id < 3 ==> final(choice).id < 3,
{
    if choice.id == 0 {
        choice.id = 2;
    } else {
        choice.id = choice.id - 1;
    }
}

/// The flag shown after `id` among the three countries, going round.
pub fn right_arrow_choice(choice: &mut CountryChoice)
    requires
        old(choice).id < usize::MAX,
    ensures
        final(choice).id == (old(choice).id + 1) % 3,
        final(choice).id < 3,
{
    choice.id = (choice.id + 1) % 3;
}

/// The "build market" button: the owner of the selected tile builds a
/// market there as `build_market_bot` does, paying from the treasury of its
/// first entry among `countries`; nothing happens on an occupied tile.
/// Returns the slot the market went into. Fails, changing nothing, when
/// nothing is selected, the tile has no owner, the owner is not a known
/// country, or as `build_market_bot` fails.
pub fn build_market(
    selected: &SelectedHex,
    map: &mut HexMap,
    countries: &mut Vec<CountryState>,
    occupied: &Occupied,
) -> (r: Result<Option<usize>, MyErrors>)
    requires
        old(map).wf(),
        occupied.wf(),
    ensures
        final(map).wf(),
        final(map).political == old(map).political,
        final(map).hex_owners == old(map).hex_owners,
        final(map).armies == old(map).armies,
        final(countries)@.len() == old(countries)@.len(),
        r matches Err(e) ==> e is InconsistentData,
        r is Err ==> final(map).entities@ == old(map).entities@ && final(countries)@ == old(countries)@,
        match selected.hex {
            None => r is Err,
            Some(h) => if occupied.map@.contains_key(h) {
                r matches Ok(None) && final(map).entities@ == old(map).entities@ && final(countries)@ == old(countries)@
            } else if !old(map).hex_owners@.contains_key(h) || !is_country(old(countries)@, old(map).hex_owners@[h]) {
                r is Err
            } else {
                exists|j: int| #[trigger] first_of(old(countries)@, old(map).hex_owners@[h], j) && {
                    let t0 = old(countries)@[j].treasury;
                    &&& r is Err <==> !old(map).entities@.contains_key(h) || (t0.gold >= PRICE
                        && old(map).entities@[h].buildings is Empty)
                    &&& forall|k: int| 0 <= k < old(countries)@.len() && k != j ==> #[trigger] final(countries)@[k]
                        == old(countries)@[k]
                    &&& final(countries)@[j].entity == old(countries)@[j].entity
                    &&& final(countries)@[j].player_type == old(countries)@[j].player_type
                    &&& final(countries)@[j].proposals == old(countries)@[j].proposals
                    &&& final(countries)@[j].treasury.base_income == t0.base_income
                    &&& r matches Ok(Some(slot)) ==> {
                        let tile = old(map).entities@[h];
                        &&& t0.gold >= PRICE
                        &&& place_market(tile.buildings) matches Some((b, i)) && i == slot
                            && final(map).entities@ == old(map).entities@.insert(
                            h,
                            Tile { terrain: tile.terrain, buildings: b },
                        )
                        &&& final(countries)@[j].treasury.gold == t0.gold - PRICE
                    }
                    &&& r matches Ok(None) ==> {
                        &&& final(map).entities@ == old(map).entities@
                        &&& final(countries)@[j].treasury.gold == t0.gold
                        &&& t0.gold < PRICE || place_market(old(map).entities@[h].buildings) is None
                    }
                }
            },
        },
{
    let hex = match selected.hex {
        Some(h) => h,
        None => {
            return Err(inconsistent("No selected hex but building a market"));
        },
    };
    if occupied.map.contains_key(&hex) {
        return Ok(None);
    }
    let owner = match map.hex_owners.get(&hex) {
        Some(o) => o,
        None => {
            return Err(inconsistent("Couldn't find hex owner"));
        },
    };
    let j = match find_country(countries, owner) {
        Some(j) => j,
        None => {
            return Err(inconsistent("Couldn't find a treasury in query"));
        },
    };
    assert(first_of(old(countries)@, owner, j as int));
    let mut treasury = countries[j].treasury;
    let r = build_market_bot(map, &hex, &mut treasury);
    match r {
        Ok(slot) => {
            set_treasury(countries, j, treasury);
            Ok(slot)
        },
        Err(e) => Err(e),
    }
}

/// How the in-game menu is shown.
#[derive(Clone, Copy, PartialEq, Eq, Structural, Debug)]
pub enum MenuVisibility {
    Inherited,
    Hidden,
    Visible,
}

/// The menu's visibility after Escape: a shown menu hides, a hidden one
/// shows.
pub fn go_to_game_menu_system(v: MenuVisibility) -> (r: MenuVisibility)
    ensures
        r == (match v {
            MenuVisibility::Hidden => MenuVisibility::Visible,
            _ => MenuVisibility::Hidden,
        }),
{
    match v {
        MenuVisibility::Inherited => MenuVisibility::Hidden,
        MenuVisibility::Hidden => MenuVisibility::Visible,
        MenuVisibility::Visible => MenuVisibility::Hidden,
    }
}

/// What the save message window does this frame.
pub enum SaveWindowUpdate {
    /// Show this text, restarting the timer.
    Show(String),
    /// Hide the window.
    Hide,
    /// Leave it as it is.
    Keep,
}

/// A message from the saving task is shown (and taken, so it shows once);
/// without one, the window hides once its timer has run out.
pub fn change_message(message: &mut Option<String>, timer_finished: bool) -> (r: SaveWindowUpdate)
    ensures
        match *old(message) {
            Some(text) => (r matches SaveWindowUpdate::Show(t) && t@ == text@) && *final(message) is None,
            None => *final(message) is None && (if timer_finished {
                r is Hide
            } else {
                r is Keep
            }),
        },
{
    match message.take() {
        Some(text) => SaveWindowUpdate::Show(text),
        None => {
            if timer_finished {
                SaveWindowUpdate::Hide
            } else {
                SaveWindowUpdate::Keep
            }
        },
    }
}

} // verus!
