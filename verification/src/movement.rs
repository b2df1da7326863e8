use vstd::prelude::*;
use crate::army::{Army, battle_fits, battle_result, min};
use crate::errors::{MyErrors, inconsistent};
use crate::hex::{Hex, all_neighbors, coords_ok, neighbors_of};
use crate::map::{CountryId, HexMap, TerrainType, armies_on_own_land};
use crate::political::{Occupied, occupation_consistent};
use crate::util::vec_contains;

verus! {

/// The hexes that the player may move the selected army to.
pub struct PossibleMoves {
    pub moves: Vec<Hex>,
}

/// A country's army may step onto `n`: it is not water, and it is unowned,
/// the country's own, or owned by one of its enemies.
pub open spec fn move_allowed(
    map: &HexMap,
    owner: CountryId,
    enemies: Seq<CountryId>,
    n: Hex,
) -> bool {
    &&& !(map.entities@.contains_key(n) && map.entities@[n].terrain == TerrainType::Water)
    &&& !(map.hex_owners@.contains_key(n) && map.hex_owners@[n] != owner && !enemies.contains(
        map.hex_owners@[n],
    ))
}

/// The members of `s` onto which a move is allowed, in order.
pub open spec fn allowed_moves(
    map: &HexMap,
    owner: CountryId,
    enemies: Seq<CountryId>,
    s: Seq<Hex>,
) -> Seq<Hex>
    decreases s.len(),
{
    if s.len() == 0 {
        Seq::empty()
    } else {
        let r = allowed_moves(map, owner, enemies, s.drop_last());
        if move_allowed(map, owner, enemies, s.last()) {
            r.push(s.last())
        } else {
            r
        }
    }
}

/// `x` stands before `y` in `s`.
pub open spec fn comes_before(s: Seq<Hex>, x: Hex, y: Hex) -> bool {
    exists|p: int, q: int| 0 <= p < q < s.len() && s[p] == x && s[q] == y
}

/// Which tiles of `s` a move of `owner`'s army is offered onto, whatever the
/// board: exactly the tiles of `s` that are not water and are unowned, owned
/// by `owner`, or owned by one of `enemies`; they come in the order of `s`.
pub proof fn lemma_allowed_moves_members(map: &HexMap, owner: CountryId, enemies: Seq<CountryId>, s: Seq<Hex>)
    ensures
        forall|n: Hex|
            #[trigger] allowed_moves(map, owner, enemies, s).contains(n) <==> s.contains(n) && !(
            map.entities@.contains_key(n) && map.entities@[n].terrain == TerrainType::Water) && (
            !map.hex_owners@.contains_key(n) || map.hex_owners@[n] == owner || enemies.contains(
                map.hex_owners@[n],
            )),
        forall|i: int, j: int|
            #![trigger allowed_moves(map, owner, enemies, s)[i], allowed_moves(map, owner, enemies, s)[j]]
            0 <= i < j < allowed_moves(map, owner, enemies, s).len() ==> comes_before(
                s,
                allowed_moves(map, owner, enemies, s)[i],
                allowed_moves(map, owner, enemies, s)[j],
            ),
    decreases s.len(),
{
    if s.len() > 0 {
        let pre = s.drop_last();
        lemma_allowed_moves_members(map, owner, enemies, pre);
        let r0 = allowed_moves(map, owner, enemies, pre);
        let r = allowed_moves(map, owner, enemies, s);
        assert forall|n: Hex| #[trigger] r.contains(n) <==> s.contains(n) && !(map.entities@.contains_key(n)
            && map.entities@[n].terrain == TerrainType::Water) && (!map.hex_owners@.contains_key(n)
            || map.hex_owners@[n] == owner || enemies.contains(map.hex_owners@[n])) by {
            if r.contains(n) {
                let k = choose|k: int| 0 <= k < r.len() && r[k] == n;
                if k < r0.len() {
                    assert(r0[k] == n);
                    assert(r0.contains(n));
                    let m = choose|m: int| 0 <= m < pre.len() && pre[m] == n;
                    assert(s[m] == n);
                } else {
                    assert(s[s.len() - 1] == n);
                }
            }
            if s.contains(n) && move_allowed(map, owner, enemies, n) {
                let m = choose|m: int| 0 <= m < s.len() && s[m] == n;
                if m < s.len() - 1 {
                    assert(pre[m] == n);
                    assert(r0.contains(n));
                    let k = choose|k: int| 0 <= k < r0.len() && r0[k] == n;
                    assert(r[k] == n);
                } else {
                    assert(r[r.len() - 1] == n);
                }
            }
        }
        assert forall|i: int, j: int| #![trigger r[i], r[j]] 0 <= i < j < r.len() implies comes_before(s, r[i], r[j]) by {
            if j < r0.len() {
                assert(r[i] == r0[i] && r[j] == r0[j]);
                assert(comes_before(pre, r0[i], r0[j]));
                let (p, q) = choose|p: int, q: int| 0 <= p < q < pre.len() && pre[p] == r0[i] && pre[q] == r0[j];
                assert(s[p] == r[i] && s[q] == r[j]);
            } else {
                assert(r[i] == r0[i]);
                assert(r0.contains(r0[i]));
                let p = choose|p: int| 0 <= p < pre.len() && pre[p] == r0[i];
                assert(s[p] == r[i] && s[s.len() - 1] == r[j]);
            }
        }
    }
}

/// The neighbours of `selected_hex` that an army of `owner` with move points
/// left may step onto, in hexx's neighbour order; none when it has no move
/// points left.
pub fn possible_moves_vec(
    army: &Army,
    selected_hex: Hex,
    map: &HexMap,
    owner: &CountryId,
    enemies: &Vec<CountryId>,
) -> (r: Vec<Hex>)
    requires
        map.wf(),
        coords_ok(selected_hex),
    ensures
        army.move_points_left > 0 ==> r@ == allowed_moves(
            map,
            *owner,
            enemies@,
            neighbors_of(selected_hex),
        ),
        army.move_points_left <= 0 ==> r@.len() == 0,
        army.move_points_left > 0 ==> forall|n: Hex|
            #[trigger] r@.contains(n) <==> neighbors_of(selected_hex).contains(n) && !(map.entities@.contains_key(n)
                && map.entities@[n].terrain == TerrainType::Water) && (!map.hex_owners@.contains_key(n)
                || map.hex_owners@[n] == *owner || enemies@.contains(map.hex_owners@[n])),
        forall|i: int, j: int|
            #![trigger r@[i], r@[j]]
            0 <= i < j < r@.len() ==> comes_before(neighbors_of(selected_hex), r@[i], r@[j]),
{
    proof {
        lemma_allowed_moves_members(map, *owner, enemies@, neighbors_of(selected_hex));
    }
    let mut posible: Vec<Hex> = Vec::new();
    if army.move_points_left > 0 {
        let nb = all_neighbors(selected_hex);
        let mut i: usize = 0;
        while i < 6
            invariant
                map.wf(),
                nb@ == neighbors_of(selected_hex),
                i <= 6,
                posible@ == allowed_moves(map, *owner, enemies@, nb@.take(i as int)),
            decreases 6 - i,
        {
            let neighbour = nb[i];
            assert(nb@.take(i + 1).drop_last() =~= nb@.take(i as int));
            assert(nb@.take(i + 1).last() == neighbour);
            let mut skip = false;
            if let Some(tile) = map.entities.get(&neighbour) {
                if let TerrainType::Water = tile.terrain {
                    skip = true;
                }
            }
            if !skip {
                if let Some(neigh_owner) = map.hex_owners.get(&neighbour) {
                    if neigh_owner != *owner && !vec_contains(enemies, neigh_owner) {
                        skip = true;
                    }
                }
            }
            if !skip {
                posible.push(neighbour);
            }
            i = i + 1;
        }
        assert(nb@.take(6) =~= nb@);
    }
    posible
}

/// The boards and occupation after an army moves, and whether the move was
/// consistent: `(armies, owners, occupied, ok)`.
///
/// Only the mover's own army moves, spending one move point. On an unowned
/// tile it claims the tile. On a tile without an army it claims the tile,
/// frees it if it was taken from the mover, and marks it occupied if it was
/// someone else's. It joins an army of its own country; against another
/// country's army the larger side wins and keeps the difference, taking the
/// tile if it was not already the owner; equal armies leave the defender.
pub open spec fn move_outcome(
    armies: Map<Hex, Army>,
    owners: Map<Hex, CountryId>,
    occ: Map<Hex, CountryId>,
    old_pos: Hex,
    new_pos: Hex,
    player: CountryId,
) -> (Map<Hex, Army>, Map<Hex, CountryId>, Map<Hex, CountryId>, bool) {
    if !armies.contains_key(old_pos) || armies[old_pos].owner != player {
        (armies, owners, occ, true)
    } else {
        let a = Army { move_points_left: (armies[old_pos].move_points_left - 1) as i32, ..armies[old_pos] };
        let rest = armies.remove(old_pos);
        if !owners.contains_key(new_pos) {
            if !rest.contains_key(new_pos) {
                (rest.insert(new_pos, a), owners.insert(new_pos, a.owner), occ, true)
            } else {
                (rest, owners, occ, false)
            }
        } else {
            let owner = owners[new_pos];
            if !rest.contains_key(new_pos) {
                let occ2 = if occ.contains_key(new_pos) {
                    if occ[new_pos] == a.owner {
                        occ.remove(new_pos)
                    } else {
                        occ
                    }
                } else if owner != a.owner {
                    occ.insert(new_pos, owner)
                } else {
                    occ
                };
                (rest.insert(new_pos, a), owners.insert(new_pos, a.owner), occ2, true)
            } else {
                let d = rest[new_pos];
                if a.owner == d.owner {
                    let merged = Army {
                        number_of_soldiers: (d.number_of_soldiers + a.number_of_soldiers) as i32,
                        move_points_left: min(
                            d.move_points_left as int,
                            a.move_points_left as int,
                        ) as i32,
                        ..d
                    };
                    (rest.insert(new_pos, merged), owners, occ, true)
                } else {
                    match battle_result(a, d) {
                        None => (rest, owners, occ, true),
                        Some(w) => {
                            if owner != w.owner {
                                let occ2 = if !occ.contains_key(new_pos) {
                                    occ.insert(new_pos, owner)
                                } else if occ[new_pos] == w.owner {
                                    occ.remove(new_pos)
                                } else {
                                    occ
                                };
                                (rest.insert(new_pos, w), owners.insert(new_pos, w.owner), occ2, true)
                            } else {
                                (rest.insert(new_pos, w), owners, occ, true)
                            }
                        },
                    }
                }
            }
        }
    }
}

/// The arithmetic that a move by `player` makes fits in `i32`. Only a move
/// of `player`'s own army computes anything: the move point it spends, then
/// the sum of soldiers when it joins an army of its own country on the
/// target, or their differences when it fights another country's army there.
pub open spec fn move_fits(armies: Map<Hex, Army>, old_pos: Hex, new_pos: Hex, player: CountryId) -> bool {
    armies.contains_key(old_pos) && armies[old_pos].owner == player ==> {
        &&& armies[old_pos].move_points_left > i32::MIN
        &&& (old_pos != new_pos && armies.contains_key(new_pos)) ==> if armies[new_pos].owner == player {
            i32::MIN <= armies[new_pos].number_of_soldiers + armies[old_pos].number_of_soldiers <= i32::MAX
        } else {
            battle_fits(armies[old_pos], armies[new_pos])
        }
    }
}

/// Moves the army on `old_pos` to `new_pos` for `moving_player`; the army of
/// another country is left where it is.
pub fn move_army(
    old_pos: &Hex,
    new_pos: &Hex,
    map: &mut HexMap,
    occupied: &mut Occupied,
    moving_player: CountryId,
) -> (r: Result<(), MyErrors>)
    requires
        old(map).wf(),
        old(occupied).wf(),
        move_fits(old(map).armies@, *old_pos, *new_pos, moving_player),
    ensures
        final(map).wf(),
        final(occupied).wf(),
        final(map).political == old(map).political,
        final(map).entities == old(map).entities,
        ({
            let o = move_outcome(
                old(map).armies@,
                old(map).hex_owners@,
                old(occupied).map@,
                *old_pos,
                *new_pos,
                moving_player,
            );
            &&& final(map).armies@ == o.0
            &&& final(map).hex_owners@ == o.1
            &&& final(occupied).map@ == o.2
            &&& r is Ok <==> o.3
        }),
{
    let owner_of_new = map.hex_owners.get(new_pos);
    let army_peek = match map.armies.get(old_pos) {
        Some(a) => a,
        None => {
            return Ok(());
        },
    };
    if moving_player != army_peek.owner {
        return Ok(());
    }
    let mut army_old = match map.armies.remove(old_pos) {
        Some(a) => a,
        None => {
            return Ok(());
        },
    };
    army_old.move_points_left = army_old.move_points_left - 1;
    move_army_match(map, owner_of_new, new_pos, occupied, army_old)
}

fn move_army_match(
    map: &mut HexMap,
    owner_of_new: Option<CountryId>,
    new_pos: &Hex,
    occupied: &mut Occupied,
    army_old: Army,
) -> (r: Result<(), MyErrors>)
    requires
        old(map).wf(),
        old(occupied).wf(),
        owner_of_new == (if old(map).hex_owners@.contains_key(*new_pos) {
            Some(old(map).hex_owners@[*new_pos])
        } else {
            None::<CountryId>
        }),
        old(map).armies@.contains_key(*new_pos) ==> if old(map).armies@[*new_pos].owner == army_old.owner {
            i32::MIN <= old(map).armies@[*new_pos].number_of_soldiers + army_old.number_of_soldiers
                <= i32::MAX
        } else {
            battle_fits(army_old, old(map).armies@[*new_pos])
        },
    ensures
        final(map).wf(),
        final(occupied).wf(),
        final(map).political == old(map).political,
        final(map).entities == old(map).entities,
        ({
            let a = army_old;
            let rest = old(map).armies@;
            let owners = old(map).hex_owners@;
            let occ = old(occupied).map@;
            if !owners.contains_key(*new_pos) {
                if !rest.contains_key(*new_pos) {
                    final(map).armies@ == rest.insert(*new_pos, a) && final(map).hex_owners@
                        == owners.insert(*new_pos, a.owner) && final(occupied).map@ == occ
                        && r is Ok
                } else {
                    final(map).armies@ == rest && final(map).hex_owners@ == owners
                        && final(occupied).map@ == occ && r is Err
                }
            } else {
                let owner = owners[*new_pos];
                if !rest.contains_key(*new_pos) {
                    let occ2 = if occ.contains_key(*new_pos) {
                        if occ[*new_pos] == a.owner {
                            occ.remove(*new_pos)
                        } else {
                            occ
                        }
                    } else if owner != a.owner {
                        occ.insert(*new_pos, owner)
                    } else {
                        occ
                    };
                    final(map).armies@ == rest.insert(*new_pos, a) && final(map).hex_owners@
                        == owners.insert(*new_pos, a.owner) && final(occupied).map@ == occ2
                        && r is Ok
                } else {
                    let d = rest[*new_pos];
                    if a.owner == d.owner {
                        let merged = Army {
                            number_of_soldiers: (d.number_of_soldiers
                                + a.number_of_soldiers) as i32,
                            move_points_left: min(
                                d.move_points_left as int,
                                a.move_points_left as int,
                            ) as i32,
                            ..d
                        };
                        final(map).armies@ == rest.insert(*new_pos, merged)
                            && final(map).hex_owners@ == owners && final(occupied).map@ == occ
                            && r is Ok
                    } else {
                        match battle_result(a, d) {
                            None => final(map).armies@ == rest && final(map).hex_owners@ == owners
                                && final(occupied).map@ == occ && r is Ok,
                            Some(w) => {
                                if owner != w.owner {
                                    let occ2 = if !occ.contains_key(*new_pos) {
                                        occ.insert(*new_pos, owner)
                                    } else if occ[*new_pos] == w.owner {
                                        occ.remove(*new_pos)
                                    } else {
                                        occ
                                    };
                                    final(map).armies@ == rest.insert(*new_pos, w)
                                        && final(map).hex_owners@ == owners.insert(
                                        *new_pos,
                                        w.owner,
                                    ) && final(occupied).map@ == occ2 && r is Ok
                                } else {
                                    final(map).armies@ == rest.insert(*new_pos, w)
                                        && final(map).hex_owners@ == owners
                                        && final(occupied).map@ == occ && r is Ok
                                }
                            },
                        }
                    }
                }
            }
        }),
{
    let new_army_opt = map.armies.get(new_pos);
    match (owner_of_new, new_army_opt) {
        (None, None) => {
            map.hex_owners.insert(*new_pos, army_old.owner);
            map.armies.insert(*new_pos, army_old);
        },
        (None, Some(_)) => {
            return Err(inconsistent("Army on unowned Hex"));
        },
        (Some(owner), None) => {
            some_owner_no_army(map, army_old, new_pos, owner, occupied);
        },
        (Some(owner), Some(new_army)) => {
            if army_old.owner == new_army.owner {
                let mut merged = new_army;
                merged.merge_with_other(army_old);
                map.armies.insert(*new_pos, merged);
            } else if let Some(winner) = Army::battle(&army_old, &new_army) {
                let winner_owner = winner.owner;
                map.armies.insert(*new_pos, winner);
                if owner != winner_owner {
                    map.hex_owners.insert(*new_pos, winner_owner);
                    if !occupied.map.contains_key(new_pos) {
                        occupied.map.insert(*new_pos, owner);
                    } else if let Some(who) = occupied.map.get(new_pos) {
                        if who == winner_owner {
                            occupied.map.remove(new_pos);
                        }
                    }
                }
            }
        },
    }
    Ok(())
}

fn some_owner_no_army(
    map: &mut HexMap,
    army_old: Army,
    new_pos: &Hex,
    owner: CountryId,
    occupied: &mut Occupied,
)
    requires
        old(map).wf(),
        old(occupied).wf(),
    ensures
        final(map).wf(),
        final(occupied).wf(),
        final(map).political == old(map).political,
        final(map).entities == old(map).entities,
        final(map).armies@ == old(map).armies@.insert(*new_pos, army_old),
        final(map).hex_owners@ == old(map).hex_owners@.insert(*new_pos, army_old.owner),
        final(occupied).map@ == (if old(occupied).map@.contains_key(*new_pos) {
            if old(occupied).map@[*new_pos] == army_old.owner {
                old(occupied).map@.remove(*new_pos)
            } else {
                old(occupied).map@
            }
        } else if owner != army_old.owner {
            old(occupied).map@.insert(*new_pos, owner)
        } else {
            old(occupied).map@
        }),
{
    let army_old_owner = army_old.owner;
    map.hex_owners.insert(*new_pos, army_old.owner);
    map.armies.insert(*new_pos, army_old);
    if occupied.map.contains_key(new_pos) {
        if let Some(who) = occupied.map.get(new_pos) {
            if who == army_old_owner {
                occupied.map.remove(new_pos);
            }
        }
    } else if owner != army_old_owner {
        occupied.map.insert(*new_pos, owner);
    }
}

} // verus!

verus! {

/// A move never breaks the rule that armies stand on their own country's
/// land, and under that rule a move is always consistent (it never finds an
/// army on an unowned tile).
pub proof fn lemma_move_keeps_armies_on_own_land(
    armies: Map<Hex, Army>,
    owners: Map<Hex, CountryId>,
    occ: Map<Hex, CountryId>,
    old_pos: Hex,
    new_pos: Hex,
    player: CountryId,
)
    requires
        armies_on_own_land(armies, owners),
    ensures
        ({
            let o = move_outcome(armies, owners, occ, old_pos, new_pos, player);
            o.3 && armies_on_own_land(o.0, o.1)
        }),
{
    let o = move_outcome(armies, owners, occ, old_pos, new_pos, player);
    if armies.contains_key(old_pos) && armies[old_pos].owner == player {
        let rest = armies.remove(old_pos);
        if rest.contains_key(new_pos) {
            assert(armies.contains_key(new_pos));
        }
        assert forall|h: Hex| #[trigger] o.0.contains_key(h) implies o.1.contains_key(h) && o.1[h]
            == o.0[h].owner by {
            if h != new_pos {
                assert(armies.contains_key(h));
            } else {
                assert(armies.contains_key(new_pos) ==> owners.contains_key(new_pos));
            }
        }
    }
}

/// A move never breaks the rule that an occupied tile has an owner other
/// than the country it was taken from.
pub proof fn lemma_move_keeps_occupation_consistent(
    armies: Map<Hex, Army>,
    owners: Map<Hex, CountryId>,
    occ: Map<Hex, CountryId>,
    old_pos: Hex,
    new_pos: Hex,
    player: CountryId,
)
    requires
        armies_on_own_land(armies, owners),
        occupation_consistent(owners, occ),
    ensures
        ({
            let o = move_outcome(armies, owners, occ, old_pos, new_pos, player);
            occupation_consistent(o.1, o.2)
        }),
{
    let o = move_outcome(armies, owners, occ, old_pos, new_pos, player);
    assert forall|h: Hex| #[trigger] o.2.contains_key(h) implies o.1.contains_key(h) && o.1[h]
        != o.2[h] by {
        if h != new_pos {
            assert(occ.contains_key(h));
        } else if occ.contains_key(new_pos) {
            assert(owners.contains_key(new_pos));
        }
    }
}

} // verus!

verus! {

/// A move by `player` under the rule that armies stand on their own land
/// never takes a tile away from `player`.
pub proof fn lemma_move_keeps_my_land(
    armies: Map<Hex, Army>,
    owners: Map<Hex, CountryId>,
    occ: Map<Hex, CountryId>,
    old_pos: Hex,
    new_pos: Hex,
    player: CountryId,
)
    requires
        armies_on_own_land(armies, owners),
    ensures
        ({
            let o = move_outcome(armies, owners, occ, old_pos, new_pos, player);
            forall|h: Hex|
                #[trigger] owners.contains_key(h) && owners[h] == player ==> o.1.contains_key(h)
                    && o.1[h] == player
        }),
{
    if armies.contains_key(old_pos) && armies[old_pos].owner == player {
        let rest = armies.remove(old_pos);
        if rest.contains_key(new_pos) {
            assert(armies.contains_key(new_pos));
        }
    }
}

/// The boards and occupation after `player` makes each move of `moves` in
/// turn.
pub open spec fn apply_moves(
    armies: Map<Hex, Army>,
    owners: Map<Hex, CountryId>,
    occ: Map<Hex, CountryId>,
    moves: Seq<(Hex, Hex)>,
    player: CountryId,
) -> (Map<Hex, Army>, Map<Hex, CountryId>, Map<Hex, CountryId>)
    decreases moves.len(),
{
    if moves.len() == 0 {
        (armies, owners, occ)
    } else {
        let prev = apply_moves(armies, owners, occ, moves.drop_last(), player);
        let o = move_outcome(prev.0, prev.1, prev.2, moves.last().0, moves.last().1, player);
        (o.0, o.1, o.2)
    }
}

/// Moves keep armies on their own land, occupation consistent, and the
/// mover's land its own.
pub proof fn lemma_apply_moves(
    armies: Map<Hex, Army>,
    owners: Map<Hex, CountryId>,
    occ: Map<Hex, CountryId>,
    moves: Seq<(Hex, Hex)>,
    player: CountryId,
)
    requires
        armies_on_own_land(armies, owners),
        occupation_consistent(owners, occ),
    ensures
        ({
            let r = apply_moves(armies, owners, occ, moves, player);
            &&& armies_on_own_land(r.0, r.1)
            &&& occupation_consistent(r.1, r.2)
            &&& forall|h: Hex|
                #[trigger] owners.contains_key(h) && owners[h] == player ==> r.1.contains_key(h)
                    && r.1[h] == player
        }),
    decreases moves.len(),
{
    if moves.len() > 0 {
        lemma_apply_moves(armies, owners, occ, moves.drop_last(), player);
        let prev = apply_moves(armies, owners, occ, moves.drop_last(), player);
        lemma_move_keeps_armies_on_own_land(prev.0, prev.1, prev.2, moves.last().0, moves.last().1, player);
        lemma_move_keeps_occupation_consistent(prev.0, prev.1, prev.2, moves.last().0, moves.last().1, player);
        lemma_move_keeps_my_land(prev.0, prev.1, prev.2, moves.last().0, moves.last().1, player);
    }
}

/// Whatever the board, a move takes no tile from its owner (it may give an
/// unowned tile one, or hand a tile to the winner of a battle), and it never
/// adds an army: the armies afterwards stand where armies stood before or on
/// the target, and there are at most as many as before.
pub proof fn lemma_move_keeps_owners_and_army_count(
    armies: Map<Hex, Army>,
    owners: Map<Hex, CountryId>,
    occ: Map<Hex, CountryId>,
    old_pos: Hex,
    new_pos: Hex,
    player: CountryId,
)
    ensures
        ({
            let o = move_outcome(armies, owners, occ, old_pos, new_pos, player);
            &&& forall|h: Hex| #[trigger] owners.contains_key(h) ==> o.1.contains_key(h)
            &&& forall|h: Hex| #[trigger] o.0.contains_key(h) ==> armies.contains_key(h) || h == new_pos
            &&& armies.dom().finite() ==> o.0.dom().finite() && o.0.dom().len() <= armies.dom().len()
        }),
{
    let o = move_outcome(armies, owners, occ, old_pos, new_pos, player);
    if armies.contains_key(old_pos) && armies[old_pos].owner == player && armies.dom().finite() {
        let rest = armies.remove(old_pos);
        assert(rest.dom() =~= armies.dom().remove(old_pos));
        assert(rest.dom().len() == armies.dom().len() - 1);
        if o.0.contains_key(new_pos) && !rest.contains_key(new_pos) {
            assert(o.0.dom() =~= rest.dom().insert(new_pos));
        } else if o.0.contains_key(new_pos) {
            assert(o.0.dom() =~= rest.dom());
        } else {
            assert(o.0.dom() =~= rest.dom());
        }
    }
}

/// An army of `player` moving onto a neighbouring tile held by another
/// country's army fights it: the larger side keeps the tile with as many
/// soldiers as it had more, keeping its own owner and move points (the
/// attacker having spent one on the move), and the tile goes to the
/// winner; between equal armies the attacker falls and the defender stays
/// as it was, and so do the owners. The attacker's old tile is left empty.
pub proof fn lemma_attack_outcome(
    armies: Map<Hex, Army>,
    owners: Map<Hex, CountryId>,
    occ: Map<Hex, CountryId>,
    old_pos: Hex,
    new_pos: Hex,
    player: CountryId,
)
    requires
        armies.contains_key(old_pos),
        armies[old_pos].owner == player,
        old_pos != new_pos,
        armies.contains_key(new_pos),
        armies[new_pos].owner != player,
        owners.contains_key(new_pos),
        battle_fits(armies[old_pos], armies[new_pos]),
    ensures
        ({
            let o = move_outcome(armies, owners, occ, old_pos, new_pos, player);
            let a = armies[old_pos];
            let d = armies[new_pos];
            &&& o.3
            &&& !o.0.contains_key(old_pos)
            &&& a.number_of_soldiers > d.number_of_soldiers ==> o.0[new_pos] == (Army {
                number_of_soldiers: (a.number_of_soldiers - d.number_of_soldiers) as i32,
                owner: player,
                move_points_left: (a.move_points_left - 1) as i32,
                move_points_max: a.move_points_max,
            }) && o.1[new_pos] == player
            &&& d.number_of_soldiers > a.number_of_soldiers ==> o.0[new_pos] == (Army {
                number_of_soldiers: (d.number_of_soldiers - a.number_of_soldiers) as i32,
                ..d
            }) && o.1[new_pos] == d.owner
            &&& a.number_of_soldiers == d.number_of_soldiers ==> o.0.contains_key(new_pos) && o.0[new_pos] == d
                && o.1 == owners
        }),
{
    let a1 = Army { move_points_left: (armies[old_pos].move_points_left - 1) as i32, ..armies[old_pos] };
    let rest = armies.remove(old_pos);
    assert(rest.contains_key(new_pos) && rest[new_pos] == armies[new_pos]);
    crate::army::lemma_battle_survivor(a1, armies[new_pos]);
    let o = move_outcome(armies, owners, occ, old_pos, new_pos, player);
    assert(!o.0.contains_key(old_pos));
}

/// An error for arithmetic that would overflow.
pub fn overflow_error() -> (e: MyErrors)
    ensures
        e matches MyErrors::Unexpected(s) && s@ == "arithmetic overflow"@,
{
    MyErrors::Unexpected("arithmetic overflow".to_owned())
}

/// Whether the arithmetic of a move by `player` fits in `i32` (see
/// `move_fits`).
pub fn check_move_fits(map: &HexMap, old_pos: &Hex, new_pos: &Hex, player: CountryId) -> (b: bool)
    requires
        map.wf(),
    ensures
        b == move_fits(map.armies@, *old_pos, *new_pos, player),
{
    match map.armies.get(old_pos) {
        None => true,
        Some(a) => {
            if a.owner != player {
                return true;
            }
            if a.move_points_left == i32::MIN {
                return false;
            }
            if old_pos.x == new_pos.x && old_pos.y == new_pos.y {
                return true;
            }
            match map.armies.get(new_pos) {
                None => true,
                Some(d) => {
                    if d.owner == player {
                        let sum = d.number_of_soldiers as i64 + a.number_of_soldiers as i64;
                        sum >= i32::MIN as i64 && sum <= i32::MAX as i64
                    } else {
                        let diff = a.number_of_soldiers as i64 - d.number_of_soldiers as i64;
                        diff >= i32::MIN as i64 && diff <= i32::MAX as i64 && -diff >= i32::MIN as i64
                            && -diff <= i32::MAX as i64
                    }
                },
            }
        },
    }
}

/// `move_army`, or an overflow error (with nothing changed) where its
/// arithmetic would overflow.
pub fn move_army_checked(
    old_pos: &Hex,
    new_pos: &Hex,
    map: &mut HexMap,
    occupied: &mut Occupied,
    moving_player: CountryId,
) -> (r: Result<(), MyErrors>)
    requires
        old(map).wf(),
        old(occupied).wf(),
    ensures
        final(map).wf(),
        final(occupied).wf(),
        final(map).political == old(map).political,
        final(map).entities == old(map).entities,
        !move_fits(old(map).armies@, *old_pos, *new_pos, moving_player) ==> r is Err && final(map).armies@ == old(
            map,
        ).armies@ && final(map).hex_owners@ == old(map).hex_owners@ && final(occupied).map@ == old(
            occupied,
        ).map@,
        move_fits(old(map).armies@, *old_pos, *new_pos, moving_player) ==> ({
            let o = move_outcome(
                old(map).armies@,
                old(map).hex_owners@,
                old(occupied).map@,
                *old_pos,
                *new_pos,
                moving_player,
            );
            &&& final(map).armies@ == o.0
            &&& final(map).hex_owners@ == o.1
            &&& final(occupied).map@ == o.2
            &&& r is Ok <==> o.3
        }),
{
    if !check_move_fits(map, old_pos, new_pos, moving_player) {
        return Err(overflow_error());
    }
    move_army(old_pos, new_pos, map, occupied, moving_player)
}

} // verus!
