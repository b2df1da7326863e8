use vstd::prelude::*;
use crate::army::Army;
use crate::hex::Hex;
use crate::map::{CountryId, Tile};
use crate::movement::{move_fits, move_outcome};
use crate::hex::coords_ok;
use crate::pathfinding::{coords_ok_in, lemma_nearest_at_war_unique, nearest_choice, passable_in, path_in};

verus! {

/// A bot's armies on the march, one after another: which army of the list
/// is moving, where it stands and how many move points it has left, the
/// board as it is by now, and whether every move so far succeeded.
pub struct March {
    pub k: int,
    pub coord: Hex,
    pub left: int,
    pub armies: Map<Hex, Army>,
    pub owners: Map<Hex, CountryId>,
    pub occ: Map<Hex, CountryId>,
    pub ok: bool,
}

/// What happens next on a march: the moving army looks for the nearest
/// target and gets this answer, or the next army of the list takes over.
pub enum MarchEvent {
    Plan(Option<Seq<Hex>>),
    Next,
}

/// The `k`-th army of `list` takes over where it stands, with its move
/// points (past the end of the list, the march is over).
pub open spec fn enter(list: Seq<(Hex, i32)>, k: int, m: March) -> March {
    if 0 <= k < list.len() {
        March { k, coord: list[k].0, left: list[k].1 as int, ..m }
    } else {
        March { k, left: 0, ..m }
    }
}

/// The march before any army moves.
pub open spec fn march_start(
    list: Seq<(Hex, i32)>,
    armies: Map<Hex, Army>,
    owners: Map<Hex, CountryId>,
    occ: Map<Hex, CountryId>,
) -> March {
    enter(list, 0, March { k: 0, coord: Hex { x: 0, y: 0 }, left: 0, armies, owners, occ, ok: true })
}

/// One move from `from` to `to` by `me`: it fails, leaving the board, where
/// its arithmetic would overflow; otherwise the board becomes the move's
/// outcome, and the move fails where the outcome is inconsistent.
pub open spec fn step_move(m: March, from: Hex, to: Hex, me: CountryId) -> March {
    if !move_fits(m.armies, from, to, me) {
        March { ok: false, ..m }
    } else {
        let o = move_outcome(m.armies, m.owners, m.occ, from, to, me);
        March { armies: o.0, owners: o.1, occ: o.2, ok: o.3, ..m }
    }
}

/// The first `n` steps along `path` from `start`, up to the first that
/// fails.
pub open spec fn walk(m: March, start: Hex, path: Seq<Hex>, n: nat, me: CountryId) -> March
    decreases n,
{
    if n == 0 {
        m
    } else {
        let w = walk(m, start, path, (n - 1) as nat, me);
        if !w.ok {
            w
        } else {
            let from = if n == 1 {
                start
            } else {
                path[n - 2]
            };
            step_move(w, from, path[n - 1], me)
        }
    }
}

/// The march after `e`: on a path, the army walks it as far as its move
/// points reach; without one, it stops; `Next` hands over to the next army.
pub open spec fn after(m: March, list: Seq<(Hex, i32)>, me: CountryId, e: MarchEvent) -> March {
    match e {
        MarchEvent::Next => enter(list, m.k + 1, m),
        MarchEvent::Plan(None) => March { left: 0, ..m },
        MarchEvent::Plan(Some(p)) => {
            let n = if p.len() < m.left {
                p.len() as int
            } else {
                m.left
            };
            let w = walk(m, m.coord, p, n as nat, me);
            if w.ok {
                March { coord: p[n - 1], left: m.left - n, ..w }
            } else {
                w
            }
        },
    }
}

/// `e` may happen now: the march goes on, and either the moving army has
/// no move points left and hands over, or it has some and `e` carries an
/// answer the search for the nearest target may give on the board as it is.
pub open spec fn allowed(
    m: March,
    list: Seq<(Hex, i32)>,
    ents: Map<Hex, Tile>,
    me: CountryId,
    enemies: Seq<CountryId>,
    war: bool,
    e: MarchEvent,
) -> bool {
    &&& m.ok
    &&& 0 <= m.k < list.len()
    &&& match e {
        MarchEvent::Next => m.left <= 0,
        MarchEvent::Plan(c) => m.left > 0 && nearest_choice(ents, m.owners, me, enemies, war, m.coord, c),
    }
}

/// The march after the events `es`.
pub open spec fn march(m0: March, list: Seq<(Hex, i32)>, me: CountryId, es: Seq<MarchEvent>) -> March
    decreases es.len(),
{
    if es.len() == 0 {
        m0
    } else {
        after(march(m0, list, me, es.drop_last()), list, me, es.last())
    }
}

/// Each of the events `es` was allowed when it happened.
pub open spec fn march_valid(
    m0: March,
    list: Seq<(Hex, i32)>,
    ents: Map<Hex, Tile>,
    me: CountryId,
    enemies: Seq<CountryId>,
    war: bool,
    es: Seq<MarchEvent>,
) -> bool
    decreases es.len(),
{
    es.len() == 0 || (march_valid(m0, list, ents, me, enemies, war, es.drop_last()) && allowed(
        march(m0, list, me, es.drop_last()),
        list,
        ents,
        me,
        enemies,
        war,
        es.last(),
    ))
}

/// The armies of `list` (positions and move points), one after another,
/// marched from the board `(armies, owners, occ)` to
/// `(armies2, owners2, occ2)`: each, while it had move points, asked for a
/// shortest path to the nearest target (enemy land at war, unowned land in
/// peace; see `nearest_choice`) over the board as it then was, and walked it
/// as far as its move points reached. `ok` is false exactly where a move
/// failed, which ended the march.
pub open spec fn marched(
    armies: Map<Hex, Army>,
    owners: Map<Hex, CountryId>,
    occ: Map<Hex, CountryId>,
    armies2: Map<Hex, Army>,
    owners2: Map<Hex, CountryId>,
    occ2: Map<Hex, CountryId>,
    ok: bool,
    list: Seq<(Hex, i32)>,
    ents: Map<Hex, Tile>,
    me: CountryId,
    enemies: Seq<CountryId>,
    war: bool,
) -> bool {
    let m0 = march_start(list, armies, owners, occ);
    exists|es: Seq<MarchEvent>|
        #![trigger march(m0, list, me, es)]
        march_valid(m0, list, ents, me, enemies, war, es) && {
            let m = march(m0, list, me, es);
            &&& !m.ok || m.k >= list.len()
            &&& m.armies == armies2
            &&& m.owners == owners2
            &&& m.occ == occ2
            &&& m.ok == ok
        }
}

/// Once a step fails, the walk stays where it stopped.
pub proof fn lemma_walk_stops(m: March, start: Hex, path: Seq<Hex>, i: nat, n: nat, me: CountryId)
    requires
        i <= n,
        !walk(m, start, path, i, me).ok,
    ensures
        walk(m, start, path, n, me) == walk(m, start, path, i, me),
    decreases n - i,
{
    if i < n {
        lemma_walk_stops(m, start, path, i, (n - 1) as nat, me);
    }
}

/// Walking keeps the march's position in the list, place and move points;
/// only the board and success change.
pub proof fn lemma_walk_keeps(m: March, start: Hex, path: Seq<Hex>, n: nat, me: CountryId)
    ensures
        walk(m, start, path, n, me).k == m.k,
        walk(m, start, path, n, me).coord == m.coord,
        walk(m, start, path, n, me).left == m.left,
    decreases n,
{
    if n > 0 {
        lemma_walk_keeps(m, start, path, (n - 1) as nat, me);
    }
}

/// One more event extends the march and its validity.
pub proof fn lemma_march_push(
    m0: March,
    list: Seq<(Hex, i32)>,
    ents: Map<Hex, Tile>,
    me: CountryId,
    enemies: Seq<CountryId>,
    war: bool,
    es: Seq<MarchEvent>,
    e: MarchEvent,
)
    requires
        march_valid(m0, list, ents, me, enemies, war, es),
        allowed(march(m0, list, me, es), list, ents, me, enemies, war, e),
    ensures
        march_valid(m0, list, ents, me, enemies, war, es.push(e)),
        march(m0, list, me, es.push(e)) == after(march(m0, list, me, es), list, me, e),
{
    assert(es.push(e).drop_last() =~= es);
}

} // verus!

verus! {

/// The events of a valid march, up to any point, were valid, and the next
/// one was allowed.
pub proof fn lemma_march_prefix(
    m0: March,
    list: Seq<(Hex, i32)>,
    ents: Map<Hex, Tile>,
    me: CountryId,
    enemies: Seq<CountryId>,
    war: bool,
    es: Seq<MarchEvent>,
    i: int,
)
    requires
        march_valid(m0, list, ents, me, enemies, war, es),
        0 <= i <= es.len(),
    ensures
        march_valid(m0, list, ents, me, enemies, war, es.take(i)),
        i < es.len() ==> allowed(march(m0, list, me, es.take(i)), list, ents, me, enemies, war, es[i]),
    decreases es.len(),
{
    if i == es.len() {
        assert(es.take(i) =~= es);
    } else {
        let d = es.drop_last();
        assert(es.take(i) =~= d.take(i));
        if i == d.len() {
            assert(d.take(i) =~= d);
        } else {
            lemma_march_prefix(m0, list, ents, me, enemies, war, d, i);
            assert(es[i] == d[i]);
        }
    }
}

/// Where an army of a valid march stands, both coordinates can move one
/// step, provided the armies of the list and the tiles of the board can.
pub proof fn lemma_march_coords(
    m0: March,
    list: Seq<(Hex, i32)>,
    ents: Map<Hex, Tile>,
    me: CountryId,
    enemies: Seq<CountryId>,
    war: bool,
    es: Seq<MarchEvent>,
)
    requires
        march_valid(m0, list, ents, me, enemies, war, es),
        coords_ok(m0.coord),
        coords_ok_in(ents),
        forall|k: int| 0 <= k < list.len() ==> coords_ok(#[trigger] list[k].0),
    ensures
        coords_ok(march(m0, list, me, es).coord),
    decreases es.len(),
{
    if es.len() > 0 {
        let d = es.drop_last();
        lemma_march_coords(m0, list, ents, me, enemies, war, d);
        let m = march(m0, list, me, d);
        match es.last() {
            MarchEvent::Next => {},
            MarchEvent::Plan(None) => {},
            MarchEvent::Plan(Some(p)) => {
                let n = if p.len() < m.left {
                    p.len() as int
                } else {
                    m.left
                };
                lemma_walk_keeps(m, m.coord, p, n as nat, me);
                if walk(m, m.coord, p, n as nat, me).ok {
                    assert(path_in(ents, m.owners, me, enemies, war, m.coord, p));
                    if n - 1 < p.len() - 1 {
                        assert(passable_in(ents, m.owners, me, war, p[n - 1]));
                    }
                    assert(ents.contains_key(p[n - 1]));
                }
            },
        }
    }
}

/// At war, with safe coordinates, a bot's march is determined by the board
/// and its armies: two marches from the same board end on the same board
/// with the same outcome.
pub proof fn lemma_war_march_determined(
    armies: Map<Hex, Army>,
    owners: Map<Hex, CountryId>,
    occ: Map<Hex, CountryId>,
    list: Seq<(Hex, i32)>,
    ents: Map<Hex, Tile>,
    me: CountryId,
    enemies: Seq<CountryId>,
    armies2: Map<Hex, Army>,
    owners2: Map<Hex, CountryId>,
    occ2: Map<Hex, CountryId>,
    ok2: bool,
    armies3: Map<Hex, Army>,
    owners3: Map<Hex, CountryId>,
    occ3: Map<Hex, CountryId>,
    ok3: bool,
)
    requires
        coords_ok_in(ents),
        forall|k: int| 0 <= k < list.len() ==> coords_ok(#[trigger] list[k].0),
        !enemies.contains(me),
        marched(armies, owners, occ, armies2, owners2, occ2, ok2, list, ents, me, enemies, true),
        marched(armies, owners, occ, armies3, owners3, occ3, ok3, list, ents, me, enemies, true),
    ensures
        armies2 == armies3,
        owners2 == owners3,
        occ2 == occ3,
        ok2 == ok3,
{
    let m0 = march_start(list, armies, owners, occ);
    let es1 = choose|es: Seq<MarchEvent>|
        #![trigger march(m0, list, me, es)]
        march_valid(m0, list, ents, me, enemies, true, es) && {
            let m = march(m0, list, me, es);
            &&& !m.ok || m.k >= list.len()
            &&& m.armies == armies2
            &&& m.owners == owners2
            &&& m.occ == occ2
            &&& m.ok == ok2
        };
    let es2 = choose|es: Seq<MarchEvent>|
        #![trigger march(m0, list, me, es)]
        march_valid(m0, list, ents, me, enemies, true, es) && {
            let m = march(m0, list, me, es);
            &&& !m.ok || m.k >= list.len()
            &&& m.armies == armies3
            &&& m.owners == owners3
            &&& m.occ == occ3
            &&& m.ok == ok3
        };
    assert(coords_ok(m0.coord));
    assert(es1.take(0) =~= es2.take(0));
    lemma_same_march(m0, list, ents, me, enemies, es1, es2, 0);
}

/// Two valid marches that agree on their first `i` events agree on all of
/// them as far as both go; once both are over, they are the same.
proof fn lemma_same_march(
    m0: March,
    list: Seq<(Hex, i32)>,
    ents: Map<Hex, Tile>,
    me: CountryId,
    enemies: Seq<CountryId>,
    es1: Seq<MarchEvent>,
    es2: Seq<MarchEvent>,
    i: int,
)
    requires
        coords_ok(m0.coord),
        coords_ok_in(ents),
        forall|k: int| 0 <= k < list.len() ==> coords_ok(#[trigger] list[k].0),
        !enemies.contains(me),
        march_valid(m0, list, ents, me, enemies, true, es1),
        march_valid(m0, list, ents, me, enemies, true, es2),
        !march(m0, list, me, es1).ok || march(m0, list, me, es1).k >= list.len(),
        !march(m0, list, me, es2).ok || march(m0, list, me, es2).k >= list.len(),
        0 <= i <= es1.len(),
        i <= es2.len(),
        es1.take(i) == es2.take(i),
    ensures
        march(m0, list, me, es1) == march(m0, list, me, es2),
    decreases es1.len() + es2.len() - 2 * i,
{
    if i == es1.len() && i == es2.len() {
        assert(es1 =~= es1.take(i));
        assert(es2 =~= es2.take(i));
    } else if i == es1.len() {
        assert(es1 =~= es1.take(i));
        lemma_march_prefix(m0, list, ents, me, enemies, true, es2, i);
    } else if i == es2.len() {
        assert(es2 =~= es2.take(i));
        lemma_march_prefix(m0, list, ents, me, enemies, true, es1, i);
    } else {
        lemma_march_prefix(m0, list, ents, me, enemies, true, es1, i);
        lemma_march_prefix(m0, list, ents, me, enemies, true, es2, i);
        let m = march(m0, list, me, es1.take(i));
        assert(m == march(m0, list, me, es2.take(i)));
        lemma_march_coords(m0, list, ents, me, enemies, true, es1.take(i));
        assert(es1[i] == es2[i]) by {
            match (es1[i], es2[i]) {
                (MarchEvent::Plan(c1), MarchEvent::Plan(c2)) => {
                    lemma_nearest_at_war_unique(ents, m.owners, me, enemies, m.coord, c1, c2);
                },
                _ => {},
            }
        }
        assert(es1.take(i + 1) =~= es1.take(i).push(es1[i]));
        assert(es2.take(i + 1) =~= es2.take(i).push(es2[i]));
        lemma_same_march(m0, list, ents, me, enemies, es1, es2, i + 1);
    }
}

} // verus!
