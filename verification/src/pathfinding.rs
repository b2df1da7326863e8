use vstd::prelude::*;
use crate::hex::{Hex, adjacent, all_neighbors, coords_ok, lemma_neighbors_adjacent, neighbors_of};
use crate::map::{CountryId, HexMap, TerrainType, Tile};
use crate::random::shuffle_hexes;
use crate::table::{has_key, keys_distinct, lemma_entries_map_all};
use crate::util::vec_contains;

verus! {

/// A tile of the board that is not water.
pub open spec fn is_land(map: &HexMap, h: Hex) -> bool {
    land_in(map.entities@, h)
}

/// An army can pass through `h` on its way: at war it may cross its own and
/// unowned land; in peace only its own land.
pub open spec fn passable(map: &HexMap, me: CountryId, war: bool, h: Hex) -> bool {
    passable_in(map.entities@, map.hex_owners@, me, war, h)
}

/// What the search looks for: at war, land of an enemy; in peace, unowned
/// land.
pub open spec fn is_target(map: &HexMap, enemies: Seq<CountryId>, war: bool, h: Hex) -> bool {
    target_in(map.entities@, map.hex_owners@, enemies, war, h)
}

/// `path` leads step by step from a neighbour of `start`, over passable
/// tiles, to a target.
pub open spec fn valid_path(
    map: &HexMap,
    me: CountryId,
    enemies: Seq<CountryId>,
    war: bool,
    start: Hex,
    path: Seq<Hex>,
) -> bool {
    path_in(map.entities@, map.hex_owners@, me, enemies, war, start, path)
}

/// `is_land` over the tiles and owners themselves.
pub open spec fn land_in(ents: Map<Hex, Tile>, h: Hex) -> bool {
    ents.contains_key(h) && ents[h].terrain != TerrainType::Water
}

/// `passable` over the tiles and owners themselves.
pub open spec fn passable_in(
    ents: Map<Hex, Tile>,
    owners: Map<Hex, CountryId>,
    me: CountryId,
    war: bool,
    h: Hex,
) -> bool {
    land_in(ents, h) && if war {
        !owners.contains_key(h) || owners[h] == me
    } else {
        owners.contains_key(h) && owners[h] == me
    }
}

/// `is_target` over the tiles and owners themselves.
pub open spec fn target_in(
    ents: Map<Hex, Tile>,
    owners: Map<Hex, CountryId>,
    enemies: Seq<CountryId>,
    war: bool,
    h: Hex,
) -> bool {
    land_in(ents, h) && if war {
        owners.contains_key(h) && enemies.contains(owners[h])
    } else {
        !owners.contains_key(h)
    }
}

/// `valid_path` over the tiles and owners themselves.
pub open spec fn path_in(
    ents: Map<Hex, Tile>,
    owners: Map<Hex, CountryId>,
    me: CountryId,
    enemies: Seq<CountryId>,
    war: bool,
    start: Hex,
    path: Seq<Hex>,
) -> bool {
    &&& path.len() > 0
    &&& adjacent(start, path[0])
    &&& forall|k: int| 0 <= k < path.len() - 1 ==> #[trigger] adjacent(path[k], path[k + 1])
    &&& forall|k: int| 0 <= k < path.len() - 1 ==> #[trigger] passable_in(ents, owners, me, war, path[k])
    &&& target_in(ents, owners, enemies, war, path.last())
}

/// No coordinate of the board's tiles is at the edge of the `i32` range.
pub open spec fn coords_ok_in(ents: Map<Hex, Tile>) -> bool {
    forall|h: Hex| #[trigger] ents.contains_key(h) ==> coords_ok(h)
}

/// What a search for the nearest target from `start` may answer: a valid
/// path, and where the coordinates are safe and the searcher is not its own
/// enemy, a shortest one (at war, of the shortest ones the one whose steps'
/// directions come first, directions numbered as in `neighbors_of`), or
/// nothing only when no valid path exists.
pub open spec fn nearest_choice(
    ents: Map<Hex, Tile>,
    owners: Map<Hex, CountryId>,
    me: CountryId,
    enemies: Seq<CountryId>,
    war: bool,
    start: Hex,
    answer: Option<Seq<Hex>>,
) -> bool {
    let sure = coords_ok(start) && coords_ok_in(ents) && (war ==> !enemies.contains(me));
    match answer {
        Some(p) => path_in(ents, owners, me, enemies, war, start, p) && (sure ==> forall|q: Seq<Hex>|
            #[trigger] path_in(ents, owners, me, enemies, war, start, q) ==> p.len() <= q.len()) && (sure
            && war ==> forall|q: Seq<Hex>|
            #[trigger] path_in(ents, owners, me, enemies, war, start, q) && q.len() == p.len() ==> lex_le(
                dirs(start, p),
                dirs(start, q),
            )),
        None => sure ==> forall|q: Seq<Hex>| !#[trigger] path_in(ents, owners, me, enemies, war, start, q),
    }
}

/// Two walks from `start` with the same directions are the same walk.
proof fn lemma_dirs_determine(ents: Map<Hex, Tile>, start: Hex, p: Seq<Hex>, q: Seq<Hex>)
    requires
        coords_ok(start),
        coords_ok_in(ents),
        p.len() == q.len(),
        p.len() > 0 ==> adjacent(start, p[0]) && adjacent(start, q[0]),
        forall|k: int| 0 <= k < p.len() - 1 ==> #[trigger] adjacent(p[k], p[k + 1]),
        forall|k: int| 0 <= k < q.len() - 1 ==> #[trigger] adjacent(q[k], q[k + 1]),
        forall|k: int| 0 <= k < p.len() - 1 ==> ents.contains_key(#[trigger] p[k]),
        dirs(start, p) == dirs(start, q),
    ensures
        p == q,
    decreases p.len(),
{
    if p.len() > 0 {
        let last = p.len() - 1;
        let p0 = p.drop_last();
        let q0 = q.drop_last();
        assert(p =~= p0.push(p[last]));
        assert(q =~= q0.push(q[last]));
        lemma_dirs_push(start, p0, p[last]);
        lemma_dirs_push(start, q0, q[last]);
        let prev = walk_end(start, p0);
        let dp = dir_of(prev, p[last]);
        let dq = dir_of(walk_end(start, q0), q[last]);
        assert(dirs(start, p0) == dirs(start, p).drop_last()) by {
            assert(dirs(start, p0).push(dp).drop_last() =~= dirs(start, p0));
        }
        assert(dirs(start, q0) == dirs(start, q).drop_last()) by {
            assert(dirs(start, q0).push(dq).drop_last() =~= dirs(start, q0));
        }
        assert(dp == dq) by {
            assert(dirs(start, p0).push(dp)[last] == dp);
            assert(dirs(start, q0).push(dq)[last] == dq);
        }
        assert forall|k: int| 0 <= k < p0.len() - 1 implies #[trigger] adjacent(p0[k], p0[k + 1]) by {
            assert(adjacent(p[k], p[k + 1]));
        }
        assert forall|k: int| 0 <= k < q0.len() - 1 implies #[trigger] adjacent(q0[k], q0[k + 1]) by {
            assert(adjacent(q[k], q[k + 1]));
        }
        assert forall|k: int| 0 <= k < p0.len() - 1 implies ents.contains_key(#[trigger] p0[k]) by {
            assert(ents.contains_key(p[k]));
        }
        lemma_dirs_determine(ents, start, p0, q0);
        assert(prev == walk_end(start, q0));
        assert(coords_ok(prev)) by {
            if p0.len() > 0 {
                assert(ents.contains_key(p[last - 1]));
            }
        }
        assert(adjacent(prev, p[last]) && adjacent(prev, q[last])) by {
            if p0.len() > 0 {
                let k = last - 1;
                assert(adjacent(p[k], p[k + 1]));
                assert(adjacent(q[k], q[k + 1]));
            }
        }
        lemma_dir_of_neighbors(prev);
        assert(neighbors_of(prev)[dp] == p[last]);
        assert(neighbors_of(prev)[dq] == q[last]);
    }
}

/// At war, with safe coordinates, a search for the nearest enemy land has
/// one possible answer.
pub proof fn lemma_nearest_at_war_unique(
    ents: Map<Hex, Tile>,
    owners: Map<Hex, CountryId>,
    me: CountryId,
    enemies: Seq<CountryId>,
    start: Hex,
    a: Option<Seq<Hex>>,
    b: Option<Seq<Hex>>,
)
    requires
        coords_ok(start),
        coords_ok_in(ents),
        !enemies.contains(me),
        nearest_choice(ents, owners, me, enemies, true, start, a),
        nearest_choice(ents, owners, me, enemies, true, start, b),
    ensures
        a == b,
{
    match (a, b) {
        (Some(p), Some(q)) => {
            assert(path_in(ents, owners, me, enemies, true, start, q));
            assert(path_in(ents, owners, me, enemies, true, start, p));
            assert(p.len() == q.len());
            let dp = dirs(start, p);
            let dq = dirs(start, q);
            assert(lex_le(dp, dq));
            assert(lex_le(dq, dp));
            if dp != dq {
                lemma_lex_trans(dp, dq, dp);
                let m = choose|m: int| 0 <= m < dp.len() && dp[m] < dp[m] && forall|k: int| 0 <= k < m ==> #[trigger] dp[k] == dp[k];
            }
            assert forall|k: int| 0 <= k < p.len() - 1 implies ents.contains_key(#[trigger] p[k]) by {
                assert(passable_in(ents, owners, me, true, p[k]));
            }
            lemma_dirs_determine(ents, start, p, q);
        },
        (Some(p), None) => {
            assert(path_in(ents, owners, me, enemies, true, start, p));
        },
        (None, Some(q)) => {
            assert(path_in(ents, owners, me, enemies, true, start, q));
        },
        (None, None) => {},
    }
}

/// The answer of a search, as a sequence.
pub open spec fn answer_view(r: Option<Vec<Hex>>) -> Option<Seq<Hex>> {
    match r {
        Some(p) => Some(p@),
        None => None,
    }
}

/// Every tile of the board can step to its neighbours without overflow.
pub open spec fn all_coords_ok(map: &HexMap) -> bool {
    forall|h: Hex| #[trigger] map.entities@.contains_key(h) ==> coords_ok(h)
}

/// The state of the breadth-first search: the tiles reached, in the order
/// they were reached, each with the position of the tile it was reached from.
pub open spec fn bfs_wf(
    order: Seq<Hex>,
    parent: Seq<usize>,
    start: Hex,
    map: &HexMap,
    me: CountryId,
    war: bool,
) -> bool {
    &&& order.len() == parent.len()
    &&& order.len() >= 1
    &&& order[0] == start
    &&& order.no_duplicates()
    &&& order.len() <= map.entities.seq().len() + 1
    &&& forall|i: int|
        1 <= i < order.len() ==> (#[trigger] parent[i]) < i && adjacent(
            order[parent[i] as int],
            order[i],
        ) && passable(map, me, war, order[i])
}

/// The tiles from just after the start to the `i`-th reached tile.
pub open spec fn chain(order: Seq<Hex>, parent: Seq<usize>, i: int) -> Seq<Hex>
    decreases i,
{
    if 0 < i < order.len() && i < parent.len() && parent[i] < i {
        chain(order, parent, parent[i] as int).push(order[i])
    } else {
        Seq::empty()
    }
}

pub proof fn lemma_chain(
    order: Seq<Hex>,
    parent: Seq<usize>,
    start: Hex,
    map: &HexMap,
    me: CountryId,
    war: bool,
    i: int,
)
    requires
        bfs_wf(order, parent, start, map, me, war),
        1 <= i < order.len(),
    ensures
        ({
            let c = chain(order, parent, i);
            &&& c.len() >= 1
            &&& adjacent(start, c[0])
            &&& forall|k: int| 0 <= k < c.len() - 1 ==> #[trigger] adjacent(c[k], c[k + 1])
            &&& forall|k: int| 0 <= k < c.len() ==> #[trigger] passable(map, me, war, c[k])
            &&& c.last() == order[i]
        }),
    decreases i,
{
    let p = parent[i] as int;
    assert(p < i);
    let c = chain(order, parent, i);
    if p == 0 {
        assert(chain(order, parent, 0) =~= Seq::<Hex>::empty());
        assert(c =~= seq![order[i]]);
    } else {
        lemma_chain(order, parent, start, map, me, war, p);
        let c0 = chain(order, parent, p);
        assert(c == c0.push(order[i]));
        assert forall|k: int| 0 <= k < c.len() - 1 implies #[trigger] adjacent(c[k], c[k + 1]) by {
            if k < c0.len() - 1 {
                assert(c[k] == c0[k] && c[k + 1] == c0[k + 1]);
            }
        }
        assert forall|k: int| 0 <= k < c.len() implies #[trigger] passable(map, me, war, c[k]) by {
            if k < c0.len() {
                assert(c[k] == c0[k]);
            }
        }
    }
}

/// How many steps the search took to reach the `i`-th reached tile.
pub open spec fn depth(order: Seq<Hex>, parent: Seq<usize>, i: int) -> int {
    chain(order, parent, i).len() as int
}

/// Reaching one more tile leaves the chains of the tiles reached before as
/// they were.
proof fn lemma_chain_push(order: Seq<Hex>, parent: Seq<usize>, n: Hex, c: usize, i: int)
    requires
        order.len() == parent.len(),
        0 <= i < order.len(),
        forall|j: int| 1 <= j < order.len() ==> (#[trigger] parent[j]) < j,
    ensures
        chain(order.push(n), parent.push(c), i) == chain(order, parent, i),
    decreases i,
{
    if 0 < i {
        lemma_chain_push(order, parent, n, c, parent[i] as int);
    }
}

/// The steps to the reached tiles never go down along the order of
/// reaching them.
pub open spec fn depths_sorted(order: Seq<Hex>, parent: Seq<usize>) -> bool {
    forall|i: int, j: int| 0 <= i <= j < order.len() ==> #[trigger] depth(order, parent, i) <= #[trigger] depth(
        order,
        parent,
        j,
    )
}

/// Every searched tile's passable neighbours were reached at most one step
/// further.
pub open spec fn neighbours_reached(
    order: Seq<Hex>,
    parent: Seq<usize>,
    map: &HexMap,
    me: CountryId,
    war: bool,
    head: int,
) -> bool {
    forall|k: int, n: Hex|
        0 <= k < head && #[trigger] adjacent(order[k], n) && passable(map, me, war, n) ==> exists|j: int|
            0 <= j < order.len() && order[j] == n && #[trigger] depth(order, parent, j) <= depth(order, parent, k)
                + 1
}

/// A tile reached in fewer steps than the `head`-th has been searched.
proof fn lemma_shallower_searched(order: Seq<Hex>, parent: Seq<usize>, head: int, j: int)
    requires
        depths_sorted(order, parent),
        0 <= head < order.len(),
        0 <= j < order.len(),
        depth(order, parent, j) < depth(order, parent, head),
    ensures
        j < head,
{
    if j >= head {
        assert(depth(order, parent, head) <= depth(order, parent, j));
    }
}

/// The first `m + 1` tiles of a valid path shorter than the steps to the
/// `head`-th tile were all reached, the `m`-th in at most `m + 1` steps.
proof fn lemma_prefix_reached(
    order: Seq<Hex>,
    parent: Seq<usize>,
    map: &HexMap,
    me: CountryId,
    enemies: Seq<CountryId>,
    war: bool,
    start: Hex,
    head: int,
    p: Seq<Hex>,
    m: int,
)
    requires
        order.len() >= 1,
        order[0] == start,
        depth(order, parent, 0) == 0,
        depths_sorted(order, parent),
        neighbours_reached(order, parent, map, me, war, head),
        0 <= head < order.len(),
        valid_path(map, me, enemies, war, start, p),
        p.len() <= depth(order, parent, head),
        0 <= m <= p.len() - 2,
    ensures
        exists|j: int| 0 <= j < order.len() && order[j] == p[m] && #[trigger] depth(order, parent, j) <= m + 1,
    decreases m,
{
    assert(passable(map, me, war, p[m]));
    if m == 0 {
        lemma_shallower_searched(order, parent, head, 0);
        assert(adjacent(order[0], p[0]));
    } else {
        lemma_prefix_reached(order, parent, map, me, enemies, war, start, head, p, m - 1);
        let j = choose|j: int| 0 <= j < order.len() && order[j] == p[m - 1] && #[trigger] depth(order, parent, j) <= m;
        lemma_shallower_searched(order, parent, head, j);
        let k0 = m - 1;
        assert(adjacent(p[k0], p[k0 + 1]));
        assert(adjacent(order[j], p[m]));
    }
}

/// Once the `head`-th reached tile sees a target, no valid path is shorter
/// than the steps to it and one more.
proof fn lemma_bfs_shortest(
    order: Seq<Hex>,
    parent: Seq<usize>,
    map: &HexMap,
    me: CountryId,
    enemies: Seq<CountryId>,
    war: bool,
    start: Hex,
    head: int,
    p: Seq<Hex>,
)
    requires
        order.len() >= 1,
        order[0] == start,
        depth(order, parent, 0) == 0,
        depths_sorted(order, parent),
        neighbours_reached(order, parent, map, me, war, head),
        forall|k: int, n: Hex|
            0 <= k < head && #[trigger] adjacent(order[k], n) ==> !is_target(map, enemies, war, n),
        0 <= head < order.len(),
        valid_path(map, me, enemies, war, start, p),
    ensures
        p.len() >= depth(order, parent, head) + 1,
{
    let d = depth(order, parent, head);
    if p.len() <= d {
        let l = p.len();
        if l == 1 {
            lemma_shallower_searched(order, parent, head, 0);
            assert(adjacent(order[0], p[0]));
            assert(!is_target(map, enemies, war, p[0]));
        } else {
            lemma_prefix_reached(order, parent, map, me, enemies, war, start, head, p, l - 2);
            let j = choose|j: int| 0 <= j < order.len() && order[j] == p[l - 2] && #[trigger] depth(order, parent, j) <= l - 1;
            lemma_shallower_searched(order, parent, head, j);
            let k0 = l - 2;
            assert(adjacent(p[k0], p[k0 + 1]));
            assert(adjacent(order[j], p[l - 1]));
            assert(!is_target(map, enemies, war, p[l - 1]));
        }
    }
}

/// The direction of the step from `a` to its neighbour `b`, numbered as in
/// `neighbors_of`.
pub open spec fn dir_of(a: Hex, b: Hex) -> int {
    let dx = b.x - a.x;
    let dy = b.y - a.y;
    if dx == 1 && dy == 0 {
        0
    } else if dx == 0 && dy == 1 {
        1
    } else if dx == -1 && dy == 1 {
        2
    } else if dx == -1 && dy == 0 {
        3
    } else if dx == 0 && dy == -1 {
        4
    } else {
        5
    }
}

/// Where a walk from `start` along `p` ends.
pub open spec fn walk_end(start: Hex, p: Seq<Hex>) -> Hex {
    if p.len() == 0 {
        start
    } else {
        p.last()
    }
}

/// The directions of the steps of a walk from `start` along `p`.
pub open spec fn dirs(start: Hex, p: Seq<Hex>) -> Seq<int> {
    Seq::new(p.len(), |k: int| dir_of(if k == 0 { start } else { p[k - 1] }, p[k]))
}

/// `s` comes strictly before `t`, both of one length, in lexicographic
/// order.
pub open spec fn lex_lt(s: Seq<int>, t: Seq<int>) -> bool {
    &&& s.len() == t.len()
    &&& exists|m: int|
        0 <= m < s.len() && s[m] < t[m] && forall|k: int| 0 <= k < m ==> #[trigger] s[k] == t[k]
}

/// `s` comes before `t` or is `t`.
pub open spec fn lex_le(s: Seq<int>, t: Seq<int>) -> bool {
    s == t || lex_lt(s, t)
}

/// `q` walks from `start` step by step over tiles an army can pass.
pub open spec fn walk_ok(map: &HexMap, me: CountryId, war: bool, start: Hex, q: Seq<Hex>) -> bool {
    &&& q.len() > 0 ==> adjacent(start, q[0])
    &&& forall|k: int| 0 <= k < q.len() - 1 ==> #[trigger] adjacent(q[k], q[k + 1])
    &&& forall|k: int| 0 <= k < q.len() ==> #[trigger] passable(map, me, war, q[k])
}

/// Of the walks as long as its chain, the `j`-th reached tile's chain goes
/// first in the order of directions.
pub open spec fn chain_first(
    order: Seq<Hex>,
    parent: Seq<usize>,
    map: &HexMap,
    me: CountryId,
    war: bool,
    start: Hex,
    j: int,
) -> bool {
    forall|q: Seq<Hex>|
        walk_ok(map, me, war, start, q) && q.len() == depth(order, parent, j) && walk_end(start, q)
            == order[j] ==> lex_le(#[trigger] dirs(start, chain(order, parent, j)), dirs(start, q))
}

/// Tiles reached in as many steps are reached in the order of their
/// chains' directions.
pub open spec fn same_depth_in_order(order: Seq<Hex>, parent: Seq<usize>, start: Hex) -> bool {
    forall|a: int, b: int|
        0 <= a < b < order.len() && depth(order, parent, a) == depth(order, parent, b) ==> lex_lt(
            #[trigger] dirs(start, chain(order, parent, a)),
            #[trigger] dirs(start, chain(order, parent, b)),
        )
}

/// The neighbours of a tile are numbered by their directions.
pub proof fn lemma_dir_of_neighbors(h: Hex)
    requires
        coords_ok(h),
    ensures
        forall|k: int| 0 <= k < 6 ==> #[trigger] dir_of(h, neighbors_of(h)[k]) == k,
        forall|b: Hex| #[trigger] adjacent(h, b) ==> 0 <= dir_of(h, b) < 6 && neighbors_of(h)[dir_of(h, b)] == b,
{
    lemma_neighbors_adjacent(h);
}

/// One more step adds its direction.
pub proof fn lemma_dirs_push(start: Hex, p: Seq<Hex>, x: Hex)
    ensures
        dirs(start, p.push(x)) == dirs(start, p).push(dir_of(walk_end(start, p), x)),
{
    assert(dirs(start, p.push(x)) =~= dirs(start, p).push(dir_of(walk_end(start, p), x)));
}

/// Lexicographic order survives one more entry on each side.
pub proof fn lemma_lex_push(a: Seq<int>, b: Seq<int>, x: int, y: int)
    requires
        a.len() == b.len(),
    ensures
        lex_lt(a, b) ==> lex_lt(a.push(x), b.push(y)),
        lex_le(a, b) && x <= y ==> lex_le(a.push(x), b.push(y)),
        a == b && x < y ==> lex_lt(a.push(x), b.push(y)),
{
    if lex_lt(a, b) {
        let m = choose|m: int| 0 <= m < a.len() && a[m] < b[m] && forall|k: int| 0 <= k < m ==> #[trigger] a[k] == b[k];
        assert(a.push(x)[m] < b.push(y)[m]);
        assert forall|k: int| 0 <= k < m implies #[trigger] a.push(x)[k] == b.push(y)[k] by {
            assert(a[k] == b[k]);
        }
    }
    if a == b && x < y {
        let m = a.len() as int;
        assert forall|k: int| 0 <= k < m implies #[trigger] a.push(x)[k] == b.push(y)[k] by {}
        assert(a.push(x)[m] < b.push(y)[m]);
    }
    if a == b && x == y {
        assert(a.push(x) == b.push(y));
    }
}

/// Strictly before, then before or equal, is strictly before.
pub proof fn lemma_lex_trans(a: Seq<int>, b: Seq<int>, c: Seq<int>)
    requires
        lex_lt(a, b),
        lex_le(b, c),
    ensures
        lex_lt(a, c),
{
    if b != c {
        let m1 = choose|m: int| 0 <= m < a.len() && a[m] < b[m] && forall|k: int| 0 <= k < m ==> #[trigger] a[k] == b[k];
        let m2 = choose|m: int| 0 <= m < b.len() && b[m] < c[m] && forall|k: int| 0 <= k < m ==> #[trigger] b[k] == c[k];
        let m = if m1 < m2 {
            m1
        } else {
            m2
        };
        assert forall|k: int| 0 <= k < m implies #[trigger] a[k] == c[k] by {
            assert(a[k] == b[k]);
            assert(b[k] == c[k]);
        }
        if m1 < m2 {
            assert(b[m1] == c[m1]);
        } else if m2 < m1 {
            assert(a[m2] == b[m2]);
        }
        assert(a[m] < c[m]);
    }
}

/// A walk no longer than the steps to the `head`-th tile ends on a reached
/// tile, reached in no more steps than the walk has.
proof fn lemma_walk_reached(
    order: Seq<Hex>,
    parent: Seq<usize>,
    map: &HexMap,
    me: CountryId,
    war: bool,
    start: Hex,
    head: int,
    q: Seq<Hex>,
)
    requires
        order.len() >= 1,
        order[0] == start,
        depth(order, parent, 0) == 0,
        depths_sorted(order, parent),
        neighbours_reached(order, parent, map, me, war, head),
        0 <= head < order.len(),
        walk_ok(map, me, war, start, q),
        q.len() <= depth(order, parent, head),
    ensures
        exists|j: int|
            0 <= j < order.len() && order[j] == walk_end(start, q) && #[trigger] depth(order, parent, j) <= q.len(),
    decreases q.len(),
{
    if q.len() == 0 {
        assert(depth(order, parent, 0) <= 0);
    } else {
        let q0 = q.drop_last();
        assert(walk_ok(map, me, war, start, q0)) by {
            assert forall|k: int| 0 <= k < q0.len() - 1 implies #[trigger] adjacent(q0[k], q0[k + 1]) by {
                assert(adjacent(q[k], q[k + 1]));
            }
            assert forall|k: int| 0 <= k < q0.len() implies #[trigger] passable(map, me, war, q0[k]) by {
                assert(passable(map, me, war, q[k]));
            }
        }
        lemma_walk_reached(order, parent, map, me, war, start, head, q0);
        let j0 = choose|j: int|
            0 <= j < order.len() && order[j] == walk_end(start, q0) && #[trigger] depth(order, parent, j) <= q0.len();
        lemma_shallower_searched(order, parent, head, j0);
        assert(adjacent(order[j0], q.last())) by {
            if q0.len() > 0 {
                let k = q.len() - 2;
                assert(adjacent(q[k], q[k + 1]));
            }
        }
        assert(passable(map, me, war, q[q.len() - 1]));
    }
}

/// A chain and one more tile are one step longer than the chain.
proof fn lemma_chain_push_len(order: Seq<Hex>, parent: Seq<usize>, head: int, n: Hex)
    ensures
        chain(order, parent, head).push(n).len() == depth(order, parent, head) + 1,
{
}

/// Every reached tile's chain ends on it.
proof fn lemma_chain_end(
    order: Seq<Hex>,
    parent: Seq<usize>,
    start: Hex,
    map: &HexMap,
    me: CountryId,
    war: bool,
    j: int,
)
    requires
        bfs_wf(order, parent, start, map, me, war),
        0 <= j < order.len(),
    ensures
        walk_end(start, chain(order, parent, j)) == order[j],
        j == 0 <==> depth(order, parent, j) == 0,
{
    if j == 0 {
        assert(chain(order, parent, 0) =~= Seq::<Hex>::empty());
    } else {
        lemma_chain(order, parent, start, map, me, war, j);
    }
}

/// The tiles the search has reached, as far as directions go, once the
/// `head`-th tile has searched its neighbours up to direction `i`.
pub open spec fn search_in_order(
    order: Seq<Hex>,
    parent: Seq<usize>,
    map: &HexMap,
    me: CountryId,
    war: bool,
    start: Hex,
) -> bool {
    &&& same_depth_in_order(order, parent, start)
    &&& forall|j: int| 0 <= j < order.len() ==> #[trigger] chain_first(order, parent, map, me, war, start, j)
}

/// A tile newly reached from the `head`-th one, in direction `i`, keeps the
/// search in order, provided every tile reached from the `head`-th one
/// before lies in an earlier direction.
proof fn lemma_reach_in_order(
    order: Seq<Hex>,
    parent: Seq<usize>,
    map: &HexMap,
    me: CountryId,
    war: bool,
    start: Hex,
    head: int,
    i: int,
    n: Hex,
)
    requires
        bfs_wf(order, parent, start, map, me, war),
        bfs_wf(order.push(n), parent.push(head as usize), start, map, me, war),
        depth(order, parent, 0) == 0,
        depths_sorted(order, parent),
        neighbours_reached(order, parent, map, me, war, head),
        0 <= head < order.len(),
        head <= usize::MAX,
        forall|k: int, x: Hex|
            0 <= k < head && #[trigger] adjacent(order[k], x) ==> (passable(map, me, war, x) ==> order.contains(x)),
        search_in_order(order, parent, map, me, war, start),
        forall|a: int| 1 <= a < order.len() ==> (#[trigger] parent[a]) <= head,
        forall|a: int| 1 <= a < order.len() && (#[trigger] parent[a]) == head ==> dir_of(order[head], order[a]) < i,
        forall|j: int| 0 <= j < order.len() ==> #[trigger] depth(order, parent, j) <= depth(order, parent, head) + 1,
        adjacent(order[head], n),
        dir_of(order[head], n) == i,
        passable(map, me, war, n),
    ensures
        search_in_order(order.push(n), parent.push(head as usize), map, me, war, start),
{
    let o1 = order.push(n);
    let p1 = parent.push(head as usize);
    let last = order.len() as int;
    let dh = depth(order, parent, head);
    assert(!order.contains(n)) by {
        if order.contains(n) {
            let j = choose|j: int| 0 <= j < order.len() && order[j] == n;
            assert(o1[j] == o1[last]);
        }
    }
    assert forall|j: int| 0 <= j < order.len() implies chain(o1, p1, j) == chain(order, parent, j) by {
        lemma_chain_push(order, parent, n, head as usize, j);
    }
    assert(chain(o1, p1, last) == chain(order, parent, head).push(n)) by {
        lemma_chain_push(order, parent, n, head as usize, head);
    }
    lemma_chain_end(order, parent, start, map, me, war, head);
    lemma_dirs_push(start, chain(order, parent, head), n);
    let dn = dirs(start, chain(o1, p1, last));
    assert(dn == dirs(start, chain(order, parent, head)).push(i));
    assert(depth(o1, p1, last) == dh + 1);
    // The new tile's chain goes first among walks as long.
    assert forall|q: Seq<Hex>|
        walk_ok(map, me, war, start, q) && q.len() == depth(o1, p1, last) && walk_end(start, q) == o1[last]
            implies lex_le(#[trigger] dirs(start, chain(o1, p1, last)), dirs(start, q)) by {
        let q0 = q.drop_last();
        assert(walk_ok(map, me, war, start, q0)) by {
            assert forall|k: int| 0 <= k < q0.len() - 1 implies #[trigger] adjacent(q0[k], q0[k + 1]) by {
                assert(adjacent(q[k], q[k + 1]));
            }
            assert forall|k: int| 0 <= k < q0.len() implies #[trigger] passable(map, me, war, q0[k]) by {
                assert(passable(map, me, war, q[k]));
            }
        }
        lemma_walk_reached(order, parent, map, me, war, start, head, q0);
        let jv = choose|j: int|
            0 <= j < order.len() && order[j] == walk_end(start, q0) && #[trigger] depth(order, parent, j) <= q0.len();
        let v = order[jv];
        assert(adjacent(v, n)) by {
            if q0.len() > 0 {
                let k = q.len() - 2;
                assert(adjacent(q[k], q[k + 1]));
            }
        }
        assert(q =~= q0.push(n));
        lemma_dirs_push(start, q0, n);
        if jv < head {
            assert(order.contains(n));
        }
        if jv > head {
            assert(depth(order, parent, head) <= depth(order, parent, jv));
        }
        lemma_chain_end(order, parent, start, map, me, war, jv);
        assert(chain_first(order, parent, map, me, war, start, jv));
        assert(lex_le(dirs(start, chain(order, parent, jv)), dirs(start, q0)));
        if jv == head {
            lemma_lex_push(dirs(start, chain(order, parent, head)), dirs(start, q0), i, i);
        } else {
            assert(lex_lt(dirs(start, chain(order, parent, head)), dirs(start, chain(order, parent, jv))));
            lemma_lex_trans(
                dirs(start, chain(order, parent, head)),
                dirs(start, chain(order, parent, jv)),
                dirs(start, q0),
            );
            lemma_lex_push(dirs(start, chain(order, parent, head)), dirs(start, q0), i, i);
        }
    }
    assert forall|j: int| 0 <= j < o1.len() implies #[trigger] chain_first(o1, p1, map, me, war, start, j) by {
        if j < last {
            assert(chain_first(order, parent, map, me, war, start, j));
            assert(o1[j] == order[j]);
        }
    }
    // The new tile comes last among the tiles reached in as many steps.
    assert forall|a: int, b: int|
        0 <= a < b < o1.len() && depth(o1, p1, a) == depth(o1, p1, b) implies lex_lt(
        #[trigger] dirs(start, chain(o1, p1, a)),
        #[trigger] dirs(start, chain(o1, p1, b)),
    ) by {
        if b < last {
            assert(lex_lt(dirs(start, chain(order, parent, a)), dirs(start, chain(order, parent, b))));
        } else {
            lemma_chain_end(order, parent, start, map, me, war, a);
            let pa = parent[a] as int;
            assert(pa <= head);
            assert(pa < a);
            lemma_chain(order, parent, start, map, me, war, a);
            assert(chain(order, parent, a) == chain(order, parent, pa).push(order[a]));
            lemma_chain_end(order, parent, start, map, me, war, pa);
            lemma_dirs_push(start, chain(order, parent, pa), order[a]);
            assert(depth(order, parent, pa) == dh);
            if pa < head {
                assert(lex_lt(dirs(start, chain(order, parent, pa)), dirs(start, chain(order, parent, head))));
                lemma_lex_push(
                    dirs(start, chain(order, parent, pa)),
                    dirs(start, chain(order, parent, head)),
                    dir_of(order[pa], order[a]),
                    i,
                );
            } else {
                lemma_lex_push(
                    dirs(start, chain(order, parent, head)),
                    dirs(start, chain(order, parent, head)),
                    dir_of(order[pa], order[a]),
                    i,
                );
            }
        }
    }
}

/// A target seen from the `head`-th tile in direction `i`, no target having
/// been seen before, gives the path of the first directions among the
/// shortest valid paths.
proof fn lemma_found_first(
    order: Seq<Hex>,
    parent: Seq<usize>,
    map: &HexMap,
    me: CountryId,
    enemies: Seq<CountryId>,
    war: bool,
    start: Hex,
    head: int,
    i: int,
    t: Hex,
    q: Seq<Hex>,
)
    requires
        bfs_wf(order, parent, start, map, me, war),
        depth(order, parent, 0) == 0,
        depths_sorted(order, parent),
        neighbours_reached(order, parent, map, me, war, head),
        0 <= head < order.len(),
        coords_ok(order[head]),
        forall|k: int, x: Hex| 0 <= k < head && #[trigger] adjacent(order[k], x) ==> !is_target(map, enemies, war, x),
        forall|d: int| 0 <= d < i ==> !is_target(map, enemies, war, #[trigger] neighbors_of(order[head])[d]),
        search_in_order(order, parent, map, me, war, start),
        adjacent(order[head], t),
        dir_of(order[head], t) == i,
        valid_path(map, me, enemies, war, start, q),
        q.len() == depth(order, parent, head) + 1,
    ensures
        lex_le(dirs(start, chain(order, parent, head).push(t)), dirs(start, q)),
{
    let q0 = q.drop_last();
    let t2 = q.last();
    assert(walk_ok(map, me, war, start, q0)) by {
        assert forall|k: int| 0 <= k < q0.len() - 1 implies #[trigger] adjacent(q0[k], q0[k + 1]) by {
            assert(adjacent(q[k], q[k + 1]));
        }
        assert forall|k: int| 0 <= k < q0.len() implies #[trigger] passable(map, me, war, q0[k]) by {
            assert(passable(map, me, war, q[k]));
        }
    }
    lemma_walk_reached(order, parent, map, me, war, start, head, q0);
    let jv = choose|j: int|
        0 <= j < order.len() && order[j] == walk_end(start, q0) && #[trigger] depth(order, parent, j) <= q0.len();
    assert(adjacent(order[jv], t2)) by {
        if q0.len() > 0 {
            let k = q.len() - 2;
            assert(adjacent(q[k], q[k + 1]));
        }
    }
    assert(q =~= q0.push(t2));
    lemma_dirs_push(start, q0, t2);
    lemma_chain_end(order, parent, start, map, me, war, head);
    lemma_dirs_push(start, chain(order, parent, head), t);
    if jv < head {
        assert(!is_target(map, enemies, war, t2));
    }
    if jv > head {
        assert(depth(order, parent, head) <= depth(order, parent, jv));
    }
    lemma_chain_end(order, parent, start, map, me, war, jv);
    assert(chain_first(order, parent, map, me, war, start, jv));
    assert(lex_le(dirs(start, chain(order, parent, jv)), dirs(start, q0)));
    let dt = dir_of(order[jv], t2);
    if jv == head {
        lemma_dir_of_neighbors(order[head]);
        if dt < i {
            assert(!is_target(map, enemies, war, neighbors_of(order[head])[dt]));
        }
        lemma_lex_push(dirs(start, chain(order, parent, head)), dirs(start, q0), i, dt);
    } else {
        assert(lex_lt(dirs(start, chain(order, parent, head)), dirs(start, chain(order, parent, jv))));
        lemma_lex_trans(
            dirs(start, chain(order, parent, head)),
            dirs(start, chain(order, parent, jv)),
            dirs(start, q0),
        );
        lemma_lex_push(dirs(start, chain(order, parent, head)), dirs(start, q0), i, dt);
    }
}

/// The path to a target `t` seen from the `p`-th reached tile is valid.
pub proof fn lemma_found_path(
    order: Seq<Hex>,
    parent: Seq<usize>,
    start: Hex,
    map: &HexMap,
    me: CountryId,
    enemies: Seq<CountryId>,
    war: bool,
    p: int,
    t: Hex,
)
    requires
        bfs_wf(order, parent, start, map, me, war),
        0 <= p < order.len(),
        adjacent(order[p], t),
        is_target(map, enemies, war, t),
    ensures
        valid_path(map, me, enemies, war, start, chain(order, parent, p).push(t)),
{
    let c = chain(order, parent, p);
    let path = c.push(t);
    if p == 0 {
        assert(c =~= Seq::<Hex>::empty());
    } else {
        lemma_chain(order, parent, start, map, me, war, p);
        assert forall|k: int| 0 <= k < path.len() - 1 implies #[trigger] adjacent(path[k], path[k + 1]) by {
            if k < c.len() - 1 {
                assert(path[k] == c[k] && path[k + 1] == c[k + 1]);
            } else {
                assert(path[k] == order[p]);
            }
        }
        assert forall|k: int| 0 <= k < path.len() - 1 implies #[trigger] passable_in(
            map.entities@,
            map.hex_owners@,
            me,
            war,
            path[k],
        ) by {
            assert(path[k] == c[k]);
            assert(passable(map, me, war, c[k]));
        }
    }
}

/// Distinct tiles of the board are no more than the board's tiles.
pub proof fn lemma_tiles_bound(tail: Seq<Hex>, es: Seq<(Hex, Tile)>)
    requires
        tail.no_duplicates(),
        keys_distinct(es),
        forall|x: Hex| #[trigger] tail.contains(x) ==> has_key(es, x),
    ensures
        tail.len() <= es.len(),
{
    broadcast use vstd::seq_lib::seq_to_set_is_finite;

    let ks = Seq::new(es.len(), |j: int| es[j].0);
    assert(ks.no_duplicates()) by {
        assert forall|a: int, b: int| 0 <= a < ks.len() && 0 <= b < ks.len() && a != b implies ks[a]
            != ks[b] by {
            if es[a].0 == es[b].0 {
            }
        }
    }
    assert(tail.to_set().subset_of(ks.to_set())) by {
        assert forall|x: Hex| #[trigger] tail.to_set().contains(x) implies ks.to_set().contains(x) by {
            assert(tail.contains(x));
            let j = choose|j: int| 0 <= j < es.len() && #[trigger] es[j].0 == x;
            assert(ks[j] == x);
        }
    }
    tail.unique_seq_to_set();
    ks.unique_seq_to_set();
    vstd::set_lib::lemma_len_subset(tail.to_set(), ks.to_set());
}

/// The search after looking at `neighbour` of the `cur`-th reached tile:
/// passable tiles not reached yet are added; `true` when `neighbour` is what
/// the search looks for.
fn bfs_neighbour_step(
    map: &HexMap,
    me: CountryId,
    enemies: &Vec<CountryId>,
    war: bool,
    order: &mut Vec<Hex>,
    parent: &mut Vec<usize>,
    cur: usize,
    neighbour: Hex,
) -> (found: bool)
    requires
        map.wf(),
        bfs_wf(old(order)@, old(parent)@, old(order)@[0], map, me, war),
        cur < old(order)@.len(),
        adjacent(old(order)@[cur as int], neighbour),
    ensures
        bfs_wf(final(order)@, final(parent)@, old(order)@[0], map, me, war),
        final(order)@ == old(order)@ || (final(order)@ == old(order)@.push(neighbour)
            && final(parent)@ == old(parent)@.push(cur)),
        final(order)@ == old(order)@ ==> final(parent)@ == old(parent)@,
        found ==> is_target(map, enemies@, war, neighbour),
        !found && (war ==> !enemies@.contains(me)) ==> !is_target(map, enemies@, war, neighbour),
        !found ==> (passable(map, me, war, neighbour) ==> final(order)@.contains(neighbour)),
{
    match map.entities.get(&neighbour) {
        Some(tile) => {
            if let TerrainType::Water = tile.terrain {
                return false;
            }
        },
        None => {
            return false;
        },
    }
    let n = order.len();
    let mut seen = false;
    let mut k: usize = 0;
    while k < n
        invariant
            n == order@.len(),
            k <= n,
            !seen ==> forall|j: int| 0 <= j < k ==> order@[j] != neighbour,
            seen ==> order@.contains(neighbour),
        decreases n - k,
    {
        if order[k] == neighbour {
            seen = true;
        }
        k = k + 1;
    }
    let mut add = false;
    let mut found = false;
    match map.hex_owners.get(&neighbour) {
        Some(owner) => {
            if owner == me && !seen {
                add = true;
            } else if war && vec_contains(enemies, owner) {
                found = true;
            }
        },
        None => {
            if war {
                if !seen {
                    add = true;
                }
            } else {
                found = true;
            }
        },
    }
    if add {
        let ghost o0 = order@;
        let ghost p0 = parent@;
        order.push(neighbour);
        parent.push(cur);
        proof {
            let o1 = order@;
            assert(o1.no_duplicates()) by {
                assert forall|a: int, b: int| 0 <= a < o1.len() && 0 <= b < o1.len() && a != b implies o1[a]
                    != o1[b] by {
                    if a < o0.len() && b < o0.len() {
                        assert(o0[a] != o0[b]);
                    } else if a < o0.len() {
                        assert(o0[a] != neighbour);
                    } else {
                        assert(o0[b] != neighbour);
                    }
                }
            }
            lemma_entries_map_all(map.entities.seq());
            assert forall|x: Hex| #[trigger] o1.drop_first().contains(x) implies has_key(
                map.entities.seq(),
                x,
            ) by {
                let j = choose|j: int| 0 <= j < o1.drop_first().len() && o1.drop_first()[j] == x;
                assert(o1[j + 1] == x);
                if j + 1 < o0.len() {
                    assert(p0[j + 1] < j + 1);
                    assert(passable(map, me, war, o0[j + 1]));
                }
                assert(map.entities@.contains_key(x));
            }
            assert(o1.drop_first().no_duplicates()) by {
                assert forall|a: int, b: int|
                    0 <= a < o1.drop_first().len() && 0 <= b < o1.drop_first().len() && a != b implies o1.drop_first()[a]
                    != o1.drop_first()[b] by {
                    assert(o1[a + 1] != o1[b + 1]);
                }
            }
            lemma_tiles_bound(o1.drop_first(), map.entities.seq());
            assert(o1[o0.len() as int] == neighbour);
        }
    }
    found
}

/// `rev(s)` holds `s` backwards.
pub open spec fn rev(s: Seq<Hex>) -> Seq<Hex>
    decreases s.len(),
{
    if s.len() == 0 {
        s
    } else {
        seq![s.last()] + rev(s.drop_last())
    }
}

/// The path to the target `t` seen from the `p`-th reached tile: every tile
/// from just after the start to `t`.
fn reconstruct_bfs_path(order: &Vec<Hex>, parent: &Vec<usize>, p: usize, t: Hex) -> (r: Vec<Hex>)
    requires
        order@.len() == parent@.len(),
        p < order@.len(),
        forall|i: int| 1 <= i < order@.len() ==> (#[trigger] parent@[i]) < i,
    ensures
        r@ == chain(order@, parent@, p as int).push(t),
{
    let mut acc: Vec<Hex> = Vec::new();
    acc.push(t);
    let mut j = p;
    assert(rev(acc@) =~= seq![t]) by {
        assert(acc@.drop_last() =~= Seq::<Hex>::empty());
        assert(rev(Seq::<Hex>::empty()) == Seq::<Hex>::empty());
    }
    while j != 0
        invariant
            order@.len() == parent@.len(),
            j < order@.len(),
            forall|i: int| 1 <= i < order@.len() ==> (#[trigger] parent@[i]) < i,
            chain(order@, parent@, p as int).push(t) == chain(order@, parent@, j as int) + rev(acc@),
        decreases j,
    {
        let ghost a0 = acc@;
        acc.push(order[j]);
        assert(acc@.drop_last() =~= a0);
        assert(chain(order@, parent@, j as int) == chain(order@, parent@, parent@[j as int] as int).push(
            order@[j as int],
        ));
        assert(chain(order@, parent@, j as int) + rev(a0) =~= chain(
            order@,
            parent@,
            parent@[j as int] as int,
        ) + rev(acc@));
        j = parent[j];
    }
    assert(chain(order@, parent@, 0) =~= Seq::<Hex>::empty());
    assert(chain(order@, parent@, p as int).push(t) =~= rev(acc@));
    let mut r: Vec<Hex> = Vec::new();
    let mut k = acc.len();
    assert(acc@.take(k as int) =~= acc@);
    while k > 0
        invariant
            k <= acc@.len(),
            r@ + rev(acc@.take(k as int)) == rev(acc@),
        decreases k,
    {
        let ghost r0 = r@;
        let ghost t0 = acc@.take(k as int);
        assert(t0.drop_last() =~= acc@.take(k - 1));
        assert(t0.last() == acc@[k - 1]);
        r.push(acc[k - 1]);
        assert(r@ + rev(acc@.take(k - 1)) =~= r0 + rev(t0));
        k = k - 1;
    }
    assert(acc@.take(0) =~= Seq::<Hex>::empty());
    assert(r@ =~= rev(acc@));
    r
}

/// Breadth-first search from `start` for the nearest target (see
/// `is_target`) over passable tiles, trying each tile's neighbours in the
/// order given by hexx or, in peace, in a random order. Returns the path to
/// the first target found, which no valid path is shorter than.
#[verifier::spinoff_prover]
fn bfs_search(start: Hex, map: &HexMap, me: CountryId, enemies: &Vec<CountryId>, war: bool) -> (r:
    Option<Vec<Hex>>)
    requires
        map.wf(),
    ensures
        r matches Some(p) ==> valid_path(map, me, enemies@, war, start, p@),
        r is None && coords_ok(start) && all_coords_ok(map) && (war ==> !enemies@.contains(me))
            ==> forall|p: Seq<Hex>| !#[trigger] valid_path(map, me, enemies@, war, start, p),
        r is Some && coords_ok(start) && all_coords_ok(map) && (war ==> !enemies@.contains(me))
            ==> forall|q: Seq<Hex>| #[trigger] valid_path(map, me, enemies@, war, start, q) ==> r.unwrap()@.len() <= q.len(),
        r is Some && war && coords_ok(start) && all_coords_ok(map) && !enemies@.contains(me) ==> forall|q: Seq<Hex>|
            #[trigger] valid_path(map, me, enemies@, war, start, q) && q.len() == r.unwrap()@.len() ==> lex_le(
                dirs(start, r.unwrap()@),
                dirs(start, q),
            ),
{
    let mut order: Vec<Hex> = Vec::new();
    let mut parent: Vec<usize> = Vec::new();
    order.push(start);
    parent.push(0);
    let ghost cond = coords_ok(start) && all_coords_ok(map) && (war ==> !enemies@.contains(me));
    assert(depth(order@, parent@, 0) == 0);
    proof {
        assert(chain(order@, parent@, 0) =~= Seq::<Hex>::empty());
        assert forall|q: Seq<Hex>|
            walk_ok(map, me, war, start, q) && q.len() == depth(order@, parent@, 0) && walk_end(start, q)
                == order@[0] implies lex_le(#[trigger] dirs(start, chain(order@, parent@, 0)), dirs(start, q)) by {
            assert(dirs(start, q) =~= dirs(start, chain(order@, parent@, 0)));
        }
        assert(chain_first(order@, parent@, map, me, war, start, 0));
    }
    let mut head: usize = 0;
    while head < order.len()
        invariant
            map.wf(),
            bfs_wf(order@, parent@, start, map, me, war),
            head <= order@.len(),
            cond == (coords_ok(start) && all_coords_ok(map) && (war ==> !enemies@.contains(me))),
            cond ==> forall|k: int, n: Hex|
                0 <= k < head && #[trigger] adjacent(order@[k], n) ==> (passable(map, me, war, n)
                    ==> order@.contains(n)) && !is_target(map, enemies@, war, n),
            depth(order@, parent@, 0) == 0,
            depths_sorted(order@, parent@),
            head < order@.len() ==> forall|j: int|
                0 <= j < order@.len() ==> #[trigger] depth(order@, parent@, j) <= depth(order@, parent@, head as int)
                    + 1,
            cond ==> neighbours_reached(order@, parent@, map, me, war, head as int),
            war && cond ==> search_in_order(order@, parent@, map, me, war, start),
            forall|a: int| 1 <= a < order@.len() ==> (#[trigger] parent@[a]) < head,
        decreases map.entities.seq().len() + 1 - head,
    {
        let hex = order[head];
        if hex.x == i32::MIN || hex.x == i32::MAX || hex.y == i32::MIN || hex.y == i32::MAX {
            proof {
                if cond {
                    if head > 0 {
                        assert(parent@[head as int] < head);
                        assert(passable(map, me, war, order@[head as int]));
                        assert(map.entities@.contains_key(hex));
                    }
                    assert(coords_ok(hex));
                    assert(false);
                }
                if head + 1 < order@.len() {
                    assert(depth(order@, parent@, head as int) <= depth(order@, parent@, head + 1));
                }
            }
            head = head + 1;
            continue;
        }
        let nb0 = all_neighbors(hex);
        let nb = if war {
            nb0
        } else {
            shuffle_hexes(nb0)
        };
        proof {
            lemma_neighbors_adjacent(hex);
            broadcast use vstd::seq_lib::group_to_multiset_ensures;

            assert forall|n: Hex| #[trigger] nb@.contains(n) <==> neighbors_of(hex).contains(n) by {
                assert(nb@.contains(n) <==> nb@.to_multiset().count(n) > 0);
                assert(nb0@.contains(n) <==> nb0@.to_multiset().count(n) > 0);
            }
        }
        let ghost dh = depth(order@, parent@, head as int);
        let mut i: usize = 0;
        while i < 6
            invariant
                map.wf(),
                bfs_wf(order@, parent@, start, map, me, war),
                head < order@.len(),
                order@[head as int] == hex,
                coords_ok(hex),
                i <= 6,
                nb@.len() == 6,
                forall|n: Hex| #[trigger] nb@.contains(n) ==> adjacent(hex, n),
                cond == (coords_ok(start) && all_coords_ok(map) && (war ==> !enemies@.contains(me))),
                cond ==> forall|k: int, n: Hex|
                    0 <= k < head && #[trigger] adjacent(order@[k], n) ==> (passable(map, me, war, n)
                        ==> order@.contains(n)) && !is_target(map, enemies@, war, n),
                cond ==> forall|j: int|
                    0 <= j < i ==> (passable(map, me, war, #[trigger] nb@[j]) ==> order@.contains(
                        nb@[j],
                    )) && !is_target(map, enemies@, war, nb@[j]),
                depth(order@, parent@, 0) == 0,
                depths_sorted(order@, parent@),
                dh == depth(order@, parent@, head as int),
                forall|j: int| 0 <= j < order@.len() ==> #[trigger] depth(order@, parent@, j) <= dh + 1,
                cond ==> neighbours_reached(order@, parent@, map, me, war, head as int),
                cond ==> forall|q: int|
                    0 <= q < i && passable(map, me, war, #[trigger] nb@[q]) ==> exists|j: int|
                        0 <= j < order@.len() && order@[j] == nb@[q] && #[trigger] depth(order@, parent@, j) <= dh
                            + 1,
                war ==> nb@ == neighbors_of(hex),
                war && cond ==> search_in_order(order@, parent@, map, me, war, start),
                forall|a: int| 1 <= a < order@.len() ==> (#[trigger] parent@[a]) <= head,
                war ==> forall|a: int|
                    1 <= a < order@.len() && (#[trigger] parent@[a]) == head ==> dir_of(hex, order@[a]) < i,
            decreases 6 - i,
        {
            let neighbour = nb[i];
            assert(nb@.contains(neighbour));
            let ghost o0 = order@;
            let ghost p0 = parent@;
            let found = bfs_neighbour_step(map, me, enemies, war, &mut order, &mut parent, head, neighbour);
            proof {
                if order@ != o0 {
                    if war && cond {
                        lemma_dir_of_neighbors(hex);
                        assert(nb@[i as int] == neighbors_of(hex)[i as int]);
                        assert(passable(map, me, war, order@[o0.len() as int]));
                        lemma_reach_in_order(o0, p0, map, me, war, start, head as int, i as int, neighbour);
                    }
                    assert forall|a: int| 1 <= a < order@.len() implies (#[trigger] parent@[a]) <= head by {
                        if a < o0.len() {
                            assert(parent@[a] == p0[a]);
                        }
                    }
                    if war {
                        lemma_dir_of_neighbors(hex);
                        assert forall|a: int| 1 <= a < order@.len() && (#[trigger] parent@[a]) == head implies dir_of(
                            hex,
                            order@[a],
                        ) < i + 1 by {
                            if a < o0.len() {
                                assert(parent@[a] == p0[a]);
                                assert(order@[a] == o0[a]);
                            } else {
                                assert(nb@[i as int] == neighbors_of(hex)[i as int]);
                            }
                        }
                    }
                }
                assert forall|x: Hex| o0.contains(x) implies #[trigger] order@.contains(x) by {
                    let j = choose|j: int| 0 <= j < o0.len() && o0[j] == x;
                    assert(order@[j] == x);
                }
                assert forall|k: int| 0 <= k < head implies order@[k] == o0[k] by {}
                if order@ != o0 {
                    assert forall|j: int| 0 <= j < o0.len() implies #[trigger] depth(order@, parent@, j) == depth(
                        o0,
                        p0,
                        j,
                    ) by {
                        lemma_chain_push(o0, p0, neighbour, head, j);
                    }
                    let last = o0.len() as int;
                    lemma_chain_push(o0, p0, neighbour, head, head as int);
                    assert(chain(order@, parent@, last) == chain(order@, parent@, head as int).push(neighbour));
                    assert(depth(order@, parent@, last) == dh + 1);
                    assert(depth(order@, parent@, 0) == 0);
                    assert(depths_sorted(order@, parent@)) by {
                        assert forall|a: int, b: int| 0 <= a <= b < order@.len() implies #[trigger] depth(
                            order@,
                            parent@,
                            a,
                        ) <= #[trigger] depth(order@, parent@, b) by {
                            if b < last {
                                assert(depth(o0, p0, a) <= depth(o0, p0, b));
                            } else if a < last {
                                assert(depth(o0, p0, a) <= dh + 1);
                            }
                        }
                    }
                    assert forall|j: int| 0 <= j < order@.len() implies #[trigger] depth(order@, parent@, j) <= dh + 1 by {
                        if j < last {
                            assert(depth(o0, p0, j) <= dh + 1);
                        }
                    }
                    if cond {
                        assert forall|k: int, n: Hex|
                            0 <= k < head && #[trigger] adjacent(order@[k], n) && passable(map, me, war, n) implies exists|j: int|
                                0 <= j < order@.len() && order@[j] == n && #[trigger] depth(order@, parent@, j) <= depth(
                                    order@,
                                    parent@,
                                    k,
                                ) + 1 by {
                            assert(adjacent(o0[k], n));
                            let j = choose|j: int|
                                0 <= j < o0.len() && o0[j] == n && #[trigger] depth(o0, p0, j) <= depth(o0, p0, k) + 1;
                            assert(order@[j] == n);
                            assert(depth(order@, parent@, j) == depth(o0, p0, j));
                            assert(depth(order@, parent@, k) == depth(o0, p0, k));
                        }
                        assert forall|q: int|
                            0 <= q < i + 1 && passable(map, me, war, #[trigger] nb@[q]) implies exists|j: int|
                                0 <= j < order@.len() && order@[j] == nb@[q] && #[trigger] depth(order@, parent@, j)
                                    <= dh + 1 by {
                            if q < i {
                                let j = choose|j: int|
                                    0 <= j < o0.len() && o0[j] == nb@[q] && #[trigger] depth(o0, p0, j) <= dh + 1;
                                assert(order@[j] == nb@[q]);
                                assert(depth(order@, parent@, j) == depth(o0, p0, j));
                            } else {
                                assert(order@[last] == nb@[q]);
                            }
                        }
                    }
                } else {
                    if cond && !found {
                        assert forall|q: int|
                            0 <= q < i + 1 && passable(map, me, war, #[trigger] nb@[q]) implies exists|j: int|
                                0 <= j < order@.len() && order@[j] == nb@[q] && #[trigger] depth(order@, parent@, j)
                                    <= dh + 1 by {
                            if q == i {
                                assert(order@.contains(nb@[q]));
                                let j = choose|j: int| 0 <= j < order@.len() && order@[j] == nb@[q];
                                assert(depth(order@, parent@, j) <= dh + 1);
                            }
                        }
                    }
                }
            }
            if found {
                proof {
                    lemma_found_path(order@, parent@, start, map, me, enemies@, war, head as int, neighbour);
                    if war && cond {
                        lemma_dir_of_neighbors(hex);
                        assert forall|q: Seq<Hex>|
                            #[trigger] valid_path(map, me, enemies@, war, start, q) && q.len() == chain(
                                order@,
                                parent@,
                                head as int,
                            ).push(neighbour).len() implies lex_le(
                            dirs(start, chain(order@, parent@, head as int).push(neighbour)),
                            dirs(start, q),
                        ) by {
                            assert forall|d: int| 0 <= d < i implies !is_target(
                                map,
                                enemies@,
                                war,
                                #[trigger] neighbors_of(order@[head as int])[d],
                            ) by {
                                assert(nb@[d] == neighbors_of(hex)[d]);
                            }
                            lemma_chain_push_len(order@, parent@, head as int, neighbour);
                            lemma_found_first(
                                order@,
                                parent@,
                                map,
                                me,
                                enemies@,
                                war,
                                start,
                                head as int,
                                i as int,
                                neighbour,
                                q,
                            );
                        }
                    }
                    if cond {
                        assert forall|q: Seq<Hex>| #[trigger] valid_path(map, me, enemies@, war, start, q) implies chain(
                            order@,
                            parent@,
                            head as int,
                        ).push(neighbour).len() <= q.len() by {
                            lemma_bfs_shortest(order@, parent@, map, me, enemies@, war, start, head as int, q);
                        }
                    }
                }
                let path = reconstruct_bfs_path(&order, &parent, head, neighbour);
                return Some(path);
            }
            i = i + 1;
        }
        proof {
            if cond {
                assert forall|k: int, n: Hex|
                    0 <= k < head + 1 && #[trigger] adjacent(order@[k], n) implies (passable(map, me, war, n)
                        ==> order@.contains(n)) && !is_target(map, enemies@, war, n) by {
                    if k == head {
                        assert(neighbors_of(hex).contains(n));
                        assert(nb@.contains(n));
                        let j = choose|j: int| 0 <= j < 6 && nb@[j] == n;
                        assert(passable(map, me, war, nb@[j]) ==> order@.contains(nb@[j]));
                    }
                }
                assert forall|k: int, n: Hex|
                    0 <= k < head + 1 && #[trigger] adjacent(order@[k], n) && passable(map, me, war, n) implies exists|j: int|
                        0 <= j < order@.len() && order@[j] == n && #[trigger] depth(order@, parent@, j) <= depth(
                            order@,
                            parent@,
                            k,
                        ) + 1 by {
                    if k == head {
                        assert(neighbors_of(hex).contains(n));
                        assert(nb@.contains(n));
                        let q = choose|q: int| 0 <= q < 6 && nb@[q] == n;
                        assert(passable(map, me, war, nb@[q]));
                    }
                }
            }
            if head + 1 < order@.len() {
                assert(depth(order@, parent@, head as int) <= depth(order@, parent@, head + 1));
            }
        }
        head = head + 1;
    }
    proof {
        if cond {
            assert forall|p: Seq<Hex>| !#[trigger] valid_path(map, me, enemies@, war, start, p) by {
                lemma_path_stays_reached(order@, map, me, enemies@, war, start, p);
            }
        }
    }
    None
}

/// Once every reached tile has been searched, a valid path would lead
/// through reached tiles to a target next to one of them, which the search
/// would have seen.
proof fn lemma_path_step_reached(
    order: Seq<Hex>,
    map: &HexMap,
    me: CountryId,
    enemies: Seq<CountryId>,
    war: bool,
    start: Hex,
    p: Seq<Hex>,
    i: int,
)
    requires
        order.len() >= 1,
        order[0] == start,
        valid_path(map, me, enemies, war, start, p),
        0 <= i < p.len(),
        forall|k: int, n: Hex|
            0 <= k < order.len() && #[trigger] adjacent(order[k], n) ==> (passable(map, me, war, n)
                ==> order.contains(n)) && !is_target(map, enemies, war, n),
    ensures
        exists|k: int| 0 <= k < order.len() && #[trigger] adjacent(order[k], p[i]),
    decreases i,
{
    if i == 0 {
        assert(adjacent(order[0], p[0]));
    } else {
        lemma_path_step_reached(order, map, me, enemies, war, start, p, i - 1);
        let k = choose|k: int| 0 <= k < order.len() && #[trigger] adjacent(order[k], p[i - 1]);
        assert(passable(map, me, war, p[i - 1]));
        assert(order.contains(p[i - 1]));
        let k2 = choose|k2: int| 0 <= k2 < order.len() && order[k2] == p[i - 1];
        let k0 = i - 1;
        assert(adjacent(p[k0], p[k0 + 1]));
        assert(adjacent(order[k2], p[i]));
    }
}

proof fn lemma_path_stays_reached(
    order: Seq<Hex>,
    map: &HexMap,
    me: CountryId,
    enemies: Seq<CountryId>,
    war: bool,
    start: Hex,
    p: Seq<Hex>,
)
    requires
        order.len() >= 1,
        order[0] == start,
        forall|k: int, n: Hex|
            0 <= k < order.len() && #[trigger] adjacent(order[k], n) ==> (passable(map, me, war, n)
                ==> order.contains(n)) && !is_target(map, enemies, war, n),
    ensures
        !valid_path(map, me, enemies, war, start, p),
{
    if valid_path(map, me, enemies, war, start, p) {
        let m = p.len();
        lemma_path_step_reached(order, map, me, enemies, war, start, p, m - 1);
        let k = choose|k: int| 0 <= k < order.len() && #[trigger] adjacent(order[k], p[m - 1]);
        assert(!is_target(map, enemies, war, p[m - 1]));
    }
}

/// The path from `start` to the nearest land of one of `enemies` over the
/// country's own and unowned land, if there is one: no valid path is
/// shorter, and of the shortest ones it is the one whose steps' directions
/// come first (neighbours are tried in a fixed order).
pub fn find_closest_enemy_hex(start: Hex, map: &HexMap, enemies: &Vec<CountryId>, me: &CountryId) -> (r:
    Option<Vec<Hex>>)
    requires
        map.wf(),
    ensures
        nearest_choice(map.entities@, map.hex_owners@, *me, enemies@, true, start, answer_view(r)),
{
    let r = bfs_search(start, map, *me, enemies, true);
    proof {
        lemma_search_answer(map, *me, enemies@, true, start, r);
    }
    r
}

/// The path from `start` to the nearest unowned land over the country's own
/// land, if there is one: no valid path is shorter. Neighbours are tried in a
/// random order, so of several nearest tiles any may be the one reached.
pub fn find_closest_unowned_hex(start: Hex, map: &HexMap, me: &CountryId) -> (r: Option<Vec<Hex>>)
    requires
        map.wf(),
    ensures
        nearest_choice(map.entities@, map.hex_owners@, *me, Seq::empty(), false, start, answer_view(r)),
{
    let none: Vec<CountryId> = Vec::new();
    let r = bfs_search(start, map, *me, &none, false);
    proof {
        assert(none@ =~= Seq::<CountryId>::empty());
        lemma_search_answer(map, *me, none@, false, start, r);
    }
    r
}

/// The three facts a search establishes make up `nearest_choice`.
proof fn lemma_search_answer(
    map: &HexMap,
    me: CountryId,
    enemies: Seq<CountryId>,
    war: bool,
    start: Hex,
    r: Option<Vec<Hex>>,
)
    requires
        r matches Some(p) ==> valid_path(map, me, enemies, war, start, p@),
        r is None && coords_ok(start) && all_coords_ok(map) && (war ==> !enemies.contains(me))
            ==> forall|p: Seq<Hex>| !#[trigger] valid_path(map, me, enemies, war, start, p),
        r is Some && coords_ok(start) && all_coords_ok(map) && (war ==> !enemies.contains(me))
            ==> forall|q: Seq<Hex>| #[trigger] valid_path(map, me, enemies, war, start, q) ==> r.unwrap()@.len() <= q.len(),
        r is Some && war && coords_ok(start) && all_coords_ok(map) && !enemies.contains(me) ==> forall|q: Seq<Hex>|
            #[trigger] valid_path(map, me, enemies, war, start, q) && q.len() == r.unwrap()@.len() ==> lex_le(
                dirs(start, r.unwrap()@),
                dirs(start, q),
            ),
    ensures
        nearest_choice(map.entities@, map.hex_owners@, me, enemies, war, start, answer_view(r)),
{
    let ents = map.entities@;
    let owners = map.hex_owners@;
    match r {
        Some(p) => {
            assert forall|q: Seq<Hex>|
                coords_ok(start) && coords_ok_in(ents) && (war ==> !enemies.contains(me))
                    && #[trigger] path_in(ents, owners, me, enemies, war, start, q) implies p@.len() <= q.len() by {
                assert(valid_path(map, me, enemies, war, start, q));
            }
            assert forall|q: Seq<Hex>|
                coords_ok(start) && coords_ok_in(ents) && war && !enemies.contains(me)
                    && #[trigger] path_in(ents, owners, me, enemies, war, start, q) && q.len() == p@.len() implies lex_le(
                dirs(start, p@),
                dirs(start, q),
            ) by {
                assert(valid_path(map, me, enemies, war, start, q));
            }
        },
        None => {
            assert forall|q: Seq<Hex>|
                coords_ok(start) && coords_ok_in(ents) && (war ==> !enemies.contains(me))
                    implies !#[trigger] path_in(ents, owners, me, enemies, war, start, q) by {
                assert(!valid_path(map, me, enemies, war, start, q));
            }
        },
    }
}

} // verus!
