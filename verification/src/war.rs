use vstd::prelude::*;
use crate::hex::Hex;
use crate::map::{CountryId, HexMap};
use crate::political::Occupied;
use crate::table::Table;
use crate::util::{vec_contains, copy_ids};

verus! {

/// For each country, the countries it is at war with, in the order the wars
/// began.
pub struct AtWarLists {
    pub lists: Table<CountryId, Vec<CountryId>>,
}

impl View for AtWarLists {
    type V = Map<CountryId, Seq<CountryId>>;

    open spec fn view(&self) -> Map<CountryId, Seq<CountryId>> {
        Map::new(|c: CountryId| self.lists@.contains_key(c), |c: CountryId| self.lists@[c]@)
    }
}

impl AtWarLists {
    pub open spec fn wf(&self) -> bool {
        self.lists.wf()
    }

    pub fn new() -> (w: AtWarLists)
        ensures
            w.wf(),
            w@ == Map::<CountryId, Seq<CountryId>>::empty(),
    {
        let w = AtWarLists { lists: Table::new() };
        assert(w@ =~= Map::<CountryId, Seq<CountryId>>::empty());
        w
    }

    /// Gives `country` the list `enemies`.
    pub fn set_list(&mut self, country: CountryId, enemies: Vec<CountryId>)
        requires
            old(self).wf(),
        ensures
            final(self).wf(),
            final(self)@ == old(self)@.insert(country, enemies@),
    {
        let ghost e = enemies@;
        self.lists.insert(country, enemies);
        assert(self@ =~= old(self)@.insert(country, e));
    }
}

/// `a` lists `b` as an enemy.
pub open spec fn at_war(w: Map<CountryId, Seq<CountryId>>, a: CountryId, b: CountryId) -> bool {
    w.contains_key(a) && w[a].contains(b)
}

/// Wars go both ways: whoever is listed as an enemy has a list naming the
/// other side.
pub open spec fn wars_symmetric(w: Map<CountryId, Seq<CountryId>>) -> bool {
    forall|a: CountryId, b: CountryId| #[trigger] at_war(w, a, b) ==> at_war(w, b, a)
}

/// No list names a country twice.
pub open spec fn wars_no_duplicates(w: Map<CountryId, Seq<CountryId>>) -> bool {
    forall|a: CountryId| #[trigger] w.contains_key(a) ==> w[a].no_duplicates()
}

/// The list of `a` after `b` is added to it, unless `a` has no list or
/// already names `b`.
pub open spec fn add_enemy(w: Map<CountryId, Seq<CountryId>>, a: CountryId, b: CountryId) -> Map<
    CountryId,
    Seq<CountryId>,
> {
    if w.contains_key(a) && !w[a].contains(b) {
        w.insert(a, w[a].push(b))
    } else {
        w
    }
}

/// The wars after `perpetrator` declares war on `enemy`.
pub open spec fn spec_start_war(
    w: Map<CountryId, Seq<CountryId>>,
    perpetrator: CountryId,
    enemy: CountryId,
) -> Map<CountryId, Seq<CountryId>> {
    if perpetrator == enemy {
        w
    } else {
        add_enemy(add_enemy(w, perpetrator, enemy), enemy, perpetrator)
    }
}

fn add_enemy_exec(wars: &mut AtWarLists, a: CountryId, b: CountryId)
    requires
        old(wars).wf(),
    ensures
        final(wars).wf(),
        final(wars)@ == add_enemy(old(wars)@, a, b),
{
    let mut updated: Option<Vec<CountryId>> = None;
    if let Some(list) = wars.lists.get_ref(&a) {
        if !vec_contains(list, b) {
            let mut l = copy_ids(list);
            l.push(b);
            updated = Some(l);
        }
    }
    match updated {
        Some(l) => {
            wars.set_list(a, l);
        },
        None => {},
    }
}

/// `perpetrator` and `enemy` go to war: each is added to the other's list,
/// where that list exists and does not name it already.
pub fn start_war(perpetrator: CountryId, enemy: CountryId, countries_wars: &mut AtWarLists)
    requires
        old(countries_wars).wf(),
    ensures
        final(countries_wars).wf(),
        final(countries_wars)@ == spec_start_war(old(countries_wars)@, perpetrator, enemy),
{
    if perpetrator == enemy {
        return ;
    }
    add_enemy_exec(countries_wars, perpetrator, enemy);
    add_enemy_exec(countries_wars, enemy, perpetrator);
}

/// Starting a war keeps wars two-sided and lists free of repeats, and the two
/// countries are then at war with each other.
pub proof fn lemma_start_war_laws(
    w: Map<CountryId, Seq<CountryId>>,
    perpetrator: CountryId,
    enemy: CountryId,
)
    requires
        wars_symmetric(w),
        wars_no_duplicates(w),
        w.contains_key(perpetrator),
        w.contains_key(enemy),
        perpetrator != enemy,
    ensures
        wars_symmetric(spec_start_war(w, perpetrator, enemy)),
        wars_no_duplicates(spec_start_war(w, perpetrator, enemy)),
        at_war(spec_start_war(w, perpetrator, enemy), perpetrator, enemy),
        at_war(spec_start_war(w, perpetrator, enemy), enemy, perpetrator),
{
    let w1 = add_enemy(w, perpetrator, enemy);
    let w2 = add_enemy(w1, enemy, perpetrator);
    assert(w1.contains_key(enemy));
    assert(w2[perpetrator].contains(enemy)) by {
        if w[perpetrator].contains(enemy) {
        } else {
            assert(w1[perpetrator].last() == enemy);
        }
    }
    assert(w2[enemy].contains(perpetrator)) by {
        if w1[enemy].contains(perpetrator) {
        } else {
            assert(w2[enemy].last() == perpetrator);
        }
    }
    assert forall|a: CountryId, b: CountryId| #[trigger] at_war(w2, a, b) implies at_war(
        w2,
        b,
        a,
    ) by {
        if a == perpetrator && b == enemy {
        } else if a == enemy && b == perpetrator {
        } else {
            assert(at_war(w, a, b)) by {
                if a == perpetrator {
                    if !w[perpetrator].contains(enemy) {
                        let i = choose|i: int| 0 <= i < w2[a].len() && w2[a][i] == b;
                        assert(w1[a] == w[a].push(enemy));
                        assert(i < w[a].len());
                        assert(w[a][i] == b);
                    }
                } else if a == enemy {
                    if !w1[enemy].contains(perpetrator) {
                        let i = choose|i: int| 0 <= i < w2[a].len() && w2[a][i] == b;
                        assert(w2[a] == w1[a].push(perpetrator));
                        assert(i < w1[a].len());
                        assert(w1[a][i] == b);
                    }
                }
            }
            assert(at_war(w, b, a));
            assert(at_war(w2, b, a)) by {
                let j = choose|j: int| 0 <= j < w[b].len() && w[b][j] == a;
                if b == perpetrator {
                    assert(w2[b].len() >= w[b].len());
                    assert(w2[b][j] == a);
                } else if b == enemy {
                    assert(w1[b] == w[b]);
                    assert(w2[b][j] == a);
                } else {
                    assert(w2[b] == w[b]);
                }
            }
        }
    }
    assert forall|a: CountryId| #[trigger] w2.contains_key(a) implies w2[a].no_duplicates() by {
        assert(w.contains_key(a));
        if a == perpetrator && !w[perpetrator].contains(enemy) {
            assert(w1[a] == w[a].push(enemy));
        }
        if a == enemy && !w1[enemy].contains(perpetrator) {
            assert(w2[a] == w1[a].push(perpetrator));
        }
    }
}

/// Index of the first occurrence of `x` in `s`.
pub open spec fn is_first_index(s: Seq<CountryId>, x: CountryId, i: int) -> bool {
    0 <= i < s.len() && s[i] == x && forall|j: int| 0 <= j < i ==> s[j] != x
}

/// `s` with the first occurrence of `x` replaced by the last element and the
/// last element dropped, as `Vec::swap_remove` does; `s` itself when `x` does
/// not occur.
pub open spec fn swap_remove_first(s: Seq<CountryId>, x: CountryId) -> Seq<CountryId> {
    if s.contains(x) {
        let i = choose|i: int| is_first_index(s, x, i);
        s.update(i, s.last()).drop_last()
    } else {
        s
    }
}

pub proof fn lemma_first_index_unique(s: Seq<CountryId>, x: CountryId, i: int)
    requires
        is_first_index(s, x, i),
    ensures
        s.contains(x),
        (choose|k: int| is_first_index(s, x, k)) == i,
{
    assert(s[i] == x);
    let k = choose|k: int| is_first_index(s, x, k);
    assert(is_first_index(s, x, k));
    if k < i {
        assert(s[k] != x);
    } else if k > i {
        assert(s[i] != x);
    }
}

/// Removing the first occurrence of `x` keeps every other country of the
/// list and adds none, repeats or not.
pub proof fn lemma_swap_remove_first_keeps(s: Seq<CountryId>, x: CountryId)
    ensures
        forall|y: CountryId| #[trigger] swap_remove_first(s, x).contains(y) ==> s.contains(y),
        forall|y: CountryId| s.contains(y) && y != x ==> #[trigger] swap_remove_first(
            s,
            x,
        ).contains(y),
{
    if s.contains(x) {
        let i = choose|i: int| is_first_index(s, x, i);
        let i0 = choose|i: int| 0 <= i < s.len() && s[i] == x;
        let f = choose|f: int| 0 <= f <= i0 && s[f] == x && forall|j: int| 0 <= j < f ==> s[j] != x;
        assert(exists|f: int| 0 <= f <= i0 && s[f] == x && forall|j: int| 0 <= j < f ==> s[j] != x) by {
            lemma_first_occurrence(s, x, i0);
        }
        assert(is_first_index(s, x, f));
        assert(is_first_index(s, x, i));
        let r = s.update(i, s.last()).drop_last();
        let n = s.len();
        assert forall|y: CountryId| #[trigger] r.contains(y) implies s.contains(y) by {
            let k = choose|k: int| 0 <= k < r.len() && r[k] == y;
            if k == i {
                assert(s[n - 1] == y);
            } else {
                assert(s[k] == y);
            }
        }
        assert forall|y: CountryId| s.contains(y) && y != x implies #[trigger] r.contains(y) by {
            let k = choose|k: int| 0 <= k < s.len() && s[k] == y;
            if k == n - 1 {
                assert(i != n - 1);
                assert(r[i] == y);
            } else {
                assert(k != i);
                assert(r[k] == y);
            }
        }
    }
}

/// Some occurrence at or before `k` is the first.
proof fn lemma_first_occurrence(s: Seq<CountryId>, x: CountryId, k: int)
    requires
        0 <= k < s.len(),
        s[k] == x,
    ensures
        exists|f: int| 0 <= f <= k && s[f] == x && forall|j: int| 0 <= j < f ==> s[j] != x,
    decreases k,
{
    if exists|j: int| 0 <= j < k && s[j] == x {
        let j = choose|j: int| 0 <= j < k && s[j] == x;
        lemma_first_occurrence(s, x, j);
    } else {
        assert(forall|j: int| 0 <= j < k ==> s[j] != x);
    }
}

/// Removing from a list without repeats leaves a list without repeats, and
/// without `x`; everything else in it was in the list before.
pub proof fn lemma_swap_remove_first(s: Seq<CountryId>, x: CountryId)
    requires
        s.no_duplicates(),
    ensures
        swap_remove_first(s, x).no_duplicates(),
        !swap_remove_first(s, x).contains(x),
        forall|y: CountryId| #[trigger] swap_remove_first(s, x).contains(y) ==> s.contains(y),
        forall|y: CountryId| s.contains(y) && y != x ==> #[trigger] swap_remove_first(
            s,
            x,
        ).contains(y),
{
    if s.contains(x) {
        let i0 = choose|i: int| 0 <= i < s.len() && s[i] == x;
        assert(is_first_index(s, x, i0)) by {
            assert forall|j: int| 0 <= j < i0 implies s[j] != x by {
                if s[j] == x {
                    assert(s[j] == s[i0]);
                }
            }
        }
        lemma_first_index_unique(s, x, i0);
        let i = i0;
        let r = s.update(i, s.last()).drop_last();
        assert(r == swap_remove_first(s, x));
        let n = s.len();
        assert forall|a: int, b: int| 0 <= a < r.len() && 0 <= b < r.len() && a != b implies r[a]
            != r[b] by {
            let a0 = if a == i {
                n - 1
            } else {
                a
            };
            let b0 = if b == i {
                n - 1
            } else {
                b
            };
            assert(r[a] == s[a0]);
            assert(r[b] == s[b0]);
        }
        assert forall|k: int| 0 <= k < r.len() implies r[k] != x by {
            let k0 = if k == i {
                n - 1
            } else {
                k
            };
            assert(r[k] == s[k0]);
            assert(k0 != i);
        }
        assert forall|y: CountryId| #[trigger] r.contains(y) implies s.contains(y) by {
            let k = choose|k: int| 0 <= k < r.len() && r[k] == y;
            let k0 = if k == i {
                n - 1
            } else {
                k
            };
            assert(s[k0] == y);
        }
        assert forall|y: CountryId| s.contains(y) && y != x implies #[trigger] r.contains(y) by {
            let k = choose|k: int| 0 <= k < s.len() && s[k] == y;
            assert(k != i);
            if k == n - 1 {
                assert(r[i] == y);
            } else {
                assert(r[k] == y);
            }
        }
    }
}

/// Removes the first occurrence of `x` from `v` by swapping in the last
/// element.
fn remove_first(v: &mut Vec<CountryId>, x: CountryId)
    ensures
        final(v)@ == swap_remove_first(old(v)@, x),
{
    let n = v.len();
    let mut i: usize = 0;
    while i < n
        invariant
            n == v@.len(),
            v@ == old(v)@,
            i <= n,
            forall|j: int| 0 <= j < i ==> v@[j] != x,
        decreases n - i,
    {
        if v[i] == x {
            proof {
                lemma_first_index_unique(v@, x, i as int);
            }
            v.swap_remove(i);
            return ;
        }
        i = i + 1;
    }
}

/// The list of `a` with `b` taken out, if `a` has a list.
pub open spec fn drop_enemy(w: Map<CountryId, Seq<CountryId>>, a: CountryId, b: CountryId) -> Map<
    CountryId,
    Seq<CountryId>,
> {
    if w.contains_key(a) {
        w.insert(a, swap_remove_first(w[a], b))
    } else {
        w
    }
}

/// The occupation after peace between `p1` and `p2`: a tile owned by either
/// of them and taken from either of them is no longer occupied.
pub open spec fn peace_occupation(
    owners: Map<Hex, CountryId>,
    occ: Map<Hex, CountryId>,
    p1: CountryId,
    p2: CountryId,
) -> Map<Hex, CountryId> {
    Map::new(
        |h: Hex|
            occ.contains_key(h) && !(owners.contains_key(h) && (owners[h] == p1 || owners[h]
                == p2) && (occ[h] == p1 || occ[h] == p2)),
        |h: Hex| occ[h],
    )
}

fn drop_enemy_exec(wars: &mut AtWarLists, a: CountryId, b: CountryId)
    requires
        old(wars).wf(),
    ensures
        final(wars).wf(),
        final(wars)@ == drop_enemy(old(wars)@, a, b),
{
    let mut updated: Option<Vec<CountryId>> = None;
    if let Some(list) = wars.lists.get_ref(&a) {
        let mut l = copy_ids(list);
        remove_first(&mut l, b);
        updated = Some(l);
    }
    match updated {
        Some(l) => {
            wars.set_list(a, l);
        },
        None => {
            assert(wars@ =~= drop_enemy(old(wars)@, a, b));
        },
    }
}

/// Peace between `player_1` and `player_2`: each leaves the other's list, and
/// tiles that one of them took from the other (or from itself) are no longer
/// occupied.
pub fn end_war(
    player_1: CountryId,
    player_2: CountryId,
    countries_wars: &mut AtWarLists,
    map: &HexMap,
    occupied: &mut Occupied,
)
    requires
        old(countries_wars).wf(),
        old(occupied).wf(),
        map.wf(),
    ensures
        final(countries_wars).wf(),
        final(occupied).wf(),
        final(countries_wars)@ == drop_enemy(
            drop_enemy(old(countries_wars)@, player_1, player_2),
            player_2,
            player_1,
        ),
        final(occupied).map@ == peace_occupation(
            map.hex_owners@,
            old(occupied).map@,
            player_1,
            player_2,
        ),
{
    drop_enemy_exec(countries_wars, player_1, player_2);
    drop_enemy_exec(countries_wars, player_2, player_1);
    let ghost owners = map.hex_owners@;
    let ghost occ0 = occupied.map@;
    let ghost es = map.hex_owners.entries@;
    proof {
        crate::table::lemma_entries_map_all(es);
    }
    let n = map.hex_owners.entries.len();
    let mut i: usize = 0;
    while i < n
        invariant
            map.wf(),
            es == map.hex_owners.entries@,
            owners == map.hex_owners@,
            n == es.len(),
            i <= n,
            occupied.wf(),
            forall|j: int|
                0 <= j < es.len() ==> #[trigger] owners.contains_key(es[j].0) && owners[es[j].0]
                    == es[j].1,
            occupied.map@ == Map::new(
                |h: Hex|
                    occ0.contains_key(h) && !(exists|j: int| 0 <= j < i && #[trigger] es[j].0 == h
                        && (owners[h] == player_1 || owners[h] == player_2) && (occ0[h]
                        == player_1 || occ0[h] == player_2)),
                |h: Hex| occ0[h],
            ),
        decreases n - i,
    {
        let (hex, entity) = map.hex_owners.entries[i];
        if entity == player_1 || entity == player_2 {
            if let Some(owner) = occupied.map.get(&hex) {
                if owner == player_1 || owner == player_2 {
                    occupied.map.remove(&hex);
                }
            }
        }
        let ghost cur = occupied.map@;
        assert(occupied.map@ =~= Map::new(
            |h: Hex|
                occ0.contains_key(h) && !(exists|j: int| 0 <= j < i + 1 && #[trigger] es[j].0 == h
                    && (owners[h] == player_1 || owners[h] == player_2) && (occ0[h] == player_1
                    || occ0[h] == player_2)),
            |h: Hex| occ0[h],
        )) by {
            assert(es[i as int].0 == hex);
            assert forall|h: Hex|
                #![trigger cur.contains_key(h)]
                (exists|j: int| 0 <= j < i + 1 && #[trigger] es[j].0 == h) && h != hex implies (
                exists|j: int| 0 <= j < i && #[trigger] es[j].0 == h) by {
                let j = choose|j: int| 0 <= j < i + 1 && #[trigger] es[j].0 == h;
                assert(j != i);
            }
        }
        i = i + 1;
    }
    assert(occupied.map@ =~= peace_occupation(owners, occ0, player_1, player_2)) by {
        assert forall|h: Hex|
            #[trigger] owners.contains_key(h) implies (exists|j: int| 0 <= j < n && #[trigger] es[j].0 == h) by {
            assert(crate::table::has_key(es, h));
        }
    }
}

/// Ending the war between `p1` and `p2` ends exactly that war, both ways.
pub proof fn lemma_end_war_exact(w: Map<CountryId, Seq<CountryId>>, p1: CountryId, p2: CountryId)
    requires
        wars_no_duplicates(w),
    ensures
        forall|a: CountryId, b: CountryId|
            #[trigger] at_war(drop_enemy(drop_enemy(w, p1, p2), p2, p1), a, b) <==> at_war(w, a, b) && !(a
                == p1 && b == p2) && !(a == p2 && b == p1),
{
    let w1 = drop_enemy(w, p1, p2);
    let w2 = drop_enemy(w1, p2, p1);
    if w.contains_key(p1) {
        lemma_swap_remove_first(w[p1], p2);
    }
    assert(wars_no_duplicates(w1));
    if w1.contains_key(p2) {
        lemma_swap_remove_first(w1[p2], p1);
    }
    assert forall|a: CountryId, b: CountryId|
        #[trigger] at_war(w2, a, b) <==> at_war(w, a, b) && !(a == p1 && b == p2) && !(a == p2 && b == p1) by {
        if a == p2 && a == p1 && w.contains_key(p1) {
            assert(w1[p2] == swap_remove_first(w[p1], p2));
        }
    }
}

/// Ending a war keeps lists free of repeats and wars two-sided, and the two
/// countries are then at war with each other in neither direction.
pub proof fn lemma_end_war_laws(w: Map<CountryId, Seq<CountryId>>, p1: CountryId, p2: CountryId)
    requires
        wars_no_duplicates(w),
    ensures
        ({
            let w2 = drop_enemy(drop_enemy(w, p1, p2), p2, p1);
            &&& wars_no_duplicates(w2)
            &&& !at_war(w2, p1, p2)
            &&& !at_war(w2, p2, p1)
            &&& w2.dom() == w.dom()
            &&& forall|a: CountryId, b: CountryId| #[trigger] at_war(w2, a, b) ==> at_war(w, a, b)
            &&& wars_symmetric(w) ==> wars_symmetric(w2)
        }),
{
    let w1 = drop_enemy(w, p1, p2);
    let w2 = drop_enemy(w1, p2, p1);
    if w.contains_key(p1) {
        lemma_swap_remove_first(w[p1], p2);
    }
    assert(wars_no_duplicates(w1));
    if w1.contains_key(p2) {
        lemma_swap_remove_first(w1[p2], p1);
    }
    assert(wars_no_duplicates(w2));
    assert(w2.dom() =~= w.dom());
    assert(!at_war(w2, p1, p2)) by {
        if w2.contains_key(p1) && p1 == p2 {
            lemma_swap_remove_first(w1[p2], p1);
        }
    }
    assert forall|a: CountryId, b: CountryId| #[trigger] at_war(w2, a, b) implies at_war(
        w,
        a,
        b,
    ) by {
        if a == p2 {
            lemma_swap_remove_first(w1[p2], p1);
            assert(w1[a].contains(b));
        }
        assert(at_war(w1, a, b));
        if a == p1 {
            lemma_swap_remove_first(w[p1], p2);
        }
    }
    if wars_symmetric(w) {
        assert forall|a: CountryId, b: CountryId| #[trigger] at_war(w2, a, b) implies at_war(
            w2,
            b,
            a,
        ) by {
            assert(at_war(w, a, b));
            assert(at_war(w, b, a));
            assert(!(a == p1 && b == p2));
            assert(!(a == p2 && b == p1));
            assert(at_war(w1, b, a)) by {
                if b == p1 {
                    lemma_swap_remove_first(w[p1], p2);
                }
            }
            if b == p2 {
                lemma_swap_remove_first(w1[p2], p1);
            }
        }
    }
}

/// Peace only ever frees tiles, so it keeps the occupation consistent.
pub proof fn lemma_peace_occupation_subset(
    owners: Map<Hex, CountryId>,
    occ: Map<Hex, CountryId>,
    p1: CountryId,
    p2: CountryId,
)
    ensures
        forall|h: Hex| #[trigger]
            peace_occupation(owners, occ, p1, p2).contains_key(h) ==> occ.contains_key(h)
                && peace_occupation(owners, occ, p1, p2)[h] == occ[h],
        forall|h: Hex|
            #[trigger] peace_occupation(owners, occ, p1, p2).contains_key(h) && owners.contains_key(h)
                && (owners[h] == p1 || owners[h] == p2) ==> occ[h] != p1 && occ[h] != p2,
        crate::political::occupation_consistent(owners, occ)
            ==> crate::political::occupation_consistent(owners, peace_occupation(owners, occ, p1, p2)),
{
}

/// `c` owns no tile.
pub open spec fn owns_no_land(owners: Map<Hex, CountryId>, c: CountryId) -> bool {
    forall|h: Hex| #[trigger] owners.contains_key(h) ==> owners[h] != c
}

/// Wars and occupation after peace between `c` and each of `items` in turn.
pub open spec fn end_wars_of(
    w: Map<CountryId, Seq<CountryId>>,
    occ: Map<Hex, CountryId>,
    owners: Map<Hex, CountryId>,
    c: CountryId,
    items: Seq<CountryId>,
) -> (Map<CountryId, Seq<CountryId>>, Map<Hex, CountryId>)
    decreases items.len(),
{
    if items.len() == 0 {
        (w, occ)
    } else {
        let prev = end_wars_of(w, occ, owners, c, items.drop_last());
        let x = items.last();
        (drop_enemy(drop_enemy(prev.0, c, x), x, c), peace_occupation(owners, prev.1, c, x))
    }
}

/// Wars and occupation after each country of `countries` in turn, if it owns
/// no tile and has a list, makes peace with every country on its list.
pub open spec fn end_empty_wars(
    w: Map<CountryId, Seq<CountryId>>,
    occ: Map<Hex, CountryId>,
    owners: Map<Hex, CountryId>,
    countries: Seq<CountryId>,
) -> (Map<CountryId, Seq<CountryId>>, Map<Hex, CountryId>)
    decreases countries.len(),
{
    if countries.len() == 0 {
        (w, occ)
    } else {
        let prev = end_empty_wars(w, occ, owners, countries.drop_last());
        let c = countries.last();
        if owns_no_land(owners, c) && prev.0.contains_key(c) {
            end_wars_of(prev.0, prev.1, owners, c, prev.0[c])
        } else {
            prev
        }
    }
}

fn owns_any_land(map: &HexMap, c: CountryId) -> (b: bool)
    requires
        map.wf(),
    ensures
        b == !owns_no_land(map.hex_owners@, c),
{
    let ghost es = map.hex_owners.entries@;
    proof {
        crate::table::lemma_entries_map_all(es);
    }
    let n = map.hex_owners.entries.len();
    let mut i: usize = 0;
    while i < n
        invariant
            es == map.hex_owners.entries@,
            map.wf(),
            n == es.len(),
            i <= n,
            forall|j: int| 0 <= j < i ==> es[j].1 != c,
            forall|j: int|
                0 <= j < es.len() ==> #[trigger] map.hex_owners@.contains_key(es[j].0)
                    && map.hex_owners@[es[j].0] == es[j].1,
        decreases n - i,
    {
        if map.hex_owners.entries[i].1 == c {
            assert(map.hex_owners@.contains_key(es[i as int].0));
            return true;
        }
        i = i + 1;
    }
    assert forall|h: Hex| #[trigger] map.hex_owners@.contains_key(h) implies map.hex_owners@[h]
        != c by {
        let j = choose|j: int| 0 <= j < es.len() && #[trigger] es[j].0 == h;
    }
    false
}

/// Countries of `countries` that own no tile make peace with everyone they
/// are at war with.
pub fn end_war_with_empty_countries(
    lists: &mut AtWarLists,
    map: &HexMap,
    countries: &Vec<CountryId>,
    occupied: &mut Occupied,
)
    requires
        old(lists).wf(),
        old(occupied).wf(),
        map.wf(),
    ensures
        final(lists).wf(),
        final(occupied).wf(),
        (final(lists)@, final(occupied).map@) == end_empty_wars(
            old(lists)@,
            old(occupied).map@,
            map.hex_owners@,
            countries@,
        ),
{
    let ghost w0 = lists@;
    let ghost o0 = occupied.map@;
    let ghost owners = map.hex_owners@;
    let n = countries.len();
    let mut k: usize = 0;
    while k < n
        invariant
            lists.wf(),
            occupied.wf(),
            map.wf(),
            owners == map.hex_owners@,
            n == countries@.len(),
            k <= n,
            (lists@, occupied.map@) == end_empty_wars(w0, o0, owners, countries@.take(k as int)),
        decreases n - k,
    {
        let country = countries[k];
        assert(countries@.take(k + 1).drop_last() =~= countries@.take(k as int));
        let ghost prev0 = lists@;
        let ghost prev1 = occupied.map@;
        if !owns_any_land(map, country) {
            let mut items: Vec<CountryId> = Vec::new();
            let mut found = false;
            if let Some(list) = lists.lists.get_ref(&country) {
                items = copy_ids(list);
                found = true;
            }
            if found {
                assert(items@ == prev0[country]);
                let m = items.len();
                let mut i: usize = 0;
                while i < m
                    invariant
                        lists.wf(),
                        occupied.wf(),
                        map.wf(),
                        owners == map.hex_owners@,
                        m == items@.len(),
                        i <= m,
                        (lists@, occupied.map@) == end_wars_of(
                            prev0,
                            prev1,
                            owners,
                            country,
                            items@.take(i as int),
                        ),
                    decreases m - i,
                {
                    assert(items@.take(i + 1).drop_last() =~= items@.take(i as int));
                    end_war(country, items[i], lists, map, occupied);
                    i = i + 1;
                }
                assert(items@.take(m as int) =~= items@);
            }
        }
        k = k + 1;
    }
    assert(countries@.take(n as int) =~= countries@);
}

/// Peace between `c` and each of `items` only takes wars away, keeps lists
/// free of repeats and occupation consistent, and leaves on `c`'s list only
/// countries that are not among `items`.
pub proof fn lemma_end_wars_of(
    w: Map<CountryId, Seq<CountryId>>,
    occ: Map<Hex, CountryId>,
    owners: Map<Hex, CountryId>,
    c: CountryId,
    items: Seq<CountryId>,
)
    requires
        wars_no_duplicates(w),
    ensures
        ({
            let r = end_wars_of(w, occ, owners, c, items);
            &&& wars_no_duplicates(r.0)
            &&& r.0.dom() == w.dom()
            &&& forall|a: CountryId, b: CountryId| #[trigger] at_war(r.0, a, b) ==> at_war(w, a, b)
            &&& forall|x: CountryId| #[trigger] at_war(r.0, c, x) ==> !items.contains(x)
            &&& crate::political::occupation_consistent(owners, occ)
                ==> crate::political::occupation_consistent(owners, r.1)
            &&& wars_symmetric(w) ==> wars_symmetric(r.0)
        }),
    decreases items.len(),
{
    if items.len() > 0 {
        let prev = end_wars_of(w, occ, owners, c, items.drop_last());
        lemma_end_wars_of(w, occ, owners, c, items.drop_last());
        let x = items.last();
        lemma_end_war_laws(prev.0, c, x);
        lemma_peace_occupation_subset(owners, prev.1, c, x);
        let r = end_wars_of(w, occ, owners, c, items);
        let w1 = drop_enemy(prev.0, c, x);
        assert forall|y: CountryId| #[trigger] at_war(r.0, c, y) implies !items.contains(y) by {
            assert(at_war(prev.0, c, y));
            assert(!items.drop_last().contains(y));
            lemma_swap_remove_first(prev.0[c], x);
            assert(at_war(w1, c, y)) by {
                if x == c {
                    lemma_swap_remove_first(w1[c], c);
                }
            }
            assert(y != x);
            assert forall|k: int| 0 <= k < items.len() implies items[k] != y by {
                if k < items.len() - 1 {
                    assert(items.drop_last()[k] == items[k]);
                }
            }
        }
    }
}

/// Making peace only ever frees tiles: every tile still occupied after the
/// peaces of `c` with the countries of `items` was occupied before, by the
/// same country, whatever the war lists hold.
proof fn lemma_end_wars_of_occupation(
    w: Map<CountryId, Seq<CountryId>>,
    occ: Map<Hex, CountryId>,
    owners: Map<Hex, CountryId>,
    c: CountryId,
    items: Seq<CountryId>,
)
    ensures
        forall|h: Hex|
            #[trigger] end_wars_of(w, occ, owners, c, items).1.contains_key(h) ==> occ.contains_key(h)
                && end_wars_of(w, occ, owners, c, items).1[h] == occ[h],
    decreases items.len(),
{
    if items.len() > 0 {
        let prev = end_wars_of(w, occ, owners, c, items.drop_last());
        lemma_end_wars_of_occupation(w, occ, owners, c, items.drop_last());
        lemma_peace_occupation_subset(owners, prev.1, c, items.last());
    }
}

/// Ending the wars of the countries without land only ever frees tiles,
/// whatever the war lists hold, so it keeps the occupation consistent with
/// the owners.
pub proof fn lemma_end_empty_wars_occupation(
    w: Map<CountryId, Seq<CountryId>>,
    occ: Map<Hex, CountryId>,
    owners: Map<Hex, CountryId>,
    countries: Seq<CountryId>,
)
    ensures
        forall|h: Hex|
            #[trigger] end_empty_wars(w, occ, owners, countries).1.contains_key(h) ==> occ.contains_key(h)
                && end_empty_wars(w, occ, owners, countries).1[h] == occ[h],
        crate::political::occupation_consistent(owners, occ) ==> crate::political::occupation_consistent(
            owners,
            end_empty_wars(w, occ, owners, countries).1,
        ),
    decreases countries.len(),
{
    if countries.len() > 0 {
        let pre = countries.drop_last();
        let prev = end_empty_wars(w, occ, owners, pre);
        lemma_end_empty_wars_occupation(w, occ, owners, pre);
        let d = countries.last();
        if owns_no_land(owners, d) && prev.0.contains_key(d) {
            lemma_end_wars_of_occupation(prev.0, prev.1, owners, d, prev.0[d]);
        }
    }
}

/// After `end_war_with_empty_countries`, every listed country that owns no
/// tile is at war with nobody; wars were only taken away, lists stay free of
/// repeats, and occupation stays consistent.
pub proof fn lemma_end_empty_wars(
    w: Map<CountryId, Seq<CountryId>>,
    occ: Map<Hex, CountryId>,
    owners: Map<Hex, CountryId>,
    countries: Seq<CountryId>,
)
    requires
        wars_no_duplicates(w),
    ensures
        ({
            let r = end_empty_wars(w, occ, owners, countries);
            &&& wars_no_duplicates(r.0)
            &&& r.0.dom() == w.dom()
            &&& forall|a: CountryId, b: CountryId| #[trigger] at_war(r.0, a, b) ==> at_war(w, a, b)
            &&& forall|c: CountryId|
                #![trigger countries.contains(c), r.0[c]]
                countries.contains(c) && owns_no_land(owners, c) && w.contains_key(c)
                    ==> r.0[c].len() == 0
            &&& crate::political::occupation_consistent(owners, occ)
                ==> crate::political::occupation_consistent(owners, r.1)
            &&& wars_symmetric(w) ==> wars_symmetric(r.0)
        }),
    decreases countries.len(),
{
    if countries.len() > 0 {
        let pre = countries.drop_last();
        let prev = end_empty_wars(w, occ, owners, pre);
        lemma_end_empty_wars(w, occ, owners, pre);
        let d = countries.last();
        let r = end_empty_wars(w, occ, owners, countries);
        if owns_no_land(owners, d) && prev.0.contains_key(d) {
            lemma_end_wars_of(prev.0, prev.1, owners, d, prev.0[d]);
        }
        assert forall|c: CountryId|
            #![trigger countries.contains(c), r.0[c]]
            countries.contains(c) && owns_no_land(owners, c) && w.contains_key(c) implies r.0[c].len()
            == 0 by {
            if r.0[c].len() > 0 {
                let y = r.0[c][0];
                assert(at_war(r.0, c, y));
                if c == d {
                    assert(prev.0[d].contains(y)) by {
                        assert(at_war(prev.0, c, y));
                    }
                } else {
                    let k = choose|k: int| 0 <= k < countries.len() && countries[k] == c;
                    assert(pre[k] == c);
                    assert(pre.contains(c));
                    assert(prev.0[c].len() == 0);
                    assert(at_war(prev.0, c, y));
                }
            }
        }
    }
}

} // verus!

verus! {

/// Declaring war keeps lists free of repeats and the same countries listed.
pub proof fn lemma_start_war_no_duplicates(
    w: Map<CountryId, Seq<CountryId>>,
    perpetrator: CountryId,
    enemy: CountryId,
)
    ensures
        wars_no_duplicates(w) ==> wars_no_duplicates(spec_start_war(w, perpetrator, enemy)),
        spec_start_war(w, perpetrator, enemy).dom() == w.dom(),
        forall|a: CountryId, b: CountryId|
            #[trigger] at_war(w, a, b) ==> at_war(spec_start_war(w, perpetrator, enemy), a, b),
        perpetrator != enemy && w.contains_key(perpetrator) ==> at_war(
            spec_start_war(w, perpetrator, enemy),
            perpetrator,
            enemy,
        ),
{
    let w1 = add_enemy(w, perpetrator, enemy);
    let w2 = add_enemy(w1, enemy, perpetrator);
    if wars_no_duplicates(w) {
        assert(wars_no_duplicates(w1)) by {
            assert forall|a: CountryId| #[trigger] w1.contains_key(a) implies w1[a].no_duplicates() by {
                if a == perpetrator && w.contains_key(a) && !w[a].contains(enemy) {
                    assert(w1[a] == w[a].push(enemy));
                }
            }
        }
        assert(wars_no_duplicates(w2)) by {
            assert forall|a: CountryId| #[trigger] w2.contains_key(a) implies w2[a].no_duplicates() by {
                if a == enemy && w1.contains_key(a) && !w1[a].contains(perpetrator) {
                    assert(w2[a] == w1[a].push(perpetrator));
                }
            }
        }
    }
    assert(w1.dom() =~= w.dom());
    assert(w2.dom() =~= w1.dom());
    assert forall|a: CountryId, b: CountryId| #[trigger] at_war(w, a, b) implies at_war(
        spec_start_war(w, perpetrator, enemy),
        a,
        b,
    ) by {
        if perpetrator != enemy {
            let i = choose|i: int| 0 <= i < w[a].len() && w[a][i] == b;
            assert(w1[a][i] == b);
            assert(w2[a][i] == b);
        }
    }
    if perpetrator != enemy && w.contains_key(perpetrator) {
        if !w[perpetrator].contains(enemy) {
            assert(w1[perpetrator].last() == enemy);
        }
        let i = choose|i: int| 0 <= i < w1[perpetrator].len() && w1[perpetrator][i] == enemy;
        assert(w2[perpetrator][i] == enemy);
    }
}

} // verus!

verus! {

/// How many times `y` stands in the list `s`.
pub open spec fn times_in(s: Seq<CountryId>, y: CountryId) -> nat {
    s.to_multiset().count(y)
}

/// Removing the first occurrence of `x` takes exactly one `x` away, if there
/// is one, and leaves the count of every other country as it was.
proof fn lemma_swap_remove_first_times(s: Seq<CountryId>, x: CountryId)
    ensures
        forall|y: CountryId|
            #[trigger] times_in(swap_remove_first(s, x), y) == if y == x && times_in(s, x) > 0 {
                times_in(s, y) - 1
            } else {
                times_in(s, y) as int
            },
        swap_remove_first(s, x).len() <= s.len(),
{
    broadcast use vstd::seq_lib::group_to_multiset_ensures, vstd::multiset::group_multiset_axioms;

    if s.contains(x) {
        let i = choose|i: int| is_first_index(s, x, i);
        let i0 = choose|i: int| 0 <= i < s.len() && s[i] == x;
        let f = choose|f: int| 0 <= f <= i0 && s[f] == x && forall|j: int| 0 <= j < f ==> s[j] != x;
        assert(exists|f: int| 0 <= f <= i0 && s[f] == x && forall|j: int| 0 <= j < f ==> s[j] != x) by {
            lemma_first_occurrence(s, x, i0);
        }
        assert(is_first_index(s, x, f));
        assert(is_first_index(s, x, i));
        let n = s.len();
        let t = s.update(i, s.last());
        let r = t.drop_last();
        assert(t.to_multiset() == s.to_multiset().insert(s.last()).remove(x));
        assert(t[n - 1] == s.last());
        assert(r == t.remove(n - 1));
        assert(r.to_multiset() == t.to_multiset().remove(s.last()));
        assert(times_in(s, x) > 0);
    } else {
        assert forall|y: CountryId| #[trigger] times_in(swap_remove_first(s, x), y) == if y == x && times_in(
            s,
            x,
        ) > 0 {
            times_in(s, y) - 1
        } else {
            times_in(s, y) as int
        } by {
            assert(!s.contains(x));
        }
    }
}

/// The count of `y` left after taking away `k` of them from `a`, never below
/// zero.
pub open spec fn times_left(a: nat, k: nat) -> nat {
    if a > k {
        (a - k) as nat
    } else {
        0
    }
}

/// While `c` makes peace with the countries of `items` in turn, its list
/// keeps each country at most as often as the list had it beyond the number
/// of times `items` names it; lists only shrink and the listed countries stay
/// the same, whatever the lists hold.
proof fn lemma_end_wars_of_shrinks(
    w: Map<CountryId, Seq<CountryId>>,
    occ: Map<Hex, CountryId>,
    owners: Map<Hex, CountryId>,
    c: CountryId,
    items: Seq<CountryId>,
)
    ensures
        end_wars_of(w, occ, owners, c, items).0.dom() == w.dom(),
        forall|a: CountryId|
            #[trigger] w.contains_key(a) ==> end_wars_of(w, occ, owners, c, items).0[a].len() <= w[a].len(),
        w.contains_key(c) ==> forall|y: CountryId|
            #[trigger] times_in(end_wars_of(w, occ, owners, c, items).0[c], y) <= times_left(
                times_in(w[c], y),
                times_in(items, y),
            ),
    decreases items.len(),
{
    broadcast use vstd::seq_lib::group_to_multiset_ensures, vstd::multiset::group_multiset_axioms;

    if items.len() == 0 {
        assert(items.to_multiset() =~= vstd::multiset::Multiset::empty());
    } else {
        let pre = items.drop_last();
        let x = items.last();
        lemma_end_wars_of_shrinks(w, occ, owners, c, pre);
        let prev = end_wars_of(w, occ, owners, c, pre);
        let w1 = drop_enemy(prev.0, c, x);
        let w2 = drop_enemy(w1, x, c);
        assert(items == pre.push(x));
        assert(w1.dom() =~= prev.0.dom());
        assert(w2.dom() =~= w1.dom());
        if prev.0.contains_key(c) {
            lemma_swap_remove_first_times(prev.0[c], x);
        }
        if w1.contains_key(x) {
            lemma_swap_remove_first_times(w1[x], c);
        }
        assert forall|a: CountryId| #[trigger] w.contains_key(a) implies w2[a].len() <= w[a].len() by {
            assert(w1[a].len() <= prev.0[a].len());
        }
        if w.contains_key(c) {
            assert forall|y: CountryId|
                #[trigger] times_in(w2[c], y) <= times_left(times_in(w[c], y), times_in(items, y)) by {
                assert(times_in(w2[c], y) <= times_in(w1[c], y));
                assert(times_in(items, y) == times_in(pre, y) + if y == x { 1nat } else { 0nat });
            }
        }
    }
}

/// A list in which no country stands is empty.
proof fn lemma_times_none_empty(s: Seq<CountryId>)
    requires
        forall|y: CountryId| #[trigger] times_in(s, y) == 0,
    ensures
        s.len() == 0,
{
    broadcast use vstd::seq_lib::group_to_multiset_ensures;

    if s.len() > 0 {
        assert(s.contains(s[0]));
        assert(times_in(s, s[0]) > 0);
    }
}

/// After the countries of `countries` without land make peace with every
/// country on their lists, each of them that has a list is at war with
/// nobody, whatever the lists held before (repeats included).
pub proof fn lemma_end_empty_wars_clears(
    w: Map<CountryId, Seq<CountryId>>,
    occ: Map<Hex, CountryId>,
    owners: Map<Hex, CountryId>,
    countries: Seq<CountryId>,
)
    ensures
        end_empty_wars(w, occ, owners, countries).0.dom() == w.dom(),
        forall|c: CountryId|
            #![trigger countries.contains(c), end_empty_wars(w, occ, owners, countries).0[c]]
            countries.contains(c) && owns_no_land(owners, c) && w.contains_key(c)
                ==> end_empty_wars(w, occ, owners, countries).0[c].len() == 0,
    decreases countries.len(),
{
    if countries.len() > 0 {
        let pre = countries.drop_last();
        let prev = end_empty_wars(w, occ, owners, pre);
        lemma_end_empty_wars_clears(w, occ, owners, pre);
        let d = countries.last();
        let r = end_empty_wars(w, occ, owners, countries);
        if owns_no_land(owners, d) && prev.0.contains_key(d) {
            lemma_end_wars_of_shrinks(prev.0, prev.1, owners, d, prev.0[d]);
            assert forall|y: CountryId| #[trigger] times_in(r.0[d], y) == 0 by {
                assert(times_in(r.0[d], y) <= times_left(times_in(prev.0[d], y), times_in(prev.0[d], y)));
            }
            lemma_times_none_empty(r.0[d]);
        }
        assert forall|c: CountryId|
            #![trigger countries.contains(c), r.0[c]]
            countries.contains(c) && owns_no_land(owners, c) && w.contains_key(c) implies r.0[c].len() == 0 by {
            if c != d {
                let k = choose|k: int| 0 <= k < countries.len() && countries[k] == c;
                assert(pre[k] == c);
                assert(pre.contains(c));
                assert(prev.0[c].len() == 0);
                if owns_no_land(owners, d) && prev.0.contains_key(d) {
                    assert(prev.0.contains_key(c));
                    assert(r.0[c].len() <= prev.0[c].len());
                }
            }
        }
    }
}

} // verus!
