use vstd::prelude::*;
use crate::army::Army;
use crate::countries::{CountriesSolidersNumbers, CountryState, PeaceProposals, PlayerType, Treasury};
use crate::errors::{MyErrors, inconsistent};
use crate::hex::Hex;
use crate::map::{CountryId, HexMap, Tile, armies_on_own_land};
use crate::movement::overflow_error;
use crate::political::{Occupied, occupation_consistent};
use crate::table::lemma_entries_map_all;
use crate::march::{MarchEvent, lemma_march_push, lemma_walk_keeps, lemma_walk_stops, march, march_start, march_valid, marched, step_move, walk, after};
use crate::pathfinding::answer_view;
use crate::recruitment::recruit_fits;
use crate::war::{AtWarLists, end_war, start_war, wars_no_duplicates, lemma_end_war_laws, lemma_peace_occupation_subset};

verus! {

/// The board is well formed, armies stand on their own land and occupation
/// is consistent.
pub open spec fn board_ok(map: &HexMap, occupied: &Occupied) -> bool {
    &&& map.wf()
    &&& occupied.wf()
    &&& armies_on_own_land(map.armies@, map.hex_owners@)
    &&& occupation_consistent(map.hex_owners@, occupied.map@)
}

/// The tiles of `s` owned by `me` and not occupied, in order.
pub open spec fn free_land_of(s: Seq<(Hex, CountryId)>, occ: Map<Hex, CountryId>, me: CountryId) -> Seq<
    Hex,
>
    decreases s.len(),
{
    if s.len() == 0 {
        Seq::empty()
    } else {
        let r = free_land_of(s.drop_last(), occ, me);
        if s.last().1 == me && !occ.contains_key(s.last().0) {
            r.push(s.last().0)
        } else {
            r
        }
    }
}

/// Every member of `free_land_of(s, ..)` is the key of an entry of `s` owned
/// by `me` and not occupied.
pub proof fn lemma_free_land_of(s: Seq<(Hex, CountryId)>, occ: Map<Hex, CountryId>, me: CountryId)
    ensures
        forall|x: Hex| #[trigger] free_land_of(s, occ, me).contains(x) ==> exists|i: int|
            0 <= i < s.len() && s[i].0 == x && s[i].1 == me && !occ.contains_key(x),
    decreases s.len(),
{
    if s.len() > 0 {
        lemma_free_land_of(s.drop_last(), occ, me);
        let r = free_land_of(s.drop_last(), occ, me);
        assert forall|x: Hex| #[trigger] free_land_of(s, occ, me).contains(x) implies exists|i: int|
            0 <= i < s.len() && s[i].0 == x && s[i].1 == me && !occ.contains_key(x) by {
            if r.contains(x) {
                let i = choose|i: int|
                    0 <= i < s.drop_last().len() && s.drop_last()[i].0 == x && s.drop_last()[i].1 == me
                        && !occ.contains_key(x);
                assert(s[i] == s.drop_last()[i]);
            } else {
                let f = free_land_of(s, occ, me);
                let j = choose|j: int| 0 <= j < f.len() && f[j] == x;
                assert(f == r.push(s.last().0));
                assert(j == r.len());
                assert(s[s.len() - 1].0 == x);
            }
        }
    }
}

/// The tiles that `me` owns and that are not occupied, in the board's order.
pub fn my_hexes(map: &HexMap, me: &CountryId, occupied: &Occupied) -> (r: Vec<Hex>)
    requires
        map.wf(),
        occupied.wf(),
    ensures
        r@ == free_land_of(map.hex_owners.seq(), occupied.map@, *me),
        forall|x: Hex|
            #[trigger] r@.contains(x) ==> map.hex_owners@.contains_key(x) && map.hex_owners@[x] == *me
                && !occupied.map@.contains_key(x),
{
    let ghost s = map.hex_owners.seq();
    let mut r: Vec<Hex> = Vec::new();
    let n = map.hex_owners.entries.len();
    let mut i: usize = 0;
    while i < n
        invariant
            s == map.hex_owners.seq(),
            n == s.len(),
            i <= n,
            occupied.wf(),
            r@ == free_land_of(s.take(i as int), occupied.map@, *me),
        decreases n - i,
    {
        let (hex, owner) = map.hex_owners.entries[i];
        assert(s.take(i + 1).drop_last() =~= s.take(i as int));
        assert(s.take(i + 1).last() == (hex, owner));
        if owner == *me && !occupied.map.contains_key(&hex) {
            r.push(hex);
        }
        i = i + 1;
    }
    assert(s.take(n as int) =~= s);
    proof {
        lemma_free_land_of(s, occupied.map@, *me);
        lemma_entries_map_all(s);
    }
    r
}

/// The positions and move points of the armies of `s` that belong to `me`,
/// in order.
pub open spec fn armies_of(s: Seq<(Hex, Army)>, me: CountryId) -> Seq<(Hex, i32)>
    decreases s.len(),
{
    if s.len() == 0 {
        Seq::empty()
    } else {
        let r = armies_of(s.drop_last(), me);
        if s.last().1.owner == me {
            r.push((s.last().0, s.last().1.move_points_left))
        } else {
            r
        }
    }
}

/// Some entry of `s` is an army of `me` on `h`.
pub open spec fn has_army_on(s: Seq<(Hex, Army)>, h: Hex, me: CountryId) -> bool {
    exists|i: int| 0 <= i < s.len() && s[i].0 == h && s[i].1.owner == me
}

pub proof fn lemma_armies_of(s: Seq<(Hex, Army)>, me: CountryId)
    ensures
        forall|k: int|
            0 <= k < armies_of(s, me).len() ==> has_army_on(s, #[trigger] armies_of(s, me)[k].0, me),
    decreases s.len(),
{
    if s.len() > 0 {
        lemma_armies_of(s.drop_last(), me);
        let r = armies_of(s.drop_last(), me);
        assert forall|k: int| 0 <= k < armies_of(s, me).len() implies has_army_on(
            s,
            #[trigger] armies_of(s, me)[k].0,
            me,
        ) by {
            if k < r.len() {
                assert(armies_of(s, me)[k] == r[k]);
                assert(has_army_on(s.drop_last(), r[k].0, me));
                let i = choose|i: int|
                    0 <= i < s.drop_last().len() && s.drop_last()[i].0 == r[k].0 && s.drop_last()[i].1.owner
                        == me;
                assert(s[i] == s.drop_last()[i]);
            } else {
                assert(s.last().1.owner == me);
                assert(armies_of(s, me) == r.push((s.last().0, s.last().1.move_points_left)));
                assert(s[s.len() - 1].0 == armies_of(s, me)[k].0);
            }
        }
    }
}

/// The positions and move points of `me`'s armies, in the board's order.
pub fn my_armies_nums(map: &HexMap, me: &CountryId) -> (r: Vec<(Hex, i32)>)
    requires
        map.wf(),
    ensures
        r@ == armies_of(map.armies.seq(), *me),
        forall|k: int|
            0 <= k < r@.len() ==> map.armies@.contains_key(#[trigger] r@[k].0) && map.armies@[r@[k].0].owner
                == *me,
{
    let ghost s = map.armies.seq();
    let mut r: Vec<(Hex, i32)> = Vec::new();
    let n = map.armies.entries.len();
    let mut i: usize = 0;
    while i < n
        invariant
            s == map.armies.seq(),
            n == s.len(),
            i <= n,
            r@ == armies_of(s.take(i as int), *me),
        decreases n - i,
    {
        let (hex, army) = map.armies.entries[i];
        assert(s.take(i + 1).drop_last() =~= s.take(i as int));
        assert(s.take(i + 1).last() == (hex, army));
        if army.owner == *me {
            r.push((hex, army.move_points_left));
        }
        i = i + 1;
    }
    assert(s.take(n as int) =~= s);
    proof {
        lemma_armies_of(s, *me);
        lemma_entries_map_all(s);
        assert forall|k: int| 0 <= k < r@.len() implies map.armies@.contains_key(#[trigger] r@[k].0)
            && map.armies@[r@[k].0].owner == *me by {
            assert(has_army_on(s, r@[k].0, *me));
            let i = choose|i: int| 0 <= i < s.len() && s[i].0 == r@[k].0 && s[i].1.owner == *me;
        }
    }
    r
}

} // verus!

verus! {

/// `g / 10` rounded toward zero, as Rust divides.
pub open spec fn div10(g: int) -> int {
    if g >= 0 {
        g / 10
    } else {
        -((-g) / 10)
    }
}

pub fn div10_exec(g: i32) -> (r: i32)
    ensures
        r == div10(g as int),
{
    if g >= 0 {
        g / 10
    } else {
        let n: i64 = -(g as i64);
        let q: i64 = n / 10;
        (-q) as i32
    }
}

/// A bot accepts a peace offer from `sender` when it fights more than one
/// war, or when its soldiers plus a tenth of its gold are fewer than the
/// sender's soldiers.
pub open spec fn accepts_peace(
    my_wars: int,
    my_nums: int,
    gold: int,
    soldiers: Map<CountryId, i32>,
    sender: CountryId,
) -> bool {
    my_wars > 1 || (soldiers.contains_key(sender) && my_nums + div10(gold) < soldiers[sender])
}

/// Wars only end, and wars between other countries than `me` stay.
pub open spec fn wars_only_end_for(
    before: Map<CountryId, Seq<CountryId>>,
    after: Map<CountryId, Seq<CountryId>>,
    me: CountryId,
) -> bool {
    &&& after.dom() == before.dom()
    &&& forall|a: CountryId, b: CountryId| #[trigger] crate::war::at_war(after, a, b) ==> crate::war::at_war(before, a, b)
    &&& forall|a: CountryId, b: CountryId|
        #[trigger] crate::war::at_war(before, a, b) && a != me && b != me ==> crate::war::at_war(after, a, b)
}

/// Occupation only shrinks.
pub open spec fn occupation_shrinks(before: Map<Hex, CountryId>, after: Map<Hex, CountryId>) -> bool {
    forall|h: Hex| #[trigger] after.contains_key(h) ==> before.contains_key(h) && after[h] == before[h]
}

pub proof fn lemma_wars_only_end_trans(
    a: Map<CountryId, Seq<CountryId>>,
    b: Map<CountryId, Seq<CountryId>>,
    c: Map<CountryId, Seq<CountryId>>,
    me: CountryId,
)
    requires
        wars_only_end_for(a, b, me),
        wars_only_end_for(b, c, me),
    ensures
        wars_only_end_for(a, c, me),
{
    assert forall|x: CountryId, y: CountryId|
        #[trigger] crate::war::at_war(a, x, y) && x != me && y != me implies crate::war::at_war(c, x, y) by {
        assert(crate::war::at_war(b, x, y));
    }
}

pub proof fn lemma_occupation_shrinks_trans(
    a: Map<Hex, CountryId>,
    b: Map<Hex, CountryId>,
    c: Map<Hex, CountryId>,
)
    requires
        occupation_shrinks(a, b),
        occupation_shrinks(b, c),
    ensures
        occupation_shrinks(a, c),
{
}

/// Peace between `me` and `x`, with everything a caller needs to know of it.
fn make_peace(me: CountryId, x: CountryId, wars: &mut AtWarLists, map: &HexMap, occupied: &mut Occupied)
    requires
        old(wars).wf(),
        old(occupied).wf(),
        map.wf(),
    ensures
        final(wars).wf(),
        final(occupied).wf(),
        wars_no_duplicates(old(wars)@) ==> wars_no_duplicates(final(wars)@),
        wars_only_end_for(old(wars)@, final(wars)@, me),
        wars_no_duplicates(old(wars)@) ==> !crate::war::at_war(final(wars)@, me, x),
        final(wars)@ == crate::war::drop_enemy(crate::war::drop_enemy(old(wars)@, me, x), x, me),
        final(occupied).map@ == crate::war::peace_occupation(map.hex_owners@, old(occupied).map@, me, x),
        wars_no_duplicates(old(wars)@) && crate::war::wars_symmetric(old(wars)@) ==> crate::war::wars_symmetric(
            final(wars)@,
        ),
        occupation_shrinks(old(occupied).map@, final(occupied).map@),
        occupation_consistent(map.hex_owners@, old(occupied).map@) ==> occupation_consistent(
            map.hex_owners@,
            final(occupied).map@,
        ),
{
    let ghost w0 = wars@;
    end_war(me, x, wars, map, occupied);
    proof {
        if wars_no_duplicates(w0) {
            lemma_end_war_laws(w0, me, x);
        }
        lemma_peace_occupation_subset(map.hex_owners@, old(occupied).map@, me, x);
        let w2 = wars@;
        let w1 = crate::war::drop_enemy(w0, me, x);
        if w0.contains_key(me) {
            crate::war::lemma_swap_remove_first_keeps(w0[me], x);
        }
        if w1.contains_key(x) {
            crate::war::lemma_swap_remove_first_keeps(w1[x], me);
        }
        assert(w2.dom() =~= w0.dom());
        assert forall|a: CountryId, b: CountryId| #[trigger] crate::war::at_war(w2, a, b) implies crate::war::at_war(
            w0,
            a,
            b,
        ) by {
            if a == x {
                assert(crate::war::at_war(w1, a, b));
            }
        }
        assert forall|a: CountryId, b: CountryId|
            #[trigger] crate::war::at_war(w0, a, b) && a != me && b != me implies crate::war::at_war(w2, a, b) by {
            assert(crate::war::at_war(w1, a, b));
        }
    }
}

/// One peace offer, the `ind`-th: the bot `me` accepts it (see
/// `accepts_peace`) and makes peace, or refuses it; either way the offer is
/// dropped.
pub fn handle_peace_proposal(
    proposals: &mut PeaceProposals,
    countries_wars: &mut AtWarLists,
    me: &CountryId,
    soldiers_nums: &CountriesSolidersNumbers,
    treasury: &Treasury,
    occupied: &mut Occupied,
    map: &HexMap,
    my_wars: usize,
    my_nums: i32,
    ind: usize,
) -> (r: Result<(), MyErrors>)
    requires
        ind < old(proposals).senders@.len(),
        old(countries_wars).wf(),
        old(occupied).wf(),
        map.wf(),
        soldiers_nums.wf(),
    ensures
        final(countries_wars).wf(),
        final(occupied).wf(),
        wars_no_duplicates(old(countries_wars)@) ==> wars_no_duplicates(final(countries_wars)@),
        wars_only_end_for(old(countries_wars)@, final(countries_wars)@, *me),
        wars_no_duplicates(old(countries_wars)@) && crate::war::wars_symmetric(old(countries_wars)@)
            ==> crate::war::wars_symmetric(final(countries_wars)@),
        occupation_shrinks(old(occupied).map@, final(occupied).map@),
        occupation_consistent(map.hex_owners@, old(occupied).map@) ==> occupation_consistent(
            map.hex_owners@,
            final(occupied).map@,
        ),
        ({
            let x = old(proposals).senders@[ind as int];
            &&& r is Err <==> my_wars <= 1 && (!soldiers_nums.numbers@.contains_key(x) || !(i32::MIN
                <= my_nums + div10(treasury.gold as int) <= i32::MAX))
            &&& r is Ok ==> final(proposals).senders@ == old(proposals).senders@.remove(ind as int)
            &&& r is Ok && accepts_peace(
                my_wars as int,
                my_nums as int,
                treasury.gold as int,
                soldiers_nums.numbers@,
                x,
            ) ==> final(countries_wars)@ == crate::war::drop_enemy(
                crate::war::drop_enemy(old(countries_wars)@, *me, x),
                x,
                *me,
            ) && final(occupied).map@ == crate::war::peace_occupation(map.hex_owners@, old(occupied).map@, *me, x)
            &&& r is Ok && !accepts_peace(
                my_wars as int,
                my_nums as int,
                treasury.gold as int,
                soldiers_nums.numbers@,
                x,
            ) ==> final(countries_wars)@ == old(countries_wars)@ && final(occupied).map@ == old(
                occupied,
            ).map@
            &&& r is Err ==> final(countries_wars)@ == old(countries_wars)@ && final(occupied).map@
                == old(occupied).map@ && final(proposals).senders@ == old(proposals).senders@
        }),
{
    let x = proposals.senders[ind];
    if my_wars > 1 {
        make_peace(*me, x, countries_wars, map, occupied);
        proposals.senders.remove(ind);
    } else {
        let enemy_nums = match soldiers_nums.numbers.get(&x) {
            Some(n) => n,
            None => {
                return Err(inconsistent("CountriesSoldiersNumbers Resource (peace talks)"));
            },
        };
        let tenth = div10_exec(treasury.gold);
        let sum = my_nums as i64 + tenth as i64;
        if sum < i32::MIN as i64 || sum > i32::MAX as i64 {
            return Err(overflow_error());
        }
        if my_nums + tenth < enemy_nums {
            make_peace(*me, x, countries_wars, map, occupied);
        }
        proposals.senders.remove(ind);
    }
    Ok(())
}

/// The bot `me` accepts the offer of `x` among its offers `props` (see
/// `accepts_peace`, with its wars counted before it answers any).
pub open spec fn offer_accepted(
    props: Seq<CountryId>,
    wars: Map<CountryId, Seq<CountryId>>,
    me: CountryId,
    nums: Map<CountryId, i32>,
    gold: i32,
    x: CountryId,
) -> bool {
    props.contains(x) && accepts_peace(wars[me].len() as int, nums[me] as int, gold as int, nums, x)
}

/// Peace between `me` and `x` frees the tile `h`: it belongs to one of them
/// and is held by one of them.
pub open spec fn peace_frees(
    owners: Map<Hex, CountryId>,
    occ: Map<Hex, CountryId>,
    me: CountryId,
    x: CountryId,
    h: Hex,
) -> bool {
    owners.contains_key(h) && (owners[h] == me || owners[h] == x) && (occ[h] == me || occ[h] == x)
}

/// What a bot's answers to its peace offers `props` do whatever the war
/// lists hold: only wars of `me` end, occupation only shrinks; with no offers
/// nothing changes; without a count or a list of wars of its own the bot
/// fails; on success every offer has been answered and dropped.
pub open spec fn talks_outline(
    props: Seq<CountryId>,
    wars: Map<CountryId, Seq<CountryId>>,
    me: CountryId,
    nums: Map<CountryId, i32>,
    occ: Map<Hex, CountryId>,
    props2: Seq<CountryId>,
    wars2: Map<CountryId, Seq<CountryId>>,
    occ2: Map<Hex, CountryId>,
    ok: bool,
) -> bool {
    &&& wars_only_end_for(wars, wars2, me)
    &&& occupation_shrinks(occ, occ2)
    &&& props.len() == 0 ==> ok && props2 == props && wars2 == wars && occ2 == occ
    &&& props.len() > 0 && (!nums.contains_key(me) || !wars.contains_key(me)) ==> !ok
    &&& ok ==> props2.len() == 0
}

/// The answer to the offer of `x` fails: with at most one war, the bot
/// needs the sender's soldier count, and its own count plus a tenth of its
/// gold must fit in an `i32`.
pub open spec fn offer_fails(
    wars: Map<CountryId, Seq<CountryId>>,
    me: CountryId,
    nums: Map<CountryId, i32>,
    gold: i32,
    x: CountryId,
) -> bool {
    wars[me].len() <= 1 && (!nums.contains_key(x) || !(i32::MIN <= nums[me] + div10(gold as int) <= i32::MAX))
}

/// The wars and the occupation once the offers of `props` from the `i`-th
/// on have been answered, newest first, from `wars` and `occ`: each accepted
/// offer (see `accepts_peace`, with the wars counted before any answer) takes
/// the sender off the bot's list and the bot off the sender's, one entry
/// each, and frees the tiles that peace frees.
pub open spec fn talks_done(
    props: Seq<CountryId>,
    i: int,
    wars: Map<CountryId, Seq<CountryId>>,
    me: CountryId,
    nums: Map<CountryId, i32>,
    gold: i32,
    occ: Map<Hex, CountryId>,
    owners: Map<Hex, CountryId>,
) -> (Map<CountryId, Seq<CountryId>>, Map<Hex, CountryId>)
    decreases props.len() - i,
{
    if 0 <= i < props.len() {
        let prev = talks_done(props, i + 1, wars, me, nums, gold, occ, owners);
        let x = props[i];
        if accepts_peace(wars[me].len() as int, nums[me] as int, gold as int, nums, x) {
            (
                crate::war::drop_enemy(crate::war::drop_enemy(prev.0, me, x), x, me),
                crate::war::peace_occupation(owners, prev.1, me, x),
            )
        } else {
            prev
        }
    } else {
        (wars, occ)
    }
}

/// How a bot's answers to its peace offers `props` leave the offers, the
/// wars and the occupation (the board's owners being `owners`), whatever the
/// war lists hold: besides `talks_outline`, without a count or a list of wars
/// of its own nothing changes; otherwise the offers are answered newest first
/// (see `talks_done`) until one fails (see `offer_fails`): with none failing
/// all are answered and dropped; else the ones after the failing one are,
/// and it and those before it stay.
pub open spec fn talks_effect(
    props: Seq<CountryId>,
    wars: Map<CountryId, Seq<CountryId>>,
    me: CountryId,
    nums: Map<CountryId, i32>,
    gold: i32,
    occ: Map<Hex, CountryId>,
    owners: Map<Hex, CountryId>,
    props2: Seq<CountryId>,
    wars2: Map<CountryId, Seq<CountryId>>,
    occ2: Map<Hex, CountryId>,
    ok: bool,
) -> bool {
    &&& talks_outline(props, wars, me, nums, occ, props2, wars2, occ2, ok)
    &&& props.len() > 0 && (!nums.contains_key(me) || !wars.contains_key(me)) ==> props2 == props && wars2
        == wars && occ2 == occ
    &&& props.len() > 0 && nums.contains_key(me) && wars.contains_key(me) && ok ==> (wars2, occ2) == talks_done(
        props,
        0,
        wars,
        me,
        nums,
        gold,
        occ,
        owners,
    ) && forall|j: int| 0 <= j < props.len() ==> !offer_fails(wars, me, nums, gold, #[trigger] props[j])
    &&& props.len() > 0 && nums.contains_key(me) && wars.contains_key(me) && !ok ==> exists|i: int|
        #![trigger props.take(i)]
        {
            &&& 0 < i <= props.len()
            &&& props2 == props.take(i)
            &&& (wars2, occ2) == talks_done(props, i, wars, me, nums, gold, occ, owners)
            &&& offer_fails(wars, me, nums, gold, props[i - 1])
            &&& forall|j: int| i <= j < props.len() ==> !offer_fails(wars, me, nums, gold, #[trigger] props[j])
        }
}

/// For lists without repeats, how a bot's answers to its peace offers
/// `props` leave the wars and the occupation (the board's owners being
/// `owners`): besides `talks_outline`, exactly the wars with those whose
/// offers it accepts end (see `offer_accepted`), and exactly the tiles those
/// peaces free are no longer occupied; on a failure, the offers answered so
/// far are those from some position on, and exactly their effect is done.
pub open spec fn talks_ended_wars(
    props: Seq<CountryId>,
    wars: Map<CountryId, Seq<CountryId>>,
    me: CountryId,
    nums: Map<CountryId, i32>,
    gold: i32,
    occ: Map<Hex, CountryId>,
    owners: Map<Hex, CountryId>,
    props2: Seq<CountryId>,
    wars2: Map<CountryId, Seq<CountryId>>,
    occ2: Map<Hex, CountryId>,
    ok: bool,
) -> bool {
    &&& talks_outline(props, wars, me, nums, occ, props2, wars2, occ2, ok)
    &&& ok && props.len() > 0 ==> forall|a: CountryId, b: CountryId|
        #[trigger] crate::war::at_war(wars2, a, b) <==> crate::war::at_war(wars, a, b) && !(a == me
            && offer_accepted(props, wars, me, nums, gold, b)) && !(b == me && offer_accepted(
            props,
            wars,
            me,
            nums,
            gold,
            a,
        ))
    &&& ok && props.len() > 0 ==> occ2 == Map::new(
        |h: Hex|
            occ.contains_key(h) && !(exists|x: CountryId|
                offer_accepted(props, wars, me, nums, gold, x) && #[trigger] peace_frees(owners, occ, me, x, h)),
        |h: Hex| occ[h],
    )
    &&& !ok && props.len() > 0 ==> exists|i: int|
        #![trigger props.take(i)]
        0 < i <= props.len() && props2 == props.take(i) && talks_answered_from(
            props,
            i,
            wars,
            me,
            nums,
            gold,
            occ,
            owners,
            wars2,
            occ2,
        )
}

/// The wars and the occupation once the offers of `props` from the `i`-th
/// on have been answered, newest first: exactly the wars with those whose
/// offers were accepted have ended, and exactly the tiles those peaces free
/// are no longer occupied.
pub open spec fn talks_answered_from(
    props: Seq<CountryId>,
    i: int,
    wars: Map<CountryId, Seq<CountryId>>,
    me: CountryId,
    nums: Map<CountryId, i32>,
    gold: i32,
    occ: Map<Hex, CountryId>,
    owners: Map<Hex, CountryId>,
    wars2: Map<CountryId, Seq<CountryId>>,
    occ2: Map<Hex, CountryId>,
) -> bool {
    &&& forall|a: CountryId, b: CountryId|
        #[trigger] crate::war::at_war(wars2, a, b) <==> crate::war::at_war(wars, a, b) && !(a == me
            && accepted_from(props, i, wars, me, nums, gold, b)) && !(b == me && accepted_from(
            props,
            i,
            wars,
            me,
            nums,
            gold,
            a,
        ))
    &&& occ2 == Map::new(
        |h: Hex|
            occ.contains_key(h) && !(exists|x: CountryId|
                accepted_from(props, i, wars, me, nums, gold, x) && #[trigger] peace_frees(owners, occ, me, x, h)),
        |h: Hex| occ[h],
    )
}

/// Answering the offer before those from the `i`-th on keeps the wars and
/// the occupation as the accepted offers among them make them.
proof fn lemma_talks_step(
    s0: Seq<CountryId>,
    i: int,
    w0: Map<CountryId, Seq<CountryId>>,
    o0: Map<Hex, CountryId>,
    wb: Map<CountryId, Seq<CountryId>>,
    ob: Map<Hex, CountryId>,
    wa: Map<CountryId, Seq<CountryId>>,
    oa: Map<Hex, CountryId>,
    me: CountryId,
    nums: Map<CountryId, i32>,
    gold: i32,
    owners: Map<Hex, CountryId>,
)
    requires
        1 <= i <= s0.len(),
        wars_no_duplicates(wb),
        forall|a: CountryId, b: CountryId|
            #[trigger] crate::war::at_war(wb, a, b) <==> crate::war::at_war(w0, a, b) && !(a == me
                && accepted_from(s0, i, w0, me, nums, gold, b)) && !(b == me && accepted_from(
                s0,
                i,
                w0,
                me,
                nums,
                gold,
                a,
            )),
        ob == Map::new(
            |h: Hex|
                o0.contains_key(h) && !(exists|x: CountryId|
                    accepted_from(s0, i, w0, me, nums, gold, x) && #[trigger] peace_frees(owners, o0, me, x, h)),
            |h: Hex| o0[h],
        ),
        accepts_peace(w0[me].len() as int, nums[me] as int, gold as int, nums, s0[i - 1]) ==> wa
            == crate::war::drop_enemy(crate::war::drop_enemy(wb, me, s0[i - 1]), s0[i - 1], me) && oa
            == crate::war::peace_occupation(owners, ob, me, s0[i - 1]),
        !accepts_peace(w0[me].len() as int, nums[me] as int, gold as int, nums, s0[i - 1]) ==> wa == wb
            && oa == ob,
    ensures
        forall|a: CountryId, b: CountryId|
            #[trigger] crate::war::at_war(wa, a, b) <==> crate::war::at_war(w0, a, b) && !(a == me
                && accepted_from(s0, i - 1, w0, me, nums, gold, b)) && !(b == me && accepted_from(
                s0,
                i - 1,
                w0,
                me,
                nums,
                gold,
                a,
            )),
        oa == Map::new(
            |h: Hex|
                o0.contains_key(h) && !(exists|x: CountryId|
                    accepted_from(s0, i - 1, w0, me, nums, gold, x) && #[trigger] peace_frees(owners, o0, me, x, h)),
            |h: Hex| o0[h],
        ),
{
    let x = s0[i - 1];
    let acc = accepts_peace(w0[me].len() as int, nums[me] as int, gold as int, nums, x);
    assert forall|y: CountryId|
        accepted_from(s0, i - 1, w0, me, nums, gold, y) <==> accepted_from(s0, i, w0, me, nums, gold, y) || (y
            == x && acc) by {
        if accepted_from(s0, i - 1, w0, me, nums, gold, y) {
            let j = choose|j: int|
                i - 1 <= j < s0.len() && s0[j] == y && #[trigger] accepts_peace(
                    w0[me].len() as int,
                    nums[me] as int,
                    gold as int,
                    nums,
                    s0[j],
                );
            if j >= i {
                assert(accepted_from(s0, i, w0, me, nums, gold, y));
            }
        }
        if accepted_from(s0, i, w0, me, nums, gold, y) {
            let j = choose|j: int|
                i <= j < s0.len() && s0[j] == y && #[trigger] accepts_peace(
                    w0[me].len() as int,
                    nums[me] as int,
                    gold as int,
                    nums,
                    s0[j],
                );
            assert(i - 1 <= j);
        }
        if y == x && acc {
            assert(accepts_peace(w0[me].len() as int, nums[me] as int, gold as int, nums, s0[i - 1]));
        }
    }
    if acc {
        crate::war::lemma_end_war_exact(wb, me, x);
        assert forall|h: Hex|
            oa.contains_key(h) <==> o0.contains_key(h) && !(exists|z: CountryId|
                accepted_from(s0, i - 1, w0, me, nums, gold, z) && #[trigger] peace_frees(owners, o0, me, z, h)) by {
            if ob.contains_key(h) {
                assert(ob[h] == o0[h]);
                assert(peace_frees(owners, ob, me, x, h) == peace_frees(owners, o0, me, x, h));
            }
            if o0.contains_key(h) && (exists|z: CountryId|
                accepted_from(s0, i - 1, w0, me, nums, gold, z) && #[trigger] peace_frees(owners, o0, me, z, h)) {
                let z = choose|z: CountryId|
                    accepted_from(s0, i - 1, w0, me, nums, gold, z) && #[trigger] peace_frees(owners, o0, me, z, h);
                if z != x || accepted_from(s0, i, w0, me, nums, gold, z) {
                    assert(!ob.contains_key(h));
                }
            }
            if o0.contains_key(h) && !ob.contains_key(h) {
                let z = choose|z: CountryId|
                    accepted_from(s0, i, w0, me, nums, gold, z) && #[trigger] peace_frees(owners, o0, me, z, h);
                assert(accepted_from(s0, i - 1, w0, me, nums, gold, z));
            }
            if oa.contains_key(h) {
                assert(ob.contains_key(h));
            }
        }
        assert(oa =~= Map::new(
            |h: Hex|
                o0.contains_key(h) && !(exists|z: CountryId|
                    accepted_from(s0, i - 1, w0, me, nums, gold, z) && #[trigger] peace_frees(owners, o0, me, z, h)),
            |h: Hex| o0[h],
        ));
    } else {
        assert forall|h: Hex|
            ob.contains_key(h) <==> o0.contains_key(h) && !(exists|z: CountryId|
                accepted_from(s0, i - 1, w0, me, nums, gold, z) && #[trigger] peace_frees(owners, o0, me, z, h)) by {
            if o0.contains_key(h) && (exists|z: CountryId|
                accepted_from(s0, i - 1, w0, me, nums, gold, z) && #[trigger] peace_frees(owners, o0, me, z, h)) {
                let z = choose|z: CountryId|
                    accepted_from(s0, i - 1, w0, me, nums, gold, z) && #[trigger] peace_frees(owners, o0, me, z, h);
                assert(accepted_from(s0, i, w0, me, nums, gold, z));
            }
            if o0.contains_key(h) && !ob.contains_key(h) {
                let z = choose|z: CountryId|
                    accepted_from(s0, i, w0, me, nums, gold, z) && #[trigger] peace_frees(owners, o0, me, z, h);
                assert(accepted_from(s0, i - 1, w0, me, nums, gold, z));
            }
        }
        assert(oa =~= Map::new(
            |h: Hex|
                o0.contains_key(h) && !(exists|z: CountryId|
                    accepted_from(s0, i - 1, w0, me, nums, gold, z) && #[trigger] peace_frees(owners, o0, me, z, h)),
            |h: Hex| o0[h],
        ));
    }
}

/// Before any offer is answered, nothing has changed.
proof fn lemma_talks_none_answered(
    props: Seq<CountryId>,
    wars: Map<CountryId, Seq<CountryId>>,
    me: CountryId,
    nums: Map<CountryId, i32>,
    gold: i32,
    occ: Map<Hex, CountryId>,
    owners: Map<Hex, CountryId>,
)
    ensures
        props.take(props.len() as int) == props,
        talks_answered_from(props, props.len() as int, wars, me, nums, gold, occ, owners, wars, occ),
{
    assert(props.take(props.len() as int) =~= props);
    assert(occ =~= Map::new(
        |h: Hex|
            occ.contains_key(h) && !(exists|x: CountryId|
                accepted_from(props, props.len() as int, wars, me, nums, gold, x) && #[trigger] peace_frees(
                    owners,
                    occ,
                    me,
                    x,
                    h,
                )),
        |h: Hex| occ[h],
    ));
}

/// The offer of `x` is among those from the `i`-th on, and accepted.
pub open spec fn accepted_from(
    props: Seq<CountryId>,
    i: int,
    wars: Map<CountryId, Seq<CountryId>>,
    me: CountryId,
    nums: Map<CountryId, i32>,
    gold: i32,
    x: CountryId,
) -> bool {
    exists|j: int|
        i <= j < props.len() && props[j] == x && #[trigger] accepts_peace(
            wars[me].len() as int,
            nums[me] as int,
            gold as int,
            nums,
            props[j],
        )
}

/// The bot `me` answers every peace offer it holds, newest first (see
/// `handle_peace_proposal`); every answered offer is dropped. A peace takes
/// one entry off each side's list (see `talks_effect`), so where a list
/// names a country twice the two stay at war; for lists without repeats,
/// `talks_ended_wars` says which wars end.
#[verifier::spinoff_prover]
pub fn manage_peace_talks(
    proposals: &mut PeaceProposals,
    countries_wars: &mut AtWarLists,
    me: &CountryId,
    soldiers_nums: &CountriesSolidersNumbers,
    treasury: &Treasury,
    occupied: &mut Occupied,
    map: &HexMap,
) -> (r: Result<(), MyErrors>)
    requires
        old(countries_wars).wf(),
        old(occupied).wf(),
        map.wf(),
        soldiers_nums.wf(),
    ensures
        final(countries_wars).wf(),
        final(occupied).wf(),
        wars_no_duplicates(old(countries_wars)@) ==> wars_no_duplicates(final(countries_wars)@),
        wars_no_duplicates(old(countries_wars)@) && crate::war::wars_symmetric(old(countries_wars)@)
            ==> crate::war::wars_symmetric(final(countries_wars)@),
        occupation_consistent(map.hex_owners@, old(occupied).map@) ==> occupation_consistent(
            map.hex_owners@,
            final(occupied).map@,
        ),
        talks_outline(
            old(proposals).senders@,
            old(countries_wars)@,
            *me,
            soldiers_nums.numbers@,
            old(occupied).map@,
            final(proposals).senders@,
            final(countries_wars)@,
            final(occupied).map@,
            r is Ok,
        ),
        talks_effect(
            old(proposals).senders@,
            old(countries_wars)@,
            *me,
            soldiers_nums.numbers@,
            treasury.gold,
            old(occupied).map@,
            map.hex_owners@,
            final(proposals).senders@,
            final(countries_wars)@,
            final(occupied).map@,
            r is Ok,
        ),
        wars_no_duplicates(old(countries_wars)@) ==> talks_ended_wars(
            old(proposals).senders@,
            old(countries_wars)@,
            *me,
            soldiers_nums.numbers@,
            treasury.gold,
            old(occupied).map@,
            map.hex_owners@,
            final(proposals).senders@,
            final(countries_wars)@,
            final(occupied).map@,
            r is Ok,
        ),
{
    if proposals.senders.len() == 0 {
        return Ok(());
    }
    let my_nums = match soldiers_nums.numbers.get(me) {
        Some(n) => n,
        None => {
            proof {
                lemma_talks_none_answered(
                    old(proposals).senders@,
                    old(countries_wars)@,
                    *me,
                    soldiers_nums.numbers@,
                    treasury.gold,
                    old(occupied).map@,
                    map.hex_owners@,
                );
            }
            return Err(inconsistent("CountriesSoldiersNumbers Resource (peace talks)"));
        },
    };
    let my_wars = match countries_wars.lists.get_ref(me) {
        Some(list) => list.len(),
        None => {
            proof {
                lemma_talks_none_answered(
                    old(proposals).senders@,
                    old(countries_wars)@,
                    *me,
                    soldiers_nums.numbers@,
                    treasury.gold,
                    old(occupied).map@,
                    map.hex_owners@,
                );
            }
            return Err(inconsistent("War Lists"));
        },
    };
    let ghost s0 = proposals.senders@;
    let ghost w0 = countries_wars@;
    let ghost o0 = occupied.map@;
    let ghost nd = wars_no_duplicates(w0);
    assert(my_wars == w0[*me].len());
    assert(occupied.map@ =~= Map::new(
        |h: Hex|
            o0.contains_key(h) && !(exists|x: CountryId|
                accepted_from(s0, s0.len() as int, w0, *me, soldiers_nums.numbers@, treasury.gold, x)
                    && #[trigger] peace_frees(map.hex_owners@, o0, *me, x, h)),
        |h: Hex| o0[h],
    ));
    let mut i = proposals.senders.len();
    while i > 0
        invariant
            countries_wars.wf(),
            occupied.wf(),
            map.wf(),
            soldiers_nums.wf(),
            i <= s0.len(),
            w0 == old(countries_wars)@,
            o0 == old(occupied).map@,
            s0 == old(proposals).senders@,
            w0.contains_key(*me),
            soldiers_nums.numbers@.contains_key(*me),
            my_wars == w0[*me].len(),
            my_nums == soldiers_nums.numbers@[*me],
            proposals.senders@ == s0.take(i as int),
            nd == wars_no_duplicates(w0),
            nd ==> wars_no_duplicates(countries_wars@),
            (countries_wars@, occupied.map@) == talks_done(
                s0,
                i as int,
                w0,
                *me,
                soldiers_nums.numbers@,
                treasury.gold,
                o0,
                map.hex_owners@,
            ),
            forall|j: int|
                i <= j < s0.len() ==> !offer_fails(w0, *me, soldiers_nums.numbers@, treasury.gold, #[trigger] s0[j]),
            wars_only_end_for(w0, countries_wars@, *me),
            nd && crate::war::wars_symmetric(w0) ==> crate::war::wars_symmetric(countries_wars@),
            occupation_shrinks(o0, occupied.map@),
            occupation_consistent(map.hex_owners@, o0) ==> occupation_consistent(
                map.hex_owners@,
                occupied.map@,
            ),
            nd ==> forall|a: CountryId, b: CountryId|
                #[trigger] crate::war::at_war(countries_wars@, a, b) <==> crate::war::at_war(w0, a, b) && !(a
                    == *me && accepted_from(s0, i as int, w0, *me, soldiers_nums.numbers@, treasury.gold, b))
                    && !(b == *me && accepted_from(s0, i as int, w0, *me, soldiers_nums.numbers@, treasury.gold, a)),
            nd ==> occupied.map@ == Map::new(
                |h: Hex|
                    o0.contains_key(h) && !(exists|x: CountryId|
                        accepted_from(s0, i as int, w0, *me, soldiers_nums.numbers@, treasury.gold, x)
                            && #[trigger] peace_frees(map.hex_owners@, o0, *me, x, h)),
                |h: Hex| o0[h],
            ),
        decreases i,
    {
        let ghost wb = countries_wars@;
        let ghost ob = occupied.map@;
        let res = handle_peace_proposal(
            proposals,
            countries_wars,
            me,
            soldiers_nums,
            treasury,
            occupied,
            map,
            my_wars,
            my_nums,
            i - 1,
        );
        proof {
            lemma_wars_only_end_trans(w0, wb, countries_wars@, *me);
            lemma_occupation_shrinks_trans(o0, ob, occupied.map@);
        }
        match res {
            Ok(()) => {},
            Err(e) => {
                proof {
                    assert(s0.take(i as int)[i - 1] == s0[i - 1]);
                    assert(offer_fails(w0, *me, soldiers_nums.numbers@, treasury.gold, s0[i - 1]));
                    assert(proposals.senders@ == s0.take(i as int));
                }
                return Err(e);
            },
        }
        proof {
            if nd {
                lemma_talks_step(
                s0,
                i as int,
                w0,
                o0,
                wb,
                ob,
                countries_wars@,
                occupied.map@,
                *me,
                soldiers_nums.numbers@,
                treasury.gold,
                map.hex_owners@,
                );
            }
        }
        assert(proposals.senders@ =~= s0.take(i - 1));
        assert(s0.take(i as int)[i - 1] == s0[i - 1]);
        i = i - 1;
    }
    proof {
        if nd {
        let nums = soldiers_nums.numbers@;
        let gold = treasury.gold;
        assert forall|x: CountryId|
            accepted_from(s0, 0, w0, *me, nums, gold, x) <==> offer_accepted(s0, w0, *me, nums, gold, x) by {
            if offer_accepted(s0, w0, *me, nums, gold, x) {
                let j = choose|j: int| 0 <= j < s0.len() && s0[j] == x;
                assert(accepts_peace(w0[*me].len() as int, nums[*me] as int, gold as int, nums, s0[j]));
            }
        }
        assert(occupied.map@ =~= Map::new(
            |h: Hex|
                o0.contains_key(h) && !(exists|x: CountryId|
                    offer_accepted(s0, w0, *me, nums, gold, x) && #[trigger] peace_frees(map.hex_owners@, o0, *me, x, h)),
            |h: Hex| o0[h],
        ));
        }
    }
    Ok(())
}

} // verus!

verus! {

/// Every move of `moves` goes between neighbouring tiles.
pub open spec fn moves_adjacent(moves: Seq<(Hex, Hex)>) -> bool {
    forall|i: int| 0 <= i < moves.len() ==> #[trigger] crate::hex::adjacent(moves[i].0, moves[i].1)
}

/// The board after `me` makes some moves between neighbouring tiles.
pub open spec fn moved_by(
    before: &HexMap,
    occ_before: &Occupied,
    after: &HexMap,
    occ_after: &Occupied,
    me: CountryId,
) -> bool {
    &&& after.wf()
    &&& occ_after.wf()
    &&& after.political == before.political
    &&& after.entities == before.entities
    &&& exists|moves: Seq<(Hex, Hex)>|
        moves_adjacent(moves) && #[trigger] crate::movement::apply_moves(
            before.armies@,
            before.hex_owners@,
            occ_before.map@,
            moves,
            me,
        ) == (after.armies@, after.hex_owners@, occ_after.map@)
}

/// Moves keep the board consistent and the mover's land its own.
pub proof fn lemma_moved_by_keeps_board(
    before: &HexMap,
    occ_before: &Occupied,
    after: &HexMap,
    occ_after: &Occupied,
    me: CountryId,
)
    requires
        moved_by(before, occ_before, after, occ_after, me),
        board_ok(before, occ_before),
    ensures
        board_ok(after, occ_after),
        forall|h: Hex|
            #[trigger] before.hex_owners@.contains_key(h) && before.hex_owners@[h] == me
                ==> after.hex_owners@.contains_key(h) && after.hex_owners@[h] == me,
{
    let moves = choose|moves: Seq<(Hex, Hex)>|
        moves_adjacent(moves) && #[trigger] crate::movement::apply_moves(
            before.armies@,
            before.hex_owners@,
            occ_before.map@,
            moves,
            me,
        ) == (after.armies@, after.hex_owners@, occ_after.map@);
    crate::movement::lemma_apply_moves(before.armies@, before.hex_owners@, occ_before.map@, moves, me);
}

/// Each army of `iterator` (a position and its move points) walks, while it
/// has move points, along the path found from where it stands: toward the
/// nearest enemy land at war, toward the nearest unowned land in peace.
#[verifier::spinoff_prover]
fn move_armies_along(
    iterator: &Vec<(Hex, i32)>,
    map: &mut HexMap,
    enemies: &Vec<CountryId>,
    me: &CountryId,
    occupied: &mut Occupied,
    war: bool,
) -> (r: Result<(), MyErrors>)
    requires
        old(map).wf(),
        old(occupied).wf(),
        !war ==> enemies@.len() == 0,
    ensures
        moved_by(old(map), old(occupied), final(map), final(occupied), *me),
        marched(
            old(map).armies@,
            old(map).hex_owners@,
            old(occupied).map@,
            final(map).armies@,
            final(map).hex_owners@,
            final(occupied).map@,
            r is Ok,
            iterator@,
            old(map).entities@,
            *me,
            enemies@,
            war,
        ),
{
    let ghost a0 = map.armies@;
    let ghost h0 = map.hex_owners@;
    let ghost o0 = occupied.map@;
    let ghost ents = map.entities@;
    let ghost list = iterator@;
    let ghost m0 = march_start(list, a0, h0, o0);
    let ghost mut es: Seq<MarchEvent> = Seq::empty();
    let ghost mut moves: Seq<(Hex, Hex)> = Seq::empty();
    assert(crate::movement::apply_moves(a0, h0, o0, moves, *me) == (a0, h0, o0));
    let n = iterator.len();
    let mut k: usize = 0;
    while k < n
        invariant
            n == iterator@.len(),
            list == iterator@,
            k <= n,
            map.wf(),
            occupied.wf(),
            map.political == old(map).political,
            map.entities == old(map).entities,
            ents == old(map).entities@,
            a0 == old(map).armies@,
            h0 == old(map).hex_owners@,
            o0 == old(occupied).map@,
            m0 == march_start(list, a0, h0, o0),
            !war ==> enemies@.len() == 0,
            moves_adjacent(moves),
            crate::movement::apply_moves(a0, h0, o0, moves, *me) == (
                map.armies@,
                map.hex_owners@,
                occupied.map@,
            ),
            march_valid(m0, list, ents, *me, enemies@, war, es),
            march(m0, list, *me, es).ok,
            march(m0, list, *me, es).k == k,
            march(m0, list, *me, es).armies == map.armies@,
            march(m0, list, *me, es).owners == map.hex_owners@,
            march(m0, list, *me, es).occ == occupied.map@,
            k < n ==> march(m0, list, *me, es).coord == list[k as int].0 && march(m0, list, *me, es).left
                == list[k as int].1,
        decreases n - k,
    {
        let (hex, mv) = iterator[k];
        let mut moves_left = mv;
        let mut coord = hex;
        while moves_left > 0
            invariant
                n == iterator@.len(),
                list == iterator@,
                k < n,
                map.wf(),
                occupied.wf(),
                map.political == old(map).political,
                map.entities == old(map).entities,
                ents == old(map).entities@,
                a0 == old(map).armies@,
                h0 == old(map).hex_owners@,
                o0 == old(occupied).map@,
                m0 == march_start(list, a0, h0, o0),
                !war ==> enemies@.len() == 0,
                moves_adjacent(moves),
                crate::movement::apply_moves(a0, h0, o0, moves, *me) == (
                    map.armies@,
                    map.hex_owners@,
                    occupied.map@,
                ),
                march_valid(m0, list, ents, *me, enemies@, war, es),
                march(m0, list, *me, es).ok,
                march(m0, list, *me, es).k == k,
                march(m0, list, *me, es).armies == map.armies@,
                march(m0, list, *me, es).owners == map.hex_owners@,
                march(m0, list, *me, es).occ == occupied.map@,
                march(m0, list, *me, es).coord == coord,
                march(m0, list, *me, es).left == moves_left,
            decreases moves_left,
        {
            let closest = if war {
                crate::pathfinding::find_closest_enemy_hex(coord, map, enemies, me)
            } else {
                let c = crate::pathfinding::find_closest_unowned_hex(coord, map, me);
                assert(enemies@ =~= Seq::<CountryId>::empty());
                c
            };
            let ghost mp = march(m0, list, *me, es);
            let ghost ev = MarchEvent::Plan(answer_view(closest));
            proof {
                lemma_march_push(m0, list, ents, *me, enemies@, war, es, ev);
                es = es.push(ev);
            }
            match closest {
                Some(path) => {
                    let steps = moves_left;
                    let ghost ml0 = moves_left;
                    let ghost start = coord;
                    let mut j: usize = 0;
                    proof {
                        lemma_walk_keeps(mp, start, path@, 0, *me);
                    }
                    while j < path.len() && (j as i64) < (steps as i64)
                        invariant
                            path@.len() > 0,
                            crate::hex::adjacent(start, path@[0]),
                            forall|q: int|
                                0 <= q < path@.len() - 1 ==> #[trigger] crate::hex::adjacent(
                                    path@[q],
                                    path@[q + 1],
                                ),
                            j <= path@.len(),
                            0 < steps,
                            steps == ml0,
                            j <= steps,
                            moves_left == steps - j,
                            j == 0 ==> coord == start,
                            j > 0 ==> coord == path@[j - 1],
                            map.wf(),
                            occupied.wf(),
                            map.political == old(map).political,
                            map.entities == old(map).entities,
                            a0 == old(map).armies@,
                            h0 == old(map).hex_owners@,
                            o0 == old(occupied).map@,
                            moves_adjacent(moves),
                            crate::movement::apply_moves(a0, h0, o0, moves, *me) == (
                                map.armies@,
                                map.hex_owners@,
                                occupied.map@,
                            ),
                            mp.coord == start,
                            mp.left == ml0,
                            mp.ok,
                            mp.k == k,
                            k < n,
                            n == iterator@.len(),
                            list == iterator@,
                            ents == old(map).entities@,
                            m0 == march_start(list, a0, h0, o0),
                            !war ==> enemies@.len() == 0,
                            march_valid(m0, list, ents, *me, enemies@, war, es),
                            march(m0, list, *me, es) == after(mp, list, *me, MarchEvent::Plan(Some(path@))),
                            walk(mp, start, path@, j as nat, *me).ok,
                            walk(mp, start, path@, j as nat, *me).armies == map.armies@,
                            walk(mp, start, path@, j as nat, *me).owners == map.hex_owners@,
                            walk(mp, start, path@, j as nat, *me).occ == occupied.map@,
                        decreases path@.len() - j,
                    {
                        let pos = path[j];
                        proof {
                            if j > 0 {
                                let q = j - 1;
                                assert(crate::hex::adjacent(path@[q], path@[q + 1]));
                            }
                        }
                        let fits = crate::movement::check_move_fits(map, &coord, &pos, *me);
                        let res = crate::movement::move_army_checked(&coord, &pos, map, occupied, *me);
                        proof {
                            if fits {
                                let m2 = moves.push((coord, pos));
                                assert(m2.drop_last() =~= moves);
                                assert(moves_adjacent(m2)) by {
                                    assert forall|i: int| 0 <= i < m2.len() implies #[trigger] crate::hex::adjacent(
                                        m2[i].0,
                                        m2[i].1,
                                    ) by {
                                        if i < moves.len() {
                                            assert(m2[i] == moves[i]);
                                        }
                                    }
                                }
                                moves = m2;
                            }
                            assert(crate::movement::apply_moves(a0, h0, o0, moves, *me) == (
                                map.armies@,
                                map.hex_owners@,
                                occupied.map@,
                            ));
                        }
                        match res {
                            Ok(()) => {},
                            Err(e) => {
                                proof {
                                    let n_steps: int = if path@.len() < ml0 {
                                        path@.len() as int
                                    } else {
                                        ml0 as int
                                    };
                                    let w = walk(mp, start, path@, j as nat, *me);
                                    assert(walk(mp, start, path@, (j + 1) as nat, *me) == step_move(
                                        w,
                                        coord,
                                        pos,
                                        *me,
                                    ));
                                    assert(!walk(mp, start, path@, (j + 1) as nat, *me).ok);
                                    lemma_walk_stops(mp, start, path@, (j + 1) as nat, n_steps as nat, *me);
                                    let m = march(m0, list, *me, es);
                                    assert(m == walk(mp, start, path@, n_steps as nat, *me));
                                    assert(!m.ok);
                                    assert(m.armies == map.armies@);
                                }
                                return Err(e);
                            },
                        }
                        coord = pos;
                        moves_left = moves_left - 1;
                        j = j + 1;
                    }
                    assert(j >= 1);
                    assert(moves_left < ml0);
                    proof {
                        lemma_walk_keeps(mp, start, path@, j as nat, *me);
                        let m = march(m0, list, *me, es);
                        assert(m.coord == coord);
                    }
                },
                None => {
                    moves_left = 0;
                },
            }
        }
        proof {
            lemma_march_push(m0, list, ents, *me, enemies@, war, es, MarchEvent::Next);
            es = es.push(MarchEvent::Next);
        }
        k = k + 1;
    }
    proof {
        let m = march(m0, list, *me, es);
        assert(m.k >= list.len());
    }
    Ok(())
}

/// At war, each of `me`'s armies listed in `iterator` walks toward the
/// nearest land of one of `enemies` (see `find_closest_enemy_hex`).
pub fn move_armies_for_war(
    iterator: &Vec<(Hex, i32)>,
    map: &mut HexMap,
    enemies: &Vec<CountryId>,
    me: &CountryId,
    occupied: &mut Occupied,
) -> (r: Result<(), MyErrors>)
    requires
        old(map).wf(),
        old(occupied).wf(),
    ensures
        moved_by(old(map), old(occupied), final(map), final(occupied), *me),
        marched(
            old(map).armies@,
            old(map).hex_owners@,
            old(occupied).map@,
            final(map).armies@,
            final(map).hex_owners@,
            final(occupied).map@,
            r is Ok,
            iterator@,
            old(map).entities@,
            *me,
            enemies@,
            true,
        ),
{
    move_armies_along(iterator, map, enemies, me, occupied, true)
}

/// In peace, each of `me`'s armies walks toward the nearest unowned land
/// (see `find_closest_unowned_hex`).
pub fn move_armies_during_peace(map: &mut HexMap, me: &CountryId, occupied: &mut Occupied) -> (r:
    Result<(), MyErrors>)
    requires
        old(map).wf(),
        old(occupied).wf(),
    ensures
        moved_by(old(map), old(occupied), final(map), final(occupied), *me),
        marched(
            old(map).armies@,
            old(map).hex_owners@,
            old(occupied).map@,
            final(map).armies@,
            final(map).hex_owners@,
            final(occupied).map@,
            r is Ok,
            armies_of(old(map).armies.seq(), *me),
            old(map).entities@,
            *me,
            Seq::empty(),
            false,
        ),
{
    let iterator = my_armies_nums(map, me);
    let none: Vec<CountryId> = Vec::new();
    let r = move_armies_along(&iterator, map, &none, me, occupied, false);
    assert(none@ =~= Seq::<CountryId>::empty());
    r
}

} // verus!

verus! {

/// Every tile keeps its terrain; only buildings may change.
pub open spec fn same_terrain(a: Map<Hex, Tile>, b: Map<Hex, Tile>) -> bool {
    &&& a.dom() == b.dom()
    &&& forall|h: Hex| #[trigger] a.contains_key(h) ==> a[h].terrain == b[h].terrain
}

pub proof fn lemma_insert_same_terrain(e: Map<Hex, Tile>, h: Hex, t: Tile)
    requires
        e.contains_key(h),
        t.terrain == e[h].terrain,
    ensures
        same_terrain(e, e.insert(h, t)),
{
    assert(e.insert(h, t).dom() =~= e.dom());
}

pub proof fn lemma_same_terrain_trans(a: Map<Hex, Tile>, b: Map<Hex, Tile>, c: Map<Hex, Tile>)
    requires
        same_terrain(a, b),
        same_terrain(b, c),
    ensures
        same_terrain(a, c),
{
}

/// `after` is `before` with `n` soldiers of `me` recruited on `coord` for
/// `price` gold.
pub open spec fn recruited(
    armies_b: Map<Hex, Army>,
    armies_a: Map<Hex, Army>,
    t_b: Treasury,
    t_a: Treasury,
    nums_b: Map<CountryId, i32>,
    nums_a: Map<CountryId, i32>,
    coord: Hex,
    me: CountryId,
    n: int,
    price: int,
) -> bool {
    &&& armies_a == armies_b.insert(coord, crate::recruitment::recruited_army(armies_b, coord, me, n as i32))
    &&& t_a == (Treasury { gold: (t_b.gold - price) as i32, ..t_b })
    &&& nums_a == nums_b.insert(
        me,
        (n + if nums_b.contains_key(me) {
            nums_b[me] as int
        } else {
            0
        }) as i32,
    )
}

/// The number of soldiers a bot recruits with all its gold but ten: a tenth
/// of the rest, rounded toward zero.
pub open spec fn all_in_soldiers(gold: int) -> int {
    div10(gold - 10)
}

/// The soldier counts name no country that they did not name before, but
/// `me`.
pub open spec fn counts_only_for(before: Map<CountryId, i32>, after: Map<CountryId, i32>, me: CountryId) -> bool {
    forall|c: CountryId| #[trigger] after.contains_key(c) ==> before.contains_key(c) || c == me
}

/// Every country of `players`, and every country with a soldier count, has a
/// list of wars.
pub open spec fn wars_cover(
    w: Map<CountryId, Seq<CountryId>>,
    players: Seq<CountryState>,
    nums: Map<CountryId, i32>,
) -> bool {
    &&& forall|j: int| 0 <= j < players.len() ==> w.contains_key(#[trigger] players[j].entity)
    &&& forall|c: CountryId| #[trigger] nums.contains_key(c) ==> w.contains_key(c)
}

/// An error for a random draw from no choices, where rand panics.
pub fn empty_range_error() -> (e: MyErrors)
    ensures
        e matches MyErrors::Unexpected(s) && s@ == "cannot sample empty range"@,
{
    MyErrors::Unexpected("cannot sample empty range".to_owned())
}

/// Recruits, on a randomly drawn tile of `my_hexes`, as many soldiers as all
/// the bot's gold but ten pays for.
pub fn recruit_army_on_random_hex(
    my_hexes: &Vec<Hex>,
    treasury: &mut Treasury,
    me: &CountryId,
    map: &mut HexMap,
    numbers: &mut CountriesSolidersNumbers,
) -> (r: Result<(), MyErrors>)
    requires
        old(map).wf(),
        old(numbers).wf(),
        my_hexes@.len() > 0,
    ensures
        final(map).wf(),
        final(numbers).wf(),
        final(map).political == old(map).political,
        final(map).entities == old(map).entities,
        final(map).hex_owners == old(map).hex_owners,
        final(treasury).base_income == old(treasury).base_income,
        (forall|x: Hex|
            #[trigger] my_hexes@.contains(x) ==> old(map).hex_owners@.contains_key(x)
                && old(map).hex_owners@[x] == *me) && armies_on_own_land(
            old(map).armies@,
            old(map).hex_owners@,
        ) ==> armies_on_own_land(final(map).armies@, final(map).hex_owners@),
        counts_only_for(old(numbers).numbers@, final(numbers).numbers@, *me),
        r is Err ==> final(map).armies@ == old(map).armies@ && *final(treasury) == *old(treasury)
            && final(numbers).numbers@ == old(numbers).numbers@,
        r is Err ==> old(treasury).gold < i32::MIN + 10 || exists|x: Hex|
            #[trigger] my_hexes@.contains(x) && (!old(map).entities@.contains_key(x) || !recruit_fits(
                *old(treasury),
                all_in_soldiers(old(treasury).gold as int) as i32,
                (all_in_soldiers(old(treasury).gold as int) * 10) as i32,
                *me,
                old(map),
                x,
                old(numbers).numbers@,
            )),
        r is Ok ==> exists|coord: Hex|
            #![trigger my_hexes@.contains(coord)]
            my_hexes@.contains(coord) && old(map).entities@.contains_key(coord) && recruited(
                old(map).armies@,
                final(map).armies@,
                *old(treasury),
                *final(treasury),
                old(numbers).numbers@,
                final(numbers).numbers@,
                coord,
                *me,
                all_in_soldiers(old(treasury).gold as int),
                all_in_soldiers(old(treasury).gold as int) * 10,
            ),
{
    let ind = crate::random::random_index(my_hexes.len());
    let some_hex = my_hexes[ind];
    assert(my_hexes@.contains(some_hex));
    if !map.entities.contains_key(&some_hex) {
        return Err(inconsistent("Hex Entity Not Found"));
    }
    if treasury.gold < i32::MIN + 10 {
        return Err(overflow_error());
    }
    let n = div10_exec(treasury.gold - 10);
    let ghost a0 = map.armies@;
    let res = crate::recruitment::recruit_checked(treasury, n, n * 10, me, map, some_hex, numbers);
    assert(my_hexes@.contains(some_hex));
    proof {
        if res is Ok && (forall|x: Hex|
            #[trigger] my_hexes@.contains(x) ==> old(map).hex_owners@.contains_key(x)
                && old(map).hex_owners@[x] == *me) && armies_on_own_land(
            old(map).armies@,
            old(map).hex_owners@,
        ) {
            crate::recruitment::lemma_recruit_keeps_armies_on_own_land(a0, map.hex_owners@, some_hex, *me, n);
        }
    }
    res
}

pub proof fn lemma_twenty_steps(g: int, k: int)
    by (nonlinear_arith)
    requires
        0 <= k,
        g >= 20,
        g - 20 * k >= 0,
        k <= g / 20,
    ensures
        g - 20 * k >= 20 ==> k + 1 <= g / 20,
        g - 20 * k < 20 ==> k == g / 20,
{
}

/// The armies after recruiting `n` soldiers of `me` on each of `coords` in
/// turn.
pub open spec fn recruit_seq(armies: Map<Hex, Army>, coords: Seq<Hex>, me: CountryId, n: i32) -> Map<
    Hex,
    Army,
>
    decreases coords.len(),
{
    if coords.len() == 0 {
        armies
    } else {
        let a = recruit_seq(armies, coords.drop_last(), me, n);
        a.insert(coords.last(), crate::recruitment::recruited_army(a, coords.last(), me, n))
    }
}

/// The soldier counts after `me` recruits `k` soldiers in all.
pub open spec fn with_recruits(nums: Map<CountryId, i32>, me: CountryId, k: int) -> Map<CountryId, i32> {
    if k == 0 {
        nums
    } else {
        nums.insert(
            me,
            (k + if nums.contains_key(me) {
                nums[me] as int
            } else {
                0
            }) as i32,
        )
    }
}

/// How many small armies a bot with `armies_num` armies and `gold` recruits
/// in peace: up to five armies in all, as long as it has 20 gold for each.
pub open spec fn small_armies_planned(armies_num: int, gold: int) -> int {
    if armies_num < 5 && gold >= 20 {
        crate::army::min(5 - armies_num, gold / 20)
    } else {
        0
    }
}

/// `x` can take `extra` more soldiers of `me`: its army and `me`'s count
/// stay within `i32`.
pub open spec fn room_for(armies: Map<Hex, Army>, nums: Map<CountryId, i32>, x: Hex, me: CountryId, extra: int) -> bool {
    &&& armies.contains_key(x) ==> armies[x].number_of_soldiers + extra <= i32::MAX
    &&& nums.contains_key(me) ==> nums[me] + extra <= i32::MAX
}

/// The small armies a bot recruits in peace, on tiles of `land`, from
/// `armies`, treasury `t` and counts `nums` to `armies2`, `t2`, `nums2`:
/// two soldiers for 20 gold at a time, as many as planned when `ok`. It
/// stops short only where there was no land, or a drawn tile was missing
/// from `ents` or could not take two more soldiers (nor the count two more)
/// at that point; so some tile of the land then lacks room for all the
/// planned soldiers.
pub open spec fn small_recruits(
    armies: Map<Hex, Army>,
    armies_num: int,
    t: Treasury,
    nums: Map<CountryId, i32>,
    land: Seq<Hex>,
    ents: Map<Hex, Tile>,
    me: CountryId,
    armies2: Map<Hex, Army>,
    t2: Treasury,
    nums2: Map<CountryId, i32>,
    ok: bool,
) -> bool {
    let planned = small_armies_planned(armies_num, t.gold as int);
    &&& exists|coords: Seq<Hex>|
        #![trigger recruit_seq(armies, coords, me, 2)]
        {
            &&& coords.len() <= planned
            &&& ok ==> coords.len() == planned
            &&& forall|q: int| 0 <= q < coords.len() ==> land.contains(#[trigger] coords[q])
            &&& armies2 == recruit_seq(armies, coords, me, 2)
            &&& nums2 == with_recruits(nums, me, 2 * coords.len() as int)
            &&& t2 == (Treasury { gold: (t.gold - 20 * coords.len()) as i32, ..t })
            &&& !ok ==> coords.len() < planned && (land.len() == 0 || exists|x: Hex|
                #[trigger] land.contains(x) && !(ents.contains_key(x) && room_for(armies2, nums2, x, me, 2)))
        }
    &&& !ok ==> planned > 0 && (land.len() == 0 || exists|x: Hex|
        #[trigger] land.contains(x) && !(ents.contains_key(x) && room_for(armies, nums, x, me, 2 * planned)))
}

/// With fewer than five armies, the bot recruits small armies of two
/// soldiers for 20 gold each, on randomly drawn tiles of `my_hexes`, until it
/// has five or its gold runs short.
pub fn recruit_armies_during_peace(
    armies_num: usize,
    treasury: &mut Treasury,
    my_hexes: &Vec<Hex>,
    map: &mut HexMap,
    me: &CountryId,
    soldiers_nums: &mut CountriesSolidersNumbers,
) -> (r: Result<(), MyErrors>)
    requires
        old(map).wf(),
        old(soldiers_nums).wf(),
    ensures
        final(map).wf(),
        final(soldiers_nums).wf(),
        final(map).political == old(map).political,
        final(map).entities == old(map).entities,
        final(map).hex_owners == old(map).hex_owners,
        final(treasury).base_income == old(treasury).base_income,
        (forall|x: Hex|
            #[trigger] my_hexes@.contains(x) ==> old(map).hex_owners@.contains_key(x)
                && old(map).hex_owners@[x] == *me) && armies_on_own_land(
            old(map).armies@,
            old(map).hex_owners@,
        ) ==> armies_on_own_land(final(map).armies@, final(map).hex_owners@),
        counts_only_for(old(soldiers_nums).numbers@, final(soldiers_nums).numbers@, *me),
        r is Ok ==> final(treasury).gold == old(treasury).gold - 20 * small_armies_planned(
            armies_num as int,
            old(treasury).gold as int,
        ),
        small_recruits(
            old(map).armies@,
            armies_num as int,
            *old(treasury),
            old(soldiers_nums).numbers@,
            my_hexes@,
            old(map).entities@,
            *me,
            final(map).armies@,
            *final(treasury),
            final(soldiers_nums).numbers@,
            r is Ok,
        ),
{
    let ghost mut coords: Seq<Hex> = Seq::empty();
    let ghost a_start = map.armies@;
    let ghost n_start = soldiers_nums.numbers@;
    let ghost or0: int = if n_start.contains_key(*me) {
        n_start[*me] as int
    } else {
        0
    };
    let ghost planned = small_armies_planned(armies_num as int, old(treasury).gold as int);
    let ghost g0: int = old(treasury).gold as int;
    if armies_num < 5 {
        let rounds = 5 - armies_num;
        let mut k: usize = 0;
        while k < rounds
            invariant
                map.wf(),
                soldiers_nums.wf(),
                map.political == old(map).political,
                map.entities == old(map).entities,
                map.hex_owners == old(map).hex_owners,
                treasury.base_income == old(treasury).base_income,
                rounds == 5 - armies_num,
                armies_num < 5,
                k <= rounds,
                old(treasury).gold >= 20 ==> k <= old(treasury).gold / 20,
                k > 0 ==> old(treasury).gold >= 20,
                treasury.gold >= 0 || k == 0,
                treasury.gold == old(treasury).gold - 20 * k,
                counts_only_for(old(soldiers_nums).numbers@, soldiers_nums.numbers@, *me),
                (forall|x: Hex|
                    #[trigger] my_hexes@.contains(x) ==> old(map).hex_owners@.contains_key(x)
                        && old(map).hex_owners@[x] == *me) && armies_on_own_land(
                    old(map).armies@,
                    old(map).hex_owners@,
                ) ==> armies_on_own_land(map.armies@, map.hex_owners@),
                a_start == old(map).armies@,
                n_start == old(soldiers_nums).numbers@,
                or0 == (if n_start.contains_key(*me) {
                    n_start[*me] as int
                } else {
                    0
                }),
                planned == small_armies_planned(armies_num as int, old(treasury).gold as int),
                g0 == old(treasury).gold,
                coords.len() == k,
                k <= planned,
                forall|q: int| 0 <= q < coords.len() ==> my_hexes@.contains(#[trigger] coords[q]),
                map.armies@ == recruit_seq(a_start, coords, *me, 2),
                soldiers_nums.numbers@ == with_recruits(n_start, *me, 2 * k),
                k > 0 ==> i32::MIN <= 2 * k + or0 <= i32::MAX,
                forall|x: Hex| #[trigger] a_start.contains_key(x) ==> map.armies@.contains_key(x),
                forall|x: Hex|
                    #[trigger] map.armies@.contains_key(x) ==> if a_start.contains_key(x) {
                        map.armies@[x].number_of_soldiers <= a_start[x].number_of_soldiers + 2 * k
                    } else {
                        map.armies@[x].number_of_soldiers <= 2 * k
                    },
            decreases rounds - k,
        {
            proof {
                if old(treasury).gold >= 20 {
                    lemma_twenty_steps(old(treasury).gold as int, k as int);
                }
            }
            if treasury.gold < 20 {
                proof {
                    if k < planned {
                        assert(g0 - 20 * k >= 20) by (nonlinear_arith)
                            requires
                                k < planned,
                                planned <= g0 / 20,
                                g0 >= 20,
                        ;
                    }
                }
                return Ok(());
            }
            proof {
                assert(k < g0 / 20) by (nonlinear_arith)
                    requires
                        g0 - 20 * k >= 20,
                        k >= 0,
                ;
                assert(g0 >= 20);
                assert(k < planned);
            }
            if my_hexes.len() == 0 {
                return Err(empty_range_error());
            }
            let ind = crate::random::random_index(my_hexes.len());
            let coord = my_hexes[ind];
            assert(my_hexes@.contains(coord));
            if !map.entities.contains_key(&coord) {
                return Err(inconsistent("Hex Entityt not found"));
            }
            let ghost a0 = map.armies@;
            let ghost nm0 = soldiers_nums.numbers@;
            let res = crate::recruitment::recruit_checked(treasury, 2, 20, me, map, coord, soldiers_nums);
            proof {
                if res is Ok && (forall|x: Hex|
                    #[trigger] my_hexes@.contains(x) ==> old(map).hex_owners@.contains_key(x)
                        && old(map).hex_owners@[x] == *me) && armies_on_own_land(
                    old(map).armies@,
                    old(map).hex_owners@,
                ) {
                    crate::recruitment::lemma_recruit_keeps_armies_on_own_land(
                        a0,
                        map.hex_owners@,
                        coord,
                        *me,
                        2,
                    );
                }
            }
            match res {
                Ok(()) => {},
                Err(e) => {
                    proof {
                        assert(!room_for(map.armies@, soldiers_nums.numbers@, coord, *me, 2));
                        assert(!room_for(a_start, n_start, coord, *me, 2 * planned)) by {
                            if a0.contains_key(coord) && a_start.contains_key(coord) {
                                assert(a0[coord].number_of_soldiers <= a_start[coord].number_of_soldiers + 2 * k);
                            }
                        }
                    }
                    return Err(e);
                },
            }
            proof {
                assert forall|x: Hex| #[trigger] map.armies@.contains_key(x) implies if a_start.contains_key(x) {
                    map.armies@[x].number_of_soldiers <= a_start[x].number_of_soldiers + 2 * (k + 1)
                } else {
                    map.armies@[x].number_of_soldiers <= 2 * (k + 1)
                } by {
                    if x != coord {
                        assert(a0.contains_key(x));
                        assert(map.armies@[x] == a0[x]);
                    } else {
                        if a0.contains_key(x) {
                            assert(map.armies@[x].number_of_soldiers == 2 + a0[x].number_of_soldiers);
                        } else {
                            assert(map.armies@[x].number_of_soldiers == 2);
                        }
                    }
                }
                let c2 = coords.push(coord);
                assert(c2.drop_last() =~= coords);
                assert forall|q: int| 0 <= q < c2.len() implies my_hexes@.contains(#[trigger] c2[q]) by {
                    if q < coords.len() {
                        assert(c2[q] == coords[q]);
                    }
                }
                assert(soldiers_nums.numbers@ =~= with_recruits(n_start, *me, 2 * (k + 1)));
                coords = c2;
            }
            k = k + 1;
        }
    }
    proof {
        if armies_num < 5 {
            assert(planned <= 5 - armies_num);
            assert(coords.len() == planned);
        }
        if armies_num >= 5 {
            assert(coords.len() == planned);
            assert(map.armies@ == recruit_seq(a_start, coords, *me, 2));
            assert(soldiers_nums.numbers@ =~= with_recruits(n_start, *me, 0));
        }
    }
    Ok(())
}

} // verus!

verus! {

/// Some country of `s` has more than twice `my_num` soldiers.
pub open spec fn someone_twice_as_strong(nums: Map<CountryId, i32>, my_num: int) -> bool {
    exists|c: CountryId| #[trigger] nums.contains_key(c) && nums[c] > 2 * my_num
}

/// Recruiting `me`'s soldiers on `x` with all of the treasury `t` but ten
/// fits in `i32`: the gold less ten, what is left after paying, the
/// country's count and the army on `x`.
pub open spec fn all_in_fits(armies: Map<Hex, Army>, t: Treasury, nums: Map<CountryId, i32>, me: CountryId, x: Hex) -> bool {
    let n = all_in_soldiers(t.gold as int);
    &&& i32::MIN + 10 <= t.gold
    &&& i32::MIN <= t.gold - n * 10 <= i32::MAX
    &&& nums.contains_key(me) ==> i32::MIN <= nums[me] + n <= i32::MAX
    &&& armies.contains_key(x) ==> i32::MIN <= n + armies[x].number_of_soldiers <= i32::MAX
}

/// With at least ten gold above `i32::MIN`, the arithmetic that recruiting
/// with all the gold but ten checks is that of `all_in_fits`.
proof fn lemma_all_in_fits(m: &HexMap, t: Treasury, nums: Map<CountryId, i32>, me: CountryId, x: Hex)
    requires
        t.gold >= i32::MIN + 10,
    ensures
        crate::recruitment::recruit_fits(
            t,
            all_in_soldiers(t.gold as int) as i32,
            (all_in_soldiers(t.gold as int) * 10) as i32,
            me,
            m,
            x,
            nums,
        ) == all_in_fits(m.armies@, t, nums, me, x),
{
    let g = t.gold - 10;
    let n = all_in_soldiers(t.gold as int);
    assert(-214748364 <= n <= 214748363) by {
        if g >= 0 {
            assert(g / 10 <= 214748363) by (nonlinear_arith)
                requires
                    0 <= g <= 2147483637,
            ;
        } else {
            assert((-g) / 10 <= 214748364) by (nonlinear_arith)
                requires
                    0 < -g <= 2147483648,
            ;
        }
    }
}

/// Some country has a soldier count.
pub open spec fn has_counts(nums: Map<CountryId, i32>) -> bool {
    exists|c: CountryId| #[trigger] nums.contains_key(c)
}

/// A bot with `my_num` soldiers, outnumbered more than two to one by some
/// country of `nums`, recruits with all its gold but ten on the tile of one
/// of the armies of `list` (the board's tiles being `ents`); otherwise
/// nothing changes. It fails, changing nothing, when there are counts and
/// doubling `my_num` overflows, or when outnumbered with no army; otherwise
/// it fails only where the drawn army's tile is off the board or the
/// recruitment there would overflow, so it succeeds when no tile of `list`
/// is such.
pub open spec fn all_in_if_outnumbered(
    armies: Map<Hex, Army>,
    t: Treasury,
    nums: Map<CountryId, i32>,
    my_num: int,
    list: Seq<(Hex, i32)>,
    ents: Map<Hex, Tile>,
    me: CountryId,
    armies2: Map<Hex, Army>,
    t2: Treasury,
    nums2: Map<CountryId, i32>,
    ok: bool,
) -> bool {
    let n = all_in_soldiers(t.gold as int);
    let overflow = has_counts(nums) && !(i32::MIN / 2 <= my_num <= i32::MAX / 2);
    let outnumbered = someone_twice_as_strong(nums, my_num);
    &&& !ok ==> armies2 == armies && t2 == t && nums2 == nums
    &&& overflow ==> !ok
    &&& !overflow && outnumbered && list.len() == 0 ==> !ok
    &&& !ok && !overflow ==> outnumbered && (list.len() == 0 || exists|k: int|
        0 <= k < list.len() && !(ents.contains_key(#[trigger] list[k].0) && all_in_fits(armies, t, nums, me, list[k].0)))
    &&& !overflow && (!outnumbered || list.len() > 0 && forall|k: int|
        0 <= k < list.len() ==> ents.contains_key(#[trigger] list[k].0) && all_in_fits(armies, t, nums, me, list[k].0))
        ==> ok
    &&& ok && !someone_twice_as_strong(nums, my_num) ==> armies2 == armies && t2 == t && nums2 == nums
    &&& ok && someone_twice_as_strong(nums, my_num) ==> exists|k: int|
        0 <= k < list.len() && recruited(armies, armies2, t, t2, nums, nums2, #[trigger] list[k].0, me, n, n * 10)
}

/// When some country has more than twice the bot's soldiers, the bot
/// recruits, on the tile of one of its armies drawn at random, as many
/// soldiers as all its gold but ten pays for.
pub fn compare_with_other(
    my_num: i32,
    soldiers_nums: &mut CountriesSolidersNumbers,
    iterator: &Vec<(Hex, i32)>,
    map: &mut HexMap,
    armies_num: usize,
    treasury: &mut Treasury,
    me: &CountryId,
) -> (r: Result<(), MyErrors>)
    requires
        old(map).wf(),
        old(soldiers_nums).wf(),
        armies_num == iterator@.len(),
    ensures
        final(map).wf(),
        final(soldiers_nums).wf(),
        final(map).political == old(map).political,
        final(map).entities == old(map).entities,
        final(map).hex_owners == old(map).hex_owners,
        (forall|k: int|
            0 <= k < iterator@.len() ==> old(map).hex_owners@.contains_key(#[trigger] iterator@[k].0)
                && old(map).hex_owners@[iterator@[k].0] == *me) && armies_on_own_land(
            old(map).armies@,
            old(map).hex_owners@,
        ) ==> armies_on_own_land(final(map).armies@, final(map).hex_owners@),
        counts_only_for(old(soldiers_nums).numbers@, final(soldiers_nums).numbers@, *me),
        all_in_if_outnumbered(
            old(map).armies@,
            *old(treasury),
            old(soldiers_nums).numbers@,
            my_num as int,
            iterator@,
            old(map).entities@,
            *me,
            final(map).armies@,
            *final(treasury),
            final(soldiers_nums).numbers@,
            r is Ok,
        ),
        has_counts(old(soldiers_nums).numbers@) && !(i32::MIN / 2 <= my_num <= i32::MAX / 2) ==> r matches Err(
            MyErrors::Unexpected(_),
        ),
        i32::MIN / 2 <= my_num <= i32::MAX / 2 && someone_twice_as_strong(old(soldiers_nums).numbers@, my_num as int)
            && iterator@.len() == 0 ==> r matches Err(MyErrors::Unexpected(_)),
{
    let ghost s = old(soldiers_nums).numbers.seq();
    proof {
        lemma_entries_map_all(s);
    }
    let n = soldiers_nums.numbers.entries.len();
    let mut idx: usize = 0;
    while idx < n
        invariant
            n == soldiers_nums.numbers.entries@.len(),
            soldiers_nums.numbers.entries@ == old(soldiers_nums).numbers.entries@,
            s == old(soldiers_nums).numbers.seq(),
            forall|i: int|
                0 <= i < s.len() ==> #[trigger] old(soldiers_nums).numbers@.contains_key(s[i].0)
                    && old(soldiers_nums).numbers@[s[i].0] == s[i].1,
            forall|c: CountryId|
                #[trigger] old(soldiers_nums).numbers@.contains_key(c) ==> exists|i: int|
                    0 <= i < s.len() && s[i].0 == c,
            idx <= n,
            forall|i: int| 0 <= i < idx ==> !(#[trigger] s[i].1 > 2 * my_num),
            idx > 0 ==> i32::MIN / 2 <= my_num <= i32::MAX / 2,
            *map == *old(map),
            *treasury == *old(treasury),
            map.wf(),
            soldiers_nums.wf(),
            soldiers_nums.numbers@ == old(soldiers_nums).numbers@,
            armies_num == iterator@.len(),
        decreases n - idx,
    {
        let num = soldiers_nums.numbers.entries[idx].1;
        if my_num > i32::MAX / 2 || my_num < i32::MIN / 2 {
            assert(old(soldiers_nums).numbers@.contains_key(s[idx as int].0));
            return Err(overflow_error());
        }
        assert(s[idx as int].1 == num);
        if num > 2 * my_num {
            assert(old(soldiers_nums).numbers@.contains_key(s[idx as int].0));
            assert(someone_twice_as_strong(old(soldiers_nums).numbers@, my_num as int));
            if armies_num == 0 {
                return Err(empty_range_error());
            }
            let ind = crate::random::random_index(armies_num);
            let coord = iterator[ind].0;
            if !map.entities.contains_key(&coord) {
                return Err(inconsistent("Hex Entity not found"));
            }
            if treasury.gold < i32::MIN + 10 {
                return Err(overflow_error());
            }
            let k = div10_exec(treasury.gold - 10);
            let ghost a0 = map.armies@;
            let res = crate::recruitment::recruit_checked(treasury, k, k * 10, me, map, coord, soldiers_nums);
            proof {
                if res is Ok && (forall|q: int|
                    0 <= q < iterator@.len() ==> old(map).hex_owners@.contains_key(#[trigger] iterator@[q].0)
                        && old(map).hex_owners@[iterator@[q].0] == *me) && armies_on_own_land(
                    old(map).armies@,
                    old(map).hex_owners@,
                ) {
                    assert(map.hex_owners@.contains_key(iterator@[ind as int].0));
                    crate::recruitment::lemma_recruit_keeps_armies_on_own_land(
                        a0,
                        map.hex_owners@,
                        coord,
                        *me,
                        k,
                    );
                }
                assert(old(soldiers_nums).numbers@.contains_key(s[idx as int].0));
                assert(someone_twice_as_strong(old(soldiers_nums).numbers@, my_num as int));
            }
            return res;
        }
        idx = idx + 1;
    }
    proof {
        if has_counts(old(soldiers_nums).numbers@) {
            let c = choose|c: CountryId| #[trigger] old(soldiers_nums).numbers@.contains_key(c);
            assert(old(soldiers_nums).numbers@.contains_key(c));
        }
        assert forall|c: CountryId| #[trigger] old(soldiers_nums).numbers@.contains_key(c) implies !(old(
            soldiers_nums,
        ).numbers@[c] > 2 * my_num) by {
            let q = choose|q: int| 0 <= q < s.len() && s[q].0 == c;
            assert(old(soldiers_nums).numbers@.contains_key(s[q].0));
        }
    }
    Ok(())
}

/// A market built by a bot: where, and in which slot.
#[derive(Clone, Copy, Debug)]
pub struct MarketBuilt {
    pub hex: Hex,
    pub slot: usize,
}

/// The tiles after the markets of `events` are built, one after another.
pub open spec fn built_markets(ents: Map<Hex, Tile>, events: Seq<MarketBuilt>) -> Map<Hex, Tile>
    decreases events.len(),
{
    if events.len() == 0 {
        ents
    } else {
        let e = built_markets(ents, events.drop_last());
        let h = events.last().hex;
        e.insert(
            h,
            Tile { terrain: e[h].terrain, buildings: (crate::buildings::place_market(e[h].buildings)->0).0 },
        )
    }
}

/// Each market of `events` went, when it was built, into the first free
/// slot of a tile of the board, the slot it records.
pub open spec fn markets_fit(ents: Map<Hex, Tile>, events: Seq<MarketBuilt>) -> bool
    decreases events.len(),
{
    events.len() == 0 || {
        let e = built_markets(ents, events.drop_last());
        let h = events.last().hex;
        &&& markets_fit(ents, events.drop_last())
        &&& e.contains_key(h)
        &&& crate::buildings::place_market(e[h].buildings) matches Some((_, i)) && i == events.last().slot
    }
}

/// Trying to build a market on `h` would change something: build it, or
/// find the state inconsistent.
pub open spec fn market_eventful(entities: Map<Hex, Tile>, h: Hex) -> bool {
    !entities.contains_key(h) || entities[h].buildings is Empty || crate::buildings::place_market(
        entities[h].buildings,
    ) is Some
}

fn market_eventful_exec(map: &HexMap, h: &Hex) -> (b: bool)
    requires
        map.wf(),
    ensures
        b == market_eventful(map.entities@, *h),
{
    match map.entities.get(h) {
        None => true,
        Some(tile) => {
            if let crate::buildings::BuildingsAggregate::Empty = tile.buildings {
                true
            } else {
                tile.buildings.with_market().is_some()
            }
        },
    }
}

/// The markets a bot builds in peace on tiles of `land`, from tiles `ents`
/// and treasury `t` to `ents2` and `t2`: none unless it has over 200 gold;
/// then, one after another, each into the first free slot of its tile for
/// `PRICE` gold, until its gold is 100 or less or no tile of `land` is left
/// where a try would change anything. A failure comes only from a tile
/// missing from the board or one where nothing can be built.
pub open spec fn markets_effect(
    ents: Map<Hex, Tile>,
    t: Treasury,
    land: Seq<Hex>,
    ents2: Map<Hex, Tile>,
    t2: Treasury,
    built: Seq<MarketBuilt>,
    ok: bool,
) -> bool {
    &&& markets_fit(ents, built)
    &&& ents2 == built_markets(ents, built)
    &&& t2 == (Treasury { gold: (t.gold - crate::buildings::PRICE * built.len()) as i32, ..t })
    &&& forall|k: int| 0 <= k < built.len() ==> land.contains(#[trigger] built[k].hex)
    &&& t.gold <= 200 ==> ok && built.len() == 0
    &&& ok && t.gold > 200 ==> t2.gold <= 100 || forall|x: Hex|
        #[trigger] land.contains(x) ==> !market_eventful(ents2, x)
    &&& !ok ==> t.gold > 200 && (land.len() == 0 || exists|x: Hex|
        #[trigger] land.contains(x) && (!ents.contains_key(x) || ents[x].buildings is Empty))
}

/// A rich bot (over 200 gold) builds markets on its tiles, drawn at random,
/// while it has over 100 gold. Tiles where a try would change nothing are
/// passed over, so a bot whose tiles are all full stops building.
pub fn build_markets_during_peace(map: &mut HexMap, treasury: &mut Treasury, my_hexes: &Vec<Hex>) -> (r:
    Result<Vec<MarketBuilt>, MyErrors>)
    requires
        old(map).wf(),
    ensures
        final(map).wf(),
        final(map).political == old(map).political,
        final(map).hex_owners == old(map).hex_owners,
        final(map).armies == old(map).armies,
        same_terrain(old(map).entities@, final(map).entities@),
        final(treasury).base_income == old(treasury).base_income,
        exists|built: Seq<MarketBuilt>|
            #![trigger built_markets(old(map).entities@, built)]
            markets_effect(
                old(map).entities@,
                *old(treasury),
                my_hexes@,
                final(map).entities@,
                *final(treasury),
                built,
                r is Ok,
            ) && (r matches Ok(events) ==> events@ == built),
{
    let mut events: Vec<MarketBuilt> = Vec::new();
    if treasury.gold <= 200 {
        assert(same_terrain(old(map).entities@, map.entities@));
        assert(map.entities@ == built_markets(old(map).entities@, events@));
        return Ok(events);
    }
    if my_hexes.len() == 0 {
        assert(map.entities@ == built_markets(old(map).entities@, events@));
        return Err(empty_range_error());
    }
    while treasury.gold > 100
        invariant
            map.wf(),
            map.political == old(map).political,
            map.hex_owners == old(map).hex_owners,
            map.armies == old(map).armies,
            same_terrain(old(map).entities@, map.entities@),
            treasury.base_income == old(treasury).base_income,
            old(treasury).gold > 200,
            my_hexes@.len() > 0,
            forall|k: int| 0 <= k < events@.len() ==> my_hexes@.contains(#[trigger] events@[k].hex),
            markets_fit(old(map).entities@, events@),
            map.entities@ == built_markets(old(map).entities@, events@),
            treasury.gold == old(treasury).gold - crate::buildings::PRICE * events@.len(),
            forall|x: Hex|
                #[trigger] map.entities@.contains_key(x) ==> (map.entities@[x].buildings is Empty
                    <==> old(map).entities@[x].buildings is Empty),
        decreases treasury.gold,
    {
        let mut cands: Vec<Hex> = Vec::new();
        let m = my_hexes.len();
        let mut i: usize = 0;
        while i < m
            invariant
                m == my_hexes@.len(),
                i <= m,
                map.wf(),
                forall|x: Hex|
                    #[trigger] cands@.contains(x) ==> my_hexes@.contains(x) && market_eventful(
                        map.entities@,
                        x,
                    ),
                forall|j: int|
                    0 <= j < i && market_eventful(map.entities@, #[trigger] my_hexes@[j])
                        ==> cands@.contains(my_hexes@[j]),
            decreases m - i,
        {
            let h = my_hexes[i];
            let ghost c0 = cands@;
            if market_eventful_exec(map, &h) {
                cands.push(h);
                proof {
                    assert(cands@[c0.len() as int] == h);
                    assert(my_hexes@[i as int] == h);
                    assert forall|x: Hex| c0.contains(x) implies #[trigger] cands@.contains(x) by {
                        let q = choose|q: int| 0 <= q < c0.len() && c0[q] == x;
                        assert(cands@[q] == x);
                    }
                    assert forall|x: Hex| #[trigger] cands@.contains(x) implies c0.contains(x) || x == h by {
                        let q = choose|q: int| 0 <= q < cands@.len() && cands@[q] == x;
                        if q < c0.len() {
                            assert(c0[q] == x);
                        }
                    }
                }
            }
            i = i + 1;
        }
        if cands.len() == 0 {
            proof {
                assert forall|x: Hex| #[trigger] my_hexes@.contains(x) implies !market_eventful(
                    map.entities@,
                    x,
                ) by {
                    let j = choose|j: int| 0 <= j < my_hexes@.len() && my_hexes@[j] == x;
                    if market_eventful(map.entities@, my_hexes@[j]) {
                        assert(cands@.contains(x));
                    }
                }
            }
            return Ok(events);
        }
        let ind = crate::random::random_index(cands.len());
        let coord = cands[ind];
        assert(cands@.contains(coord));
        let ghost e0 = map.entities@;
        match crate::buildings::build_market_bot(map, &coord, treasury) {
            Ok(Some(slot)) => {
                let ghost ev0 = events@;
                events.push(MarketBuilt { hex: coord, slot });
                proof {
                    assert(events@.drop_last() =~= ev0);
                    assert forall|x: Hex| #[trigger] map.entities@.contains_key(x) implies (map.entities@[x].buildings is Empty
                        <==> old(map).entities@[x].buildings is Empty) by {
                        if x != coord {
                            assert(e0.contains_key(x));
                        }
                    }
                    let t = crate::map::Tile {
                        terrain: e0[coord].terrain,
                        buildings: (crate::buildings::place_market(e0[coord].buildings)->0).0,
                    };
                    lemma_insert_same_terrain(e0, coord, t);
                    lemma_same_terrain_trans(old(map).entities@, e0, map.entities@);
                }
            },
            Ok(None) => {
                assert(false);
            },
            Err(e) => {
                proof {
                    assert(my_hexes@.contains(coord));
                    if old(map).entities@.contains_key(coord) {
                        assert(e0.contains_key(coord));
                    }
                }
                return Err(e);
            },
        }
    }
    Ok(events)
}

} // verus!

verus! {

/// A bot's turn at war: with no free land of its own it does nothing;
/// without a list of wars it fails; otherwise its armies march on its
/// enemies' land (see `marched`) and, if every move succeeded, it recruits
/// with all its gold but ten on a tile of its free land drawn at random.
/// `ok` is whether the turn succeeded: after a march it fails only where
/// the drawn tile is off the board or the recruitment there would overflow,
/// so it succeeds when no tile of its free land is such.
pub open spec fn war_turn(
    map: HexMap,
    occ: Occupied,
    t: Treasury,
    nums: Map<CountryId, i32>,
    wars: Map<CountryId, Seq<CountryId>>,
    me: CountryId,
    map2: HexMap,
    occ2: Occupied,
    t2: Treasury,
    nums2: Map<CountryId, i32>,
    ok: bool,
) -> bool {
    let land = free_land_of(map.hex_owners.seq(), occ.map@, me);
    let n = all_in_soldiers(t.gold as int);
    if land.len() == 0 {
        ok && map2 == map && occ2 == occ && t2 == t && nums2 == nums
    } else if !wars.contains_key(me) {
        !ok && map2 == map && occ2 == occ && t2 == t && nums2 == nums
    } else {
        exists|mid: Map<Hex, Army>, went: bool|
            #![trigger marched(map.armies@, map.hex_owners@, occ.map@, mid, map2.hex_owners@, occ2.map@, went, armies_of(map.armies.seq(), me), map.entities@, me, wars[me], true)]
            {
                &&& marched(
                    map.armies@,
                    map.hex_owners@,
                    occ.map@,
                    mid,
                    map2.hex_owners@,
                    occ2.map@,
                    went,
                    armies_of(map.armies.seq(), me),
                    map.entities@,
                    me,
                    wars[me],
                    true,
                )
                &&& !went ==> !ok
                &&& went && (forall|x: Hex|
                    #[trigger] land.contains(x) ==> map.entities@.contains_key(x) && all_in_fits(mid, t, nums, me, x))
                    ==> ok
                &&& went && !ok ==> exists|x: Hex|
                    #[trigger] land.contains(x) && !(map.entities@.contains_key(x) && all_in_fits(mid, t, nums, me, x))
                &&& !ok ==> map2.armies@ == mid && t2 == t && nums2 == nums
                &&& ok ==> exists|coord: Hex|
                    #![trigger land.contains(coord)]
                    land.contains(coord) && map.entities@.contains_key(coord) && recruited(
                        mid,
                        map2.armies@,
                        t,
                        t2,
                        nums,
                        nums2,
                        coord,
                        me,
                        n,
                        n * 10,
                    )
            }
    }
}

/// At war, the bot `me` (if it still holds free land) moves its armies
/// toward its enemies and spends its gold on soldiers on one of its tiles.
pub fn manage_wars(
    countries_wars: &AtWarLists,
    map: &mut HexMap,
    me: &CountryId,
    treasury: &mut Treasury,
    occupied: &mut Occupied,
    numbers: &mut CountriesSolidersNumbers,
) -> (r: Result<(), MyErrors>)
    requires
        old(map).wf(),
        old(occupied).wf(),
        old(numbers).wf(),
        countries_wars.wf(),
    ensures
        final(map).wf(),
        final(occupied).wf(),
        final(numbers).wf(),
        final(map).political == old(map).political,
        final(map).entities == old(map).entities,
        final(treasury).base_income == old(treasury).base_income,
        board_ok(old(map), old(occupied)) ==> board_ok(final(map), final(occupied)),
        counts_only_for(old(numbers).numbers@, final(numbers).numbers@, *me),
        free_land_of(old(map).hex_owners.seq(), old(occupied).map@, *me).len() == 0 ==> r is Ok
            && *final(map) == *old(map) && *final(occupied) == *old(occupied) && *final(treasury)
            == *old(treasury) && final(numbers).numbers@ == old(numbers).numbers@,
        free_land_of(old(map).hex_owners.seq(), old(occupied).map@, *me).len() > 0 && !countries_wars@.contains_key(*me)
            ==> (r matches Err(e) && e is InconsistentData) && *final(map) == *old(map) && *final(occupied) == *old(occupied)
            && *final(treasury) == *old(treasury) && final(numbers).numbers@ == old(numbers).numbers@,
        war_turn(
            *old(map),
            *old(occupied),
            *old(treasury),
            old(numbers).numbers@,
            countries_wars@,
            *me,
            *final(map),
            *final(occupied),
            *final(treasury),
            final(numbers).numbers@,
            r is Ok,
        ),
{
    let my_hexes = my_hexes(map, me, occupied);
    if my_hexes.len() == 0 {
        return Ok(());
    }
    let enemies = match countries_wars.lists.get_ref(me) {
        Some(list) => crate::util::copy_ids(list),
        None => {
            return Err(inconsistent("War Lists"));
        },
    };
    let iterator = my_armies_nums(map, me);
    let ghost m0 = *map;
    let ghost oc0 = *occupied;
    let res = move_armies_for_war(&iterator, map, &enemies, me, occupied);
    proof {
        if board_ok(old(map), old(occupied)) {
            lemma_moved_by_keeps_board(&m0, &oc0, map, occupied, *me);
        }
    }
    let ghost mid = map.armies@;
    let ghost went = res is Ok;
    assert(enemies@ == countries_wars@[*me]);
    match res {
        Ok(()) => {},
        Err(e) => {
            assert(marched(
                m0.armies@,
                m0.hex_owners@,
                oc0.map@,
                mid,
                map.hex_owners@,
                occupied.map@,
                went,
                armies_of(m0.armies.seq(), *me),
                m0.entities@,
                *me,
                countries_wars@[*me],
                true,
            ));
            return Err(e);
        },
    }
    let ghost t0 = *treasury;
    let ghost nm = numbers.numbers@;
    let ghost mm = *map;
    let res2 = recruit_army_on_random_hex(&my_hexes, treasury, me, map, numbers);
    proof {
        if t0.gold >= i32::MIN + 10 {
            assert forall|x: Hex| #[trigger] crate::recruitment::recruit_fits(
                t0,
                all_in_soldiers(t0.gold as int) as i32,
                (all_in_soldiers(t0.gold as int) * 10) as i32,
                *me,
                &mm,
                x,
                nm,
            ) == all_in_fits(mid, t0, nm, *me, x) by {
                lemma_all_in_fits(&mm, t0, nm, *me, x);
            }
        } else {
            assert(my_hexes@.contains(my_hexes@[0]));
        }
    }
    assert(marched(
        m0.armies@,
        m0.hex_owners@,
        oc0.map@,
        mid,
        map.hex_owners@,
        occupied.map@,
        went,
        armies_of(m0.armies.seq(), *me),
        m0.entities@,
        *me,
        countries_wars@[*me],
        true,
    ));
    res2
}

/// What a bot does in peace once its armies have marched, from the board
/// `m1` (its tiles `ents`) and occupation `occ`: it recruits small armies
/// on its free land, then, outnumbered two to one, with all its gold on the
/// tile of one of its armies, then builds markets on its free land.
pub open spec fn peace_after_march(
    m1: HexMap,
    occ: Occupied,
    ents: Map<Hex, Tile>,
    t: Treasury,
    nums: Map<CountryId, i32>,
    me: CountryId,
    map2: HexMap,
    t2: Treasury,
    nums2: Map<CountryId, i32>,
    built: Seq<MarketBuilt>,
    ok: bool,
) -> bool {
    let list = armies_of(m1.armies.seq(), me);
    let land = free_land_of(m1.hex_owners.seq(), occ.map@, me);
    exists|a2: Map<Hex, Army>, ta: Treasury, na: Map<CountryId, i32>, ok2: bool|
        #![trigger small_recruits(m1.armies@, list.len() as int, t, nums, land, ents, me, a2, ta, na, ok2)]
        {
            &&& small_recruits(m1.armies@, list.len() as int, t, nums, land, ents, me, a2, ta, na, ok2)
            &&& !ok2 ==> !ok && map2.armies@ == a2 && t2 == ta && nums2 == na && map2.entities@ == ents
            &&& ok2 && !na.contains_key(me) ==> !ok && map2.armies@ == a2 && t2 == ta && nums2 == na
                && map2.entities@ == ents
            &&& ok2 && na.contains_key(me) ==> exists|
                a3: Map<Hex, Army>,
                tb: Treasury,
                nb: Map<CountryId, i32>,
                ok3: bool,
            |
                #![trigger all_in_if_outnumbered(a2, ta, na, na[me] as int, list, ents, me, a3, tb, nb, ok3)]
                {
                    &&& all_in_if_outnumbered(a2, ta, na, na[me] as int, list, ents, me, a3, tb, nb, ok3)
                    &&& !ok3 ==> !ok && map2.armies@ == a3 && t2 == tb && nums2 == nb && map2.entities@ == ents
                    &&& ok3 ==> map2.armies@ == a3 && nums2 == nb && exists|b: Seq<MarketBuilt>|
                        #![trigger built_markets(ents, b)]
                        markets_effect(ents, tb, land, map2.entities@, t2, b, ok) && (ok ==> built == b)
                }
        }
}

/// A bot's turn in peace: its armies march toward unowned land (see
/// `marched`), and if every move succeeded it recruits and builds (see
/// `peace_after_march`). The occupation and owners are what the march left.
/// `built` is the markets it built, when `ok`.
pub open spec fn peace_turn(
    map: HexMap,
    occ: Occupied,
    t: Treasury,
    nums: Map<CountryId, i32>,
    me: CountryId,
    map2: HexMap,
    occ2: Occupied,
    t2: Treasury,
    nums2: Map<CountryId, i32>,
    built: Seq<MarketBuilt>,
    ok: bool,
) -> bool {
    exists|m1: HexMap, went: bool|
        #![trigger marched(map.armies@, map.hex_owners@, occ.map@, m1.armies@, m1.hex_owners@, occ2.map@, went, armies_of(map.armies.seq(), me), map.entities@, me, Seq::<CountryId>::empty(), false)]
        {
            &&& marched(
                map.armies@,
                map.hex_owners@,
                occ.map@,
                m1.armies@,
                m1.hex_owners@,
                occ2.map@,
                went,
                armies_of(map.armies.seq(), me),
                map.entities@,
                me,
                Seq::<CountryId>::empty(),
                false,
            )
            &&& map2.hex_owners@ == m1.hex_owners@
            &&& !went ==> !ok && map2.armies@ == m1.armies@ && map2.entities@ == map.entities@ && t2 == t
                && nums2 == nums
            &&& went ==> peace_after_march(m1, occ2, map.entities@, t, nums, me, map2, t2, nums2, built, ok)
        }
}

/// The markets of a bot's turn: those returned, or none on failure.
pub open spec fn built_of(r: Result<Vec<MarketBuilt>, MyErrors>) -> Seq<MarketBuilt> {
    match r {
        Ok(v) => v@,
        Err(_) => Seq::empty(),
    }
}

/// In peace, the bot `me` moves its armies toward unowned land, recruits
/// small armies until it has five, recruits with all its gold when another
/// country has more than twice its soldiers, and, when rich, builds markets.
/// Returns the markets it built.
pub fn manage_during_peace(
    map: &mut HexMap,
    me: &CountryId,
    treasury: &mut Treasury,
    occupied: &mut Occupied,
    soldiers_nums: &mut CountriesSolidersNumbers,
) -> (r: Result<Vec<MarketBuilt>, MyErrors>)
    requires
        old(map).wf(),
        old(occupied).wf(),
        old(soldiers_nums).wf(),
    ensures
        final(map).wf(),
        final(occupied).wf(),
        final(soldiers_nums).wf(),
        final(map).political == old(map).political,
        same_terrain(old(map).entities@, final(map).entities@),
        final(treasury).base_income == old(treasury).base_income,
        board_ok(old(map), old(occupied)) ==> board_ok(final(map), final(occupied)),
        counts_only_for(old(soldiers_nums).numbers@, final(soldiers_nums).numbers@, *me),
        peace_turn(
            *old(map),
            *old(occupied),
            *old(treasury),
            old(soldiers_nums).numbers@,
            *me,
            *final(map),
            *final(occupied),
            *final(treasury),
            final(soldiers_nums).numbers@,
            built_of(r),
            r is Ok,
        ),
{
    let ghost m0 = *map;
    let ghost oc0 = *occupied;
    let ghost t0 = *treasury;
    let ghost n0 = soldiers_nums.numbers@;
    let res = move_armies_during_peace(map, me, occupied);
    proof {
        if board_ok(old(map), old(occupied)) {
            lemma_moved_by_keeps_board(&m0, &oc0, map, occupied, *me);
        }
    }
    let ghost m1 = *map;
    let ghost went = res is Ok;
    assert(marched(
        m0.armies@,
        m0.hex_owners@,
        oc0.map@,
        m1.armies@,
        m1.hex_owners@,
        occupied.map@,
        went,
        armies_of(m0.armies.seq(), *me),
        m0.entities@,
        *me,
        Seq::<CountryId>::empty(),
        false,
    ));
    match res {
        Ok(()) => {},
        Err(e) => {
            return Err(e);
        },
    }
    let iterator = my_armies_nums(map, me);
    let armies_num = iterator.len();
    let my_hexes = my_hexes(map, me, occupied);
    let ghost ents = m0.entities@;
    let ghost list = armies_of(m1.armies.seq(), *me);
    let ghost land = free_land_of(m1.hex_owners.seq(), occupied.map@, *me);
    let res = recruit_armies_during_peace(armies_num, treasury, &my_hexes, map, me, soldiers_nums);
    let ghost a2 = map.armies@;
    let ghost ta = *treasury;
    let ghost na = soldiers_nums.numbers@;
    let ghost ok2 = res is Ok;
    assert(small_recruits(m1.armies@, list.len() as int, t0, n0, land, ents, *me, a2, ta, na, ok2));
    match res {
        Ok(()) => {},
        Err(e) => {
            assert(peace_after_march(m1, *occupied, ents, t0, n0, *me, *map, *treasury, soldiers_nums.numbers@, Seq::empty(), false));
            return Err(e);
        },
    }
    let my_num = match soldiers_nums.numbers.get(me) {
        Some(n) => n,
        None => {
            assert(peace_after_march(m1, *occupied, ents, t0, n0, *me, *map, *treasury, soldiers_nums.numbers@, Seq::empty(), false));
            return Err(inconsistent("Soldiers Nums"));
        },
    };
    let res = compare_with_other(my_num, soldiers_nums, &iterator, map, armies_num, treasury, me);
    let ghost a3 = map.armies@;
    let ghost tb = *treasury;
    let ghost nb = soldiers_nums.numbers@;
    let ghost ok3 = res is Ok;
    assert(all_in_if_outnumbered(a2, ta, na, na[*me] as int, list, ents, *me, a3, tb, nb, ok3));
    match res {
        Ok(()) => {},
        Err(e) => {
            assert(peace_after_march(m1, *occupied, ents, t0, n0, *me, *map, *treasury, soldiers_nums.numbers@, Seq::empty(), false));
            return Err(e);
        },
    }
    let r = build_markets_during_peace(map, treasury, &my_hexes);
    assert(peace_after_march(m1, *occupied, ents, t0, n0, *me, *map, *treasury, soldiers_nums.numbers@, built_of(r), r is Ok));
    r
}

/// The bot `player` outnumbers, with `my_num` soldiers, the country of the
/// `i`-th count among the first `n` counts of `s` at least two to one, and
/// has soldiers.
pub open spec fn declares_on(s: Seq<(CountryId, i32)>, n: int, my_num: i32, c: CountryId) -> bool {
    exists|i: int| 0 <= i < n && #[trigger] s[i].0 == c && my_num >= 2 * s[i].1 && my_num > 0
}

/// Doubling the count fits in an `i32`.
pub open spec fn doubles_fit(v: i32) -> bool {
    i32::MIN / 2 <= v <= i32::MAX / 2
}

/// A war of `b` against `a` after `a0` declares war on `b0` was there
/// before or is that one.
proof fn lemma_add_enemy_wars(w: Map<CountryId, Seq<CountryId>>, a0: CountryId, b0: CountryId, a: CountryId, b: CountryId)
    requires
        crate::war::at_war(crate::war::add_enemy(w, a0, b0), a, b),
    ensures
        crate::war::at_war(w, a, b) || (a == a0 && b == b0),
{
    if w.contains_key(a0) && !w[a0].contains(b0) && a == a0 {
        let l = w[a0].push(b0);
        if b != b0 {
            let k = choose|k: int| 0 <= k < l.len() && l[k] == b;
            assert(w[a0][k] == b);
        }
    }
}

/// The wars after the bot `player`, with `my_num` soldiers, declares war
/// on the countries of the counts `s` it outnumbers at least two to one
/// (when it has soldiers): no war ends, no other war starts, and, unless a
/// count cannot be doubled in an `i32` (a failure), every such war starts
/// where `player` has a list of wars.
pub open spec fn declare_effect(
    player: CountryId,
    my_num: i32,
    s: Seq<(CountryId, i32)>,
    wars: Map<CountryId, Seq<CountryId>>,
    wars2: Map<CountryId, Seq<CountryId>>,
    ok: bool,
) -> bool {
    &&& wars2.dom() == wars.dom()
    &&& forall|a: CountryId, b: CountryId|
        #[trigger] crate::war::at_war(wars, a, b) ==> crate::war::at_war(wars2, a, b)
    &&& forall|a: CountryId, b: CountryId|
        #[trigger] crate::war::at_war(wars2, a, b) ==> crate::war::at_war(wars, a, b) || (a == player
            && declares_on(s, s.len() as int, my_num, b)) || (b == player && declares_on(s, s.len() as int, my_num, a))
    &&& ok <==> forall|i: int| 0 <= i < s.len() ==> doubles_fit(#[trigger] s[i].1)
    &&& ok ==> forall|i: int|
        0 <= i < s.len() && my_num >= 2 * (#[trigger] s[i]).1 && my_num > 0 && s[i].0 != player
            && wars.contains_key(player) ==> crate::war::at_war(wars2, player, s[i].0)
    &&& ok ==> forall|i: int|
        0 <= i < s.len() && my_num >= 2 * (#[trigger] s[i]).1 && my_num > 0 && s[i].0 != player
            && wars.contains_key(s[i].0) ==> crate::war::at_war(wars2, s[i].0, player)
}

/// The bot `player` declares war on every country whose soldiers it
/// outnumbers at least two to one, if it has any soldiers; no other war
/// starts. Fails with an overflow error when a count cannot be doubled in an
/// `i32`.
pub fn declare_wars(
    player: CountryId,
    my_num: i32,
    soldiers_nums: &CountriesSolidersNumbers,
    countries_wars: &mut AtWarLists,
) -> (r: Result<(), MyErrors>)
    requires
        old(countries_wars).wf(),
        soldiers_nums.wf(),
    ensures
        final(countries_wars).wf(),
        wars_no_duplicates(old(countries_wars)@) ==> wars_no_duplicates(final(countries_wars)@),
        declare_effect(
            player,
            my_num,
            soldiers_nums.numbers.seq(),
            old(countries_wars)@,
            final(countries_wars)@,
            r is Ok,
        ),
        r matches Err(e) ==> e is Unexpected,
        crate::war::wars_symmetric(old(countries_wars)@) && old(countries_wars)@.contains_key(player) && (forall|i: int|
            0 <= i < soldiers_nums.numbers.seq().len() ==> old(countries_wars)@.contains_key(
                #[trigger] soldiers_nums.numbers.seq()[i].0,
            )) ==> crate::war::wars_symmetric(final(countries_wars)@),
{
    let ghost w0 = countries_wars@;
    let ghost s = soldiers_nums.numbers.seq();
    let n = soldiers_nums.numbers.entries.len();
    let mut idx: usize = 0;
    while idx < n
        invariant
            n == soldiers_nums.numbers.seq().len(),
            s == soldiers_nums.numbers.seq(),
            idx <= n,
            countries_wars.wf(),
            w0 == old(countries_wars)@,
            wars_no_duplicates(w0) ==> wars_no_duplicates(countries_wars@),
            countries_wars@.dom() == w0.dom(),
            forall|a: CountryId, b: CountryId|
                #[trigger] crate::war::at_war(w0, a, b) ==> crate::war::at_war(countries_wars@, a, b),
            forall|a: CountryId, b: CountryId|
                #[trigger] crate::war::at_war(countries_wars@, a, b) ==> crate::war::at_war(w0, a, b) || (a
                    == player && declares_on(s, idx as int, my_num, b)) || (b == player && declares_on(
                    s,
                    idx as int,
                    my_num,
                    a,
                )),
            forall|i: int| 0 <= i < idx ==> doubles_fit(#[trigger] s[i].1),
            crate::war::wars_symmetric(w0) && w0.contains_key(player) && (forall|i: int|
                0 <= i < s.len() ==> w0.contains_key(#[trigger] s[i].0)) ==> crate::war::wars_symmetric(countries_wars@),
            forall|i: int|
                0 <= i < idx && my_num >= 2 * (#[trigger] soldiers_nums.numbers.seq()[i]).1 && my_num
                    > 0 && soldiers_nums.numbers.seq()[i].0 != player && w0.contains_key(player)
                    ==> crate::war::at_war(countries_wars@, player, soldiers_nums.numbers.seq()[i].0),
            forall|i: int|
                0 <= i < idx && my_num >= 2 * (#[trigger] soldiers_nums.numbers.seq()[i]).1 && my_num
                    > 0 && soldiers_nums.numbers.seq()[i].0 != player && w0.contains_key(
                    soldiers_nums.numbers.seq()[i].0,
                ) ==> crate::war::at_war(countries_wars@, soldiers_nums.numbers.seq()[i].0, player),
        decreases n - idx,
    {
        let (entity, value) = soldiers_nums.numbers.entries[idx];
        if value > i32::MAX / 2 || value < i32::MIN / 2 {
            assert(!doubles_fit(s[idx as int].1));
            return Err(overflow_error());
        }
        let ghost wb = countries_wars@;
        if my_num >= 2 * value && my_num > 0 {
            start_war(player, entity, countries_wars);
            proof {
                crate::war::lemma_start_war_no_duplicates(wb, player, entity);
                assert forall|k: int|
                    0 <= k < idx + 1 && my_num >= 2 * (#[trigger] soldiers_nums.numbers.seq()[k]).1 && my_num > 0
                        && soldiers_nums.numbers.seq()[k].0 != player && w0.contains_key(
                        soldiers_nums.numbers.seq()[k].0,
                    ) implies crate::war::at_war(countries_wars@, soldiers_nums.numbers.seq()[k].0, player) by {
                    let c = soldiers_nums.numbers.seq()[k].0;
                    let w1 = crate::war::add_enemy(wb, player, entity);
                    assert(wb.contains_key(c));
                    if k < idx {
                        assert(crate::war::at_war(wb, c, player));
                        assert(crate::war::at_war(w1, c, player));
                    }
                    if !w1[c].contains(player) {
                        assert(countries_wars@[c][w1[c].len() as int] == player);
                    }
                }
                assert(declares_on(s, idx + 1, my_num, entity)) by {
                    assert(s[idx as int].0 == entity);
                }
                assert forall|a: CountryId, b: CountryId|
                    #[trigger] crate::war::at_war(countries_wars@, a, b) implies crate::war::at_war(w0, a, b) || (a
                        == player && declares_on(s, idx + 1, my_num, b)) || (b == player && declares_on(
                        s,
                        idx + 1,
                        my_num,
                        a,
                    )) by {
                    if player != entity {
                        let w1 = crate::war::add_enemy(wb, player, entity);
                        lemma_add_enemy_wars(w1, entity, player, a, b);
                        if crate::war::at_war(w1, a, b) {
                            lemma_add_enemy_wars(wb, player, entity, a, b);
                        }
                    }
                    if crate::war::at_war(wb, a, b) {
                        if a == player && declares_on(s, idx as int, my_num, b) {
                            let i = choose|i: int| 0 <= i < idx && #[trigger] s[i].0 == b && my_num >= 2 * s[i].1 && my_num > 0;
                            assert(s[i].0 == b);
                        }
                        if b == player && declares_on(s, idx as int, my_num, a) {
                            let i = choose|i: int| 0 <= i < idx && #[trigger] s[i].0 == a && my_num >= 2 * s[i].1 && my_num > 0;
                            assert(s[i].0 == a);
                        }
                    }
                }
            }
        } else {
            proof {
                assert forall|a: CountryId, b: CountryId|
                    #[trigger] crate::war::at_war(countries_wars@, a, b) implies crate::war::at_war(w0, a, b) || (a
                        == player && declares_on(s, idx + 1, my_num, b)) || (b == player && declares_on(
                        s,
                        idx + 1,
                        my_num,
                        a,
                    )) by {
                    if a == player && declares_on(s, idx as int, my_num, b) {
                        let i = choose|i: int| 0 <= i < idx && #[trigger] s[i].0 == b && my_num >= 2 * s[i].1 && my_num > 0;
                        assert(s[i].0 == b);
                    }
                    if b == player && declares_on(s, idx as int, my_num, a) {
                        let i = choose|i: int| 0 <= i < idx && #[trigger] s[i].0 == a && my_num >= 2 * s[i].1 && my_num > 0;
                        assert(s[i].0 == a);
                    }
                }
            }
        }
        idx = idx + 1;
    }
    Ok(())
}

/// Everything the bots' turns change: the countries, the soldier counts,
/// the wars, the board, the occupation and the markets built so far.
pub struct Realm {
    pub players: Seq<CountryState>,
    pub nums: CountriesSolidersNumbers,
    pub wars: Map<CountryId, Seq<CountryId>>,
    pub map: HexMap,
    pub occ: Occupied,
    pub built: Seq<MarketBuilt>,
}

/// What a bot does after answering its peace offers, from the realm `s`
/// with wars `w1` and occupation `occ1` left by its answers (`ok1` whether
/// they succeeded) and its treasury `t`, to the realm `s2` where its
/// treasury is `t2`: it needs a list of wars and a soldier count of its own,
/// declares its wars (see `declare_effect`) and then, if it was at war before
/// declaring, fights (see `war_turn`), otherwise grows in peace (see
/// `peace_turn`), the markets it builds joining those built before.
pub open spec fn bot_acts(
    me: CountryId,
    t: Treasury,
    w1: Map<CountryId, Seq<CountryId>>,
    occ1: Occupied,
    ok1: bool,
    s: Realm,
    s2: Realm,
    t2: Treasury,
    ok: bool,
) -> bool {
    let nums = s.nums.numbers@;
    if !ok1 || !w1.contains_key(me) || !nums.contains_key(me) {
        !ok && s2.wars == w1 && s2.occ == occ1 && s2.map == s.map && s2.nums == s.nums && t2 == t
    } else {
        exists|w2: Map<CountryId, Seq<CountryId>>, ok2: bool|
            #![trigger declare_effect(me, nums[me], s.nums.numbers.seq(), w1, w2, ok2)]
            {
                &&& declare_effect(me, nums[me], s.nums.numbers.seq(), w1, w2, ok2)
                &&& s2.wars == w2
                &&& !ok2 ==> !ok && s2.occ == occ1 && s2.map == s.map && s2.nums == s.nums && t2 == t
                &&& ok2 && w1[me].len() != 0 ==> war_turn(
                    s.map,
                    occ1,
                    t,
                    nums,
                    w2,
                    me,
                    s2.map,
                    s2.occ,
                    t2,
                    s2.nums.numbers@,
                    ok,
                ) && (ok ==> s2.built == s.built)
                &&& ok2 && w1[me].len() == 0 ==> peace_turn(
                    s.map,
                    occ1,
                    t,
                    nums,
                    me,
                    s2.map,
                    s2.occ,
                    t2,
                    s2.nums.numbers@,
                    s2.built.skip(s.built.len() as int),
                    ok,
                ) && (ok ==> s.built.len() <= s2.built.len() && s2.built.take(s.built.len() as int) == s.built)
            }
    }
}

/// The turn of the `i`-th country of the realm `s`, leading to `s2`: the
/// human player's country does nothing; a bot answers its peace offers (see
/// `talks_effect`) and acts (see `bot_acts`). Only its own entry among the
/// countries changes: its offers and its treasury.
pub open spec fn bot_turn(i: int, s: Realm, s2: Realm, ok: bool) -> bool {
    let p = s.players[i];
    let q = s2.players[i];
    &&& s2.players.len() == s.players.len()
    &&& forall|j: int| 0 <= j < s.players.len() && j != i ==> #[trigger] s2.players[j] == s.players[j]
    &&& q.entity == p.entity && q.player_type == p.player_type
    &&& if p.player_type == PlayerType::Player {
        ok && s2 == s
    } else {
        exists|w1: Map<CountryId, Seq<CountryId>>, occ1: Occupied, ok1: bool|
            #![trigger talks_effect(p.proposals.senders@, s.wars, p.entity, s.nums.numbers@, p.treasury.gold, s.occ.map@, s.map.hex_owners@, q.proposals.senders@, w1, occ1.map@, ok1)]
            {
                &&& talks_effect(
                    p.proposals.senders@,
                    s.wars,
                    p.entity,
                    s.nums.numbers@,
                    p.treasury.gold,
                    s.occ.map@,
                    s.map.hex_owners@,
                    q.proposals.senders@,
                    w1,
                    occ1.map@,
                    ok1,
                )
                &&& bot_acts(p.entity, p.treasury, w1, occ1, ok1, s, s2, q.treasury, ok)
            }
    }
}

/// The first `trace.len() - 1` countries took their turns one after another,
/// each leading from one realm of `trace` to the next.
pub open spec fn ran_ok(trace: Seq<Realm>) -> bool
    decreases trace.len(),
{
    trace.len() >= 1 && (trace.len() == 1 || (ran_ok(trace.drop_last()) && bot_turn(
        trace.len() - 2,
        trace[trace.len() - 2],
        trace.last(),
        true,
    )))
}

/// The countries of `s0` took their turns in order, leading to `s2`; on a
/// failure (`!ok`) the turns stopped at the country that failed.
pub open spec fn bots_ran(s0: Realm, s2: Realm, ok: bool) -> bool {
    exists|trace: Seq<Realm>|
        #![trigger ran_ok(trace)]
        {
            &&& ran_ok(trace)
            &&& trace[0] == s0
            &&& trace.len() - 1 <= s0.players.len()
            &&& ok ==> trace.len() - 1 == s0.players.len() && trace.last() == s2
            &&& !ok ==> trace.len() - 1 < s0.players.len() && bot_turn(trace.len() - 1, trace.last(), s2, false)
        }
}

/// The computer-controlled countries take their turns, in the order of
/// `players`: each answers its peace offers, declares war on countries it
/// outnumbers two to one, and then fights its wars (when it was at war before
/// declaring) or grows in peace. The human player's country is left alone.
/// Returns the markets the bots built.
#[verifier::spinoff_prover]
#[verifier::rlimit(40)]
pub fn run_bots(
    players: &mut Vec<CountryState>,
    soldiers_nums: &mut CountriesSolidersNumbers,
    countries_wars: &mut AtWarLists,
    map: &mut HexMap,
    occupied: &mut Occupied,
) -> (r: Result<Vec<MarketBuilt>, MyErrors>)
    requires
        old(map).wf(),
        old(occupied).wf(),
        old(soldiers_nums).wf(),
        old(countries_wars).wf(),
    ensures
        final(map).wf(),
        final(occupied).wf(),
        final(soldiers_nums).wf(),
        final(countries_wars).wf(),
        wars_no_duplicates(old(countries_wars)@) ==> wars_no_duplicates(final(countries_wars)@),
        final(countries_wars)@.dom() == old(countries_wars)@.dom(),
        final(map).political == old(map).political,
        same_terrain(old(map).entities@, final(map).entities@),
        board_ok(old(map), old(occupied)) ==> board_ok(final(map), final(occupied)),
        wars_no_duplicates(old(countries_wars)@) && crate::war::wars_symmetric(old(countries_wars)@)
            && wars_cover(old(countries_wars)@, old(players)@, old(soldiers_nums).numbers@)
            ==> crate::war::wars_symmetric(final(countries_wars)@) && wars_cover(
            final(countries_wars)@,
            final(players)@,
            final(soldiers_nums).numbers@,
        ),
        final(players)@.len() == old(players)@.len(),
        forall|j: int|
            0 <= j < final(players)@.len() ==> (#[trigger] final(players)@[j]).entity == old(
                players,
            )@[j].entity && final(players)@[j].player_type == old(players)@[j].player_type,
        forall|j: int|
            0 <= j < final(players)@.len() && (#[trigger] old(players)@[j]).player_type
                == PlayerType::Player ==> final(players)@[j].treasury == old(players)@[j].treasury
                && final(players)@[j].proposals.senders@ == old(players)@[j].proposals.senders@,
        r is Ok ==> forall|j: int|
            0 <= j < final(players)@.len() && (#[trigger] old(players)@[j]).player_type
                == PlayerType::Bot ==> final(players)@[j].proposals.senders@.len() == 0,
        bots_ran(
            (Realm {
                players: old(players)@,
                nums: *old(soldiers_nums),
                wars: old(countries_wars)@,
                map: *old(map),
                occ: *old(occupied),
                built: Seq::empty(),
            }),
            (Realm {
                players: final(players)@,
                nums: *final(soldiers_nums),
                wars: final(countries_wars)@,
                map: *final(map),
                occ: *final(occupied),
                built: built_of(r),
            }),
            r is Ok,
        ),
{
    let mut events: Vec<MarketBuilt> = Vec::new();
    let n = players.len();
    let ghost nd = wars_no_duplicates(old(countries_wars)@);
    let ghost cond = nd && crate::war::wars_symmetric(old(countries_wars)@) && wars_cover(
        old(countries_wars)@,
        old(players)@,
        old(soldiers_nums).numbers@,
    );
    let ghost s0 = Realm {
        players: old(players)@,
        nums: *old(soldiers_nums),
        wars: old(countries_wars)@,
        map: *old(map),
        occ: *old(occupied),
        built: Seq::empty(),
    };
    let ghost mut trace: Seq<Realm> = seq![s0];
    assert(events@ =~= Seq::<MarketBuilt>::empty());
    let mut i: usize = 0;
    while i < n
        invariant
            nd == wars_no_duplicates(old(countries_wars)@),
            cond == (nd && crate::war::wars_symmetric(old(countries_wars)@) && wars_cover(
                old(countries_wars)@,
                old(players)@,
                old(soldiers_nums).numbers@,
            )),
            cond ==> crate::war::wars_symmetric(countries_wars@) && wars_cover(
                countries_wars@,
                players@,
                soldiers_nums.numbers@,
            ),
            n == players@.len(),
            n == old(players)@.len(),
            i <= n,
            map.wf(),
            occupied.wf(),
            soldiers_nums.wf(),
            countries_wars.wf(),
            nd ==> wars_no_duplicates(countries_wars@),
            countries_wars@.dom() == old(countries_wars)@.dom(),
            map.political == old(map).political,
            same_terrain(old(map).entities@, map.entities@),
            board_ok(old(map), old(occupied)) ==> board_ok(map, occupied),
            forall|j: int|
                0 <= j < n ==> (#[trigger] players@[j]).entity == old(players)@[j].entity
                    && players@[j].player_type == old(players)@[j].player_type,
            forall|j: int|
                i <= j < n ==> #[trigger] players@[j] == old(players)@[j],
            forall|j: int|
                0 <= j < i && (#[trigger] old(players)@[j]).player_type == PlayerType::Player
                    ==> players@[j] == old(players)@[j],
            forall|j: int|
                0 <= j < i && (#[trigger] old(players)@[j]).player_type == PlayerType::Bot
                    ==> players@[j].proposals.senders@.len() == 0,
            s0 == (Realm {
                players: old(players)@,
                nums: *old(soldiers_nums),
                wars: old(countries_wars)@,
                map: *old(map),
                occ: *old(occupied),
                built: Seq::empty(),
            }),
            ran_ok(trace),
            trace[0] == s0,
            trace.len() == i + 1,
            trace.last() == (Realm {
                players: players@,
                nums: *soldiers_nums,
                wars: countries_wars@,
                map: *map,
                occ: *occupied,
                built: events@,
            }),
        decreases n - i,
    {
        let ghost s = trace.last();
        if let PlayerType::Player = players[i].player_type {
            proof {
                assert(bot_turn(i as int, s, s, true));
                let t2 = trace.push(s);
                assert(t2.drop_last() =~= trace);
                trace = t2;
            }
            i = i + 1;
            continue;
        }
        let player = players[i].entity;
        let ghost p0 = players@;
        let mut props = PeaceProposals { senders: crate::util::copy_ids(&players[i].proposals.senders) };
        let treasury0 = players[i].treasury;
        let res = manage_peace_talks(
            &mut props,
            countries_wars,
            &player,
            soldiers_nums,
            &treasury0,
            occupied,
            map,
        );
        players[i].proposals = props;
        let ghost w1 = countries_wars@;
        let ghost occ1 = *occupied;
        let ghost ok1 = res is Ok;
        let ghost q_props = players@[i as int].proposals.senders@;
        assert(talks_effect(
            s.players[i as int].proposals.senders@,
            s.wars,
            s.players[i as int].entity,
            s.nums.numbers@,
            s.players[i as int].treasury.gold,
            s.occ.map@,
            s.map.hex_owners@,
            q_props,
            w1,
            occ1.map@,
            ok1,
        ));
        proof {
            if board_ok(old(map), old(occupied)) {
                assert(occupation_consistent(map.hex_owners@, occupied.map@));
            }
        }
        match res {
            Ok(()) => {},
            Err(e) => {
                proof {
                    lemma_bots_stopped(s0, trace, i as int, (Realm {
                        players: players@,
                        nums: *soldiers_nums,
                        wars: countries_wars@,
                        map: *map,
                        occ: *occupied,
                        built: Seq::empty(),
                    }), w1, occ1, ok1);
                }
                return Err(e);
            },
        }
        assert(players@[i as int].proposals.senders@.len() == 0);
        let war_list_len = match countries_wars.lists.get_ref(&player) {
            Some(list) => list.len(),
            None => {
                proof {
                    lemma_bots_stopped(s0, trace, i as int, (Realm {
                        players: players@,
                        nums: *soldiers_nums,
                        wars: countries_wars@,
                        map: *map,
                        occ: *occupied,
                        built: Seq::empty(),
                    }), w1, occ1, ok1);
                }
                return Err(inconsistent("War Lists"));
            },
        };
        let my_num = match soldiers_nums.numbers.get(&player) {
            Some(v) => v,
            None => {
                proof {
                    lemma_bots_stopped(s0, trace, i as int, (Realm {
                        players: players@,
                        nums: *soldiers_nums,
                        wars: countries_wars@,
                        map: *map,
                        occ: *occupied,
                        built: Seq::empty(),
                    }), w1, occ1, ok1);
                }
                return Err(inconsistent("CountriesSoldiersNumbers Resource"));
            },
        };
        proof {
            if cond {
                assert(countries_wars@.contains_key(players@[i as int].entity));
                crate::table::lemma_entries_map_all(soldiers_nums.numbers.seq());
                assert forall|k: int| 0 <= k < soldiers_nums.numbers.seq().len() implies countries_wars@.contains_key(
                    #[trigger] soldiers_nums.numbers.seq()[k].0,
                ) by {
                    assert(soldiers_nums.numbers@.contains_key(soldiers_nums.numbers.seq()[k].0));
                }
            }
        }
        let res = declare_wars(player, my_num, soldiers_nums, countries_wars);
        let ghost w2 = countries_wars@;
        let ghost ok2 = res is Ok;
        assert(declare_effect(player, s.nums.numbers@[player], s.nums.numbers.seq(), w1, w2, ok2));
        match res {
            Ok(()) => {},
            Err(e) => {
                proof {
                    let s2 = Realm {
                        players: players@,
                        nums: *soldiers_nums,
                        wars: countries_wars@,
                        map: *map,
                        occ: *occupied,
                        built: Seq::empty(),
                    };
                    assert(bot_acts(player, s.players[i as int].treasury, w1, occ1, ok1, s, s2, s2.players[i as int].treasury, false));
                    lemma_bots_stopped(s0, trace, i as int, s2, w1, occ1, ok1);
                }
                return Err(e);
            },
        }
        let mut treasury = players[i].treasury;
        let ghost me0 = *map;
        let ghost ev0 = events@;
        let res: Result<Vec<MarketBuilt>, MyErrors> = if war_list_len != 0 {
            match manage_wars(countries_wars, map, &player, &mut treasury, occupied, soldiers_nums) {
                Ok(()) => Ok(Vec::new()),
                Err(e) => Err(e),
            }
        } else {
            manage_during_peace(map, &player, &mut treasury, occupied, soldiers_nums)
        };
        proof {
            lemma_same_terrain_trans(old(map).entities@, me0.entities@, map.entities@);
        }
        players[i].treasury = treasury;
        proof {
            if cond {
                assert forall|j: int| 0 <= j < players@.len() implies countries_wars@.contains_key(
                    #[trigger] players@[j].entity,
                ) by {
                    assert(players@[j].entity == old(players)@[j].entity);
                    assert(old(countries_wars)@.contains_key(old(players)@[j].entity));
                }
                assert(countries_wars@.contains_key(player)) by {
                    assert(players@[i as int].entity == player);
                }
            }
        }
        match res {
            Ok(mut built) => {
                let ghost b = built@;
                events.append(&mut built);
                proof {
                    let s2 = Realm {
                        players: players@,
                        nums: *soldiers_nums,
                        wars: countries_wars@,
                        map: *map,
                        occ: *occupied,
                        built: events@,
                    };
                    assert(events@ =~= ev0 + b);
                    assert(s2.built.skip(s.built.len() as int) =~= b);
                    assert(s2.built.take(s.built.len() as int) =~= s.built);
                    lemma_bot_turn_done(i as int, s, s2, w1, occ1, w2, true);
                    let t2 = trace.push(s2);
                    assert(t2.drop_last() =~= trace);
                    trace = t2;
                }
            },
            Err(e) => {
                proof {
                    let s2 = Realm {
                        players: players@,
                        nums: *soldiers_nums,
                        wars: countries_wars@,
                        map: *map,
                        occ: *occupied,
                        built: Seq::empty(),
                    };
                    assert(bot_acts(player, s.players[i as int].treasury, w1, occ1, ok1, s, s2, s2.players[i as int].treasury, false));
                    lemma_bots_stopped(s0, trace, i as int, s2, w1, occ1, ok1);
                }
                return Err(e);
            },
        }
        i = i + 1;
    }
    assert(built_of(Ok::<Vec<MarketBuilt>, MyErrors>(events)) == events@);
    Ok(events)
}

/// A bot that answered its offers, declared its wars and then fought or
/// grew in peace took its turn.
proof fn lemma_bot_turn_done(
    i: int,
    s: Realm,
    s2: Realm,
    w1: Map<CountryId, Seq<CountryId>>,
    occ1: Occupied,
    w2: Map<CountryId, Seq<CountryId>>,
    ok: bool,
)
    requires
        0 <= i < s.players.len(),
        s2.players.len() == s.players.len(),
        forall|j: int| 0 <= j < s.players.len() && j != i ==> #[trigger] s2.players[j] == s.players[j],
        s2.players[i].entity == s.players[i].entity,
        s2.players[i].player_type == s.players[i].player_type,
        s.players[i].player_type != PlayerType::Player,
        talks_effect(
            s.players[i].proposals.senders@,
            s.wars,
            s.players[i].entity,
            s.nums.numbers@,
            s.players[i].treasury.gold,
            s.occ.map@,
            s.map.hex_owners@,
            s2.players[i].proposals.senders@,
            w1,
            occ1.map@,
            true,
        ),
        w1.contains_key(s.players[i].entity),
        s.nums.numbers@.contains_key(s.players[i].entity),
        declare_effect(
            s.players[i].entity,
            s.nums.numbers@[s.players[i].entity],
            s.nums.numbers.seq(),
            w1,
            w2,
            true,
        ),
        s2.wars == w2,
        w1[s.players[i].entity].len() != 0 ==> war_turn(
            s.map,
            occ1,
            s.players[i].treasury,
            s.nums.numbers@,
            w2,
            s.players[i].entity,
            s2.map,
            s2.occ,
            s2.players[i].treasury,
            s2.nums.numbers@,
            ok,
        ) && (ok ==> s2.built == s.built),
        w1[s.players[i].entity].len() == 0 ==> peace_turn(
            s.map,
            occ1,
            s.players[i].treasury,
            s.nums.numbers@,
            s.players[i].entity,
            s2.map,
            s2.occ,
            s2.players[i].treasury,
            s2.nums.numbers@,
            s2.built.skip(s.built.len() as int),
            ok,
        ) && (ok ==> s.built.len() <= s2.built.len() && s2.built.take(s.built.len() as int) == s.built),
    ensures
        bot_turn(i, s, s2, ok),
{
    let me = s.players[i].entity;
    assert(bot_acts(me, s.players[i].treasury, w1, occ1, true, s, s2, s2.players[i].treasury, ok));
}

/// A country that fails its turn ends the bots' turns there.
proof fn lemma_bots_stopped(
    s0: Realm,
    trace: Seq<Realm>,
    i: int,
    s2: Realm,
    w1: Map<CountryId, Seq<CountryId>>,
    occ1: Occupied,
    ok1: bool,
)
    requires
        ran_ok(trace),
        trace[0] == s0,
        trace.len() == i + 1,
        i < s0.players.len(),
        s2.players.len() == trace.last().players.len(),
        forall|j: int|
            0 <= j < trace.last().players.len() && j != i ==> #[trigger] s2.players[j] == trace.last().players[j],
        s2.players[i].entity == trace.last().players[i].entity,
        s2.players[i].player_type == trace.last().players[i].player_type,
        trace.last().players[i].player_type != PlayerType::Player,
        talks_effect(
            trace.last().players[i].proposals.senders@,
            trace.last().wars,
            trace.last().players[i].entity,
            trace.last().nums.numbers@,
            trace.last().players[i].treasury.gold,
            trace.last().occ.map@,
            trace.last().map.hex_owners@,
            s2.players[i].proposals.senders@,
            w1,
            occ1.map@,
            ok1,
        ),
        bot_acts(
            trace.last().players[i].entity,
            trace.last().players[i].treasury,
            w1,
            occ1,
            ok1,
            trace.last(),
            s2,
            s2.players[i].treasury,
            false,
        ),
    ensures
        bots_ran(s0, s2, false),
{
    assert(bot_turn(i, trace.last(), s2, false));
}

} // verus!
