use vstd::prelude::*;
use crate::army::Army;
use crate::countries::{CountriesSolidersNumbers, Country, PeaceProposals, PlayerType, Treasury, has_army, soldiers_of};
use crate::errors::{MyErrors, inconsistent};
use crate::hex::Hex;
use crate::map::{CountryId, HexMap};
use crate::political::Occupied;
use crate::table::{Table, entries_map, keys_distinct, lemma_entries_map_all, lemma_entries_map_at, lemma_entries_map_drop_last};
use crate::war::AtWarLists;
use crate::movement::overflow_error;
use crate::util::copy_ids;

verus! {

/// What a saved game records of one country.
pub struct SerializedCountry {
    pub entity: CountryId,
    pub id: Country,
    pub treasury: Treasury,
    pub player_type: PlayerType,
    pub peace_proposals: PeaceProposals,
}

impl SerializedCountry {
    pub fn new(
        entity: CountryId,
        id: Country,
        treasury: Treasury,
        player_type: PlayerType,
        peace_proposals: PeaceProposals,
    ) -> (s: SerializedCountry)
        ensures
            s.entity == entity,
            s.id == id,
            s.treasury == treasury,
            s.player_type == player_type,
            s.peace_proposals == peace_proposals,
    {
        SerializedCountry { entity, id, treasury, player_type, peace_proposals }
    }
}

/// A saved game: the board, the wars, the countries and the occupation,
/// with countries named by the entities they had when the game was saved.
pub struct SerializationHelper {
    pub hex_map: HexMap,
    pub war_list: AtWarLists,
    pub countries: Vec<SerializedCountry>,
    pub occupied: Table<Hex, CountryId>,
}

/// Every country of `ids` has a new entity.
pub open spec fn all_mapped(ids: Seq<CountryId>, m: Map<CountryId, CountryId>) -> bool {
    forall|i: int| 0 <= i < ids.len() ==> m.contains_key(#[trigger] ids[i])
}

/// `ids` under the new entities.
pub open spec fn remap_ids(ids: Seq<CountryId>, m: Map<CountryId, CountryId>) -> Seq<CountryId> {
    ids.map_values(|x: CountryId| m[x])
}

/// The wars of the saved lists `s`, with every country renamed by `m`.
pub open spec fn remap_wars(s: Seq<(CountryId, Vec<CountryId>)>, m: Map<CountryId, CountryId>) -> Map<
    CountryId,
    Seq<CountryId>,
>
    decreases s.len(),
{
    if s.len() == 0 {
        Map::empty()
    } else {
        remap_wars(s.drop_last(), m).insert(m[s.last().0], remap_ids(s.last().1@, m))
    }
}

/// Every country that the saved lists `s` name has a new entity.
pub open spec fn wars_mapped(s: Seq<(CountryId, Vec<CountryId>)>, m: Map<CountryId, CountryId>) -> bool {
    forall|i: int| 0 <= i < s.len() ==> m.contains_key(#[trigger] s[i].0) && all_mapped(s[i].1@, m)
}

fn remap_list(v: &Vec<CountryId>, m: &Table<CountryId, CountryId>) -> (r: Option<Vec<CountryId>>)
    requires
        m.wf(),
    ensures
        r is Some <==> all_mapped(v@, m@),
        r matches Some(w) ==> w@ == remap_ids(v@, m@),
{
    let mut out: Vec<CountryId> = Vec::new();
    let n = v.len();
    let mut i: usize = 0;
    while i < n
        invariant
            n == v@.len(),
            i <= n,
            m.wf(),
            all_mapped(v@.take(i as int), m@),
            out@ == remap_ids(v@.take(i as int), m@),
        decreases n - i,
    {
        let x = v[i];
        match m.get(&x) {
            Some(y) => {
                out.push(y);
            },
            None => {
                assert(!m@.contains_key(v@[i as int]));
                return None;
            },
        }
        assert(v@.take(i + 1).drop_last() =~= v@.take(i as int));
        assert(remap_ids(v@.take(i + 1), m@) =~= remap_ids(v@.take(i as int), m@).push(m@[x]));
        assert(all_mapped(v@.take(i + 1), m@)) by {
            assert forall|q: int| 0 <= q < i + 1 implies m@.contains_key(#[trigger] v@.take(i + 1)[q]) by {
                if q < i {
                    assert(v@.take(i as int)[q] == v@.take(i + 1)[q]);
                }
            }
        }
        i = i + 1;
    }
    assert(v@.take(n as int) =~= v@);
    Some(out)
}

/// The saved wars with every country under its new entity; fails when some
/// country has none.
pub fn recreate_war_list(state: &SerializationHelper, entity_id_map: &Table<CountryId, CountryId>) -> (r:
    Result<AtWarLists, MyErrors>)
    requires
        state.war_list.wf(),
        entity_id_map.wf(),
    ensures
        r is Ok <==> wars_mapped(state.war_list.lists.seq(), entity_id_map@),
        r is Err ==> (r matches Err(e) && e is InconsistentData),
        r matches Ok(w) ==> w.wf() && w@ == remap_wars(state.war_list.lists.seq(), entity_id_map@),
{
    let ghost s = state.war_list.lists.seq();
    let mut wars = AtWarLists::new();
    let n = state.war_list.lists.entries.len();
    let mut i: usize = 0;
    while i < n
        invariant
            s == state.war_list.lists.seq(),
            n == s.len(),
            i <= n,
            entity_id_map.wf(),
            wars.wf(),
            wars_mapped(s.take(i as int), entity_id_map@),
            wars@ == remap_wars(s.take(i as int), entity_id_map@),
        decreases n - i,
    {
        let entity = state.war_list.lists.entries[i].0;
        let new_entity = match entity_id_map.get(&entity) {
            Some(e) => e,
            None => {
                return Err(inconsistent("Couldn't map entity from old id to new"));
            },
        };
        let enemies = match remap_list(&state.war_list.lists.entries[i].1, entity_id_map) {
            Some(v) => v,
            None => {
                return Err(inconsistent("Couldn't map entity from old id to new"));
            },
        };
        wars.set_list(new_entity, enemies);
        assert(s.take(i + 1).drop_last() =~= s.take(i as int));
        assert(s.take(i + 1).last() == s[i as int]);
        assert(wars_mapped(s.take(i + 1), entity_id_map@)) by {
            assert forall|q: int| 0 <= q < i + 1 implies entity_id_map@.contains_key(#[trigger] s.take(i + 1)[q].0)
                && all_mapped(s.take(i + 1)[q].1@, entity_id_map@) by {
                if q < i {
                    assert(s.take(i as int)[q] == s.take(i + 1)[q]);
                }
            }
        }
        i = i + 1;
    }
    assert(s.take(n as int) =~= s);
    Ok(wars)
}

/// `base` with each saved tile of `s` owned by its owner's new entity.
pub open spec fn remap_owners(
    base: Map<Hex, CountryId>,
    s: Seq<(Hex, CountryId)>,
    m: Map<CountryId, CountryId>,
) -> Map<Hex, CountryId>
    decreases s.len(),
{
    if s.len() == 0 {
        base
    } else {
        remap_owners(base, s.drop_last(), m).insert(s.last().0, m[s.last().1])
    }
}

/// Every owner in the saved entries `s` has a new entity.
pub open spec fn owners_mapped(s: Seq<(Hex, CountryId)>, m: Map<CountryId, CountryId>) -> bool {
    forall|i: int| 0 <= i < s.len() ==> m.contains_key(#[trigger] s[i].1)
}

fn remap_hex_table(
    target: &mut Table<Hex, CountryId>,
    source: &Table<Hex, CountryId>,
    m: &Table<CountryId, CountryId>,
) -> (r: Result<(), MyErrors>)
    requires
        old(target).wf(),
        source.wf(),
        m.wf(),
    ensures
        final(target).wf(),
        r is Ok <==> owners_mapped(source.seq(), m@),
        r is Err ==> (r matches Err(e) && e is InconsistentData),
        r is Ok ==> final(target)@ == remap_owners(old(target)@, source.seq(), m@),
{
    let ghost s = source.seq();
    let ghost base = target@;
    let n = source.entries.len();
    let mut i: usize = 0;
    while i < n
        invariant
            s == source.seq(),
            n == s.len(),
            i <= n,
            m.wf(),
            target.wf(),
            base == old(target)@,
            owners_mapped(s.take(i as int), m@),
            target@ == remap_owners(base, s.take(i as int), m@),
        decreases n - i,
    {
        let (hex, id) = source.entries[i];
        let new_id = match m.get(&id) {
            Some(e) => e,
            None => {
                return Err(inconsistent("Couldn't map entity from old id to new"));
            },
        };
        target.insert(hex, new_id);
        assert(s.take(i + 1).drop_last() =~= s.take(i as int));
        assert(s.take(i + 1).last() == (hex, id));
        assert(owners_mapped(s.take(i + 1), m@)) by {
            assert forall|q: int| 0 <= q < i + 1 implies m@.contains_key(#[trigger] s.take(i + 1)[q].1) by {
                if q < i {
                    assert(s.take(i as int)[q] == s.take(i + 1)[q]);
                }
            }
        }
        i = i + 1;
    }
    assert(s.take(n as int) =~= s);
    Ok(())
}

/// The saved owners, under their new entities, are added to the board's.
pub fn reacreate_hex_owners(
    state: &SerializationHelper,
    hex_map: &mut HexMap,
    entity_id_map: &Table<CountryId, CountryId>,
) -> (r: Result<(), MyErrors>)
    requires
        old(hex_map).wf(),
        state.hex_map.wf(),
        entity_id_map.wf(),
    ensures
        final(hex_map).wf(),
        final(hex_map).political == old(hex_map).political,
        final(hex_map).entities == old(hex_map).entities,
        final(hex_map).armies == old(hex_map).armies,
        r is Ok <==> owners_mapped(state.hex_map.hex_owners.seq(), entity_id_map@),
        r is Err ==> (r matches Err(e) && e is InconsistentData),
        r is Ok ==> final(hex_map).hex_owners@ == remap_owners(
            old(hex_map).hex_owners@,
            state.hex_map.hex_owners.seq(),
            entity_id_map@,
        ),
{
    remap_hex_table(&mut hex_map.hex_owners, &state.hex_map.hex_owners, entity_id_map)
}

} // verus!

verus! {

/// The saved entity of each saved country, in order.
pub open spec fn saved_entities(cs: Seq<SerializedCountry>) -> Seq<CountryId> {
    cs.map_values(|c: SerializedCountry| c.entity)
}

/// The new entity of each of the first `n` saved countries: `olds[i]` maps to
/// `news[i]`, a later country winning where two share a saved entity.
pub open spec fn id_map_upto(olds: Seq<CountryId>, news: Seq<CountryId>, n: int) -> Map<
    CountryId,
    CountryId,
>
    decreases n,
{
    if n <= 0 {
        Map::empty()
    } else {
        id_map_upto(olds, news, n - 1).insert(olds[n - 1], news[n - 1])
    }
}

/// The map from each saved country's entity to the entity it was given anew.
pub open spec fn id_map(cs: Seq<SerializedCountry>, news: Seq<CountryId>) -> Map<CountryId, CountryId> {
    id_map_upto(saved_entities(cs), news, cs.len() as int)
}

/// Pairs each saved country's entity with the entity spawned for it.
pub fn build_entity_id_map(countries: &Vec<SerializedCountry>, new_ids: &Vec<CountryId>) -> (r: Table<
    CountryId,
    CountryId,
>)
    requires
        new_ids.len() == countries.len(),
    ensures
        r.wf(),
        r@ == id_map(countries@, new_ids@),
{
    let mut m: Table<CountryId, CountryId> = Table::new();
    let n = countries.len();
    let mut i: usize = 0;
    while i < n
        invariant
            n == countries@.len(),
            new_ids@.len() == n,
            i <= n,
            m.wf(),
            m@ == id_map_upto(saved_entities(countries@), new_ids@, i as int),
        decreases n - i,
    {
        m.insert(countries[i].entity, new_ids[i]);
        i = i + 1;
    }
    m
}

/// Every saved country is a zero in the soldier count: the countries that
/// the map `m` gives as new entities, each with no soldiers.
pub open spec fn zeros_for(m: Map<CountryId, CountryId>) -> Map<CountryId, i32> {
    Map::new(|c: CountryId| exists|k: CountryId| m.contains_key(k) && m[k] == c, |c: CountryId| 0i32)
}

/// `base` with each saved army `s` placed on its tile under its owner's new
/// entity.
pub open spec fn remap_armies(base: Map<Hex, Army>, s: Seq<(Hex, Army)>, m: Map<CountryId, CountryId>) -> Map<
    Hex,
    Army,
>
    decreases s.len(),
{
    if s.len() == 0 {
        base
    } else {
        remap_armies(base, s.drop_last(), m).insert(
            s.last().0,
            Army { owner: m[s.last().1.owner], ..s.last().1 },
        )
    }
}

/// Every owner of the saved armies `s` has a new entity.
pub open spec fn armies_mapped(s: Seq<(Hex, Army)>, m: Map<CountryId, CountryId>) -> bool {
    forall|i: int| 0 <= i < s.len() ==> m.contains_key(#[trigger] s[i].1.owner)
}

/// What `t` counts for `c`, or nothing.
pub open spec fn count_of(t: Map<CountryId, i32>, c: CountryId) -> int {
    if t.contains_key(c) {
        t[c] as int
    } else {
        0
    }
}

/// The soldier counts of `base` with the soldiers of each saved army of `s`
/// added to its owner's new entity.
pub open spec fn tally(base: Map<CountryId, i32>, s: Seq<(Hex, Army)>, m: Map<CountryId, CountryId>) -> Map<
    CountryId,
    i32,
>
    decreases s.len(),
{
    if s.len() == 0 {
        base
    } else {
        let t = tally(base, s.drop_last(), m);
        let o = m[s.last().1.owner];
        t.insert(o, (count_of(t, o) + s.last().1.number_of_soldiers) as i32)
    }
}

/// Every running count of `tally` fits in an `i32`.
pub open spec fn tally_fits(base: Map<CountryId, i32>, s: Seq<(Hex, Army)>, m: Map<CountryId, CountryId>) -> bool
    decreases s.len(),
{
    if s.len() == 0 {
        true
    } else {
        let t = tally(base, s.drop_last(), m);
        let o = m[s.last().1.owner];
        &&& tally_fits(base, s.drop_last(), m)
        &&& i32::MIN <= count_of(t, o) + s.last().1.number_of_soldiers <= i32::MAX
    }
}

/// What fits over all the armies fits over any first part of them.
pub proof fn lemma_tally_fits_prefix(
    base: Map<CountryId, i32>,
    s: Seq<(Hex, Army)>,
    m: Map<CountryId, CountryId>,
    i: int,
)
    requires
        tally_fits(base, s, m),
        0 <= i <= s.len(),
    ensures
        tally_fits(base, s.take(i), m),
    decreases s.len(),
{
    if i == s.len() {
        assert(s.take(i) =~= s);
    } else {
        assert(s.drop_last().take(i) =~= s.take(i));
        lemma_tally_fits_prefix(base, s.drop_last(), m, i);
    }
}

/// Checks that every saved army's owner has a new entity.
fn check_armies_mapped(s: &Table<Hex, Army>, m: &Table<CountryId, CountryId>) -> (b: bool)
    requires
        m.wf(),
    ensures
        b == armies_mapped(s.seq(), m@),
{
    let n = s.entries.len();
    let mut i: usize = 0;
    while i < n
        invariant
            n == s.seq().len(),
            i <= n,
            m.wf(),
            forall|j: int| 0 <= j < i ==> m@.contains_key(#[trigger] s.seq()[j].1.owner),
        decreases n - i,
    {
        if !m.contains_key(&s.entries[i].1.owner) {
            return false;
        }
        i = i + 1;
    }
    true
}

/// The saved armies under their owners' new entities, and each new entity's
/// soldiers: every saved country starts at zero and each army adds its
/// soldiers to its owner. Fails with `InconsistentData` when an army's owner
/// has no new entity, and otherwise with an overflow error when a count
/// would leave `i32`.
pub fn recount_soldiers(state: &SerializationHelper, entity_id_map: &Table<CountryId, CountryId>) -> (r:
    Result<(Table<Hex, Army>, CountriesSolidersNumbers), MyErrors>)
    requires
        state.hex_map.wf(),
        entity_id_map.wf(),
    ensures
        r is Ok <==> armies_mapped(state.hex_map.armies.seq(), entity_id_map@) && tally_fits(
            zeros_for(entity_id_map@),
            state.hex_map.armies.seq(),
            entity_id_map@,
        ),
        !armies_mapped(state.hex_map.armies.seq(), entity_id_map@) ==> (r matches Err(e) && e is InconsistentData),
        armies_mapped(state.hex_map.armies.seq(), entity_id_map@) && !tally_fits(
            zeros_for(entity_id_map@),
            state.hex_map.armies.seq(),
            entity_id_map@,
        ) ==> (r matches Err(e) && e is Unexpected),
        r matches Ok((a, nums)) ==> {
            &&& a.wf()
            &&& a@ == remap_armies(Map::empty(), state.hex_map.armies.seq(), entity_id_map@)
            &&& nums.wf()
            &&& nums.numbers@ == tally(
                zeros_for(entity_id_map@),
                state.hex_map.armies.seq(),
                entity_id_map@,
            )
        },
{
    let ghost s = state.hex_map.armies.seq();
    let ghost m = entity_id_map@;
    if !check_armies_mapped(&state.hex_map.armies, entity_id_map) {
        return Err(inconsistent("Couldn't map entity from old id to new"));
    }
    let mut numbers: Table<CountryId, i32> = Table::new();
    let ghost es = entity_id_map.seq();
    let k = entity_id_map.entries.len();
    let mut j: usize = 0;
    while j < k
        invariant
            es == entity_id_map.seq(),
            k == es.len(),
            j <= k,
            numbers.wf(),
            numbers@ == Map::new(
                |c: CountryId| exists|q: int| 0 <= q < j && #[trigger] es[q].1 == c,
                |c: CountryId| 0i32,
            ),
        decreases k - j,
    {
        let ghost before = numbers@;
        numbers.insert(entity_id_map.entries[j].1, 0);
        assert(numbers@ =~= Map::new(
            |c: CountryId| exists|q: int| 0 <= q < j + 1 && #[trigger] es[q].1 == c,
            |c: CountryId| 0i32,
        )) by {
            assert forall|c: CountryId| (exists|q: int| 0 <= q < j + 1 && #[trigger] es[q].1 == c) implies
                numbers@.contains_key(c) by {
                let q = choose|q: int| 0 <= q < j + 1 && #[trigger] es[q].1 == c;
                if q < j {
                    assert(before.contains_key(c));
                }
            }
        }
        j = j + 1;
    }
    assert(numbers@ =~= zeros_for(m)) by {
        lemma_entries_map_all(es);
        assert forall|c: CountryId| #[trigger] numbers@.contains_key(c) <==> zeros_for(m).contains_key(c) by {
            if numbers@.contains_key(c) {
                let q = choose|q: int| 0 <= q < k && #[trigger] es[q].1 == c;
                assert(m.contains_key(es[q].0) && m[es[q].0] == c);
            }
            if zeros_for(m).contains_key(c) {
                let key = choose|key: CountryId| m.contains_key(key) && m[key] == c;
                let q = choose|q: int| 0 <= q < es.len() && es[q].0 == key;
                assert(es[q].1 == c);
            }
        }
    }
    let mut armies: Table<Hex, Army> = Table::new();
    let n = state.hex_map.armies.entries.len();
    let mut i: usize = 0;
    while i < n
        invariant
            s == state.hex_map.armies.seq(),
            m == entity_id_map@,
            n == s.len(),
            i <= n,
            entity_id_map.wf(),
            armies_mapped(s, m),
            armies.wf(),
            numbers.wf(),
            armies@ == remap_armies(Map::empty(), s.take(i as int), m),
            numbers@ == tally(zeros_for(m), s.take(i as int), m),
            tally_fits(zeros_for(m), s.take(i as int), m),
        decreases n - i,
    {
        let (hex, army) = state.hex_map.armies.entries[i];
        assert(s.take(i + 1).drop_last() =~= s.take(i as int));
        assert(s.take(i + 1).last() == (hex, army));
        assert(m.contains_key(s[i as int].1.owner));
        let new_owner = match entity_id_map.get(&army.owner) {
            Some(o) => o,
            None => {
                return Err(inconsistent("Couldn't map entity from old id to new"));
            },
        };
        let prev: i32 = match numbers.get(&new_owner) {
            Some(p) => p,
            None => 0,
        };
        let sum: i64 = prev as i64 + army.number_of_soldiers as i64;
        if sum < i32::MIN as i64 || sum > i32::MAX as i64 {
            proof {
                assert(!tally_fits(zeros_for(m), s.take(i + 1), m));
                if tally_fits(zeros_for(m), s, m) {
                    lemma_tally_fits_prefix(zeros_for(m), s, m, i + 1);
                }
            }
            return Err(overflow_error());
        }
        numbers.insert(new_owner, sum as i32);
        armies.insert(hex, Army { owner: new_owner, ..army });
        i = i + 1;
    }
    assert(s.take(n as int) =~= s);
    Ok((armies, CountriesSolidersNumbers { numbers }))
}


/// The saved occupation with every tile's former owner under its new entity,
/// added to `occupied`.
pub fn remap_occupied(
    state: &SerializationHelper,
    occupied: &mut Occupied,
    entity_id_map: &Table<CountryId, CountryId>,
) -> (r: Result<(), MyErrors>)
    requires
        old(occupied).wf(),
        state.occupied.wf(),
        entity_id_map.wf(),
    ensures
        final(occupied).wf(),
        r is Ok <==> owners_mapped(state.occupied.seq(), entity_id_map@),
        r is Err ==> (r matches Err(e) && e is InconsistentData),
        r is Ok ==> final(occupied).map@ == remap_owners(
            old(occupied).map@,
            state.occupied.seq(),
            entity_id_map@,
        ),
{
    remap_hex_table(&mut occupied.map, &state.occupied, entity_id_map)
}

/// Every country that the saved game's wars, owners and armies name has a
/// new entity.
pub open spec fn mappings_ok(state: SerializationHelper, m: Map<CountryId, CountryId>) -> bool {
    &&& wars_mapped(state.war_list.lists.seq(), m)
    &&& owners_mapped(state.hex_map.hex_owners.seq(), m)
    &&& armies_mapped(state.hex_map.armies.seq(), m)
}

/// The saved game can be restored with the new entities `m`.
pub open spec fn load_succeeds(state: SerializationHelper, m: Map<CountryId, CountryId>) -> bool {
    &&& mappings_ok(state, m)
    &&& tally_fits(zeros_for(m), state.hex_map.armies.seq(), m)
    &&& owners_mapped(state.occupied.seq(), m)
}

/// Restores a saved game. `new_ids[i]` is the entity spawned anew for the
/// i-th saved country. The board takes the saved view mode and tiles, the
/// saved owners (added to its own), the saved armies and the saved
/// occupation (added to `occupied`), every country renamed to its new
/// entity; the wars and each new entity's soldiers are returned.
/// Fails, changing nothing, with `InconsistentData` when a country named in
/// the save has no new entity, or with an overflow error when the soldiers
/// of a country do not fit in an `i32`.
pub fn load_game_state(
    state: &SerializationHelper,
    hex_map: &mut HexMap,
    occupied: &mut Occupied,
    new_ids: &Vec<CountryId>,
) -> (r: Result<(AtWarLists, CountriesSolidersNumbers), MyErrors>)
    requires
        old(hex_map).wf(),
        old(occupied).wf(),
        state.hex_map.wf(),
        state.war_list.wf(),
        state.occupied.wf(),
        new_ids.len() == state.countries.len(),
    ensures
        r is Ok <==> load_succeeds(*state, id_map(state.countries@, new_ids@)),
        r matches Err(e) ==> (e is Unexpected <==> mappings_ok(*state, id_map(state.countries@, new_ids@))
            && !tally_fits(
            zeros_for(id_map(state.countries@, new_ids@)),
            state.hex_map.armies.seq(),
            id_map(state.countries@, new_ids@),
        )) && (e is Unexpected || e is InconsistentData),
        r is Err ==> *final(hex_map) == *old(hex_map) && *final(occupied) == *old(occupied),
        r matches Ok((wars, nums)) ==> {
            let m = id_map(state.countries@, new_ids@);
            &&& final(hex_map).wf()
            &&& final(occupied).wf()
            &&& wars.wf()
            &&& nums.wf()
            &&& final(hex_map).political == state.hex_map.political
            &&& final(hex_map).entities@ == state.hex_map.entities@
            &&& final(hex_map).hex_owners@ == remap_owners(
                old(hex_map).hex_owners@,
                state.hex_map.hex_owners.seq(),
                m,
            )
            &&& final(hex_map).armies@ == remap_armies(Map::empty(), state.hex_map.armies.seq(), m)
            &&& final(occupied).map@ == remap_owners(old(occupied).map@, state.occupied.seq(), m)
            &&& wars@ == remap_wars(state.war_list.lists.seq(), m)
            &&& nums.numbers@ == tally(zeros_for(m), state.hex_map.armies.seq(), m)
        },
{
    let m = build_entity_id_map(&state.countries, new_ids);
    let wars = match recreate_war_list(state, &m) {
        Ok(w) => w,
        Err(e) => {
            return Err(e);
        },
    };
    let mut board = HexMap {
        political: state.hex_map.political,
        entities: state.hex_map.entities.copied(),
        hex_owners: hex_map.hex_owners.copied(),
        armies: Table::new(),
    };
    match reacreate_hex_owners(state, &mut board, &m) {
        Ok(()) => {},
        Err(e) => {
            return Err(e);
        },
    }
    let (armies, nums) = match recount_soldiers(state, &m) {
        Ok(p) => p,
        Err(e) => {
            return Err(e);
        },
    };
    let mut occ = Occupied { map: occupied.map.copied() };
    match remap_occupied(state, &mut occ, &m) {
        Ok(()) => {},
        Err(e) => {
            return Err(e);
        },
    }
    board.armies = armies;
    *hex_map = board;
    *occupied = occ;
    Ok((wars, nums))
}

/// The last country among `cs` that a person plays, if any.
pub open spec fn last_player(cs: Seq<SerializedCountry>) -> Option<SerializedCountry>
    decreases cs.len(),
{
    if cs.len() == 0 {
        None
    } else if cs.last().player_type == PlayerType::Player {
        Some(cs.last())
    } else {
        last_player(cs.drop_last())
    }
}

/// A copy of the wars.
fn copy_wars(w: &AtWarLists) -> (r: AtWarLists)
    requires
        w.wf(),
    ensures
        r.wf(),
        r@ == w@,
{
    let ghost s = w.lists.seq();
    let mut entries: Vec<(CountryId, Vec<CountryId>)> = Vec::new();
    let n = w.lists.entries.len();
    let mut i: usize = 0;
    while i < n
        invariant
            s == w.lists.seq(),
            n == s.len(),
            i <= n,
            entries@.len() == i,
            forall|j: int| 0 <= j < i ==> (#[trigger] entries@[j]).0 == s[j].0 && entries@[j].1@ == s[j].1@,
        decreases n - i,
    {
        let e = &w.lists.entries[i];
        entries.push((e.0, copy_ids(&e.1)));
        i = i + 1;
    }
    let r = AtWarLists { lists: Table { entries } };
    let ghost rs = r.lists.seq();
    assert(keys_distinct(rs)) by {
        assert forall|a: int, b: int|
            0 <= a < rs.len() && 0 <= b < rs.len() && #[trigger] rs[a].0 == #[trigger] rs[b].0 implies a == b by {
            assert(s[a].0 == s[b].0);
        }
    }
    assert(r@ =~= w@) by {
        lemma_entries_map_all(s);
        lemma_entries_map_all(rs);
        assert forall|c: CountryId| #[trigger] r@.contains_key(c) <==> w@.contains_key(c) by {
            if r.lists@.contains_key(c) {
                let a = choose|a: int| 0 <= a < rs.len() && rs[a].0 == c;
                assert(s[a].0 == c);
            }
            if w.lists@.contains_key(c) {
                let a = choose|a: int| 0 <= a < s.len() && s[a].0 == c;
                assert(rs[a].0 == c);
            }
        }
        assert forall|c: CountryId| #[trigger] r@.contains_key(c) implies r@[c] == w@[c] by {
            let a = choose|a: int| 0 <= a < rs.len() && rs[a].0 == c;
            lemma_entries_map_at(rs, a);
            lemma_entries_map_at(s, a);
        }
    }
    r
}

/// What a save holds: copies of the board, the wars and the occupation, and
/// the countries as given; with the banner index and the gold of the last
/// country that a person plays, if any.
pub fn create_serialization_struct_and_player_info(
    map: &HexMap,
    war_list: &AtWarLists,
    countries: Vec<SerializedCountry>,
    occupied: &Occupied,
) -> (r: (SerializationHelper, Option<usize>, Option<i32>))
    requires
        map.wf(),
        war_list.wf(),
        occupied.wf(),
    ensures
        r.0.hex_map.wf(),
        r.0.war_list.wf(),
        r.0.occupied.wf(),
        r.0.hex_map.political == map.political,
        r.0.hex_map.entities.seq() == map.entities.seq(),
        r.0.hex_map.hex_owners.seq() == map.hex_owners.seq(),
        r.0.hex_map.armies.seq() == map.armies.seq(),
        r.0.war_list@ == war_list@,
        r.0.countries@ == countries@,
        r.0.occupied.seq() == occupied.map.seq(),
        r.1 == (match last_player(countries@) {
            Some(c) => Some(c.id.id),
            None => None::<usize>,
        }),
        r.2 == (match last_player(countries@) {
            Some(c) => Some(c.treasury.gold),
            None => None::<i32>,
        }),
{
    let mut player_name: Option<usize> = None;
    let mut player_gold: Option<i32> = None;
    let n = countries.len();
    let mut i: usize = 0;
    while i < n
        invariant
            n == countries@.len(),
            i <= n,
            player_name == (match last_player(countries@.take(i as int)) {
                Some(c) => Some(c.id.id),
                None => None::<usize>,
            }),
            player_gold == (match last_player(countries@.take(i as int)) {
                Some(c) => Some(c.treasury.gold),
                None => None::<i32>,
            }),
        decreases n - i,
    {
        assert(countries@.take(i + 1).drop_last() =~= countries@.take(i as int));
        match countries[i].player_type {
            PlayerType::Player => {
                player_gold = Some(countries[i].treasury.gold);
                player_name = Some(countries[i].id.id);
            },
            PlayerType::Bot => {},
        }
        i = i + 1;
    }
    assert(countries@.take(n as int) =~= countries@);
    let hex_map = HexMap {
        political: map.political,
        entities: map.entities.copied(),
        hex_owners: map.hex_owners.copied(),
        armies: map.armies.copied(),
    };
    let helper = SerializationHelper {
        hex_map,
        war_list: copy_wars(war_list),
        countries,
        occupied: occupied.map.copied(),
    };
    (helper, player_name, player_gold)
}


/// Every country that the saved game names (the owners of tiles and
/// armies, both sides of each war, the former owners of occupied tiles) is
/// one of the saved countries.
pub open spec fn names_only_saved(state: SerializationHelper) -> bool {
    let e = saved_entities(state.countries@);
    let owners = state.hex_map.hex_owners.seq();
    let armies = state.hex_map.armies.seq();
    let wars = state.war_list.lists.seq();
    let occ = state.occupied.seq();
    &&& forall|i: int| 0 <= i < owners.len() ==> e.contains(#[trigger] owners[i].1)
    &&& forall|i: int| 0 <= i < armies.len() ==> e.contains(#[trigger] armies[i].1.owner)
    &&& forall|i: int| 0 <= i < wars.len() ==> e.contains(#[trigger] wars[i].0)
    &&& forall|i: int, j: int|
        0 <= i < wars.len() && 0 <= j < wars[i].1@.len() ==> e.contains(#[trigger] wars[i].1@[j])
    &&& forall|i: int| 0 <= i < occ.len() ==> e.contains(#[trigger] occ[i].1)
}

/// Each saved country given back the entity it was saved under.
pub open spec fn same_ids(state: SerializationHelper) -> Map<CountryId, CountryId> {
    id_map(state.countries@, saved_entities(state.countries@))
}

/// Giving every country its own entity back maps exactly the saved
/// entities, each to itself.
pub proof fn lemma_id_map_identity(olds: Seq<CountryId>, n: int)
    requires
        0 <= n <= olds.len(),
    ensures
        forall|k: CountryId| #[trigger] id_map_upto(olds, olds, n).contains_key(k) <==> olds.take(n).contains(k),
        forall|k: CountryId| #[trigger] id_map_upto(olds, olds, n).contains_key(k) ==> id_map_upto(olds, olds, n)[k] == k,
    decreases n,
{
    if n > 0 {
        lemma_id_map_identity(olds, n - 1);
        let prev = id_map_upto(olds, olds, n - 1);
        let cur = id_map_upto(olds, olds, n);
        assert(cur == prev.insert(olds[n - 1], olds[n - 1]));
        assert forall|k: CountryId| #[trigger] cur.contains_key(k) <==> olds.take(n).contains(k) by {
            if prev.contains_key(k) {
                assert(olds.take(n - 1).contains(k));
                let j = choose|j: int| 0 <= j < n - 1 && #[trigger] olds.take(n - 1)[j] == k;
                assert(olds.take(n)[j] == k);
            }
            if olds.take(n).contains(k) && k != olds[n - 1] {
                let j = choose|j: int| 0 <= j < n && #[trigger] olds.take(n)[j] == k;
                assert(olds.take(n - 1)[j] == k);
                assert(prev.contains_key(k));
            }
            if k == olds[n - 1] {
                assert(olds.take(n)[n - 1] == k);
            }
        }
        assert forall|k: CountryId| #[trigger] cur.contains_key(k) implies cur[k] == k by {
            if k != olds[n - 1] {
                assert(prev.contains_key(k));
            }
        }
    } else {
        assert(id_map_upto(olds, olds, n) =~= Map::<CountryId, CountryId>::empty());
        assert(olds.take(n) =~= Seq::<CountryId>::empty());
    }
}

/// Renaming every owner to itself gives back the owners as saved.
pub proof fn lemma_remap_owners_identity(s: Seq<(Hex, CountryId)>, m: Map<CountryId, CountryId>)
    requires
        keys_distinct(s),
        forall|i: int| 0 <= i < s.len() ==> m.contains_key(#[trigger] s[i].1) && m[s[i].1] == s[i].1,
    ensures
        remap_owners(Map::empty(), s, m) == entries_map(s),
    decreases s.len(),
{
    if s.len() == 0 {
        assert(entries_map(s) =~= Map::<Hex, CountryId>::empty());
    } else {
        lemma_entries_map_drop_last(s);
        let d = s.drop_last();
        assert forall|i: int| 0 <= i < d.len() implies m.contains_key(#[trigger] d[i].1) && m[d[i].1] == d[i].1 by {
            assert(d[i] == s[i]);
        }
        lemma_remap_owners_identity(d, m);
        assert(m[s.last().1] == s.last().1);
    }
}

/// Renaming every army's owner to itself gives back the armies as saved.
pub proof fn lemma_remap_armies_identity(s: Seq<(Hex, Army)>, m: Map<CountryId, CountryId>)
    requires
        keys_distinct(s),
        forall|i: int| 0 <= i < s.len() ==> m.contains_key(#[trigger] s[i].1.owner) && m[s[i].1.owner] == s[i].1.owner,
    ensures
        remap_armies(Map::empty(), s, m) == entries_map(s),
    decreases s.len(),
{
    if s.len() == 0 {
        assert(entries_map(s) =~= Map::<Hex, Army>::empty());
    } else {
        lemma_entries_map_drop_last(s);
        let d = s.drop_last();
        assert forall|i: int| 0 <= i < d.len() implies m.contains_key(#[trigger] d[i].1.owner) && m[d[i].1.owner]
            == d[i].1.owner by {
            assert(d[i] == s[i]);
        }
        lemma_remap_armies_identity(d, m);
        let a = s.last().1;
        assert(m[a.owner] == a.owner);
        assert(Army { owner: m[a.owner], ..a } == a);
    }
}

/// The view of saved war lists `s`.
pub open spec fn wars_view(s: Seq<(CountryId, Vec<CountryId>)>) -> Map<CountryId, Seq<CountryId>> {
    Map::new(|c: CountryId| entries_map(s).contains_key(c), |c: CountryId| entries_map(s)[c]@)
}

/// Renaming every country of the wars to itself gives back the wars as saved.
pub proof fn lemma_remap_wars_identity(s: Seq<(CountryId, Vec<CountryId>)>, m: Map<CountryId, CountryId>)
    requires
        keys_distinct(s),
        forall|i: int| 0 <= i < s.len() ==> m.contains_key(#[trigger] s[i].0) && m[s[i].0] == s[i].0,
        forall|i: int, j: int|
            0 <= i < s.len() && 0 <= j < s[i].1@.len() ==> m.contains_key(#[trigger] s[i].1@[j]) && m[s[i].1@[j]]
                == s[i].1@[j],
    ensures
        remap_wars(s, m) == wars_view(s),
    decreases s.len(),
{
    if s.len() == 0 {
        assert(wars_view(s) =~= Map::<CountryId, Seq<CountryId>>::empty());
    } else {
        lemma_entries_map_drop_last(s);
        let d = s.drop_last();
        assert forall|i: int| 0 <= i < d.len() implies m.contains_key(#[trigger] d[i].0) && m[d[i].0] == d[i].0 by {
            assert(d[i] == s[i]);
        }
        assert forall|i: int, j: int| 0 <= i < d.len() && 0 <= j < d[i].1@.len() implies m.contains_key(
            #[trigger] d[i].1@[j],
        ) && m[d[i].1@[j]] == d[i].1@[j] by {
            assert(d[i] == s[i]);
        }
        lemma_remap_wars_identity(d, m);
        let last = s.last();
        assert(m[last.0] == last.0);
        assert(remap_ids(last.1@, m) =~= last.1@) by {
            assert forall|j: int| 0 <= j < last.1@.len() implies #[trigger] remap_ids(last.1@, m)[j] == last.1@[j] by {
                assert(s[s.len() - 1] == last);
                assert(m.contains_key(s[s.len() - 1].1@[j]));
            }
        }
        assert(wars_view(s) =~= wars_view(d).insert(last.0, last.1@));
    }
}

/// Loading a saved game with every saved country given back the entity it
/// was saved under finds a new entity for every country the save names, and
/// restores the saved owners, armies, occupation and wars unchanged (onto an
/// empty board and occupation), provided the save names only saved countries.
pub proof fn lemma_load_restores_saved(state: SerializationHelper)
    requires
        state.hex_map.wf(),
        state.war_list.wf(),
        state.occupied.wf(),
        names_only_saved(state),
    ensures
        mappings_ok(state, same_ids(state)),
        owners_mapped(state.occupied.seq(), same_ids(state)),
        remap_owners(Map::empty(), state.hex_map.hex_owners.seq(), same_ids(state)) == state.hex_map.hex_owners@,
        remap_armies(Map::empty(), state.hex_map.armies.seq(), same_ids(state)) == state.hex_map.armies@,
        remap_owners(Map::empty(), state.occupied.seq(), same_ids(state)) == state.occupied@,
        remap_wars(state.war_list.lists.seq(), same_ids(state)) == state.war_list@,
{
    let e = saved_entities(state.countries@);
    let m = same_ids(state);
    lemma_id_map_identity(e, e.len() as int);
    assert(e.take(e.len() as int) =~= e);
    assert(m == id_map_upto(e, e, e.len() as int));
    lemma_remap_owners_identity(state.hex_map.hex_owners.seq(), m);
    lemma_remap_armies_identity(state.hex_map.armies.seq(), m);
    lemma_remap_owners_identity(state.occupied.seq(), m);
    lemma_remap_wars_identity(state.war_list.lists.seq(), m);
    assert(wars_view(state.war_list.lists.seq()) =~= state.war_list@);
}

/// The name and gold that a save file is named after: those of the country
/// a person plays (its name among `names`, by banner index), or
/// "name_error" and -42 when there is none.
pub fn save_label(names: &Vec<String>, player: Option<usize>, gold: Option<i32>) -> (r: (String, i32))
    requires
        player matches Some(i) ==> i < names@.len(),
    ensures
        r.0@ == (match player {
            Some(i) => names@[i as int]@,
            None => "name_error"@,
        }),
        r.1 == (match gold {
            Some(g) => g,
            None => -42i32,
        }),
{
    let name = match player {
        Some(i) => names[i].clone(),
        None => "name_error".to_owned(),
    };
    let g = match gold {
        Some(g) => g,
        None => -42,
    };
    (name, g)
}

/// With every owner named by itself, the counts after the armies `s` are
/// those of `base` plus each country's soldiers among `s`, and every
/// country of `base` or with an army is counted.
pub proof fn lemma_tally_identity(base: Map<CountryId, i32>, s: Seq<(Hex, Army)>, m: Map<CountryId, CountryId>)
    requires
        tally_fits(base, s, m),
        forall|i: int| 0 <= i < s.len() ==> m.contains_key(#[trigger] s[i].1.owner) && m[s[i].1.owner] == s[i].1.owner,
    ensures
        forall|c: CountryId| #[trigger] tally(base, s, m).contains_key(c) <==> base.contains_key(c) || has_army(s, c),
        forall|c: CountryId| #[trigger] count_of(tally(base, s, m), c) == count_of(base, c) + soldiers_of(s, c),
    decreases s.len(),
{
    if s.len() > 0 {
        let d = s.drop_last();
        assert forall|i: int| 0 <= i < d.len() implies m.contains_key(#[trigger] d[i].1.owner) && m[d[i].1.owner]
            == d[i].1.owner by {
            assert(d[i] == s[i]);
        }
        lemma_tally_identity(base, d, m);
        let last = s.last();
        let o = last.1.owner;
        assert(s[s.len() - 1] == last);
        assert(m[o] == o);
        let t = tally(base, d, m);
        assert forall|c: CountryId| #[trigger] tally(base, s, m).contains_key(c) <==> base.contains_key(c) || has_army(
            s,
            c,
        ) by {
            if has_army(d, c) {
                let i = choose|i: int| 0 <= i < d.len() && #[trigger] d[i].1.owner == c;
                assert(s[i].1.owner == c);
            }
            if has_army(s, c) && c != o {
                let i = choose|i: int| 0 <= i < s.len() && #[trigger] s[i].1.owner == c;
                assert(i != s.len() - 1);
                assert(d[i].1.owner == c);
            }
            if c == o {
                assert(s[s.len() - 1].1.owner == c);
            }
        }
        assert forall|c: CountryId| #[trigger] count_of(tally(base, s, m), c) == count_of(base, c) + soldiers_of(s, c) by {
            assert(count_of(t, c) == count_of(base, c) + soldiers_of(d, c));
        }
    }
}

/// Loading a saved game with every saved country given back the entity it
/// was saved under counts exactly the saved countries, each with the
/// soldiers of its saved armies (as `recalculate_soldiers_numbers` would
/// count them on the saved board).
pub proof fn lemma_load_counts_soldiers(state: SerializationHelper)
    requires
        names_only_saved(state),
        tally_fits(zeros_for(same_ids(state)), state.hex_map.armies.seq(), same_ids(state)),
    ensures
        forall|c: CountryId| #[trigger] tally(
            zeros_for(same_ids(state)),
            state.hex_map.armies.seq(),
            same_ids(state),
        ).contains_key(c) <==> saved_entities(state.countries@).contains(c),
        forall|c: CountryId| #[trigger] tally(
            zeros_for(same_ids(state)),
            state.hex_map.armies.seq(),
            same_ids(state),
        ).contains_key(c) ==> tally(
            zeros_for(same_ids(state)),
            state.hex_map.armies.seq(),
            same_ids(state),
        )[c] == soldiers_of(state.hex_map.armies.seq(), c),
{
    let e = saved_entities(state.countries@);
    let m = same_ids(state);
    let s = state.hex_map.armies.seq();
    let z = zeros_for(m);
    lemma_id_map_identity(e, e.len() as int);
    assert(e.take(e.len() as int) =~= e);
    assert(m == id_map_upto(e, e, e.len() as int));
    lemma_tally_identity(z, s, m);
    assert forall|c: CountryId| #[trigger] z.contains_key(c) <==> e.contains(c) by {
        if z.contains_key(c) {
            let k = choose|k: CountryId| m.contains_key(k) && m[k] == c;
            assert(m[k] == k);
        }
        if e.contains(c) {
            assert(e.take(e.len() as int).contains(c));
            assert(id_map_upto(e, e, e.len() as int).contains_key(c));
            assert(m.contains_key(c) && m[c] == c);
        }
    }
    assert forall|c: CountryId| #[trigger] tally(z, s, m).contains_key(c) <==> e.contains(c) by {
        if has_army(s, c) {
            let i = choose|i: int| 0 <= i < s.len() && #[trigger] s[i].1.owner == c;
            assert(e.contains(s[i].1.owner));
        }
    }
    assert forall|c: CountryId| #[trigger] tally(z, s, m).contains_key(c) implies tally(z, s, m)[c] == soldiers_of(s, c) by {
        assert(count_of(tally(z, s, m), c) == count_of(z, c) + soldiers_of(s, c));
        assert(z.contains_key(c));
    }
}

} // verus!
