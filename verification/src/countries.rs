use vstd::prelude::*;
use crate::army::Army;
use crate::hex::Hex;
use crate::map::{CountryId, HexMap};
use crate::table::Table;

verus! {

/// A country's gold and the gold it earns each round before buildings.
#[derive(Clone, Copy, PartialEq, Eq, Structural, Debug)]
pub struct Treasury {
    pub gold: i32,
    pub base_income: i32,
}

impl Treasury {
    pub fn new(gold: i32, base_income: i32) -> (t: Treasury)
        ensures
            t == (Treasury { gold, base_income }),
    {
        Treasury { gold, base_income }
    }

    /// Adds a round's income: the base income plus `bonus`.
    pub fn update_gold(&mut self, bonus: i32)
        requires
            i32::MIN <= old(self).base_income + bonus <= i32::MAX,
            i32::MIN <= old(self).gold + old(self).base_income + bonus <= i32::MAX,
        ensures
            *final(self) == (Treasury {
                gold: (old(self).gold + old(self).base_income + bonus) as i32,
                ..*old(self)
            }),
    {
        self.gold = self.gold + (self.base_income + bonus);
    }
}

} // verus!

verus! {

/// Who plays a country.
#[derive(Clone, Copy, PartialEq, Eq, Structural, Debug)]
pub enum PlayerType {
    Player,
    Bot,
}

/// Which of the three countries' banners a country flies.
#[derive(Clone, Copy, PartialEq, Eq, Structural, Debug)]
pub struct Country {
    pub id: usize,
}

impl Country {
    pub fn new(id: usize) -> (c: Country)
        ensures
            c.id == id,
    {
        Country { id }
    }
}

/// Countries that have offered peace to a country, oldest first.
pub struct PeaceProposals {
    pub senders: Vec<CountryId>,
}

impl PeaceProposals {
    pub fn new() -> (p: PeaceProposals)
        ensures
            p.senders@ == Seq::<CountryId>::empty(),
    {
        PeaceProposals { senders: Vec::new() }
    }
}

/// What the rules know of one country.
pub struct CountryState {
    pub entity: CountryId,
    pub player_type: PlayerType,
    pub proposals: PeaceProposals,
    pub treasury: Treasury,
}

/// How many soldiers each country has.
pub struct CountriesSolidersNumbers {
    pub numbers: Table<CountryId, i32>,
}

impl CountriesSolidersNumbers {
    pub open spec fn wf(&self) -> bool {
        self.numbers.wf()
    }
}

/// Soldiers of country `c` among the armies `s`.
pub open spec fn soldiers_of(s: Seq<(Hex, Army)>, c: CountryId) -> int
    decreases s.len(),
{
    if s.len() == 0 {
        0
    } else {
        soldiers_of(s.drop_last(), c) + if s.last().1.owner == c {
            s.last().1.number_of_soldiers as int
        } else {
            0
        }
    }
}

/// Some army of `s` belongs to `c`.
pub open spec fn has_army(s: Seq<(Hex, Army)>, c: CountryId) -> bool {
    exists|i: int| 0 <= i < s.len() && #[trigger] s[i].1.owner == c
}

/// Every running count of soldiers per country over `s` fits in an `i32`.
pub open spec fn soldier_counts_fit(s: Seq<(Hex, Army)>) -> bool {
    forall|i: int, c: CountryId|
        0 <= i <= s.len() ==> i32::MIN <= #[trigger] soldiers_of(s.take(i), c) <= i32::MAX
}

/// With no army of `c` among `s`, `c` has no soldiers there.
pub proof fn lemma_soldiers_of_absent(s: Seq<(Hex, Army)>, c: CountryId)
    requires
        !has_army(s, c),
    ensures
        soldiers_of(s, c) == 0,
    decreases s.len(),
{
    if s.len() > 0 {
        assert(!has_army(s.drop_last(), c)) by {
            if has_army(s.drop_last(), c) {
                let i = choose|i: int| 0 <= i < s.len() - 1 && #[trigger] s.drop_last()[i].1.owner == c;
                assert(s[i].1.owner == c);
            }
        }
        lemma_soldiers_of_absent(s.drop_last(), c);
        assert(s[s.len() - 1].1.owner != c);
    }
}

/// Counts each country's soldiers anew from the armies on the board: every
/// country already counted, and every country with an army, gets the sum of
/// its armies' soldiers.
pub fn recalculate_soldiers_numbers(nums: &mut CountriesSolidersNumbers, map: &HexMap)
    requires
        old(nums).wf(),
        map.wf(),
        soldier_counts_fit(map.armies.seq()),
    ensures
        final(nums).wf(),
        final(nums).numbers@ == Map::new(
            |c: CountryId| old(nums).numbers@.contains_key(c) || has_army(map.armies.seq(), c),
            |c: CountryId| soldiers_of(map.armies.seq(), c) as i32,
        ),
{
    let ghost d0 = nums.numbers@;
    let ghost es = nums.numbers.entries@;
    proof {
        crate::table::lemma_entries_map_all(es);
    }
    let mut fresh: Table<CountryId, i32> = Table::new();
    let n0 = nums.numbers.entries.len();
    let mut i: usize = 0;
    while i < n0
        invariant
            nums.numbers.entries@ == es,
            n0 == es.len(),
            i <= n0,
            fresh.wf(),
            fresh@ == Map::new(
                |c: CountryId| exists|j: int| 0 <= j < i && #[trigger] es[j].0 == c,
                |c: CountryId| 0i32,
            ),
        decreases n0 - i,
    {
        let owner = nums.numbers.entries[i].0;
        fresh.insert(owner, 0);
        assert(fresh@ =~= Map::new(
            |c: CountryId| exists|j: int| 0 <= j < i + 1 && #[trigger] es[j].0 == c,
            |c: CountryId| 0i32,
        )) by {
            assert(es[i as int].0 == owner);
            assert forall|c: CountryId|
                #![trigger fresh@.contains_key(c)]
                (exists|j: int| 0 <= j < i + 1 && #[trigger] es[j].0 == c) && c != owner implies (
                exists|j: int| 0 <= j < i && #[trigger] es[j].0 == c) by {
                let j = choose|j: int| 0 <= j < i + 1 && #[trigger] es[j].0 == c;
                assert(j != i);
            }
        }
        i = i + 1;
    }
    assert(fresh@.dom() =~= d0.dom()) by {
        assert forall|c: CountryId| #[trigger] d0.contains_key(c) implies fresh@.contains_key(c) by {
            let j = choose|j: int| 0 <= j < es.len() && #[trigger] es[j].0 == c;
        }
    }
    nums.numbers = fresh;
    let ghost s = map.armies.seq();
    let n = map.armies.entries.len();
    let mut k: usize = 0;
    while k < n
        invariant
            nums.wf(),
            map.wf(),
            s == map.armies.seq(),
            n == s.len(),
            k <= n,
            soldier_counts_fit(s),
            nums.numbers@ == Map::new(
                |c: CountryId| d0.contains_key(c) || has_army(s.take(k as int), c),
                |c: CountryId| soldiers_of(s.take(k as int), c) as i32,
            ),
        decreases n - k,
    {
        let army = map.armies.entries[k].1;
        let ghost t0 = s.take(k as int);
        let ghost t1 = s.take(k + 1);
        assert(t1.drop_last() =~= t0);
        assert(t1.last() == s[k as int]);
        let base = match nums.numbers.get(&army.owner) {
            Some(val) => val,
            None => {
                proof {
                    lemma_soldiers_of_absent(t0, army.owner);
                }
                0
            },
        };
        assert(soldiers_of(t1, army.owner) == base + army.number_of_soldiers);
        assert(i32::MIN <= soldiers_of(t1, army.owner) <= i32::MAX);
        nums.numbers.insert(army.owner, base + army.number_of_soldiers);
        assert(nums.numbers@ =~= Map::new(
            |c: CountryId| d0.contains_key(c) || has_army(t1, c),
            |c: CountryId| soldiers_of(t1, c) as i32,
        )) by {
            assert(t1[k as int].1.owner == army.owner);
            assert forall|c: CountryId| #[trigger] has_army(t1, c) && c != army.owner implies has_army(
                t0,
                c,
            ) by {
                let j = choose|j: int| 0 <= j < t1.len() && #[trigger] t1[j].1.owner == c;
                assert(j != k);
                assert(t0[j].1.owner == c);
            }
            assert forall|c: CountryId| #[trigger] has_army(t0, c) implies has_army(t1, c) by {
                let j = choose|j: int| 0 <= j < t0.len() && #[trigger] t0[j].1.owner == c;
                assert(t1[j].1.owner == c);
            }
        }
        k = k + 1;
    }
    assert(s.take(n as int) =~= s);
}

} // verus!

verus! {

/// Position in `countries` of the country `e`.
pub fn find_country(countries: &Vec<CountryState>, e: CountryId) -> (r: Option<usize>)
    ensures
        r is None <==> forall|j: int| 0 <= j < countries@.len() ==> countries@[j].entity != e,
        r matches Some(j) ==> j < countries@.len() && countries@[j as int].entity == e && forall|
            k: int,
        | 0 <= k < j ==> countries@[k].entity != e,
{
    let n = countries.len();
    let mut i: usize = 0;
    while i < n
        invariant
            n == countries@.len(),
            i <= n,
            forall|j: int| 0 <= j < i ==> countries@[j].entity != e,
        decreases n - i,
    {
        if countries[i].entity == e {
            return Some(i);
        }
        i = i + 1;
    }
    None
}

/// Replaces the treasury of the country at position `j`.
pub fn set_treasury(countries: &mut Vec<CountryState>, j: usize, t: Treasury)
    requires
        j < old(countries)@.len(),
    ensures
        final(countries)@.len() == old(countries)@.len(),
        forall|k: int|
            0 <= k < final(countries)@.len() && k != j ==> #[trigger] final(countries)@[k]
                == old(countries)@[k],
        final(countries)@[j as int].treasury == t,
        final(countries)@[j as int].entity == old(countries)@[j as int].entity,
        final(countries)@[j as int].player_type == old(countries)@[j as int].player_type,
        final(countries)@[j as int].proposals == old(countries)@[j as int].proposals,
{
    countries[j].treasury = t;
}

} // verus!
