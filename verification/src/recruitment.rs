use vstd::prelude::*;
use crate::army::Army;
use crate::countries::{CountriesSolidersNumbers, CountryState, Treasury, find_country, set_treasury};
use crate::errors::{MyErrors, inconsistent};
use crate::hex::Hex;
use crate::map::{CountryId, HexMap};
use crate::political::Occupied;
use crate::ui::{first_of, is_country};

verus! {

/// How many soldiers the player is about to recruit, and what they cost.
pub struct RecruitNumber {
    pub number: i32,
    pub price: i32,
}

/// Gold that one soldier costs.
pub const SOLDIER_PRICE: i32 = 10;

impl RecruitNumber {
    pub fn new() -> (r: RecruitNumber)
        ensures
            r.number == 0,
            r.price == 0,
    {
        RecruitNumber { number: 0, price: 0 }
    }

    /// Changes the number by `up`, never below zero, and prices it at ten
    /// gold a soldier.
    pub fn up_number(&mut self, up: i32)
        requires
            i32::MIN <= old(self).number + up <= i32::MAX,
            old(self).number + up <= i32::MAX / 10,
        ensures
            final(self).number == (if old(self).number + up < 0 {
                0
            } else {
                old(self).number + up
            }),
            final(self).price == final(self).number * 10,
    {
        self.number = self.number + up;
        if self.number < 0 {
            self.number = 0;
        }
        self.price = self.number * 10;
    }

    pub fn reset(&mut self)
        ensures
            final(self).number == 0,
            final(self).price == 0,
    {
        self.number = 0;
        self.price = 0;
    }
}

/// The army on `coord` after `soldiers_num` new soldiers of `owner` join
/// whatever army stood there: freshly recruited, it cannot move this round.
pub open spec fn recruited_army(
    armies: Map<Hex, Army>,
    coord: Hex,
    owner: CountryId,
    soldiers_num: i32,
) -> Army {
    Army {
        number_of_soldiers: (soldiers_num + if armies.contains_key(coord) {
            armies[coord].number_of_soldiers as int
        } else {
            0
        }) as i32,
        owner,
        move_points_left: 0,
        move_points_max: 2,
    }
}

/// The arithmetic of a recruitment fits in `i32`.
pub open spec fn recruit_fits(
    treasury: Treasury,
    soldiers_num: i32,
    price: i32,
    owner: CountryId,
    map: &HexMap,
    coord: Hex,
    numbers: Map<CountryId, i32>,
) -> bool {
    &&& i32::MIN <= treasury.gold - price <= i32::MAX
    &&& numbers.contains_key(owner) ==> i32::MIN <= numbers[owner] + soldiers_num <= i32::MAX
    &&& map.armies@.contains_key(coord) ==> i32::MIN <= soldiers_num
        + map.armies@[coord].number_of_soldiers <= i32::MAX
}

/// Recruits `soldiers_num` soldiers of `owner` on `coord` for `price` gold.
pub fn recruit_to_map(
    treasury: &mut Treasury,
    soldiers_num: i32,
    price: i32,
    owner: &CountryId,
    map: &mut HexMap,
    coord: Hex,
    numbers: &mut CountriesSolidersNumbers,
)
    requires
        old(map).wf(),
        old(numbers).wf(),
        recruit_fits(
            *old(treasury),
            soldiers_num,
            price,
            *owner,
            old(map),
            coord,
            old(numbers).numbers@,
        ),
    ensures
        final(map).wf(),
        final(numbers).wf(),
        final(map).political == old(map).political,
        final(map).entities == old(map).entities,
        final(map).hex_owners == old(map).hex_owners,
        final(map).armies@ == old(map).armies@.insert(
            coord,
            recruited_army(old(map).armies@, coord, *owner, soldiers_num),
        ),
        *final(treasury) == (Treasury { gold: (old(treasury).gold - price) as i32, ..*old(treasury) }),
        final(numbers).numbers@ == old(numbers).numbers@.insert(
            *owner,
            (soldiers_num + if old(numbers).numbers@.contains_key(*owner) {
                old(numbers).numbers@[*owner] as int
            } else {
                0
            }) as i32,
        ),
{
    let to_insert = match numbers.numbers.get(owner) {
        Some(some) => some + soldiers_num,
        None => soldiers_num,
    };
    numbers.numbers.insert(*owner, to_insert);
    treasury.gold = treasury.gold - price;
    let mut new_army = Army::new(soldiers_num, *owner, 0, 2);
    if let Some(old_army) = map.armies.get(&coord) {
        new_army.merge_with_other_ref(&old_army);
    }
    map.armies.insert(coord, new_army);
}

/// What the player's recruitment did, as `r` says, to the board, the
/// countries and the soldier counts. Nothing changes unless `r` is
/// `Ok(true)`. With no tile selected it fails. On an occupied tile nothing
/// happens (`Ok(false)`). It fails when the tile is off the board, has no
/// owner or its owner is not a known country. Otherwise the owner's first
/// entry pays the price if it can: `Ok(false)` when it cannot, an overflow
/// error when the arithmetic would leave `i32`, else the soldiers join the
/// tile's army (see `recruited_army`) and the owner's count (`Ok(true)`).
pub open spec fn recruited_as(
    map0: &HexMap,
    map1: &HexMap,
    countries0: Seq<CountryState>,
    countries1: Seq<CountryState>,
    numbers0: Map<CountryId, i32>,
    numbers1: Map<CountryId, i32>,
    selected_hex: Option<Hex>,
    number: i32,
    price: i32,
    occupied: Map<Hex, CountryId>,
    r: Result<bool, MyErrors>,
) -> bool {
    &&& r != Ok::<bool, MyErrors>(true) ==> map1.armies@ == map0.armies@ && numbers1 == numbers0 && countries1
        == countries0
    &&& r matches Err(e) ==> e is InconsistentData || e is Unexpected
    &&& match selected_hex {
        None => r matches Err(e) && e is InconsistentData,
        Some(coord) => if occupied.contains_key(coord) {
            r == Ok::<bool, MyErrors>(false)
        } else if !map0.entities@.contains_key(coord) || !map0.hex_owners@.contains_key(coord) || !is_country(
            countries0,
            map0.hex_owners@[coord],
        ) {
            r matches Err(e) && e is InconsistentData
        } else {
            let owner = map0.hex_owners@[coord];
            exists|j: int|
                #[trigger] first_of(countries0, owner, j) && {
                    let t = countries0[j].treasury;
                    if t.gold < price {
                        r == Ok::<bool, MyErrors>(false)
                    } else if !recruit_fits(t, number, price, owner, map0, coord, numbers0) {
                        r matches Err(e) && e is Unexpected
                    } else {
                        &&& r == Ok::<bool, MyErrors>(true)
                        &&& map1.armies@ == map0.armies@.insert(
                            coord,
                            recruited_army(map0.armies@, coord, owner, number),
                        )
                        &&& numbers1 == numbers0.insert(
                            owner,
                            (number + if numbers0.contains_key(owner) {
                                numbers0[owner] as int
                            } else {
                                0
                            }) as i32,
                        )
                        &&& countries1.len() == countries0.len()
                        &&& forall|k: int| 0 <= k < countries0.len() && k != j ==> #[trigger] countries1[k] == countries0[k]
                        &&& countries1[j] == (CountryState {
                            treasury: Treasury { gold: (t.gold - price) as i32, ..t },
                            ..countries0[j]
                        })
                    }
                }
        },
    }
}

/// Recruiting on a tile marked occupied does nothing: no army, soldier
/// count or treasury changes, and the answer is that nobody was recruited.
pub proof fn lemma_no_recruits_on_occupied_tile(
    map0: &HexMap,
    map1: &HexMap,
    countries0: Seq<CountryState>,
    countries1: Seq<CountryState>,
    numbers0: Map<CountryId, i32>,
    numbers1: Map<CountryId, i32>,
    coord: Hex,
    number: i32,
    price: i32,
    occupied: Map<Hex, CountryId>,
    r: Result<bool, MyErrors>,
)
    requires
        recruited_as(
            map0,
            map1,
            countries0,
            countries1,
            numbers0,
            numbers1,
            Some(coord),
            number,
            price,
            occupied,
            r,
        ),
        occupied.contains_key(coord),
    ensures
        r == Ok::<bool, MyErrors>(false),
        map1.armies@ == map0.armies@,
        numbers1 == numbers0,
        countries1 == countries0,
{
}

/// The player's recruitment on the selected tile (see `recruited_as`):
/// `Ok(true)` when soldiers were recruited.
pub fn do_check_and_recruit(
    selected_hex: Option<Hex>,
    map: &mut HexMap,
    recruit_num: &RecruitNumber,
    countries: &mut Vec<CountryState>,
    numbers: &mut CountriesSolidersNumbers,
    occupied: &Occupied,
) -> (r: Result<bool, MyErrors>)
    requires
        old(map).wf(),
        old(numbers).wf(),
        occupied.wf(),
    ensures
        final(map).wf(),
        final(numbers).wf(),
        final(map).political == old(map).political,
        final(map).entities == old(map).entities,
        final(map).hex_owners == old(map).hex_owners,
        recruited_as(
            old(map),
            final(map),
            old(countries)@,
            final(countries)@,
            old(numbers).numbers@,
            final(numbers).numbers@,
            selected_hex,
            recruit_num.number,
            recruit_num.price,
            occupied.map@,
            r,
        ),
        selected_hex matches Some(c) && occupied.map@.contains_key(c) ==> r == Ok::<bool, MyErrors>(false)
            && final(map).armies@ == old(map).armies@ && final(numbers).numbers@ == old(numbers).numbers@
            && final(countries)@ == old(countries)@,
{
    let coord = match selected_hex {
        Some(c) => c,
        None => {
            return Err(inconsistent("Recruiting army but no selected hex"));
        },
    };
    if occupied.map.contains_key(&coord) {
        return Ok(false);
    }
    if !map.entities.contains_key(&coord) {
        return Err(inconsistent("Couldn't find Hex Entity"));
    }
    let owner = match map.hex_owners.get(&coord) {
        Some(o) => o,
        None => {
            return Err(inconsistent("Recruiting army but no owner of tile"));
        },
    };
    let j = match find_country(countries, owner) {
        Some(j) => j,
        None => {
            proof {
                if is_country(countries@, owner) {
                    let q = choose|q: int| 0 <= q < countries@.len() && #[trigger] countries@[q].entity == owner;
                    assert(countries@[q].entity != owner);
                }
            }
            return Err(inconsistent("Couldn't find treasury or soldier asset of country"));
        },
    };
    assert(first_of(countries@, owner, j as int));
    assert(is_country(countries@, owner));
    let mut treasury = countries[j].treasury;
    if treasury.gold < recruit_num.price {
        return Ok(false);
    }
    match recruit_checked(
        &mut treasury,
        recruit_num.number,
        recruit_num.price,
        &owner,
        map,
        coord,
        numbers,
    ) {
        Ok(()) => {},
        Err(e) => {
            return Err(e);
        },
    }
    set_treasury(countries, j, treasury);
    assert(countries@[j as int] == (CountryState {
        treasury: Treasury { gold: (old(countries)@[j as int].treasury.gold - recruit_num.price) as i32, ..old(countries)@[j as int].treasury },
        ..old(countries)@[j as int]
    }));
    Ok(true)
}

/// The player's recruitment: nothing below one soldier; otherwise recruits
/// (see `recruited_as`) and, unless that failed, clears the chosen number.
pub fn recruitment_system(
    selected_hex: Option<Hex>,
    map: &mut HexMap,
    recruit_num: &mut RecruitNumber,
    countries: &mut Vec<CountryState>,
    numbers: &mut CountriesSolidersNumbers,
    occupied: &Occupied,
) -> (r: Result<(), MyErrors>)
    requires
        old(map).wf(),
        old(numbers).wf(),
        occupied.wf(),
    ensures
        final(map).wf(),
        final(numbers).wf(),
        final(map).political == old(map).political,
        final(map).entities == old(map).entities,
        final(map).hex_owners == old(map).hex_owners,
        old(recruit_num).number < 1 ==> r is Ok && final(map).armies@ == old(map).armies@
            && *final(recruit_num) == *old(recruit_num) && final(countries)@ == old(countries)@
            && final(numbers).numbers@ == old(numbers).numbers@,
        old(recruit_num).number >= 1 ==> exists|res: Result<bool, MyErrors>|
            #[trigger] recruited_as(
                old(map),
                final(map),
                old(countries)@,
                final(countries)@,
                old(numbers).numbers@,
                final(numbers).numbers@,
                selected_hex,
                old(recruit_num).number,
                old(recruit_num).price,
                occupied.map@,
                res,
            ) && (res is Ok <==> r is Ok) && (res matches Err(e) ==> r == Err::<(), MyErrors>(e)),
        old(recruit_num).number >= 1 && r is Ok ==> final(recruit_num).number == 0
            && final(recruit_num).price == 0,
        r is Err ==> *final(recruit_num) == *old(recruit_num),
{
    if recruit_num.number < 1 {
        return Ok(());
    }
    let res = do_check_and_recruit(selected_hex, map, recruit_num, countries, numbers, occupied);
    match res {
        Ok(_) => {},
        Err(e) => {
            return Err(e);
        },
    }
    recruit_num.reset();
    Ok(())
}

} // verus!

verus! {

/// `recruit_to_map`, or an overflow error (with nothing changed) where its
/// arithmetic would overflow.
pub fn recruit_checked(
    treasury: &mut Treasury,
    soldiers_num: i32,
    price: i32,
    owner: &CountryId,
    map: &mut HexMap,
    coord: Hex,
    numbers: &mut CountriesSolidersNumbers,
) -> (r: Result<(), MyErrors>)
    requires
        old(map).wf(),
        old(numbers).wf(),
    ensures
        final(map).wf(),
        final(numbers).wf(),
        final(map).political == old(map).political,
        final(map).entities == old(map).entities,
        final(map).hex_owners == old(map).hex_owners,
        r is Ok <==> recruit_fits(
            *old(treasury),
            soldiers_num,
            price,
            *owner,
            old(map),
            coord,
            old(numbers).numbers@,
        ),
        r is Err ==> *final(treasury) == *old(treasury) && final(map).armies@ == old(map).armies@
            && final(numbers).numbers@ == old(numbers).numbers@,
        r matches Err(e) ==> e is Unexpected,
        r is Ok ==> {
            &&& final(map).armies@ == old(map).armies@.insert(
                coord,
                recruited_army(old(map).armies@, coord, *owner, soldiers_num),
            )
            &&& *final(treasury) == (Treasury {
                gold: (old(treasury).gold - price) as i32,
                ..*old(treasury)
            })
            &&& final(numbers).numbers@ == old(numbers).numbers@.insert(
                *owner,
                (soldiers_num + if old(numbers).numbers@.contains_key(*owner) {
                    old(numbers).numbers@[*owner] as int
                } else {
                    0
                }) as i32,
            )
        },
{
    let g = treasury.gold as i64 - price as i64;
    if g < i32::MIN as i64 || g > i32::MAX as i64 {
        return Err(crate::movement::overflow_error());
    }
    if let Some(n) = numbers.numbers.get(owner) {
        let s = n as i64 + soldiers_num as i64;
        if s < i32::MIN as i64 || s > i32::MAX as i64 {
            return Err(crate::movement::overflow_error());
        }
    }
    if let Some(a) = map.armies.get(&coord) {
        let s = a.number_of_soldiers as i64 + soldiers_num as i64;
        if s < i32::MIN as i64 || s > i32::MAX as i64 {
            return Err(crate::movement::overflow_error());
        }
    }
    recruit_to_map(treasury, soldiers_num, price, owner, map, coord, numbers);
    Ok(())
}

} // verus!

verus! {

/// Recruiting on a tile that the recruiting country owns keeps armies on
/// their own land.
pub proof fn lemma_recruit_keeps_armies_on_own_land(
    armies: Map<Hex, Army>,
    owners: Map<Hex, CountryId>,
    coord: Hex,
    owner: CountryId,
    soldiers_num: i32,
)
    requires
        crate::map::armies_on_own_land(armies, owners),
        owners.contains_key(coord),
        owners[coord] == owner,
    ensures
        crate::map::armies_on_own_land(
            armies.insert(coord, recruited_army(armies, coord, owner, soldiers_num)),
            owners,
        ),
{
}

} // verus!
