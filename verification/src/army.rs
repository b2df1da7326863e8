use vstd::prelude::*;
use crate::map::CountryId;

verus! {

/// Soldiers of one country standing together on a tile.
#[derive(Clone, Copy, PartialEq, Eq, Structural, Debug)]
pub struct Army {
    pub number_of_soldiers: i32,
    pub owner: CountryId,
    pub move_points_left: i32,
    pub move_points_max: i32,
}

pub open spec fn min(a: int, b: int) -> int {
    if a <= b {
        a
    } else {
        b
    }
}

/// Who is left after two armies fight: the larger one, less the soldiers of
/// the smaller; nobody when they are equal.
pub open spec fn battle_result(a: Army, b: Army) -> Option<Army> {
    if a.number_of_soldiers == b.number_of_soldiers {
        None
    } else if a.number_of_soldiers > b.number_of_soldiers {
        Some(Army { number_of_soldiers: (a.number_of_soldiers - b.number_of_soldiers) as i32, ..a })
    } else {
        Some(Army { number_of_soldiers: (b.number_of_soldiers - a.number_of_soldiers) as i32, ..b })
    }
}

/// The difference of the two armies' sizes fits in an `i32`.
pub open spec fn battle_fits(a: Army, b: Army) -> bool {
    i32::MIN <= a.number_of_soldiers - b.number_of_soldiers <= i32::MAX
        && i32::MIN <= b.number_of_soldiers - a.number_of_soldiers <= i32::MAX
}

impl Army {
    pub fn new(
        number_of_soldiers: i32,
        owner: CountryId,
        move_points_left: i32,
        move_points_max: i32,
    ) -> (a: Army)
        ensures
            a == (Army { number_of_soldiers, owner, move_points_left, move_points_max }),
    {
        Army { number_of_soldiers, owner, move_points_left, move_points_max }
    }

    pub fn reset_move_points(&mut self)
        ensures
            *final(self) == (Army { move_points_left: old(self).move_points_max, ..*old(self) }),
    {
        self.move_points_left = self.move_points_max;
    }

    /// Takes `other`'s soldiers in; the merged army can move only as far as
    /// the slower of the two.
    pub fn merge_with_other(&mut self, other: Army)
        requires
            i32::MIN <= old(self).number_of_soldiers + other.number_of_soldiers <= i32::MAX,
        ensures
            *final(self) == (Army {
                number_of_soldiers: (old(self).number_of_soldiers
                    + other.number_of_soldiers) as i32,
                move_points_left: min(
                    old(self).move_points_left as int,
                    other.move_points_left as int,
                ) as i32,
                ..*old(self)
            }),
    {
        self.number_of_soldiers = self.number_of_soldiers + other.number_of_soldiers;
        if other.move_points_left < self.move_points_left {
            self.move_points_left = other.move_points_left;
        }
    }

    /// Takes `other`'s soldiers in and keeps its own move points.
    pub fn merge_with_other_ref(&mut self, other: &Army)
        requires
            i32::MIN <= old(self).number_of_soldiers + other.number_of_soldiers <= i32::MAX,
        ensures
            *final(self) == (Army {
                number_of_soldiers: (old(self).number_of_soldiers
                    + other.number_of_soldiers) as i32,
                ..*old(self)
            }),
    {
        self.number_of_soldiers = self.number_of_soldiers + other.number_of_soldiers;
    }

    /// The army that holds the field after `army_1` and `army_2` fight.
    pub fn battle(army_1: &Army, army_2: &Army) -> (r: Option<Army>)
        requires
            battle_fits(*army_1, *army_2),
        ensures
            r == battle_result(*army_1, *army_2),
            r is None <==> army_1.number_of_soldiers == army_2.number_of_soldiers,
            army_1.number_of_soldiers > army_2.number_of_soldiers ==> (r matches Some(w) && w.number_of_soldiers
                == army_1.number_of_soldiers - army_2.number_of_soldiers && w.owner == army_1.owner
                && w.move_points_left == army_1.move_points_left && w.move_points_max == army_1.move_points_max),
            army_2.number_of_soldiers > army_1.number_of_soldiers ==> (r matches Some(w) && w.number_of_soldiers
                == army_2.number_of_soldiers - army_1.number_of_soldiers && w.owner == army_2.owner
                && w.move_points_left == army_2.move_points_left && w.move_points_max == army_2.move_points_max),
    {
        if army_1.number_of_soldiers == army_2.number_of_soldiers {
            None
        } else if army_1.number_of_soldiers > army_2.number_of_soldiers {
            Some(
                Army {
                    number_of_soldiers: army_1.number_of_soldiers - army_2.number_of_soldiers,
                    owner: army_1.owner,
                    move_points_left: army_1.move_points_left,
                    move_points_max: army_1.move_points_max,
                },
            )
        } else {
            Some(
                Army {
                    number_of_soldiers: army_2.number_of_soldiers - army_1.number_of_soldiers,
                    owner: army_2.owner,
                    move_points_left: army_2.move_points_left,
                    move_points_max: army_2.move_points_max,
                },
            )
        }
    }
}

/// After a battle the larger side holds the field as it was, owner, move
/// points left and most move points alike, with as many soldiers as it had
/// more than the smaller side; equal sides leave nobody.
pub proof fn lemma_battle_survivor(a: Army, b: Army)
    ensures
        battle_result(a, b) is None <==> a.number_of_soldiers == b.number_of_soldiers,
        battle_result(a, b) matches Some(w) ==> {
            let big = if a.number_of_soldiers > b.number_of_soldiers {
                a
            } else {
                b
            };
            let small = if a.number_of_soldiers > b.number_of_soldiers {
                b
            } else {
                a
            };
            &&& w.owner == big.owner
            &&& w.move_points_left == big.move_points_left
            &&& w.move_points_max == big.move_points_max
            &&& battle_fits(a, b) ==> w.number_of_soldiers == big.number_of_soldiers - small.number_of_soldiers
            &&& battle_fits(a, b) ==> w.number_of_soldiers > 0
        },
{
}

/// A battle does not depend on which side attacks: the same soldiers are
/// left either way, and the survivor is the side that had more.
pub proof fn lemma_battle_symmetric(a: Army, b: Army)
    ensures
        battle_result(a, b) is None <==> battle_result(b, a) is None,
        battle_result(a, b) is None <==> a.number_of_soldiers == b.number_of_soldiers,
        battle_result(a, b) matches Some(w) ==> battle_result(b, a) == Some(w) && (
        w.owner == a.owner && a.number_of_soldiers > b.number_of_soldiers || w.owner == b.owner
            && b.number_of_soldiers > a.number_of_soldiers),
{
}

} // verus!
