use vstd::prelude::*;
use crate::map::CountryId;
use crate::hex::Hex;

verus! {

/// Whether `x` occurs in `v`.
pub fn vec_contains(v: &Vec<CountryId>, x: CountryId) -> (b: bool)
    ensures
        b == v@.contains(x),
{
    let n = v.len();
    let mut i: usize = 0;
    while i < n
        invariant
            n == v@.len(),
            i <= n,
            forall|j: int| 0 <= j < i ==> v@[j] != x,
        decreases n - i,
    {
        if v[i] == x {
            return true;
        }
        i = i + 1;
    }
    false
}

} // verus!

verus! {

/// A copy of a list of countries.
pub fn copy_ids(v: &Vec<CountryId>) -> (r: Vec<CountryId>)
    ensures
        r@ == v@,
{
    let mut r: Vec<CountryId> = Vec::new();
    let n = v.len();
    let mut i: usize = 0;
    while i < n
        invariant
            n == v@.len(),
            i <= n,
            r@ == v@.take(i as int),
        decreases n - i,
    {
        r.push(v[i]);
        assert(v@.take(i + 1) =~= v@.take(i as int).push(v@[i as int]));
        i = i + 1;
    }
    assert(v@.take(n as int) =~= v@);
    r
}

} // verus!

verus! {

/// Whether `h` occurs in `v`.
pub fn vec_contains_hex(v: &Vec<Hex>, h: Hex) -> (b: bool)
    ensures
        b == v@.contains(h),
{
    let n = v.len();
    let mut i: usize = 0;
    while i < n
        invariant
            n == v@.len(),
            i <= n,
            forall|j: int| 0 <= j < i ==> v@[j] != h,
        decreases n - i,
    {
        if v[i].x == h.x && v[i].y == h.y {
            return true;
        }
        i = i + 1;
    }
    false
}

} // verus!
