use vstd::prelude::*;

verus! {

/// Axial coordinates of a tile on the hexagonal board.
#[derive(Clone, Copy, PartialEq, Eq, Structural, Debug, Hash)]
pub struct Hex {
    pub x: i32,
    pub y: i32,
}

impl Hex {
    pub fn new(x: i32, y: i32) -> (h: Hex)
        ensures
            h.x == x,
            h.y == y,
    {
        Hex { x, y }
    }
}

/// Both coordinates can move one step in either direction without overflow.
pub open spec fn coords_ok(h: Hex) -> bool {
    &&& i32::MIN < h.x < i32::MAX
    &&& i32::MIN < h.y < i32::MAX
}

/// The hex reached from `h` by the offset `(dx, dy)`.
pub open spec fn offset(h: Hex, dx: int, dy: int) -> Hex {
    Hex { x: (h.x + dx) as i32, y: (h.y + dy) as i32 }
}

/// The six neighbours of `h`, in the order of the edge directions
/// (1, 0), (0, 1), (-1, 1), (-1, 0), (0, -1), (1, -1).
pub open spec fn neighbors_of(h: Hex) -> Seq<Hex> {
    seq![
        offset(h, 1, 0),
        offset(h, 0, 1),
        offset(h, -1, 1),
        offset(h, -1, 0),
        offset(h, 0, -1),
        offset(h, 1, -1),
    ]
}

/// `b` shares an edge with `a`.
pub open spec fn adjacent(a: Hex, b: Hex) -> bool {
    let dx = b.x - a.x;
    let dy = b.y - a.y;
    ||| dx == 1 && dy == 0
    ||| dx == 0 && dy == 1
    ||| dx == -1 && dy == 1
    ||| dx == -1 && dy == 0
    ||| dx == 0 && dy == -1
    ||| dx == 1 && dy == -1
}

pub open spec fn abs(v: int) -> int {
    if v < 0 {
        -v
    } else {
        v
    }
}

/// Number of steps between two hexes.
pub open spec fn hex_distance(a: Hex, b: Hex) -> int {
    let dx = abs(b.x - a.x);
    let dy = abs(b.y - a.y);
    let dz = abs((b.x - a.x) + (b.y - a.y));
    if dx >= dy && dx >= dz {
        dx
    } else if dy >= dz {
        dy
    } else {
        dz
    }
}

/// Every member of `neighbors_of(h)` is adjacent to `h`, and every hex
/// adjacent to `h` is one of them.
pub proof fn lemma_neighbors_adjacent(h: Hex)
    requires
        coords_ok(h),
    ensures
        forall|i: int| 0 <= i < 6 ==> #[trigger] adjacent(h, neighbors_of(h)[i]),
        forall|b: Hex| #[trigger] adjacent(h, b) ==> neighbors_of(h).contains(b),
        neighbors_of(h).len() == 6,
{
    assert forall|b: Hex| #[trigger] adjacent(h, b) implies neighbors_of(h).contains(b) by {
        let n = neighbors_of(h);
        if b.x - h.x == 1 && b.y - h.y == 0 {
            assert(n[0] == b);
        } else if b.x - h.x == 0 && b.y - h.y == 1 {
            assert(n[1] == b);
        } else if b.x - h.x == -1 && b.y - h.y == 1 {
            assert(n[2] == b);
        } else if b.x - h.x == -1 && b.y - h.y == 0 {
            assert(n[3] == b);
        } else if b.x - h.x == 0 && b.y - h.y == -1 {
            assert(n[4] == b);
        } else {
            assert(n[5] == b);
        }
    }
}

/// Calls `hexx::Hex::all_neighbors`, which adds hexx's six edge-direction
/// offsets `NEIGHBORS_COORDS` = (1,0), (0,1), (-1,1), (-1,0), (0,-1), (1,-1),
/// in that order, to the hex. The addition overflows (and panics) unless both
/// coordinates are strictly inside the `i32` range.
#[verifier::external_body]
pub(crate) fn all_neighbors(h: Hex) -> (r: [Hex; 6])
    requires
        coords_ok(h),
    ensures
        r@ == neighbors_of(h),
{
    hexx::Hex::new(h.x, h.y).all_neighbors().map(|n| Hex { x: n.x, y: n.y })
}

/// Calls `hexx::shapes::hexagon`, which yields `center + (x, y)` once for
/// every offset with `|x|, |y|, |x + y| <= radius`, that is every hex at
/// distance at most `radius` from `center`, each exactly once. The additions
/// must stay inside the `i32` range. Before iterating, hexx counts the tiles
/// as `3 * radius * (radius + 1) + 1` in `u32`, which overflows (and panics)
/// for large radii, so the radius is bounded well below that point.
#[verifier::external_body]
pub(crate) fn hexagon(center: Hex, radius: u32) -> (r: Vec<Hex>)
    requires
        radius <= 1000,
        i32::MIN <= center.x - radius,
        center.x + radius <= i32::MAX,
        i32::MIN <= center.y - radius,
        center.y + radius <= i32::MAX,
    ensures
        r@.no_duplicates(),
        forall|h: Hex| r@.contains(h) <==> hex_distance(center, h) <= radius,
{
    hexx::shapes::hexagon(hexx::Hex::new(center.x, center.y), radius).map(
        |n| Hex { x: n.x, y: n.y },
    ).collect()
}

} // verus!
