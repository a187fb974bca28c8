use vstd::prelude::*;

use crate::entity::axis::Axis;
use crate::entity::item::Item;
use crate::entity::rotation::Rotation;
use crate::entity::vector3::Vector3;

verus! {

// What the packer may learn about lengths: the functions it is given, what
// a call of one may have answered, and the order of the rotations it tries.

/// The order in which the packer tries the rotations of an item.
pub open spec fn rotation_order() -> Seq<Rotation> {
    seq![Rotation::LWH, Rotation::WHL, Rotation::WLH, Rotation::HLW, Rotation::HWL, Rotation::LHW]
}

/// The packer tries every rotation, each once.
pub proof fn lemma_rotation_order_complete(r: Rotation)
    ensures
        rotation_order().contains(r),
        rotation_order().len() == 6,
        forall|i: int, j: int| 0 <= i < j < 6 ==> rotation_order()[i] != rotation_order()[j],
{
    let s = rotation_order();
    match r {
        Rotation::LWH => assert(s[0] == r),
        Rotation::WHL => assert(s[1] == r),
        Rotation::WLH => assert(s[2] == r),
        Rotation::HLW => assert(s[3] == r),
        Rotation::HWL => assert(s[4] == r),
        Rotation::LHW => assert(s[5] == r),
    }
}

// The geometry of the packer is given by four functions on lengths:
//   smaller(a, b)             a box of size `a` has less volume than one of size `b`;
//   exceeds(dim, corner, d)   a box of size `d` with its corner at `corner`
//                             reaches outside a container of inner size `dim`;
//   collides(a, b)            the boxes of two placed items overlap;
//   pivot(axis, pos, d)       the corner next to a box at `pos` of size `d`,
//                             one box side further along `axis`.
// The predicates below say that such a function may be called on any
// arguments, and what a call of it may have answered.

pub open spec fn smaller_total<T, L>(smaller: L) -> bool
    where L: Fn(&Vector3<T>, &Vector3<T>) -> bool,
{
    forall|a: Vector3<T>, b: Vector3<T>| call_requires(smaller, (&a, &b))
}

pub open spec fn exceeds_total<T, E>(exceeds: E) -> bool
    where E: Fn(&Vector3<T>, &Vector3<T>, &Vector3<T>) -> bool,
{
    forall|a: Vector3<T>, b: Vector3<T>, c: Vector3<T>| call_requires(exceeds, (&a, &b, &c))
}

pub open spec fn collides_total<T, C>(collides: C) -> bool
    where C: Fn(&Item<T>, &Item<T>) -> bool,
{
    forall|a: Item<T>, b: Item<T>| call_requires(collides, (&a, &b))
}

pub open spec fn pivot_total<T, P>(pivot: P) -> bool
    where P: Fn(&Axis, &Vector3<T>, &Vector3<T>) -> Vector3<T>,
{
    forall|a: Axis, b: Vector3<T>, c: Vector3<T>| call_requires(pivot, (&a, &b, &c))
}

/// `exceeds` may answer `out` for `item`, as it lies, in a container of
/// inner size `dim`.
pub open spec fn reported_outside<T, E>(exceeds: E, dim: Vector3<T>, item: Item<T>, out: bool) -> bool
    where E: Fn(&Vector3<T>, &Vector3<T>, &Vector3<T>) -> bool,
{
    call_ensures(exceeds, (&dim, &item.pos, &item.rotated_dims()), out)
}

/// `collides` may answer `hit` for the items `a` and `b`.
pub open spec fn reported_collision<T, C>(collides: C, a: Item<T>, b: Item<T>, hit: bool) -> bool
    where C: Fn(&Item<T>, &Item<T>) -> bool,
{
    call_ensures(collides, (&a, &b), hit)
}

/// `item`, as it lies, was found inside a container of inner size `dim` and
/// clear of each of `others`.
pub open spec fn fits<T, E, C>(exceeds: E, collides: C, dim: Vector3<T>, others: Seq<Item<T>>, item: Item<T>) -> bool
    where
        E: Fn(&Vector3<T>, &Vector3<T>, &Vector3<T>) -> bool,
        C: Fn(&Item<T>, &Item<T>) -> bool,
{
    &&& reported_outside(exceeds, dim, item, false)
    &&& forall|m: int| 0 <= m < others.len() ==> reported_collision(collides, item, #[trigger] others[m], false)
}

/// Each of the first `k` rotations in `rotation_order()` of `item`, its
/// corner at `pivot`, was reported to reach outside a container of inner
/// size `dim`.
pub open spec fn first_rotations_out<T, E>(exceeds: E, dim: Vector3<T>, item: Item<T>, pivot: Vector3<T>, k: int) -> bool
    where E: Fn(&Vector3<T>, &Vector3<T>, &Vector3<T>) -> bool,
{
    forall|j: int| 0 <= j < k ==> reported_outside(exceeds, dim, item.placed(pivot, #[trigger] rotation_order()[j]), true)
}

/// Every rotation of `item`, its corner at the origin, was reported to reach
/// outside a container of inner size `dim`.
pub open spec fn fits_nowhere<T: Default, E>(exceeds: E, dim: Vector3<T>, item: Item<T>) -> bool
    where E: Fn(&Vector3<T>, &Vector3<T>, &Vector3<T>) -> bool,
{
    exists|o: Vector3<T>| o.is_origin() && #[trigger] first_rotations_out(exceeds, dim, item, o, 6)
}

/// Whether an item fits nowhere depends only on its sides.
pub proof fn lemma_fits_nowhere_sides<T: Default, E>(exceeds: E, dim: Vector3<T>, a: Item<T>, b: Item<T>)
    where E: Fn(&Vector3<T>, &Vector3<T>, &Vector3<T>) -> bool,
    requires
        fits_nowhere(exceeds, dim, a),
        a.id == b.id,
        a.dim == b.dim,
    ensures
        fits_nowhere(exceeds, dim, b),
{
    let o = choose|o: Vector3<T>| o.is_origin() && #[trigger] first_rotations_out(exceeds, dim, a, o, 6);
    assert forall|j: int| 0 <= j < 6 implies reported_outside(exceeds, dim,
        b.placed(o, #[trigger] rotation_order()[j]), true) by {
        assert(a.placed(o, rotation_order()[j]) == b.placed(o, rotation_order()[j]));
    }
    assert(first_rotations_out(exceeds, dim, b, o, 6));
}

/// At corner `p`, `item` was refused by a container of inner size `dim`
/// holding `items`: the first rotations in `rotation_order()` were reported
/// to reach outside, and either all six were, or the first one inside was
/// reported to collide with one of `items`.
pub open spec fn refused_at<T, E, C>(
    exceeds: E,
    collides: C,
    dim: Vector3<T>,
    items: Seq<Item<T>>,
    item: Item<T>,
    p: Vector3<T>,
) -> bool
    where
        E: Fn(&Vector3<T>, &Vector3<T>, &Vector3<T>) -> bool,
        C: Fn(&Item<T>, &Item<T>) -> bool,
{
    exists|k: int| 0 <= k <= 6 && #[trigger] first_rotations_out(exceeds, dim, item, p, k)
        && (k < 6 ==> exists|m: int| 0 <= m < items.len() && reported_collision(
            collides, item.placed(p, rotation_order()[k]), #[trigger] items[m], true))
}

/// The corner that `pivot` gave next to `items[m]` along `axis` refused
/// `item` (see `refused_at`).
pub open spec fn refused_next_to<T, E, C, P>(
    exceeds: E,
    collides: C,
    pivot: P,
    dim: Vector3<T>,
    items: Seq<Item<T>>,
    item: Item<T>,
    m: int,
    axis: Axis,
) -> bool
    where
        E: Fn(&Vector3<T>, &Vector3<T>, &Vector3<T>) -> bool,
        C: Fn(&Item<T>, &Item<T>) -> bool,
        P: Fn(&Axis, &Vector3<T>, &Vector3<T>) -> Vector3<T>,
{
    exists|p: Vector3<T>| call_ensures(pivot, (&axis, &items[m].pos, &items[m].rotated_dims()), p)
        && #[trigger] refused_at(exceeds, collides, dim, items, item, p)
}

/// A container of inner size `dim` holding `items` did not take `item`:
/// if empty, the item was refused at the origin; else it was refused at
/// the corner next to each item along each axis.
pub open spec fn rejects<T: Default, E, C, P>(
    exceeds: E,
    collides: C,
    pivot: P,
    dim: Vector3<T>,
    items: Seq<Item<T>>,
    item: Item<T>,
) -> bool
    where
        E: Fn(&Vector3<T>, &Vector3<T>, &Vector3<T>) -> bool,
        C: Fn(&Item<T>, &Item<T>) -> bool,
        P: Fn(&Axis, &Vector3<T>, &Vector3<T>) -> Vector3<T>,
{
    if items.len() == 0 {
        exists|o: Vector3<T>| o.is_origin() && #[trigger] refused_at(exceeds, collides, dim, items, item, o)
    } else {
        forall|m: int, axis: Axis| 0 <= m < items.len()
            ==> #[trigger] refused_next_to(exceeds, collides, pivot, dim, items, item, m, axis)
    }
}

/// Whether an item is refused depends only on its name and sides.
pub proof fn lemma_refused_sides<T, E, C>(
    exceeds: E,
    collides: C,
    dim: Vector3<T>,
    items: Seq<Item<T>>,
    a: Item<T>,
    b: Item<T>,
    p: Vector3<T>,
)
    where
        E: Fn(&Vector3<T>, &Vector3<T>, &Vector3<T>) -> bool,
        C: Fn(&Item<T>, &Item<T>) -> bool,
    requires
        refused_at(exceeds, collides, dim, items, a, p),
        a.id == b.id,
        a.dim == b.dim,
    ensures
        refused_at(exceeds, collides, dim, items, b, p),
{
    assert forall|r: Rotation| a.placed(p, r) == b.placed(p, r) by {}
    let k = choose|k: int| 0 <= k <= 6 && #[trigger] first_rotations_out(exceeds, dim, a, p, k)
        && (k < 6 ==> exists|m: int| 0 <= m < items.len() && reported_collision(
            collides, a.placed(p, rotation_order()[k]), #[trigger] items[m], true));
    assert forall|j: int| 0 <= j < k implies reported_outside(exceeds, dim,
        b.placed(p, #[trigger] rotation_order()[j]), true) by {
        assert(a.placed(p, rotation_order()[j]) == b.placed(p, rotation_order()[j]));
    }
    assert(first_rotations_out(exceeds, dim, b, p, k));
    if k < 6 {
        assert(a.placed(p, rotation_order()[k]) == b.placed(p, rotation_order()[k]));
    }
}

/// Whether an item is rejected depends only on its name and sides.
pub proof fn lemma_rejects_sides<T: Default, E, C, P>(
    exceeds: E,
    collides: C,
    pivot: P,
    dim: Vector3<T>,
    items: Seq<Item<T>>,
    a: Item<T>,
    b: Item<T>,
)
    where
        E: Fn(&Vector3<T>, &Vector3<T>, &Vector3<T>) -> bool,
        C: Fn(&Item<T>, &Item<T>) -> bool,
        P: Fn(&Axis, &Vector3<T>, &Vector3<T>) -> Vector3<T>,
    requires
        rejects(exceeds, collides, pivot, dim, items, a),
        a.id == b.id,
        a.dim == b.dim,
    ensures
        rejects(exceeds, collides, pivot, dim, items, b),
{
    if items.len() == 0 {
        let o = choose|o: Vector3<T>| o.is_origin() && #[trigger] refused_at(exceeds, collides, dim, items, a, o);
        lemma_refused_sides(exceeds, collides, dim, items, a, b, o);
    } else {
        assert forall|m: int, axis: Axis| 0 <= m < items.len()
            implies #[trigger] refused_next_to(exceeds, collides, pivot, dim, items, b, m, axis) by {
            assert(refused_next_to(exceeds, collides, pivot, dim, items, a, m, axis));
            let p = choose|p: Vector3<T>| call_ensures(pivot, (&axis, &items[m].pos, &items[m].rotated_dims()), p)
                && #[trigger] refused_at(exceeds, collides, dim, items, a, p);
            lemma_refused_sides(exceeds, collides, dim, items, a, b, p);
        }
    }
}

/// The axes in the order in which the packer tries them.
pub open spec fn axis_of(i: int) -> Axis {
    if i == 0 { Axis::X } else if i == 1 { Axis::Y } else { Axis::Z }
}

/// `item` lies at the corner next to `items[x]` along axis number `a`, and
/// every corner tried before it refused the item: those next to every item
/// along the earlier axes, and those next to the items before `items[x]`
/// along the same axis.
pub open spec fn first_corner<T, E, C, P>(
    exceeds: E,
    collides: C,
    pivot: P,
    dim: Vector3<T>,
    items: Seq<Item<T>>,
    item: Item<T>,
    a: int,
    x: int,
) -> bool
    where
        E: Fn(&Vector3<T>, &Vector3<T>, &Vector3<T>) -> bool,
        C: Fn(&Item<T>, &Item<T>) -> bool,
        P: Fn(&Axis, &Vector3<T>, &Vector3<T>) -> Vector3<T>,
{
    &&& 0 <= a < 3
    &&& 0 <= x < items.len()
    &&& call_ensures(pivot, (&axis_of(a), &items[x].pos, &items[x].rotated_dims()), item.pos)
    &&& forall|ai: int, m: int| 0 <= ai < a && 0 <= m < items.len()
        ==> #[trigger] refused_next_to(exceeds, collides, pivot, dim, items, item, m, axis_of(ai))
    &&& forall|m: int| 0 <= m < x ==> #[trigger] refused_next_to(exceeds, collides, pivot, dim, items, item, m, axis_of(a))
}

/// `item` lies where the packer puts it in a container of inner size `dim`
/// holding `items`: in the first rotation of `rotation_order()` that was
/// not reported to reach outside there; at the origin if the container was
/// empty, and else at the first corner that did not refuse it, trying the
/// corners next to the items in order, along X, then Y, then Z.
pub open spec fn placed_first<T: Default, E, C, P>(
    exceeds: E,
    collides: C,
    pivot: P,
    dim: Vector3<T>,
    items: Seq<Item<T>>,
    item: Item<T>,
) -> bool
    where
        E: Fn(&Vector3<T>, &Vector3<T>, &Vector3<T>) -> bool,
        C: Fn(&Item<T>, &Item<T>) -> bool,
        P: Fn(&Axis, &Vector3<T>, &Vector3<T>) -> Vector3<T>,
{
    &&& exists|k: int| 0 <= k < 6 && rotation_order()[k] == item.rot
        && #[trigger] first_rotations_out(exceeds, dim, item, item.pos, k)
    &&& items.len() == 0 ==> item.pos.is_origin()
    &&& items.len() > 0 ==> exists|a: int, x: int| #[trigger] first_corner(exceeds, collides, pivot, dim, items,
        item, a, x)
}

/// Whether the first rotations reach outside depends only on the item's
/// name and sides.
pub proof fn lemma_first_rotations_sides<T, E>(exceeds: E, dim: Vector3<T>, a: Item<T>, b: Item<T>, p: Vector3<T>, k: int)
    where E: Fn(&Vector3<T>, &Vector3<T>, &Vector3<T>) -> bool,
    requires
        first_rotations_out(exceeds, dim, a, p, k),
        a.id == b.id,
        a.dim == b.dim,
    ensures
        first_rotations_out(exceeds, dim, b, p, k),
{
    assert forall|j: int| 0 <= j < k implies reported_outside(exceeds, dim,
        b.placed(p, #[trigger] rotation_order()[j]), true) by {
        assert(a.placed(p, rotation_order()[j]) == b.placed(p, rotation_order()[j]));
    }
}

/// Whether a corner next to an item refuses an item depends only on its
/// name and sides.
pub proof fn lemma_refused_next_to_sides<T, E, C, P>(
    exceeds: E,
    collides: C,
    pivot: P,
    dim: Vector3<T>,
    items: Seq<Item<T>>,
    a: Item<T>,
    b: Item<T>,
    m: int,
    axis: Axis,
)
    where
        E: Fn(&Vector3<T>, &Vector3<T>, &Vector3<T>) -> bool,
        C: Fn(&Item<T>, &Item<T>) -> bool,
        P: Fn(&Axis, &Vector3<T>, &Vector3<T>) -> Vector3<T>,
    requires
        refused_next_to(exceeds, collides, pivot, dim, items, a, m, axis),
        a.id == b.id,
        a.dim == b.dim,
    ensures
        refused_next_to(exceeds, collides, pivot, dim, items, b, m, axis),
{
    let p = choose|p: Vector3<T>| call_ensures(pivot, (&axis, &items[m].pos, &items[m].rotated_dims()), p)
        && #[trigger] refused_at(exceeds, collides, dim, items, a, p);
    lemma_refused_sides(exceeds, collides, dim, items, a, b, p);
}

/// Rotations are tried in the order LWH, WHL, WLH, HLW, HWL, LHW.
pub proof fn lemma_rotation_order_values()
    ensures
        rotation_order().len() == 6,
        rotation_order()[0] == Rotation::LWH,
        rotation_order()[1] == Rotation::WHL,
        rotation_order()[2] == Rotation::WLH,
        rotation_order()[3] == Rotation::HLW,
        rotation_order()[4] == Rotation::HWL,
        rotation_order()[5] == Rotation::LHW,
{
}

/// Corners are tried along X, then Y, then Z.
pub proof fn lemma_axis_order_values()
    ensures
        axis_of(0) == Axis::X,
        axis_of(1) == Axis::Y,
        axis_of(2) == Axis::Z,
{
}

/// A placed item lies in the first of LWH, WHL, WLH, HLW, HWL, LHW that was
/// not reported to reach outside at its position: every rotation before
/// its own in that list was reported to reach outside there.
pub proof fn lemma_placed_rotation_first<T: Default, E, C, P>(
    exceeds: E,
    collides: C,
    pivot: P,
    dim: Vector3<T>,
    items: Seq<Item<T>>,
    item: Item<T>,
)
    where
        E: Fn(&Vector3<T>, &Vector3<T>, &Vector3<T>) -> bool,
        C: Fn(&Item<T>, &Item<T>) -> bool,
        P: Fn(&Axis, &Vector3<T>, &Vector3<T>) -> Vector3<T>,
    requires
        placed_first(exceeds, collides, pivot, dim, items, item),
    ensures
        item.rot != Rotation::LWH ==> reported_outside(exceeds, dim, item.placed(item.pos, Rotation::LWH), true),
        item.rot != Rotation::LWH && item.rot != Rotation::WHL
            ==> reported_outside(exceeds, dim, item.placed(item.pos, Rotation::WHL), true),
        item.rot == Rotation::HLW || item.rot == Rotation::HWL || item.rot == Rotation::LHW
            ==> reported_outside(exceeds, dim, item.placed(item.pos, Rotation::WLH), true),
        item.rot == Rotation::HWL || item.rot == Rotation::LHW
            ==> reported_outside(exceeds, dim, item.placed(item.pos, Rotation::HLW), true),
        item.rot == Rotation::LHW ==> reported_outside(exceeds, dim, item.placed(item.pos, Rotation::HWL), true),
{
    let k = choose|k: int| 0 <= k < 6 && rotation_order()[k] == item.rot
        && #[trigger] first_rotations_out(exceeds, dim, item, item.pos, k);
    let s = rotation_order();
    assert(s[0] == Rotation::LWH);
    assert(s[1] == Rotation::WHL);
    assert(s[2] == Rotation::WLH);
    assert(s[3] == Rotation::HLW);
    assert(s[4] == Rotation::HWL);
    assert(s[5] == Rotation::LHW);
    if k > 0 {
        assert(reported_outside(exceeds, dim, item.placed(item.pos, s[0]), true));
    }
    if k > 1 {
        assert(reported_outside(exceeds, dim, item.placed(item.pos, s[1]), true));
    }
    if k > 2 {
        assert(reported_outside(exceeds, dim, item.placed(item.pos, s[2]), true));
    }
    if k > 3 {
        assert(reported_outside(exceeds, dim, item.placed(item.pos, s[3]), true));
    }
    if k > 4 {
        assert(reported_outside(exceeds, dim, item.placed(item.pos, s[4]), true));
    }
}

/// A placed item in a container that held items lies at a corner next to
/// one of them along X, Y or Z, and the corners are tried along X first,
/// then Y, then Z: one lying at a corner along Y was refused at the corner
/// along X next to every item, and one along Z at every corner along X and
/// along Y.
pub proof fn lemma_placed_corner_axes<T: Default, E, C, P>(
    exceeds: E,
    collides: C,
    pivot: P,
    dim: Vector3<T>,
    items: Seq<Item<T>>,
    item: Item<T>,
)
    where
        E: Fn(&Vector3<T>, &Vector3<T>, &Vector3<T>) -> bool,
        C: Fn(&Item<T>, &Item<T>) -> bool,
        P: Fn(&Axis, &Vector3<T>, &Vector3<T>) -> Vector3<T>,
    requires
        placed_first(exceeds, collides, pivot, dim, items, item),
        items.len() > 0,
    ensures
        exists|x: int| 0 <= x < items.len() && {
            ||| call_ensures(pivot, (&Axis::X, &(#[trigger] items[x]).pos, &items[x].rotated_dims()), item.pos)
            ||| call_ensures(pivot, (&Axis::Y, &items[x].pos, &items[x].rotated_dims()), item.pos)
                && forall|m: int| 0 <= m < items.len()
                    ==> #[trigger] refused_next_to(exceeds, collides, pivot, dim, items, item, m, Axis::X)
            ||| call_ensures(pivot, (&Axis::Z, &items[x].pos, &items[x].rotated_dims()), item.pos)
                && forall|m: int| 0 <= m < items.len()
                    ==> #[trigger] refused_next_to(exceeds, collides, pivot, dim, items, item, m, Axis::X)
                && forall|m: int| 0 <= m < items.len()
                    ==> #[trigger] refused_next_to(exceeds, collides, pivot, dim, items, item, m, Axis::Y)
        },
{
    let (a, x) = choose|a: int, x: int| #[trigger] first_corner(exceeds, collides, pivot, dim, items, item, a, x);
    assert(axis_of(0) == Axis::X);
    assert(axis_of(1) == Axis::Y);
    assert(axis_of(2) == Axis::Z);
    assert forall|m: int| 0 <= m < items.len() && a > 0
        implies #[trigger] refused_next_to(exceeds, collides, pivot, dim, items, item, m, Axis::X) by {
        assert(refused_next_to(exceeds, collides, pivot, dim, items, item, m, axis_of(0)));
    }
    assert forall|m: int| 0 <= m < items.len() && a > 1
        implies #[trigger] refused_next_to(exceeds, collides, pivot, dim, items, item, m, Axis::Y) by {
        assert(refused_next_to(exceeds, collides, pivot, dim, items, item, m, axis_of(1)));
    }
    assert(0 <= x < items.len());
}

} // verus!
