use vstd::prelude::*;

use crate::entity::axis::Axis;
use crate::entity::container::{Container, ContainerSpec};
use crate::entity::item::{Item, ItemSpec};
use crate::entity::rotation::Rotation;
use crate::entity::vector3::Vector3;
use crate::entity::measure::{
    axis_of, first_corner, placed_first, lemma_first_rotations_sides, lemma_refused_next_to_sides,
    collides_total, exceeds_total, first_rotations_out, fits, fits_nowhere, lemma_fits_nowhere_sides,
    pivot_total, refused_at, refused_next_to, rejects, lemma_refused_sides, lemma_rejects_sides, reported_collision, reported_outside, rotation_order, smaller_total,
};
use crate::entity::sort::{sort_by_size, sorted_by_size, stably_rearranged};
use crate::entity::trace::{
    contents_of, copies_of, greedy_trace, lemma_count_to_multiset, lemma_step_left, lemma_step_opened,
    lemma_step_placed, left_at, step_ready,
};

verus! {

/// A packing request: the kinds of items and of containers, with their
/// quantities.
pub struct Algo<T> {
    pub items: Vec<ItemSpec<T>>,
    pub containers: Vec<ContainerSpec<T>>,
}

/// The outcome of a packing: the containers opened, with what they hold,
/// and the items that found no place.
#[derive(Debug)]
pub struct AlgoResult<T> {
    pub unpacked_items: Vec<Item<T>>,
    pub containers: Vec<Container<T>>,
}

fn rotation_at(i: usize) -> (r: Rotation)
    requires
        i < 6,
    ensures
        r == rotation_order()[i as int],
{
    match i {
        0 => Rotation::LWH,
        1 => Rotation::WHL,
        2 => Rotation::WLH,
        3 => Rotation::HLW,
        4 => Rotation::HWL,
        _ => Rotation::LHW,
    }
}

/// Tries to put `item`, its corner at `pivot`, into `c`: the rotations are
/// tried in `rotation_order()`, the first one that keeps the item inside
/// the container is taken, and the item is placed if it collides with none
/// of the items already in `c`.
fn pack_to_box<T: Copy + Default, E, C>(
    item: &mut Item<T>,
    c: &mut Container<T>,
    pivot: Vector3<T>,
    exceeds: &E,
    collides: &C,
) -> (packed: bool)
    where
        E: Fn(&Vector3<T>, &Vector3<T>, &Vector3<T>) -> bool,
        C: Fn(&Item<T>, &Item<T>) -> bool,
    requires
        exceeds_total(*exceeds),
        collides_total(*collides),
    ensures
        final(item).id == old(item).id,
        final(item).dim == old(item).dim,
        final(c).id == old(c).id,
        final(c).dim == old(c).dim,
        packed ==> {
            &&& final(item).pos == pivot
            &&& fits(*exceeds, *collides, old(c).dim, old(c).items@, *final(item))
            &&& final(c).items@ == old(c).items@.push(*final(item))
            &&& exists|k: int| 0 <= k < 6 && rotation_order()[k] == final(item).rot
                && #[trigger] first_rotations_out(*exceeds, old(c).dim, *old(item), pivot, k)
        },
        !packed ==> {
            &&& final(item).pos.is_origin()
            &&& final(c).items@ == old(c).items@
            &&& exists|k: int| 0 <= k <= 6
                && #[trigger] first_rotations_out(*exceeds, old(c).dim, *old(item), pivot, k)
                && (k < 6 ==> exists|m: int| 0 <= m < old(c).items.len() && reported_collision(
                    *collides, old(item).placed(pivot, rotation_order()[k]), #[trigger] old(c).items@[m], true))
        },
{
    item.pos = pivot;
    let mut is_packed = false;
    let mut i: usize = 0;
    while i < 6
        invariant_except_break
            i <= 6,
            !is_packed,
            item.id == old(item).id,
            item.dim == old(item).dim,
            item.pos == pivot,
            *c == *old(c),
            first_rotations_out(*exceeds, c.dim, *old(item), pivot, i as int),
        invariant
            exceeds_total(*exceeds),
            collides_total(*collides),
        ensures
            item.id == old(item).id,
            item.dim == old(item).dim,
            item.pos == pivot,
            c.id == old(c).id,
            c.dim == old(c).dim,
            is_packed ==> {
                &&& fits(*exceeds, *collides, old(c).dim, old(c).items@, *item)
                &&& c.items@ == old(c).items@.push(*item)
                &&& exists|k: int| 0 <= k < 6 && rotation_order()[k] == item.rot
                    && #[trigger] first_rotations_out(*exceeds, old(c).dim, *old(item), pivot, k)
            },
            !is_packed ==> {
                &&& *c == *old(c)
                &&& exists|k: int| 0 <= k <= 6
                    && #[trigger] first_rotations_out(*exceeds, old(c).dim, *old(item), pivot, k)
                    && (k < 6 ==> exists|m: int| 0 <= m < old(c).items.len() && reported_collision(
                        *collides, old(item).placed(pivot, rotation_order()[k]), #[trigger] old(c).items@[m], true))
            },
        decreases 6 - i,
    {
        item.rot = rotation_at(i);
        let idims = item.dimensions();
        if exceeds(&c.dim, &pivot, &idims) {
            i = i + 1;
            continue;
        }
        is_packed = true;
        let mut j: usize = 0;
        while j < c.items.len()
            invariant_except_break
                is_packed,
                forall|m: int| 0 <= m < j ==> reported_collision(*collides, *item, #[trigger] c.items@[m], false),
            invariant
                j <= c.items.len(),
                collides_total(*collides),
            ensures
                is_packed ==> forall|m: int| 0 <= m < c.items.len() ==> reported_collision(*collides, *item, #[trigger] c.items@[m], false),
                !is_packed ==> exists|m: int| 0 <= m < c.items.len() && reported_collision(*collides, *item, #[trigger] c.items@[m], true),
            decreases c.items.len() - j,
        {
            if collides(&*item, &c.items[j]) {
                is_packed = false;
                break;
            }
            j = j + 1;
        }
        assert(*item == old(item).placed(pivot, rotation_order()[i as int]));
        if is_packed {
            c.items.push(item.clone());
        }
        break;
    }
    if !is_packed {
        item.pos = Vector3::default();
    }
    is_packed
}

fn axis_at(i: usize) -> (a: Axis)
    requires
        i < 3,
    ensures
        a == axis_of(i as int),
{
    match i {
        0 => Axis::X,
        1 => Axis::Y,
        _ => Axis::Z,
    }
}

/// No item of `unpacked` fits at the origin of an empty container of any
/// kind of `kinds` that has one left.
pub open spec fn left_out_rightly<T: Default, E>(exceeds: E, kinds: Seq<ContainerSpec<T>>, unpacked: Seq<Item<T>>) -> bool
    where E: Fn(&Vector3<T>, &Vector3<T>, &Vector3<T>) -> bool,
{
    forall|u: int, r: int| 0 <= u < unpacked.len() && 0 <= r < kinds.len() && kinds[r].qty > 0
        && kinds[r].spec.items.len() == 0
        ==> fits_nowhere(exceeds, #[trigger] kinds[r].spec.dim, #[trigger] unpacked[u])
}

/// Tries to put `item` into `c`: at the origin if `c` is empty, and else
/// at the corners next to the items already in `c`, along X, then Y, then
/// Z, item by item; the first corner where `pack_to_box` succeeds is taken.
fn pack_item<T: Copy + Default, E, C, P>(
    item: &mut Item<T>,
    c: &mut Container<T>,
    exceeds: &E,
    collides: &C,
    pivot: &P,
) -> (packed: bool)
    where
        E: Fn(&Vector3<T>, &Vector3<T>, &Vector3<T>) -> bool,
        C: Fn(&Item<T>, &Item<T>) -> bool,
        P: Fn(&Axis, &Vector3<T>, &Vector3<T>) -> Vector3<T>,
    requires
        exceeds_total(*exceeds),
        collides_total(*collides),
        pivot_total(*pivot),
    ensures
        final(item).id == old(item).id,
        final(item).dim == old(item).dim,
        final(c).id == old(c).id,
        final(c).dim == old(c).dim,
        packed ==> {
            &&& fits(*exceeds, *collides, old(c).dim, old(c).items@, *final(item))
            &&& final(c).items@ == old(c).items@.push(*final(item))
            &&& placed_first(*exceeds, *collides, *pivot, old(c).dim, old(c).items@, *final(item))
        },
        !packed ==> {
            &&& final(item).pos.is_origin()
            &&& final(c).items@ == old(c).items@
            &&& old(c).items.len() == 0 ==> fits_nowhere(*exceeds, old(c).dim, *old(item))
            &&& rejects(*exceeds, *collides, *pivot, old(c).dim, old(c).items@, *old(item))
        },
{
    if c.items.len() < 1 {
        let origin = Vector3::default();
        let packed = pack_to_box(item, c, origin, exceeds, collides);
        proof {
            if packed {
                let k = choose|k: int| 0 <= k < 6 && rotation_order()[k] == item.rot
                    && #[trigger] first_rotations_out(*exceeds, old(c).dim, *old(item), origin, k);
                lemma_first_rotations_sides(*exceeds, old(c).dim, *old(item), *item, origin, k);
                assert(item.pos == origin);
            }
            if !packed {
                let k = choose|k: int| 0 <= k <= 6
                    && #[trigger] first_rotations_out(*exceeds, old(c).dim, *old(item), origin, k)
                    && (k < 6 ==> exists|m: int| 0 <= m < old(c).items.len() && reported_collision(
                        *collides, old(item).placed(origin, rotation_order()[k]), #[trigger] old(c).items@[m], true));
                assert(k == 6);
                assert(first_rotations_out(*exceeds, old(c).dim, *old(item), origin, 6));
                assert(refused_at(*exceeds, *collides, old(c).dim, old(c).items@, *old(item), origin));
            }
        }
        return packed;
    }
    let n: usize = c.items.len();
    let mut a: usize = 0;
    while a < 3
        invariant
            0 < n == c.items.len(),
            a <= 3,
            exceeds_total(*exceeds),
            collides_total(*collides),
            pivot_total(*pivot),
            item.id == old(item).id,
            item.dim == old(item).dim,
            c.id == old(c).id,
            c.dim == old(c).dim,
            c.items@ == old(c).items@,
            a > 0 ==> item.pos.is_origin(),
            forall|ai: int, m: int| 0 <= ai < a && 0 <= m < n ==> #[trigger] refused_next_to(*exceeds, *collides,
                *pivot, old(c).dim, old(c).items@, *old(item), m, axis_of(ai)),
        decreases 3 - a,
    {
        let axis = axis_at(a);
        let mut x: usize = 0;
        while x < n
            invariant
                0 < n == c.items.len(),
                x <= n,
                a < 3,
                exceeds_total(*exceeds),
                collides_total(*collides),
                pivot_total(*pivot),
                item.id == old(item).id,
                item.dim == old(item).dim,
                c.id == old(c).id,
                c.dim == old(c).dim,
                c.items@ == old(c).items@,
                a > 0 || x > 0 ==> item.pos.is_origin(),
                axis == axis_of(a as int),
                forall|ai: int, m: int| 0 <= ai < a && 0 <= m < n ==> #[trigger] refused_next_to(*exceeds, *collides,
                    *pivot, old(c).dim, old(c).items@, *old(item), m, axis_of(ai)),
                forall|m: int| 0 <= m < x ==> #[trigger] refused_next_to(*exceeds, *collides,
                    *pivot, old(c).dim, old(c).items@, *old(item), m, axis),
            decreases n - x,
        {
            let dims = c.items[x].dimensions();
            let corner = pivot(&axis, &c.items[x].pos, &dims);
            assert(call_ensures(*pivot, (&axis_of(a as int), &old(c).items@[x as int].pos,
                &old(c).items@[x as int].rotated_dims()), corner));
            let ghost tried = *item;
            if pack_to_box(item, c, corner, exceeds, collides) {
                proof {
                    let k = choose|k: int| 0 <= k < 6 && rotation_order()[k] == item.rot
                        && #[trigger] first_rotations_out(*exceeds, old(c).dim, tried, corner, k);
                    lemma_first_rotations_sides(*exceeds, old(c).dim, tried, *item, corner, k);
                    assert(item.pos == corner);
                    assert forall|ai: int, m: int| 0 <= ai < a && 0 <= m < old(c).items.len()
                        implies #[trigger] refused_next_to(*exceeds, *collides, *pivot, old(c).dim, old(c).items@,
                        *item, m, axis_of(ai)) by {
                        lemma_refused_next_to_sides(*exceeds, *collides, *pivot, old(c).dim, old(c).items@,
                            *old(item), *item, m, axis_of(ai));
                    }
                    assert forall|m: int| 0 <= m < x implies #[trigger] refused_next_to(*exceeds, *collides, *pivot,
                        old(c).dim, old(c).items@, *item, m, axis_of(a as int)) by {
                        lemma_refused_next_to_sides(*exceeds, *collides, *pivot, old(c).dim, old(c).items@,
                            *old(item), *item, m, axis);
                    }
                    assert(first_corner(*exceeds, *collides, *pivot, old(c).dim, old(c).items@, *item, a as int,
                        x as int));
                }
                return true;
            }
            proof {
                assert(refused_at(*exceeds, *collides, old(c).dim, old(c).items@, tried, corner));
                lemma_refused_sides(*exceeds, *collides, old(c).dim, old(c).items@, tried, *old(item), corner);
                assert(refused_next_to(*exceeds, *collides, *pivot, old(c).dim, old(c).items@, *old(item), x as int, axis));
            }
            x = x + 1;
        }
        a = a + 1;
    }
    proof {
        assert forall|m: int, ax: Axis| 0 <= m < old(c).items.len() implies #[trigger] refused_next_to(*exceeds,
            *collides, *pivot, old(c).dim, old(c).items@, *old(item), m, ax) by {
            match ax {
                Axis::X => assert(refused_next_to(*exceeds, *collides, *pivot, old(c).dim, old(c).items@, *old(item), m, axis_of(0))),
                Axis::Y => assert(refused_next_to(*exceeds, *collides, *pivot, old(c).dim, old(c).items@, *old(item), m, axis_of(1))),
                Axis::Z => assert(refused_next_to(*exceeds, *collides, *pivot, old(c).dim, old(c).items@, *old(item), m, axis_of(2))),
            }
        }
    }
    false
}

/// `a` and `b` have the same name, size and items.
pub open spec fn same_container<T>(a: Container<T>, b: Container<T>) -> bool {
    &&& a.id == b.id
    &&& a.dim == b.dim
    &&& a.items@ == b.items@
}

/// `a` and `b` hold the same containers, each with the same items.
pub open spec fn same_containers<T>(a: Seq<Container<T>>, b: Seq<Container<T>>) -> bool {
    &&& a.len() == b.len()
    &&& forall|k: int| 0 <= k < a.len() ==> same_container(#[trigger] a[k], b[k])
}

/// Tries `item` in each of the open containers `cs` in turn, and answers
/// the index of the container that took it.
fn place_in_open<T: Copy + Default, E, C, P>(
    item: &mut Item<T>,
    cs: &mut Vec<Container<T>>,
    exceeds: &E,
    collides: &C,
    pivot: &P,
) -> (placed: Option<usize>)
    where
        E: Fn(&Vector3<T>, &Vector3<T>, &Vector3<T>) -> bool,
        C: Fn(&Item<T>, &Item<T>) -> bool,
        P: Fn(&Axis, &Vector3<T>, &Vector3<T>) -> Vector3<T>,
    requires
        exceeds_total(*exceeds),
        collides_total(*collides),
        pivot_total(*pivot),
    ensures
        final(item).id == old(item).id,
        final(item).dim == old(item).dim,
        final(cs).len() == old(cs).len(),
        match placed {
            Some(j) => {
                &&& j < old(cs).len()
                &&& final(cs)@[j as int].id == old(cs)@[j as int].id
                &&& final(cs)@[j as int].dim == old(cs)@[j as int].dim
                &&& final(cs)@[j as int].items@ == old(cs)@[j as int].items@.push(*final(item))
                &&& fits(*exceeds, *collides, old(cs)@[j as int].dim, old(cs)@[j as int].items@, *final(item))
                &&& placed_first(*exceeds, *collides, *pivot, old(cs)@[j as int].dim, old(cs)@[j as int].items@,
                    *final(item))
                &&& forall|k: int| 0 <= k < old(cs).len() && k != j
                    ==> same_container(#[trigger] final(cs)@[k], old(cs)@[k])
                &&& forall|k: int| 0 <= k < j ==> rejects(*exceeds, *collides, *pivot,
                    (#[trigger] old(cs)@[k]).dim, old(cs)@[k].items@, *old(item))
            },
            None => {
                &&& same_containers(final(cs)@, old(cs)@)
                &&& old(cs).len() > 0 ==> final(item).pos.is_origin()
                &&& old(cs).len() == 0 ==> *final(item) == *old(item)
                &&& forall|k: int| 0 <= k < old(cs).len() ==> rejects(*exceeds, *collides, *pivot,
                    (#[trigger] old(cs)@[k]).dim, old(cs)@[k].items@, *old(item))
            },
        },
{
    let mut k: usize = 0;
    while k < cs.len()
        invariant
            k <= cs.len(),
            same_containers(cs@, old(cs)@),
            exceeds_total(*exceeds),
            collides_total(*collides),
            pivot_total(*pivot),
            item.id == old(item).id,
            item.dim == old(item).dim,
            k > 0 ==> item.pos.is_origin(),
            k == 0 ==> *item == *old(item),
            forall|kk: int| 0 <= kk < k ==> rejects(*exceeds, *collides, *pivot,
                (#[trigger] old(cs)@[kk]).dim, old(cs)@[kk].items@, *old(item)),
        decreases cs.len() - k,
    {
        let ghost tried = *item;
        let ghost ck = cs@[k as int];
        if pack_item(item, &mut cs[k], exceeds, collides, pivot) {
            return Some(k);
        }
        proof {
            assert(same_container(ck, old(cs)@[k as int]));
            lemma_rejects_sides(*exceeds, *collides, *pivot, ck.dim, ck.items@, tried, *old(item));
        }
        k = k + 1;
    }
    None
}

/// Some kind in `kinds` has a container left.
pub open spec fn any_left<T>(kinds: Seq<ContainerSpec<T>>) -> bool {
    exists|r: int| 0 <= r < kinds.len() && #[trigger] kinds[r].qty > 0
}

/// Tries `item` in a fresh container of each kind that has one left, in
/// the order of `kinds`. The first that takes it is opened: it is added to
/// `cs`, and its kind has one container fewer left. Answers that kind.
fn open_new<T: Copy + Default, E, C, P>(
    item: &mut Item<T>,
    kinds: &mut Vec<ContainerSpec<T>>,
    cs: &mut Vec<Container<T>>,
    exceeds: &E,
    collides: &C,
    pivot: &P,
) -> (opened: Option<usize>)
    where
        E: Fn(&Vector3<T>, &Vector3<T>, &Vector3<T>) -> bool,
        C: Fn(&Item<T>, &Item<T>) -> bool,
        P: Fn(&Axis, &Vector3<T>, &Vector3<T>) -> Vector3<T>,
    requires
        exceeds_total(*exceeds),
        collides_total(*collides),
        pivot_total(*pivot),
    ensures
        final(item).id == old(item).id,
        final(item).dim == old(item).dim,
        final(kinds).len() == old(kinds).len(),
        forall|r: int| 0 <= r < old(kinds).len() ==> (#[trigger] final(kinds)@[r]).spec == old(kinds)@[r].spec,
        match opened {
            Some(s) => {
                let kind = old(kinds)@[s as int].spec;
                &&& s < old(kinds).len()
                &&& old(kinds)@[s as int].qty > 0
                &&& final(kinds)@[s as int].qty == old(kinds)@[s as int].qty - 1
                &&& forall|r: int| 0 <= r < old(kinds).len() && r != s
                    ==> (#[trigger] final(kinds)@[r]).qty == old(kinds)@[r].qty
                &&& final(cs)@.len() == old(cs)@.len() + 1
                &&& final(cs)@.drop_last() == old(cs)@
                &&& final(cs)@.last().id == kind.id
                &&& final(cs)@.last().dim == kind.dim
                &&& final(cs)@.last().items@ == kind.items@.push(*final(item))
                &&& fits(*exceeds, *collides, kind.dim, kind.items@, *final(item))
                &&& placed_first(*exceeds, *collides, *pivot, kind.dim, kind.items@, *final(item))
                &&& forall|r: int| 0 <= r < s && (#[trigger] old(kinds)@[r]).qty > 0 ==> rejects(*exceeds,
                    *collides, *pivot, old(kinds)@[r].spec.dim, old(kinds)@[r].spec.items@, *old(item))
            },
            None => {
                &&& forall|r: int| 0 <= r < old(kinds).len() && (#[trigger] old(kinds)@[r]).qty > 0 ==> rejects(*exceeds,
                    *collides, *pivot, old(kinds)@[r].spec.dim, old(kinds)@[r].spec.items@, *old(item))
                &&& final(kinds)@ == old(kinds)@
                &&& final(cs)@ == old(cs)@
                &&& any_left(old(kinds)@) ==> final(item).pos.is_origin()
                &&& !any_left(old(kinds)@) ==> *final(item) == *old(item)
                &&& forall|r: int| 0 <= r < old(kinds).len() && (#[trigger] old(kinds)@[r]).qty > 0
                    && old(kinds)@[r].spec.items.len() == 0
                    ==> fits_nowhere(*exceeds, old(kinds)@[r].spec.dim, *old(item))
            },
        },
{
    let ghost mut tried = false;
    let mut s: usize = 0;
    while s < kinds.len()
        invariant
            s <= kinds.len(),
            kinds@ == old(kinds)@,
            cs@ == old(cs)@,
            exceeds_total(*exceeds),
            collides_total(*collides),
            pivot_total(*pivot),
            item.id == old(item).id,
            item.dim == old(item).dim,
            tried <==> exists|r: int| 0 <= r < s && #[trigger] kinds@[r].qty > 0,
            tried ==> item.pos.is_origin(),
            !tried ==> *item == *old(item),
            forall|r: int| 0 <= r < s && (#[trigger] kinds@[r]).qty > 0 && kinds@[r].spec.items.len() == 0
                ==> fits_nowhere(*exceeds, kinds@[r].spec.dim, *old(item)),
            forall|r: int| 0 <= r < s && (#[trigger] kinds@[r]).qty > 0 ==> rejects(*exceeds,
                *collides, *pivot, kinds@[r].spec.dim, kinds@[r].spec.items@, *old(item)),
        decreases kinds.len() - s,
    {
        if kinds[s].qty > 0 {
            proof {
                tried = true;
            }
            let mut fresh = kinds[s].spec.clone();
            let ghost tried_item = *item;
            if pack_item(item, &mut fresh, exceeds, collides, pivot) {
                kinds[s].qty = kinds[s].qty - 1;
                cs.push(fresh);
                proof {
                    assert(cs@.drop_last() =~= old(cs)@);
                }
                return Some(s);
            }
            proof {
                lemma_rejects_sides(*exceeds, *collides, *pivot, kinds@[s as int].spec.dim,
                    kinds@[s as int].spec.items@, tried_item, *old(item));
                if kinds@[s as int].spec.items.len() == 0 {
                    let o = choose|o: Vector3<T>| o.is_origin() && #[trigger] first_rotations_out(
                        *exceeds, kinds@[s as int].spec.dim, tried_item, o, 6);
                    assert forall|j: int| 0 <= j < 6 implies reported_outside(*exceeds, kinds@[s as int].spec.dim,
                        old(item).placed(o, #[trigger] rotation_order()[j]), true) by {
                        assert(tried_item.placed(o, rotation_order()[j]) == old(item).placed(o, rotation_order()[j]));
                    }
                    assert(first_rotations_out(*exceeds, kinds@[s as int].spec.dim, *old(item), o, 6));
                }
            }
        }
        s = s + 1;
    }
    None
}

/// `item` is a copy of the item of one of `kinds`: it has its name and sides.
pub open spec fn copy_of_kind<T>(item: Item<T>, kinds: Seq<ItemSpec<T>>) -> bool {
    exists|i: int| 0 <= i < kinds.len() && (#[trigger] kinds[i]).spec.id == item.id && kinds[i].spec.dim == item.dim
}

/// Container `c` was opened from the container `kind`: it has the kind's
/// name and size, it holds first the items that `kind` held, then at least
/// one more; each item added is a copy of the item of one of `items`, was
/// found to lie inside the container and clear of every item before it, and
/// lies where the packer puts it (see `placed_first`).
pub open spec fn grown_from<T: Default, E, C, P>(
    exceeds: E,
    collides: C,
    pivot: P,
    kind: Container<T>,
    items: Seq<ItemSpec<T>>,
    c: Container<T>,
) -> bool
    where
        E: Fn(&Vector3<T>, &Vector3<T>, &Vector3<T>) -> bool,
        C: Fn(&Item<T>, &Item<T>) -> bool,
        P: Fn(&Axis, &Vector3<T>, &Vector3<T>) -> Vector3<T>,
{
    &&& c.id == kind.id
    &&& c.dim == kind.dim
    &&& kind.items.len() < c.items.len()
    &&& c.items@.subrange(0, kind.items.len() as int) == kind.items@
    &&& forall|t: int| kind.items.len() <= t < c.items.len() ==> {
        &&& fits(exceeds, collides, c.dim, c.items@.subrange(0, t), #[trigger] c.items@[t])
        &&& copy_of_kind(c.items@[t], items)
        &&& placed_first(exceeds, collides, pivot, c.dim, c.items@.subrange(0, t), c.items@[t])
    }
}

/// Container `c` was opened from the kind `kinds[origin]`, and has grown
/// from it (see `grown_from`).
pub open spec fn opened_as<T: Default, E, C, P>(
    exceeds: E,
    collides: C,
    pivot: P,
    kinds: Seq<ContainerSpec<T>>,
    items: Seq<ItemSpec<T>>,
    c: Container<T>,
    origin: int,
) -> bool
    where
        E: Fn(&Vector3<T>, &Vector3<T>, &Vector3<T>) -> bool,
        C: Fn(&Item<T>, &Item<T>) -> bool,
        P: Fn(&Axis, &Vector3<T>, &Vector3<T>) -> Vector3<T>,
{
    &&& 0 <= origin < kinds.len()
    &&& grown_from(exceeds, collides, pivot, kinds[origin].spec, items, c)
}

/// The containers `cs` were opened, in this order, from the kinds
/// `kinds[opened[j]]` (see `grown_from`), and `after` is `kinds` with, for
/// each kind, as many containers fewer left as were opened from it.
pub open spec fn opened_from<T: Default, E, C, P>(
    exceeds: E,
    collides: C,
    pivot: P,
    kinds: Seq<ContainerSpec<T>>,
    after: Seq<ContainerSpec<T>>,
    items: Seq<ItemSpec<T>>,
    cs: Seq<Container<T>>,
    opened: Seq<int>,
) -> bool
    where
        E: Fn(&Vector3<T>, &Vector3<T>, &Vector3<T>) -> bool,
        C: Fn(&Item<T>, &Item<T>) -> bool,
        P: Fn(&Axis, &Vector3<T>, &Vector3<T>) -> Vector3<T>,
{
    &&& after.len() == kinds.len()
    &&& opened.len() == cs.len()
    &&& forall|r: int| 0 <= r < kinds.len() ==> {
        &&& (#[trigger] after[r]).spec == kinds[r].spec
        &&& after[r].qty + opened.to_multiset().count(r) == kinds[r].qty
    }
    &&& forall|j: int| 0 <= j < cs.len() ==> #[trigger] opened_as(exceeds, collides, pivot, kinds, items, cs[j], opened[j])
}

/// The number of items put into the containers `cs` beyond those that the
/// kinds they were opened from already held.
pub open spec fn added_items<T>(cs: Seq<Container<T>>, kinds: Seq<ContainerSpec<T>>, opened: Seq<int>) -> int
    decreases cs.len(),
{
    if cs.len() == 0 {
        0
    } else {
        added_items(cs.drop_last(), kinds, opened.drop_last()) + cs.last().items.len()
            - kinds[opened.last()].spec.items.len()
    }
}

/// The number of items that `kinds` asks to pack.
pub open spec fn total_qty<T>(kinds: Seq<ItemSpec<T>>) -> int
    decreases kinds.len(),
{
    if kinds.len() == 0 {
        0
    } else {
        total_qty(kinds.drop_last()) + kinds.last().qty
    }
}

proof fn lemma_added_same_sizes<T>(
    cs: Seq<Container<T>>,
    cs2: Seq<Container<T>>,
    kinds: Seq<ContainerSpec<T>>,
    opened: Seq<int>,
)
    requires
        cs.len() == cs2.len(),
        forall|k: int| 0 <= k < cs.len() ==> (#[trigger] cs2[k]).items.len() == cs[k].items.len(),
    ensures
        added_items(cs2, kinds, opened) == added_items(cs, kinds, opened),
    decreases cs.len(),
{
    if cs.len() > 0 {
        lemma_added_same_sizes(cs.drop_last(), cs2.drop_last(), kinds, opened.drop_last());
    }
}

proof fn lemma_added_grow<T>(
    cs: Seq<Container<T>>,
    cs2: Seq<Container<T>>,
    kinds: Seq<ContainerSpec<T>>,
    opened: Seq<int>,
    j: int,
)
    requires
        cs.len() == cs2.len(),
        0 <= j < cs.len(),
        forall|k: int| 0 <= k < cs.len() && k != j ==> (#[trigger] cs2[k]).items.len() == cs[k].items.len(),
        cs2[j].items.len() == cs[j].items.len() + 1,
    ensures
        added_items(cs2, kinds, opened) == added_items(cs, kinds, opened) + 1,
    decreases cs.len(),
{
    if j == cs.len() - 1 {
        lemma_added_same_sizes(cs.drop_last(), cs2.drop_last(), kinds, opened.drop_last());
    } else {
        lemma_added_grow(cs.drop_last(), cs2.drop_last(), kinds, opened.drop_last(), j);
    }
}

proof fn lemma_total_qty_remove<T>(b: Seq<ItemSpec<T>>, k: int)
    requires
        0 <= k < b.len(),
    ensures
        total_qty(b) == total_qty(b.remove(k)) + b[k].qty,
    decreases b.len(),
{
    if k == b.len() - 1 {
        assert(b.remove(k) =~= b.drop_last());
    } else {
        lemma_total_qty_remove(b.drop_last(), k);
        assert(b.drop_last().remove(k) =~= b.remove(k).drop_last());
        assert(b.remove(k).last() == b.last());
    }
}

/// Reordering the kinds of items does not change how many items they ask for.
proof fn lemma_total_qty_permutation<T>(a: Seq<ItemSpec<T>>, b: Seq<ItemSpec<T>>)
    requires
        a.to_multiset() == b.to_multiset(),
    ensures
        total_qty(a) == total_qty(b),
    decreases a.len(),
{
    broadcast use vstd::seq_lib::group_to_multiset_ensures;
    if a.len() == 0 {
        assert(a.to_multiset().len() == 0);
        assert(b.to_multiset().len() == b.len());
        assert(b.len() == 0);
        assert(b =~= a);
    } else {
        let x = a.last();
        assert(a.to_multiset().count(x) > 0) by {
            assert(a.contains(x)) by {
                assert(a[a.len() - 1] == x);
            }
        }
        assert(b.contains(x));
        let k = choose|k: int| 0 <= k < b.len() && b[k] == x;
        lemma_total_qty_remove(b, k);
        assert(a.remove(a.len() - 1) =~= a.drop_last());
        assert(a.drop_last().to_multiset() =~= a.to_multiset().remove(x));
        assert(b.remove(k).to_multiset() =~= b.to_multiset().remove(x));
        lemma_total_qty_permutation(a.drop_last(), b.remove(k));
    }
}

proof fn lemma_count_push(opened: Seq<int>, s: int, r: int)
    ensures
        opened.push(s).to_multiset().count(r) == opened.to_multiset().count(r) + (if r == s { 1int } else { 0int }),
{
    broadcast use vstd::multiset::group_multiset_axioms;
    vstd::seq_lib::to_multiset_build(opened, s);
}

impl<T: Copy + Default> Algo<T> {
    /// Packs the items into the containers, greedily: the kinds of
    /// containers and of items are ordered by size, smallest first; then
    /// each copy of each item, in that order, goes into the first open
    /// container that takes it, or else into a fresh container of the first
    /// kind, with one left, that takes it; if none does, it stays unpacked.
    /// The kinds are left in that order, with the containers opened taken
    /// off their quantities. Both sorts are stable.
    ///
    /// The contract records the packing copy by copy (`greedy_trace`): the
    /// copies of the sorted kinds, in order, each land in exactly one
    /// container or among the unpacked items, where the greedy rule sends
    /// them.
    ///
    /// The arithmetic on lengths is given by `smaller`, `exceeds`,
    /// `collides` and `pivot` (see `reported_outside` and its neighbours).
    pub fn pack<L, E, C, P>(
        &mut self,
        smaller: &L,
        exceeds: &E,
        collides: &C,
        pivot: &P,
    ) -> (result: AlgoResult<T>)
        where
            L: Fn(&Vector3<T>, &Vector3<T>) -> bool,
            E: Fn(&Vector3<T>, &Vector3<T>, &Vector3<T>) -> bool,
            C: Fn(&Item<T>, &Item<T>) -> bool,
            P: Fn(&Axis, &Vector3<T>, &Vector3<T>) -> Vector3<T>,
        requires
            smaller_total(*smaller),
            exceeds_total(*exceeds),
            collides_total(*collides),
            pivot_total(*pivot),
        ensures
            final(self).items@.to_multiset() == old(self).items@.to_multiset(),
            sorted_by_size(*smaller, final(self).items@),
            exists|perm: Seq<int>| #[trigger] stably_rearranged(*smaller, old(self).items@, final(self).items@, perm),
            exists|kinds: Seq<ContainerSpec<T>>, opened: Seq<int>, dest: Seq<int>, hist: Seq<Seq<Seq<Item<T>>>>| {
                &&& kinds.to_multiset() == old(self).containers@.to_multiset()
                &&& sorted_by_size(*smaller, kinds)
                &&& exists|perm: Seq<int>| #[trigger] stably_rearranged(*smaller, old(self).containers@, kinds, perm)
                &&& opened_from(*exceeds, *collides, *pivot, kinds, final(self).containers@,
                    final(self).items@, result.containers@, opened)
                &&& added_items(result.containers@, kinds, opened) + result.unpacked_items.len()
                    == total_qty(old(self).items@)
                &&& #[trigger] greedy_trace(*exceeds, *collides, *pivot, kinds, opened,
                    copies_of(final(self).items@), result.containers@, result.unpacked_items@, dest, hist)
            },
            forall|u: int| 0 <= u < result.unpacked_items.len()
                ==> copy_of_kind(#[trigger] result.unpacked_items@[u], final(self).items@),
            left_out_rightly(*exceeds, final(self).containers@, result.unpacked_items@),
    {
        sort_by_size(&mut self.containers, smaller);
        sort_by_size(&mut self.items, smaller);
        let ghost kinds = self.containers@;
        let ghost sorted_items = self.items@;
        let ghost mut opened: Seq<int> = Seq::empty();
        let ghost mut copies: Seq<Item<T>> = Seq::empty();
        let ghost mut dest: Seq<int> = Seq::empty();
        let ghost mut hist: Seq<Seq<Seq<Item<T>>>> = Seq::empty();

        let mut containers: Vec<Container<T>> = Vec::new();
        let mut unpacked_items: Vec<Item<T>> = Vec::new();

        assert forall|r: int| opened.to_multiset().count(r) == 0 by {
            broadcast use vstd::seq_lib::group_to_multiset_ensures;
            assert(!opened.contains(r));
        }
        let n: usize = self.items.len();
        let mut i: usize = 0;
        while i < n
            invariant
                n == self.items.len(),
                i <= n,
                self.items@ == sorted_items,
                sorted_items.to_multiset() == old(self).items@.to_multiset(),
                sorted_by_size(*smaller, sorted_items),
                kinds.to_multiset() == old(self).containers@.to_multiset(),
                sorted_by_size(*smaller, kinds),
                exceeds_total(*exceeds),
                collides_total(*collides),
                pivot_total(*pivot),
                opened_from(*exceeds, *collides, *pivot, kinds, self.containers@, self.items@, containers@, opened),
                added_items(containers@, kinds, opened) + unpacked_items.len()
                    == total_qty(self.items@.subrange(0, i as int)),
                forall|u: int| 0 <= u < unpacked_items.len()
                    ==> copy_of_kind(#[trigger] unpacked_items@[u], self.items@),
                left_out_rightly(*exceeds, self.containers@, unpacked_items@),
                step_ready(*exceeds, *collides, *pivot, kinds, opened, copies, containers@, unpacked_items@, dest, hist),
                copies == copies_of(sorted_items.subrange(0, i as int)),
            decreases n - i,
        {
            let qty: usize = self.items[i].qty;
            let mut q: usize = 0;
            while q < qty
                invariant
                    n == self.items.len(),
                    i < n,
                    self.items@ == sorted_items,
                    q <= qty == self.items@[i as int].qty,
                    exceeds_total(*exceeds),
                    collides_total(*collides),
                    pivot_total(*pivot),
                    opened_from(*exceeds, *collides, *pivot, kinds, self.containers@, self.items@, containers@, opened),
                    added_items(containers@, kinds, opened) + unpacked_items.len()
                        == total_qty(self.items@.subrange(0, i as int)) + q,
                    forall|u: int| 0 <= u < unpacked_items.len()
                        ==> copy_of_kind(#[trigger] unpacked_items@[u], self.items@),
                    left_out_rightly(*exceeds, self.containers@, unpacked_items@),
                    step_ready(*exceeds, *collides, *pivot, kinds, opened, copies, containers@, unpacked_items@, dest, hist),
                    copies == copies_of(sorted_items.subrange(0, i as int))
                        + Seq::new(q as nat, |k: int| sorted_items[i as int].spec),
                decreases qty - q,
            {
                let mut new_item = self.items[i].spec.clone();
                let ghost cs0 = containers@;
                let ghost specs0 = self.containers@;
                let ghost item0 = new_item;
                let ghost unp0 = unpacked_items@;
                match place_in_open(&mut new_item, &mut containers, exceeds, collides, pivot) {
                    Some(j) => {
                        proof {
                            lemma_added_grow(cs0, containers@, kinds, opened, j as int);
                            let c0 = cs0[j as int];
                            let c1 = containers@[j as int];
                            let kind = kinds[opened[j as int]].spec;
                            assert(opened_as(*exceeds, *collides, *pivot, kinds, self.items@, c0, opened[j as int]));
                            assert(c1.items@.subrange(0, c0.items.len() as int) =~= c0.items@);
                            assert(c1.items@.subrange(0, kind.items.len() as int)
                                =~= c0.items@.subrange(0, kind.items.len() as int));
                            assert forall|t: int| kind.items.len() <= t < c1.items.len() implies {
                                &&& fits(*exceeds, *collides, c1.dim, c1.items@.subrange(0, t), #[trigger] c1.items@[t])
                                &&& copy_of_kind(c1.items@[t], self.items@)
                                &&& placed_first(*exceeds, *collides, *pivot, c1.dim, c1.items@.subrange(0, t), c1.items@[t])
                            } by {
                                if t < c0.items.len() {
                                    assert(c1.items@.subrange(0, t) =~= c0.items@.subrange(0, t));
                                    assert(c1.items@[t] == c0.items@[t]);
                                } else {
                                    assert(c1.items@.subrange(0, t) =~= c0.items@);
                                    assert(c1.items@[t] == new_item);
                                }
                            }
                            assert(grown_from(*exceeds, *collides, *pivot, kind, self.items@, c1));
                            assert forall|k: int| 0 <= k < containers@.len() implies #[trigger] opened_as(*exceeds, *collides, *pivot, kinds, self.items@, containers@[k], opened[k]) by {
                                assert(opened_as(*exceeds, *collides, *pivot, kinds, self.items@, cs0[k], opened[k]));
                                if k != j {
                                    assert(containers@[k].items@ == cs0[k].items@);
                                }
                            }
                        }
                        proof {
                            assert forall|k: int| 0 <= k < cs0.len() && k != j implies (#[trigger] containers@[k]).items@
                                == cs0[k].items@ by {
                                assert(same_container(containers@[k], cs0[k]));
                            }
                            assert forall|k: int| 0 <= k < cs0.len() implies (#[trigger] containers@[k]).dim == cs0[k].dim by {
                                if k != j {
                                    assert(same_container(containers@[k], cs0[k]));
                                }
                            }
                            lemma_step_placed(*exceeds, *collides, *pivot, kinds, opened, copies, cs0, containers@,
                                unpacked_items@, dest, hist, item0, new_item, j as int);
                            copies = copies.push(item0);
                            dest = dest.push(j as int);
                            hist = hist.push(contents_of(cs0));
                        }
                    },
                    None => {
                        proof {
                            lemma_added_same_sizes(cs0, containers@, kinds, opened);
                            assert forall|k: int| 0 <= k < containers@.len() implies #[trigger] opened_as(*exceeds, *collides, *pivot, kinds, self.items@, containers@[k], opened[k]) by {
                                assert(opened_as(*exceeds, *collides, *pivot, kinds, self.items@, cs0[k], opened[k]));
                                assert(same_container(containers@[k], cs0[k]));
                            }
                        }
                        let ghost cs1 = containers@;
                        let ghost tried_item = new_item;
                        match open_new(&mut new_item, &mut self.containers, &mut containers, exceeds, collides, pivot) {
                            Some(s) => {
                                proof {
                                    assert forall|r: int| 0 <= r < kinds.len() implies left_at(kinds, opened, r,
                                        cs0.len() as int) == (#[trigger] specs0[r]).qty by {
                                        lemma_count_to_multiset(opened, r);
                                    }
                                    assert forall|r: int| 0 <= r < s && left_at(kinds, opened, r, cs0.len() as int) > 0
                                        implies rejects(*exceeds, *collides, *pivot, (#[trigger] kinds[r]).spec.dim,
                                        kinds[r].spec.items@, item0) by {
                                        assert(specs0[r].spec == kinds[r].spec);
                                        assert(specs0[r].qty > 0);
                                        lemma_rejects_sides(*exceeds, *collides, *pivot, specs0[r].spec.dim,
                                            specs0[r].spec.items@, tried_item, item0);
                                    }
                                    assert forall|k: int| 0 <= k < cs0.len() implies (#[trigger] containers@[k]).items@
                                        == cs0[k].items@ && containers@[k].dim == cs0[k].dim by {
                                        assert(containers@[k] == cs1[k]);
                                        assert(same_container(cs1[k], cs0[k]));
                                    }
                                    assert(specs0[s as int].spec == kinds[s as int].spec);
                                    lemma_step_opened(*exceeds, *collides, *pivot, kinds, opened, copies, cs0, containers@,
                                        unpacked_items@, dest, hist, item0, new_item, s as int);
                                    copies = copies.push(item0);
                                    dest = dest.push(cs0.len() as int);
                                    hist = hist.push(contents_of(cs0));
                                }
                                proof {
                                    let old_opened = opened;
                                    opened = opened.push(s as int);
                                    assert(containers@.drop_last() =~= cs1);
                                    assert(opened.drop_last() =~= old_opened);
                                    assert forall|r: int| 0 <= r < kinds.len() implies {
                                        &&& (#[trigger] self.containers@[r]).spec == kinds[r].spec
                                        &&& self.containers@[r].qty + opened.to_multiset().count(r) == kinds[r].qty
                                    } by {
                                        lemma_count_push(old_opened, s as int, r);
                                        assert(specs0[r].spec == kinds[r].spec);
                                    }
                                    assert(opened.len() == containers@.len());
                                    assert forall|u: int, r: int| 0 <= u < unpacked_items@.len() && 0 <= r < self.containers@.len()
                                        && self.containers@[r].qty > 0 && self.containers@[r].spec.items.len() == 0
                                        implies fits_nowhere(*exceeds, #[trigger] self.containers@[r].spec.dim, #[trigger] unpacked_items@[u]) by {
                                        assert(specs0[r].spec == self.containers@[r].spec);
                                        assert(specs0[r].qty > 0);
                                        assert(fits_nowhere(*exceeds, specs0[r].spec.dim, unpacked_items@[u]));
                                    }
                                    let c1 = containers@.last();
                                    let kind = kinds[s as int].spec;
                                    assert(specs0[s as int].spec == kind);
                                    assert(c1.items@.subrange(0, kind.items.len() as int) =~= kind.items@);
                                    assert(copy_of_kind(c1.items@[kind.items.len() as int], self.items@));
                                    assert(c1.items@[kind.items.len() as int] == new_item);
                                    assert(placed_first(*exceeds, *collides, *pivot, c1.dim,
                                        c1.items@.subrange(0, kind.items.len() as int), new_item));
                                    assert(grown_from(*exceeds, *collides, *pivot, kind, self.items@, c1));
                                    assert forall|k: int| 0 <= k < containers@.len() implies #[trigger] opened_as(*exceeds, *collides, *pivot, kinds, self.items@, containers@[k], opened[k]) by {
                                        if k < cs1.len() {
                                            assert(containers@[k] == cs1[k]);
                                            assert(opened[k] == old_opened[k]);
                                            assert(opened_as(*exceeds, *collides, *pivot, kinds, self.items@, cs1[k], old_opened[k]));
                                        } else {
                                            assert(k == cs1.len());
                                            assert(opened[k] == s);
                                            assert(s < specs0.len());
                                            assert(containers@[k] == c1);
                                            assert(opened_as(*exceeds, *collides, *pivot, kinds, self.items@, c1, s as int));
                                        }
                                    }
                                }
                            },
                            None => {
                                let ghost before_push = unpacked_items@;
                                unpacked_items.push(new_item);
                                proof {
                                    assert forall|u: int, r: int| 0 <= u < unpacked_items@.len() && 0 <= r < self.containers@.len()
                                        && self.containers@[r].qty > 0 && self.containers@[r].spec.items.len() == 0
                                        implies fits_nowhere(*exceeds, #[trigger] self.containers@[r].spec.dim, #[trigger] unpacked_items@[u]) by {
                                        if u < before_push.len() {
                                            assert(unpacked_items@[u] == before_push[u]);
                                        } else {
                                            assert(self.containers@[r] == specs0[r]);
                                            lemma_fits_nowhere_sides(*exceeds, self.containers@[r].spec.dim, tried_item, unpacked_items@[u]);
                                        }
                                    }
                                }
                                proof {
                                    assert forall|r: int| 0 <= r < kinds.len() && left_at(kinds, opened, r, cs0.len() as int) > 0
                                        implies rejects(*exceeds, *collides, *pivot, (#[trigger] kinds[r]).spec.dim,
                                        kinds[r].spec.items@, item0) by {
                                        lemma_count_to_multiset(opened, r);
                                        assert(specs0[r].spec == kinds[r].spec);
                                        assert(specs0[r].qty > 0);
                                        lemma_rejects_sides(*exceeds, *collides, *pivot, specs0[r].spec.dim,
                                            specs0[r].spec.items@, tried_item, item0);
                                    }
                                    assert forall|k: int| 0 <= k < cs0.len() implies (#[trigger] containers@[k]).items@
                                        == cs0[k].items@ && containers@[k].dim == cs0[k].dim by {
                                        assert(containers@[k] == cs1[k]);
                                        assert(same_container(cs1[k], cs0[k]));
                                    }
                                    assert(new_item.pos.is_origin() || new_item == item0);
                                    lemma_step_left(*exceeds, *collides, *pivot, kinds, opened, copies, cs0, containers@,
                                        before_push, dest, hist, item0, new_item);
                                    copies = copies.push(item0);
                                    dest = dest.push(-1);
                                    hist = hist.push(contents_of(cs0));
                                }
                            },
                        }
                    },
                }
                proof {
                    assert(copies =~= copies_of(sorted_items.subrange(0, i as int))
                        + Seq::new((q + 1) as nat, |k: int| sorted_items[i as int].spec));
                }
                q = q + 1;
            }
            proof {
                let sub1 = sorted_items.subrange(0, i + 1);
                assert(self.items@.subrange(0, i + 1).drop_last() =~= self.items@.subrange(0, i as int));
                assert(sub1.last() == sorted_items[i as int]);
                assert(copies_of(sub1) == copies_of(sub1.drop_last()) + Seq::new(sub1.last().qty as nat,
                    |k: int| sub1.last().spec));
                assert(copies =~= copies_of(sub1));
            }
            i = i + 1;
        }
        assert(self.items@.subrange(0, n as int) =~= self.items@);
        proof {
            lemma_total_qty_permutation(self.items@, old(self).items@);
        }
        let result = AlgoResult { containers, unpacked_items };
        assert(opened_from(*exceeds, *collides, *pivot, kinds, self.containers@, self.items@, result.containers@, opened));
        assert(copies == copies_of(self.items@));
        assert(greedy_trace(*exceeds, *collides, *pivot, kinds, opened, copies_of(self.items@), result.containers@,
            result.unpacked_items@, dest, hist));
        result
    }
}

} // verus!
