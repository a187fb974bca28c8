use vstd::prelude::*;

use crate::entity::axis::Axis;
use crate::entity::container::{Container, ContainerSpec};
use crate::entity::item::{Item, ItemSpec};
use crate::entity::measure::rejects;
use crate::entity::vector3::Vector3;

verus! {

// The record of a packing, copy by copy. The copies are numbered in the
// order in which they are packed; `dest[t]` is the index of the container
// that copy `t` went to (one past the last open container if it opened a
// new one), or -1 if it stayed unpacked; `opened[j]` is the kind that
// container `j` was opened from; `hist[t][j]` is what container `j` held
// when copy `t` came.

/// How many of the first `t` entries of `s` are `x`.
pub open spec fn count_to(s: Seq<int>, t: int, x: int) -> int
    decreases t,
{
    if t <= 0 {
        0
    } else {
        count_to(s, t - 1, x) + if s[t - 1] == x { 1int } else { 0int }
    }
}

/// How many containers were open once the first `t` copies went to
/// `dest`: a copy opens a container when it goes just past the last open one.
pub open spec fn opened_by(dest: Seq<int>, t: int) -> int
    decreases t,
{
    if t <= 0 {
        0
    } else {
        opened_by(dest, t - 1) + if dest[t - 1] == opened_by(dest, t - 1) { 1int } else { 0int }
    }
}

/// The copies to pack, in order: the item of each kind, `qty` times.
pub open spec fn copies_of<T>(kinds: Seq<ItemSpec<T>>) -> Seq<Item<T>>
    decreases kinds.len(),
{
    if kinds.len() == 0 {
        Seq::empty()
    } else {
        copies_of(kinds.drop_last()) + Seq::new(kinds.last().qty as nat, |k: int| kinds.last().spec)
    }
}

/// `a` and `b` have the same name and sides.
pub open spec fn same_sides<T>(a: Item<T>, b: Item<T>) -> bool {
    a.id == b.id && a.dim == b.dim
}

/// How many containers of kind `r` were left when the first `n` containers
/// had been opened.
pub open spec fn left_at<T>(kinds: Seq<ContainerSpec<T>>, opened: Seq<int>, r: int, n: int) -> int {
    kinds[r].qty - count_to(opened, n, r)
}

/// Copy `t` went where the greedy rule sends it: every open container
/// before the one it went to rejected it (every open container, if it
/// opened a new one or stayed unpacked); if it opened a container, that
/// kind had one left and every earlier kind with one left rejected it; if
/// it stayed unpacked, every kind with one left rejected it.
pub open spec fn first_fit_step<T: Default, E, C, P>(
    exceeds: E,
    collides: C,
    pivot: P,
    kinds: Seq<ContainerSpec<T>>,
    opened: Seq<int>,
    copies: Seq<Item<T>>,
    dest: Seq<int>,
    hist: Seq<Seq<Seq<Item<T>>>>,
    t: int,
) -> bool
    where
        E: Fn(&Vector3<T>, &Vector3<T>, &Vector3<T>) -> bool,
        C: Fn(&Item<T>, &Item<T>) -> bool,
        P: Fn(&Axis, &Vector3<T>, &Vector3<T>) -> Vector3<T>,
{
    let n = opened_by(dest, t);
    let d = dest[t];
    &&& -1 <= d <= n
    &&& n <= opened.len()
    &&& hist[t].len() == n
    &&& d == n ==> n < opened.len() && 0 <= opened[n] < kinds.len() && left_at(kinds, opened, opened[n], n) > 0
    &&& forall|j: int| 0 <= j < n && (d == -1 || j < d) ==> rejects(exceeds, collides, pivot,
        kinds[opened[j]].spec.dim, #[trigger] hist[t][j], copies[t])
    &&& d == n ==> forall|r: int| 0 <= r < opened[n] && left_at(kinds, opened, r, n) > 0
        ==> rejects(exceeds, collides, pivot, (#[trigger] kinds[r]).spec.dim, kinds[r].spec.items@, copies[t])
    &&& d == -1 ==> forall|r: int| 0 <= r < kinds.len() && left_at(kinds, opened, r, n) > 0
        ==> rejects(exceeds, collides, pivot, (#[trigger] kinds[r]).spec.dim, kinds[r].spec.items@, copies[t])
}

/// What `hist[t][j]` records of container `j`, open at copy `t`: the items
/// of its kind and the copies sent to it before, the first items it holds.
pub open spec fn hist_entry_ok<T>(
    kinds: Seq<ContainerSpec<T>>,
    opened: Seq<int>,
    cs: Seq<Container<T>>,
    dest: Seq<int>,
    hist: Seq<Seq<Seq<Item<T>>>>,
    t: int,
    j: int,
) -> bool {
    let len = kinds[opened[j]].spec.items.len() + count_to(dest, t, j);
    &&& j < cs.len()
    &&& j < opened.len()
    &&& hist[t][j].len() == len
    &&& len <= cs[j].items.len()
    &&& cs[j].items@.subrange(0, len) == hist[t][j]
}

/// What `hist[t]` records of every container open at copy `t`.
pub open spec fn history_ok<T>(
    kinds: Seq<ContainerSpec<T>>,
    opened: Seq<int>,
    cs: Seq<Container<T>>,
    dest: Seq<int>,
    hist: Seq<Seq<Seq<Item<T>>>>,
    t: int,
) -> bool {
    forall|j: int| 0 <= j < hist[t].len() ==> #[trigger] hist_entry_ok(kinds, opened, cs, dest, hist, t, j)
}

/// Copy `t` is where `dest` says: in its container, after the items of the
/// kind and the copies sent there before it; or among the unpacked items,
/// after the copies left out before it, moved back to the origin if it was
/// tried anywhere.
pub open spec fn slot_ok<T: Default>(
    kinds: Seq<ContainerSpec<T>>,
    opened: Seq<int>,
    cs: Seq<Container<T>>,
    unpacked: Seq<Item<T>>,
    copies: Seq<Item<T>>,
    dest: Seq<int>,
    t: int,
) -> bool {
    let d = dest[t];
    &&& d >= 0 ==> {
        let at = kinds[opened[d]].spec.items.len() + count_to(dest, t, d);
        &&& d < cs.len()
        &&& d < opened.len()
        &&& at < cs[d].items.len()
        &&& same_sides(cs[d].items@[at], copies[t])
    }
    &&& d == -1 ==> {
        let u = count_to(dest, t, -1);
        &&& u < unpacked.len()
        &&& same_sides(unpacked[u], copies[t])
        &&& unpacked[u].pos.is_origin() || unpacked[u] == copies[t]
    }
}

/// The packing of `copies` by the greedy rule is recorded by `dest`, `opened`
/// and `hist` (see above): the containers hold the items of their kinds and
/// then exactly the copies sent to them, in order; the unpacked items are
/// exactly the copies left out, in order; and each copy went where the
/// greedy rule sends it.
pub open spec fn greedy_trace<T: Default, E, C, P>(
    exceeds: E,
    collides: C,
    pivot: P,
    kinds: Seq<ContainerSpec<T>>,
    opened: Seq<int>,
    copies: Seq<Item<T>>,
    cs: Seq<Container<T>>,
    unpacked: Seq<Item<T>>,
    dest: Seq<int>,
    hist: Seq<Seq<Seq<Item<T>>>>,
) -> bool
    where
        E: Fn(&Vector3<T>, &Vector3<T>, &Vector3<T>) -> bool,
        C: Fn(&Item<T>, &Item<T>) -> bool,
        P: Fn(&Axis, &Vector3<T>, &Vector3<T>) -> Vector3<T>,
{
    let total = dest.len() as int;
    &&& copies.len() == dest.len()
    &&& hist.len() == dest.len()
    &&& cs.len() == opened_by(dest, total)
    &&& forall|t: int| 0 <= t < total ==> -1 <= #[trigger] dest[t] < cs.len()
    &&& forall|j: int| 0 <= j < cs.len() ==> (#[trigger] cs[j]).items.len()
        == kinds[opened[j]].spec.items.len() + count_to(dest, total, j)
    &&& unpacked.len() == count_to(dest, total, -1)
    &&& forall|t: int| 0 <= t < total ==> #[trigger] first_fit_step(exceeds, collides, pivot, kinds, opened, copies, dest, hist, t)
    &&& forall|t: int| 0 <= t < total ==> #[trigger] history_ok(kinds, opened, cs, dest, hist, t)
    &&& forall|t: int| 0 <= t < total ==> #[trigger] slot_ok(kinds, opened, cs, unpacked, copies, dest, t)
}

pub proof fn lemma_count_to_prefix(s: Seq<int>, s2: Seq<int>)
    requires
        s.len() <= s2.len(),
        forall|i: int| 0 <= i < s.len() ==> s2[i] == s[i],
    ensures
        forall|t: int, x: int| 0 <= t <= s.len() ==> #[trigger] count_to(s2, t, x) == count_to(s, t, x),
{
    assert forall|t: int, x: int| 0 <= t <= s.len() implies #[trigger] count_to(s2, t, x) == count_to(s, t, x) by {
        lemma_count_to_prefix_at(s, s2, t, x);
    }
}

proof fn lemma_count_to_prefix_at(s: Seq<int>, s2: Seq<int>, t: int, x: int)
    requires
        0 <= t <= s.len() <= s2.len(),
        forall|i: int| 0 <= i < s.len() ==> s2[i] == s[i],
    ensures
        count_to(s2, t, x) == count_to(s, t, x),
    decreases t,
{
    if t > 0 {
        lemma_count_to_prefix_at(s, s2, t - 1, x);
    }
}

pub proof fn lemma_opened_by_prefix(s: Seq<int>, s2: Seq<int>)
    requires
        s.len() <= s2.len(),
        forall|i: int| 0 <= i < s.len() ==> s2[i] == s[i],
    ensures
        forall|t: int| 0 <= t <= s.len() ==> #[trigger] opened_by(s2, t) == opened_by(s, t),
{
    assert forall|t: int| 0 <= t <= s.len() implies #[trigger] opened_by(s2, t) == opened_by(s, t) by {
        lemma_opened_by_prefix_at(s, s2, t);
    }
}

proof fn lemma_opened_by_prefix_at(s: Seq<int>, s2: Seq<int>, t: int)
    requires
        0 <= t <= s.len() <= s2.len(),
        forall|i: int| 0 <= i < s.len() ==> s2[i] == s[i],
    ensures
        opened_by(s2, t) == opened_by(s, t),
    decreases t,
{
    if t > 0 {
        lemma_opened_by_prefix_at(s, s2, t - 1);
    }
}

/// At most `t` of the first `t` entries are `x`.
pub proof fn lemma_count_to_bounds(s: Seq<int>, t: int, x: int)
    requires
        0 <= t,
    ensures
        0 <= count_to(s, t, x) <= t,
    decreases t,
{
    if t > 0 {
        lemma_count_to_bounds(s, t - 1, x);
    }
}

/// No entry among the first `t` of `s` is `x`.
pub proof fn lemma_count_to_absent(s: Seq<int>, t: int, x: int)
    requires
        0 <= t <= s.len(),
        forall|i: int| 0 <= i < t ==> s[i] != x,
    ensures
        count_to(s, t, x) == 0,
    decreases t,
{
    if t > 0 {
        lemma_count_to_absent(s, t - 1, x);
    }
}

/// Extending the record by one copy keeps what it said of the earlier ones.
pub proof fn lemma_trace_extend<T: Default, E, C, P>(
    exceeds: E,
    collides: C,
    pivot: P,
    kinds: Seq<ContainerSpec<T>>,
    opened: Seq<int>,
    opened2: Seq<int>,
    copies: Seq<Item<T>>,
    copies2: Seq<Item<T>>,
    cs: Seq<Container<T>>,
    cs2: Seq<Container<T>>,
    unpacked: Seq<Item<T>>,
    unpacked2: Seq<Item<T>>,
    dest: Seq<int>,
    dest2: Seq<int>,
    hist: Seq<Seq<Seq<Item<T>>>>,
    hist2: Seq<Seq<Seq<Item<T>>>>,
)
    where
        E: Fn(&Vector3<T>, &Vector3<T>, &Vector3<T>) -> bool,
        C: Fn(&Item<T>, &Item<T>) -> bool,
        P: Fn(&Axis, &Vector3<T>, &Vector3<T>) -> Vector3<T>,
    requires
        dest.len() <= dest2.len(),
        forall|i: int| 0 <= i < dest.len() ==> dest2[i] == dest[i],
        dest.len() <= copies2.len(),
        forall|i: int| 0 <= i < dest.len() ==> copies2[i] == copies[i],
        dest.len() <= hist2.len(),
        forall|i: int| 0 <= i < dest.len() ==> hist2[i] == hist[i],
        opened.len() <= opened2.len(),
        forall|i: int| 0 <= i < opened.len() ==> opened2[i] == opened[i],
        cs.len() <= cs2.len(),
        forall|j: int| 0 <= j < cs.len() ==> (#[trigger] cs2[j]).items.len() >= cs[j].items.len()
            && cs2[j].items@.subrange(0, cs[j].items.len() as int) == cs[j].items@,
        unpacked.len() <= unpacked2.len(),
        unpacked2.subrange(0, unpacked.len() as int) == unpacked,
        forall|t: int| 0 <= t < dest.len() ==> #[trigger] first_fit_step(exceeds, collides, pivot, kinds, opened, copies, dest, hist, t),
        forall|t: int| 0 <= t < dest.len() ==> #[trigger] history_ok(kinds, opened, cs, dest, hist, t),
        forall|t: int| 0 <= t < dest.len() ==> #[trigger] slot_ok(kinds, opened, cs, unpacked, copies, dest, t),
    ensures
        forall|t: int| 0 <= t < dest.len() ==> #[trigger] first_fit_step(exceeds, collides, pivot, kinds, opened2, copies2, dest2, hist2, t),
        forall|t: int| 0 <= t < dest.len() ==> #[trigger] history_ok(kinds, opened2, cs2, dest2, hist2, t),
        forall|t: int| 0 <= t < dest.len() ==> #[trigger] slot_ok(kinds, opened2, cs2, unpacked2, copies2, dest2, t),
{
    lemma_count_to_prefix(dest, dest2);
    lemma_count_to_prefix(opened, opened2);
    lemma_opened_by_prefix(dest, dest2);
    assert forall|t: int| 0 <= t < dest.len() implies #[trigger] first_fit_step(exceeds, collides, pivot, kinds,
        opened2, copies2, dest2, hist2, t) by {
        assert(first_fit_step(exceeds, collides, pivot, kinds, opened, copies, dest, hist, t));
        let n = opened_by(dest, t);
        assert(opened_by(dest2, t) == n);
        assert forall|r: int| 0 <= r < kinds.len() implies left_at(kinds, opened2, r, n) == left_at(kinds, opened, r, n) by {
            assert(count_to(opened2, n, r) == count_to(opened, n, r));
        }
        assert forall|j: int| 0 <= j < n && (dest2[t] == -1 || j < dest2[t]) implies rejects(exceeds, collides, pivot,
            kinds[opened2[j]].spec.dim, #[trigger] hist2[t][j], copies2[t]) by {
            assert(rejects(exceeds, collides, pivot, kinds[opened[j]].spec.dim, hist[t][j], copies[t]));
        }
    }
    assert forall|t: int| 0 <= t < dest.len() implies #[trigger] history_ok(kinds, opened2, cs2, dest2, hist2, t) by {
        assert(history_ok(kinds, opened, cs, dest, hist, t));
        assert(hist2[t] == hist[t]);
        assert forall|j: int| 0 <= j < hist2[t].len() implies #[trigger] hist_entry_ok(kinds, opened2, cs2, dest2, hist2, t, j) by {
            assert(hist_entry_ok(kinds, opened, cs, dest, hist, t, j));
            let len = kinds[opened[j]].spec.items.len() + count_to(dest, t, j);
            assert(hist[t][j].len() == len);
            lemma_count_to_bounds(dest, t, j);
            assert(j < opened.len());
            assert(opened2[j] == opened[j]);
            assert(j < cs.len());
            assert(cs2[j].items.len() >= cs[j].items.len());
            assert(count_to(dest2, t, j) == count_to(dest, t, j));
            let full = cs[j].items.len() as int;
            assert(cs2[j].items@.subrange(0, full) == cs[j].items@);
            assert(cs2[j].items@.subrange(0, len) =~= cs[j].items@.subrange(0, len));
        }
    }
    assert forall|t: int| 0 <= t < dest.len() implies #[trigger] slot_ok(kinds, opened2, cs2, unpacked2, copies2, dest2, t) by {
        assert(slot_ok(kinds, opened, cs, unpacked, copies, dest, t));
        let d = dest[t];
        if d >= 0 {
            let at = kinds[opened[d]].spec.items.len() + count_to(dest, t, d);
            assert(count_to(dest2, t, d) == count_to(dest, t, d));
            let full = cs[d].items.len() as int;
            assert(opened2[d] == opened[d]);
            lemma_count_to_bounds(dest, t, d);
            assert(cs2[d].items.len() >= cs[d].items.len());
            assert(cs2[d].items@.subrange(0, full) == cs[d].items@);
            assert(at < full);
            assert(cs2[d].items@[at] == cs2[d].items@.subrange(0, full)[at]);
        } else if d == -1 {
            assert(count_to(dest2, t, -1) == count_to(dest, t, -1));
            let u = count_to(dest, t, -1);
            lemma_count_to_bounds(dest, t, -1);
            assert(unpacked2[u] == unpacked2.subrange(0, unpacked.len() as int)[u]);
        }
    }
}

/// What each of the containers `cs` holds.
pub open spec fn contents_of<T>(cs: Seq<Container<T>>) -> Seq<Seq<Item<T>>> {
    Seq::new(cs.len(), |k: int| cs[k].items@)
}

/// Counting `x` among the entries of `s` one by one gives its multiplicity.
pub proof fn lemma_count_to_multiset(s: Seq<int>, x: int)
    ensures
        count_to(s, s.len() as int, x) == s.to_multiset().count(x),
    decreases s.len(),
{
    broadcast use vstd::multiset::group_multiset_axioms;
    if s.len() == 0 {
        assert(s.to_multiset() =~= vstd::multiset::Multiset::empty()) by {
            broadcast use vstd::seq_lib::group_to_multiset_ensures;
        }
    } else {
        let p = s.drop_last();
        lemma_count_to_multiset(p, x);
        lemma_count_to_prefix(p, s);
        assert(count_to(s, p.len() as int, x) == count_to(p, p.len() as int, x));
        vstd::seq_lib::to_multiset_build(p, s.last());
        assert(p.push(s.last()) =~= s);
        assert(s.to_multiset() == p.to_multiset().insert(s.last()));
    }
}

/// What the three steps below share: the record so far is a greedy trace,
/// one container was opened per entry of `opened`, each from the kind that
/// `opened` names, and `item` was rejected by every open container.
pub open spec fn step_ready<T: Default, E, C, P>(
    exceeds: E,
    collides: C,
    pivot: P,
    kinds: Seq<ContainerSpec<T>>,
    opened: Seq<int>,
    copies: Seq<Item<T>>,
    cs: Seq<Container<T>>,
    unpacked: Seq<Item<T>>,
    dest: Seq<int>,
    hist: Seq<Seq<Seq<Item<T>>>>,
) -> bool
    where
        E: Fn(&Vector3<T>, &Vector3<T>, &Vector3<T>) -> bool,
        C: Fn(&Item<T>, &Item<T>) -> bool,
        P: Fn(&Axis, &Vector3<T>, &Vector3<T>) -> Vector3<T>,
{
    &&& greedy_trace(exceeds, collides, pivot, kinds, opened, copies, cs, unpacked, dest, hist)
    &&& opened.len() == cs.len()
    &&& forall|k: int| 0 <= k < opened.len() ==> 0 <= #[trigger] opened[k] < kinds.len()
    &&& forall|k: int| 0 <= k < cs.len() ==> (#[trigger] cs[k]).dim == kinds[opened[k]].spec.dim
}

/// A copy that the open container `j` took, after every open container
/// before it rejected it, extends the trace.
pub proof fn lemma_step_placed<T: Default, E, C, P>(
    exceeds: E,
    collides: C,
    pivot: P,
    kinds: Seq<ContainerSpec<T>>,
    opened: Seq<int>,
    copies: Seq<Item<T>>,
    cs: Seq<Container<T>>,
    cs2: Seq<Container<T>>,
    unpacked: Seq<Item<T>>,
    dest: Seq<int>,
    hist: Seq<Seq<Seq<Item<T>>>>,
    item: Item<T>,
    placed: Item<T>,
    j: int,
)
    where
        E: Fn(&Vector3<T>, &Vector3<T>, &Vector3<T>) -> bool,
        C: Fn(&Item<T>, &Item<T>) -> bool,
        P: Fn(&Axis, &Vector3<T>, &Vector3<T>) -> Vector3<T>,
    requires
        step_ready(exceeds, collides, pivot, kinds, opened, copies, cs, unpacked, dest, hist),
        0 <= j < cs.len(),
        cs2.len() == cs.len(),
        cs2[j].items@ == cs[j].items@.push(placed),
        forall|k: int| 0 <= k < cs.len() && k != j ==> (#[trigger] cs2[k]).items@ == cs[k].items@,
        forall|k: int| 0 <= k < cs.len() ==> (#[trigger] cs2[k]).dim == cs[k].dim,
        same_sides(placed, item),
        forall|k: int| 0 <= k < j ==> rejects(exceeds, collides, pivot, (#[trigger] cs[k]).dim, cs[k].items@, item),
    ensures
        step_ready(exceeds, collides, pivot, kinds, opened, copies.push(item), cs2, unpacked, dest.push(j),
            hist.push(contents_of(cs))),
{
    let cur = dest.len() as int;
    let n = cs.len() as int;
    let copies2 = copies.push(item);
    let dest2 = dest.push(j);
    let hist2 = hist.push(contents_of(cs));
    lemma_count_to_prefix(dest, dest2);
    lemma_opened_by_prefix(dest, dest2);
    assert forall|k: int| 0 <= k < cs.len() implies (#[trigger] cs2[k]).items.len() >= cs[k].items.len()
        && cs2[k].items@.subrange(0, cs[k].items.len() as int) == cs[k].items@ by {
        assert(cs2[k].items@.subrange(0, cs[k].items.len() as int) =~= cs[k].items@);
    }
    assert(unpacked.subrange(0, unpacked.len() as int) =~= unpacked);
    lemma_trace_extend(exceeds, collides, pivot, kinds, opened, opened, copies, copies2, cs, cs2, unpacked,
        unpacked, dest, dest2, hist, hist2);
    assert(opened_by(dest2, cur) == n);
    assert(dest2[cur] == j);
    assert(opened_by(dest2, cur + 1) == n);
    assert forall|k: int| 0 <= k < cs2.len() implies (#[trigger] cs2[k]).items.len()
        == kinds[opened[k]].spec.items.len() + count_to(dest2, cur + 1, k) by {
        assert(cs[k].items.len() == kinds[opened[k]].spec.items.len() + count_to(dest, cur, k));
        assert(count_to(dest2, cur, k) == count_to(dest, cur, k));
        if k == j {
            assert(cs2[k].items.len() == cs[k].items.len() + 1);
        } else {
            assert(cs2[k].items@ == cs[k].items@);
        }
    }
    assert(count_to(dest2, cur, -1) == count_to(dest, cur, -1));
    assert(unpacked.len() == count_to(dest2, cur + 1, -1));
    assert forall|k: int| 0 <= k < cs2.len() implies (#[trigger] cs2[k]).dim == kinds[opened[k]].spec.dim by {
        assert(cs[k].dim == kinds[opened[k]].spec.dim);
    }
    assert(first_fit_step(exceeds, collides, pivot, kinds, opened, copies2, dest2, hist2, cur)) by {
        assert(hist2[cur] == contents_of(cs));
        assert forall|k: int| 0 <= k < n && (dest2[cur] == -1 || k < dest2[cur]) implies rejects(exceeds,
            collides, pivot, kinds[opened[k]].spec.dim, #[trigger] hist2[cur][k], copies2[cur]) by {
            assert(cs[k].dim == kinds[opened[k]].spec.dim);
        }
    }
    assert(history_ok(kinds, opened, cs2, dest2, hist2, cur)) by {
        assert forall|k: int| 0 <= k < hist2[cur].len() implies #[trigger] hist_entry_ok(kinds, opened, cs2,
            dest2, hist2, cur, k) by {
            assert(cs[k].items.len() == kinds[opened[k]].spec.items.len() + count_to(dest, cur, k));
            assert(cs2[k].items@.subrange(0, cs[k].items.len() as int) =~= cs[k].items@);
        }
    }
    assert(slot_ok(kinds, opened, cs2, unpacked, copies2, dest2, cur)) by {
        assert(cs[j].items.len() == kinds[opened[j]].spec.items.len() + count_to(dest, cur, j));
    }
    assert forall|t: int| 0 <= t < cur + 1 implies -1 <= #[trigger] dest2[t] < cs2.len() by {
        if t < cur {
            assert(dest2[t] == dest[t]);
        }
    }
    assert forall|t: int| 0 <= t < cur + 1 implies #[trigger] first_fit_step(exceeds, collides, pivot, kinds,
        opened, copies2, dest2, hist2, t) by {}
    assert forall|t: int| 0 <= t < cur + 1 implies #[trigger] history_ok(kinds, opened, cs2, dest2, hist2, t) by {}
    assert forall|t: int| 0 <= t < cur + 1 implies #[trigger] slot_ok(kinds, opened, cs2, unpacked, copies2,
        dest2, t) by {}
    assert(copies2.len() == dest2.len());
    assert(hist2.len() == dest2.len());
    assert(cs2.len() == opened_by(dest2, dest2.len() as int));
    assert(greedy_trace(exceeds, collides, pivot, kinds, opened, copies2, cs2, unpacked, dest2, hist2));
    assert(opened.len() == cs2.len());
    assert(step_ready(exceeds, collides, pivot, kinds, opened, copies2, cs2, unpacked, dest2, hist2));
}

/// A copy that every open container rejected, and that a fresh container
/// of kind `s` took, after every earlier kind with one left rejected it,
/// extends the trace.
pub proof fn lemma_step_opened<T: Default, E, C, P>(
    exceeds: E,
    collides: C,
    pivot: P,
    kinds: Seq<ContainerSpec<T>>,
    opened: Seq<int>,
    copies: Seq<Item<T>>,
    cs: Seq<Container<T>>,
    cs2: Seq<Container<T>>,
    unpacked: Seq<Item<T>>,
    dest: Seq<int>,
    hist: Seq<Seq<Seq<Item<T>>>>,
    item: Item<T>,
    placed: Item<T>,
    s: int,
)
    where
        E: Fn(&Vector3<T>, &Vector3<T>, &Vector3<T>) -> bool,
        C: Fn(&Item<T>, &Item<T>) -> bool,
        P: Fn(&Axis, &Vector3<T>, &Vector3<T>) -> Vector3<T>,
    requires
        step_ready(exceeds, collides, pivot, kinds, opened, copies, cs, unpacked, dest, hist),
        forall|k: int| 0 <= k < cs.len() ==> rejects(exceeds, collides, pivot, (#[trigger] cs[k]).dim, cs[k].items@, item),
        0 <= s < kinds.len(),
        left_at(kinds, opened, s, cs.len() as int) > 0,
        forall|r: int| 0 <= r < s && left_at(kinds, opened, r, cs.len() as int) > 0 ==> rejects(exceeds, collides,
            pivot, (#[trigger] kinds[r]).spec.dim, kinds[r].spec.items@, item),
        cs2.len() == cs.len() + 1,
        forall|k: int| 0 <= k < cs.len() ==> (#[trigger] cs2[k]).items@ == cs[k].items@ && cs2[k].dim == cs[k].dim,
        cs2[cs.len() as int].dim == kinds[s].spec.dim,
        cs2[cs.len() as int].items@ == kinds[s].spec.items@.push(placed),
        same_sides(placed, item),
    ensures
        step_ready(exceeds, collides, pivot, kinds, opened.push(s), copies.push(item), cs2, unpacked,
            dest.push(cs.len() as int), hist.push(contents_of(cs))),
{
    let cur = dest.len() as int;
    let n = cs.len() as int;
    let opened2 = opened.push(s);
    let copies2 = copies.push(item);
    let dest2 = dest.push(n);
    let hist2 = hist.push(contents_of(cs));
    lemma_count_to_prefix(dest, dest2);
    lemma_count_to_prefix(opened, opened2);
    lemma_opened_by_prefix(dest, dest2);
    assert forall|k: int| 0 <= k < cs.len() implies (#[trigger] cs2[k]).items.len() >= cs[k].items.len()
        && cs2[k].items@.subrange(0, cs[k].items.len() as int) == cs[k].items@ by {
        assert(cs2[k].items@.subrange(0, cs[k].items.len() as int) =~= cs[k].items@);
    }
    assert(unpacked.subrange(0, unpacked.len() as int) =~= unpacked);
    lemma_trace_extend(exceeds, collides, pivot, kinds, opened, opened2, copies, copies2, cs, cs2, unpacked,
        unpacked, dest, dest2, hist, hist2);
    assert(opened_by(dest2, cur) == n);
    assert(dest2[cur] == n);
    assert(opened_by(dest2, cur + 1) == n + 1);
    assert forall|t: int| 0 <= t < cur implies dest[t] != n by {
        assert(-1 <= dest[t] < cs.len());
    }
    lemma_count_to_absent(dest, cur, n);
    assert forall|k: int| 0 <= k < cs2.len() implies (#[trigger] cs2[k]).items.len()
        == kinds[opened2[k]].spec.items.len() + count_to(dest2, cur + 1, k) by {
        assert(count_to(dest2, cur, k) == count_to(dest, cur, k));
        if k < n {
            assert(cs[k].items.len() == kinds[opened[k]].spec.items.len() + count_to(dest, cur, k));
            assert(cs2[k].items@ == cs[k].items@);
        }
    }
    assert(count_to(dest2, cur, -1) == count_to(dest, cur, -1));
    assert(unpacked.len() == count_to(dest2, cur + 1, -1));
    assert forall|r: int| 0 <= r < kinds.len() implies left_at(kinds, opened2, r, n) == left_at(kinds, opened, r, n) by {
        assert(count_to(opened2, n, r) == count_to(opened, n, r));
    }
    assert(first_fit_step(exceeds, collides, pivot, kinds, opened2, copies2, dest2, hist2, cur)) by {
        assert(hist2[cur] == contents_of(cs));
        assert forall|k: int| 0 <= k < n && (dest2[cur] == -1 || k < dest2[cur]) implies rejects(exceeds,
            collides, pivot, kinds[opened2[k]].spec.dim, #[trigger] hist2[cur][k], copies2[cur]) by {
            assert(cs[k].dim == kinds[opened[k]].spec.dim);
            assert(rejects(exceeds, collides, pivot, cs[k].dim, cs[k].items@, item));
        }
        assert forall|r: int| 0 <= r < opened2[n] && left_at(kinds, opened2, r, n) > 0 implies rejects(exceeds,
            collides, pivot, (#[trigger] kinds[r]).spec.dim, kinds[r].spec.items@, copies2[cur]) by {
            assert(left_at(kinds, opened, r, n) > 0);
        }
    }
    assert(history_ok(kinds, opened2, cs2, dest2, hist2, cur)) by {
        assert forall|k: int| 0 <= k < hist2[cur].len() implies #[trigger] hist_entry_ok(kinds, opened2, cs2,
            dest2, hist2, cur, k) by {
            assert(cs[k].items.len() == kinds[opened[k]].spec.items.len() + count_to(dest, cur, k));
            assert(cs2[k].items@ == cs[k].items@);
            assert(cs2[k].items@.subrange(0, cs[k].items.len() as int) =~= cs[k].items@);
        }
    }
    assert(slot_ok(kinds, opened2, cs2, unpacked, copies2, dest2, cur)) by {
        assert(count_to(dest2, cur, n) == 0);
        assert(opened2[n] == s);
    }
    assert forall|t: int| 0 <= t < cur + 1 implies -1 <= #[trigger] dest2[t] < cs2.len() by {
        if t < cur {
            assert(dest2[t] == dest[t]);
        }
    }
    assert forall|t: int| 0 <= t < cur + 1 implies #[trigger] first_fit_step(exceeds, collides, pivot, kinds,
        opened2, copies2, dest2, hist2, t) by {}
    assert forall|t: int| 0 <= t < cur + 1 implies #[trigger] history_ok(kinds, opened2, cs2, dest2, hist2, t) by {}
    assert forall|t: int| 0 <= t < cur + 1 implies #[trigger] slot_ok(kinds, opened2, cs2, unpacked, copies2,
        dest2, t) by {}
    assert(copies2.len() == dest2.len());
    assert(hist2.len() == dest2.len());
    assert(greedy_trace(exceeds, collides, pivot, kinds, opened2, copies2, cs2, unpacked, dest2, hist2));
    assert forall|k: int| 0 <= k < opened2.len() implies 0 <= #[trigger] opened2[k] < kinds.len() by {
        if k < n {
            assert(opened2[k] == opened[k]);
        }
    }
    assert forall|k: int| 0 <= k < cs2.len() implies (#[trigger] cs2[k]).dim == kinds[opened2[k]].spec.dim by {
        if k < n {
            assert(cs[k].dim == kinds[opened[k]].spec.dim);
        }
    }
}

/// A copy that every open container and every kind with one left
/// rejected, and that was put among the unpacked items, extends the trace.
pub proof fn lemma_step_left<T: Default, E, C, P>(
    exceeds: E,
    collides: C,
    pivot: P,
    kinds: Seq<ContainerSpec<T>>,
    opened: Seq<int>,
    copies: Seq<Item<T>>,
    cs: Seq<Container<T>>,
    cs2: Seq<Container<T>>,
    unpacked: Seq<Item<T>>,
    dest: Seq<int>,
    hist: Seq<Seq<Seq<Item<T>>>>,
    item: Item<T>,
    left: Item<T>,
)
    where
        E: Fn(&Vector3<T>, &Vector3<T>, &Vector3<T>) -> bool,
        C: Fn(&Item<T>, &Item<T>) -> bool,
        P: Fn(&Axis, &Vector3<T>, &Vector3<T>) -> Vector3<T>,
    requires
        step_ready(exceeds, collides, pivot, kinds, opened, copies, cs, unpacked, dest, hist),
        forall|k: int| 0 <= k < cs.len() ==> rejects(exceeds, collides, pivot, (#[trigger] cs[k]).dim, cs[k].items@, item),
        forall|r: int| 0 <= r < kinds.len() && left_at(kinds, opened, r, cs.len() as int) > 0 ==> rejects(exceeds,
            collides, pivot, (#[trigger] kinds[r]).spec.dim, kinds[r].spec.items@, item),
        cs2.len() == cs.len(),
        forall|k: int| 0 <= k < cs.len() ==> (#[trigger] cs2[k]).items@ == cs[k].items@ && cs2[k].dim == cs[k].dim,
        same_sides(left, item),
        left.pos.is_origin() || left == item,
    ensures
        step_ready(exceeds, collides, pivot, kinds, opened, copies.push(item), cs2, unpacked.push(left),
            dest.push(-1), hist.push(contents_of(cs))),
{
    let cur = dest.len() as int;
    let n = cs.len() as int;
    let copies2 = copies.push(item);
    let unpacked2 = unpacked.push(left);
    let dest2 = dest.push(-1);
    let hist2 = hist.push(contents_of(cs));
    lemma_count_to_prefix(dest, dest2);
    lemma_opened_by_prefix(dest, dest2);
    assert forall|k: int| 0 <= k < cs.len() implies (#[trigger] cs2[k]).items.len() >= cs[k].items.len()
        && cs2[k].items@.subrange(0, cs[k].items.len() as int) == cs[k].items@ by {
        assert(cs2[k].items@.subrange(0, cs[k].items.len() as int) =~= cs[k].items@);
    }
    assert(unpacked2.subrange(0, unpacked.len() as int) =~= unpacked);
    lemma_trace_extend(exceeds, collides, pivot, kinds, opened, opened, copies, copies2, cs, cs2, unpacked,
        unpacked2, dest, dest2, hist, hist2);
    assert(opened_by(dest2, cur) == n);
    assert(dest2[cur] == -1);
    assert(opened_by(dest2, cur + 1) == n);
    assert forall|k: int| 0 <= k < cs2.len() implies (#[trigger] cs2[k]).items.len()
        == kinds[opened[k]].spec.items.len() + count_to(dest2, cur + 1, k) by {
        assert(count_to(dest2, cur, k) == count_to(dest, cur, k));
        assert(cs[k].items.len() == kinds[opened[k]].spec.items.len() + count_to(dest, cur, k));
        assert(cs2[k].items@ == cs[k].items@);
    }
    assert(count_to(dest2, cur, -1) == count_to(dest, cur, -1));
    assert(unpacked2.len() == count_to(dest2, cur + 1, -1));
    assert(first_fit_step(exceeds, collides, pivot, kinds, opened, copies2, dest2, hist2, cur)) by {
        assert(hist2[cur] == contents_of(cs));
        assert forall|k: int| 0 <= k < n && (dest2[cur] == -1 || k < dest2[cur]) implies rejects(exceeds,
            collides, pivot, kinds[opened[k]].spec.dim, #[trigger] hist2[cur][k], copies2[cur]) by {
            assert(cs[k].dim == kinds[opened[k]].spec.dim);
            assert(rejects(exceeds, collides, pivot, cs[k].dim, cs[k].items@, item));
        }
    }
    assert(history_ok(kinds, opened, cs2, dest2, hist2, cur)) by {
        assert forall|k: int| 0 <= k < hist2[cur].len() implies #[trigger] hist_entry_ok(kinds, opened, cs2,
            dest2, hist2, cur, k) by {
            assert(cs[k].items.len() == kinds[opened[k]].spec.items.len() + count_to(dest, cur, k));
            assert(cs2[k].items@ == cs[k].items@);
            assert(cs2[k].items@.subrange(0, cs[k].items.len() as int) =~= cs[k].items@);
        }
    }
    assert(slot_ok(kinds, opened, cs2, unpacked2, copies2, dest2, cur));
    assert forall|t: int| 0 <= t < cur + 1 implies -1 <= #[trigger] dest2[t] < cs2.len() by {
        if t < cur {
            assert(dest2[t] == dest[t]);
        }
    }
    assert forall|t: int| 0 <= t < cur + 1 implies #[trigger] first_fit_step(exceeds, collides, pivot, kinds,
        opened, copies2, dest2, hist2, t) by {}
    assert forall|t: int| 0 <= t < cur + 1 implies #[trigger] history_ok(kinds, opened, cs2, dest2, hist2, t) by {}
    assert forall|t: int| 0 <= t < cur + 1 implies #[trigger] slot_ok(kinds, opened, cs2, unpacked2, copies2,
        dest2, t) by {}
    assert(copies2.len() == dest2.len());
    assert(hist2.len() == dest2.len());
    assert(greedy_trace(exceeds, collides, pivot, kinds, opened, copies2, cs2, unpacked2, dest2, hist2));
    assert forall|k: int| 0 <= k < cs2.len() implies (#[trigger] cs2[k]).dim == kinds[opened[k]].spec.dim by {
        assert(cs[k].dim == kinds[opened[k]].spec.dim);
    }
}

} // verus!
