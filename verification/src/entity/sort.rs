use vstd::prelude::*;
use vstd::multiset::Multiset;

use crate::entity::container::ContainerSpec;
use crate::entity::item::ItemSpec;
use crate::entity::measure::smaller_total;
use crate::entity::vector3::Vector3;

verus! {

/// `a` may come before `b` in a list ordered by `smaller`: `smaller` may
/// have answered that `a` is the smaller, or that `b` is not.
pub open spec fn in_order<T, L>(smaller: L, a: Vector3<T>, b: Vector3<T>) -> bool
    where L: Fn(&Vector3<T>, &Vector3<T>) -> bool,
{
    call_ensures(smaller, (&a, &b), true) || call_ensures(smaller, (&b, &a), false)
}

/// Each pair of neighbours in `s` is in order by size.
pub open spec fn sorted_by_size<T, A: HasSize<T>, L>(smaller: L, s: Seq<A>) -> bool
    where L: Fn(&Vector3<T>, &Vector3<T>) -> bool,
{
    forall|i: int| 0 <= i < s.len() - 1 ==> #[trigger] in_order(smaller, s[i].size(), s[i + 1].size())
}

/// `after` is `before` rearranged by `perm` (`after[k]` is `before[perm[k]]`,
/// each element of `before` taken once), and two elements changed their
/// relative order only if the one moved ahead was reported smaller than
/// the other: elements neither of which is smaller keep their order.
pub open spec fn stably_rearranged<T, A: HasSize<T>, L>(smaller: L, before: Seq<A>, after: Seq<A>, perm: Seq<int>) -> bool
    where L: Fn(&Vector3<T>, &Vector3<T>) -> bool,
{
    &&& after.len() == before.len()
    &&& perm.len() == after.len()
    &&& forall|k: int| 0 <= k < perm.len() ==> 0 <= #[trigger] perm[k] < before.len() && after[k] == before[perm[k]]
    &&& forall|k1: int, k2: int| 0 <= k1 < k2 < perm.len() ==> #[trigger] perm[k1] != #[trigger] perm[k2]
    &&& forall|k1: int, k2: int| 0 <= k1 < k2 < perm.len() && #[trigger] perm[k1] > #[trigger] perm[k2]
        ==> call_ensures(smaller, (&after[k1].size(), &after[k2].size()), true)
}

/// Kinds of items and of containers are ordered by the size of their box.
pub trait HasSize<T> {
    spec fn size(&self) -> Vector3<T>;

    fn size_ref(&self) -> (r: &Vector3<T>)
        ensures
            *r == self.size(),
    ;
}

impl<T> HasSize<T> for ItemSpec<T> {
    open spec fn size(&self) -> Vector3<T> {
        self.spec.dim
    }

    fn size_ref(&self) -> (r: &Vector3<T>) {
        &self.spec.dim
    }
}

impl<T> HasSize<T> for ContainerSpec<T> {
    open spec fn size(&self) -> Vector3<T> {
        self.spec.dim
    }

    fn size_ref(&self) -> (r: &Vector3<T>) {
        &self.spec.dim
    }
}

/// Sorts `v` by the size of its elements, smallest first, keeping the
/// order of elements of equal size: a stable insertion sort.
pub fn sort_by_size<T, A: HasSize<T>, L>(v: &mut Vec<A>, smaller: &L)
    where L: Fn(&Vector3<T>, &Vector3<T>) -> bool,
    requires
        smaller_total(*smaller),
    ensures
        final(v)@.to_multiset() == old(v)@.to_multiset(),
        sorted_by_size(*smaller, final(v)@),
        exists|perm: Seq<int>| #[trigger] stably_rearranged(*smaller, old(v)@, final(v)@, perm),
{
    broadcast use vstd::seq_lib::group_to_multiset_ensures;
    let mut sorted: Vec<A> = Vec::new();
    let ghost mut perm: Seq<int> = Seq::empty();
    let ghost n = old(v)@.len();
    while v.len() > 0
        invariant
            smaller_total(*smaller),
            n == old(v)@.len(),
            old(v)@.to_multiset() == v@.to_multiset().add(sorted@.to_multiset()),
            sorted_by_size(*smaller, sorted@),
            v@ == old(v)@.subrange(0, v.len() as int),
            perm.len() == sorted.len(),
            v.len() + sorted.len() == n,
            forall|k: int| 0 <= k < perm.len() ==> v.len() <= #[trigger] perm[k] < n && sorted@[k] == old(v)@[perm[k]],
            forall|k1: int, k2: int| 0 <= k1 < k2 < perm.len() ==> #[trigger] perm[k1] != #[trigger] perm[k2],
            forall|k1: int, k2: int| 0 <= k1 < k2 < perm.len() && #[trigger] perm[k1] > #[trigger] perm[k2]
                ==> call_ensures(*smaller, (&sorted@[k1].size(), &sorted@[k2].size()), true),
        decreases v.len(),
    {
        let ghost before = v@;
        let x = v.pop().unwrap();
        assert(before =~= v@.push(x));
        let ghost p: int = v.len() as int;
        assert(x == old(v)@[p]);
        assert(v@ =~= old(v)@.subrange(0, v.len() as int));
        let mut j: usize = 0;
        loop
            invariant
                smaller_total(*smaller),
                j <= sorted.len(),
                forall|m: int| 0 <= m < j ==> call_ensures(*smaller, (&sorted@[m].size(), &x.size()), true),
            ensures
                j <= sorted.len(),
                forall|m: int| 0 <= m < j ==> call_ensures(*smaller, (&sorted@[m].size(), &x.size()), true),
                j < sorted.len() ==> call_ensures(*smaller, (&sorted@[j as int].size(), &x.size()), false),
            decreases sorted.len() - j,
        {
            if j >= sorted.len() {
                break;
            }
            if !smaller(sorted[j].size_ref(), x.size_ref()) {
                break;
            }
            j = j + 1;
        }
        let ghost prev = sorted@;
        let ghost prev_perm = perm;
        sorted.insert(j, x);
        proof {
            perm = perm.insert(j as int, p);
            prev_perm.insert_ensures(j as int, p);
            assert forall|k: int| 0 <= k < perm.len() implies v.len() <= #[trigger] perm[k] < n
                && sorted@[k] == old(v)@[perm[k]] by {
                if k < j {
                    assert(perm[k] == prev_perm[k]);
                } else if k > j {
                    assert(perm[k] == prev_perm[k - 1]);
                }
            }
            assert forall|k1: int, k2: int| 0 <= k1 < k2 < perm.len() implies #[trigger] perm[k1] != #[trigger] perm[k2] by {
                if k1 != j && k2 != j {
                    let a = if k1 < j { k1 } else { k1 - 1 };
                    let b = if k2 < j { k2 } else { k2 - 1 };
                    assert(perm[k1] == prev_perm[a] && perm[k2] == prev_perm[b]);
                } else if k1 == j {
                    assert(perm[k2] == prev_perm[k2 - 1]);
                } else {
                    assert(perm[k1] == prev_perm[k1]);
                }
            }
            assert forall|k1: int, k2: int| 0 <= k1 < k2 < perm.len() && #[trigger] perm[k1] > #[trigger] perm[k2]
                implies call_ensures(*smaller, (&sorted@[k1].size(), &sorted@[k2].size()), true) by {
                if k1 != j && k2 != j {
                    let a = if k1 < j { k1 } else { k1 - 1 };
                    let b = if k2 < j { k2 } else { k2 - 1 };
                    assert(perm[k1] == prev_perm[a] && perm[k2] == prev_perm[b]);
                    assert(sorted@[k1] == prev[a] && sorted@[k2] == prev[b]);
                } else if k1 == j {
                    assert(perm[k2] == prev_perm[k2 - 1]);
                } else {
                    assert(perm[k1] == prev_perm[k1]);
                    assert(sorted@[k1] == prev[k1]);
                }
            }
            vstd::seq_lib::to_multiset_insert(prev, j as int, x);
            prev.insert_ensures(j as int, x);
            vstd::seq_lib::to_multiset_build(v@, x);
            assert(before.to_multiset() =~= v@.to_multiset().insert(x));
            assert(old(v)@.to_multiset() =~= v@.to_multiset().add(sorted@.to_multiset()));
            assert forall|i: int| 0 <= i < sorted@.len() - 1 implies #[trigger] in_order(
                *smaller, sorted@[i].size(), sorted@[i + 1].size()) by {
                if i < j - 1 {
                    assert(in_order(*smaller, prev[i].size(), prev[i + 1].size()));
                } else if i == j - 1 {
                    assert(call_ensures(*smaller, (&prev[i].size(), &x.size()), true));
                } else if i == j {
                } else {
                    assert(in_order(*smaller, prev[i - 1].size(), prev[i].size()));
                }
            }
        }
    }
    assert(v@.to_multiset() =~= Multiset::<A>::empty());
    assert(stably_rearranged(*smaller, old(v)@, sorted@, perm));
    *v = sorted;
}

} // verus!
