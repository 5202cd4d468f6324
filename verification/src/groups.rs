//! Groups of things, and all their members in a row.

use vstd::prelude::*;

verus! {

/// The members of some groups, in order.
pub open spec fn concat<T>(groups: Seq<Seq<T>>) -> Seq<T>
    decreases groups.len(),
{
    if groups.len() == 0 {
        Seq::empty()
    } else {
        concat(groups.drop_last()) + groups.last()
    }
}

/// Where the `i`-th member of group `k` stands among all of them.
pub open spec fn place<T>(groups: Seq<Seq<T>>, k: int, i: int) -> int {
    concat(groups.take(k)).len() + i
}

/// The members of the first groups are the first members.
pub proof fn lemma_concat_prefix<T>(groups: Seq<Seq<T>>, n: int, m: int)
    requires
        0 <= n <= m <= groups.len(),
    ensures
        concat(groups.take(n)).len() <= concat(groups.take(m)).len(),
        forall|i: int|
            0 <= i < concat(groups.take(n)).len() ==> concat(groups.take(n))[i] == concat(
                groups.take(m),
            )[i],
    decreases m - n,
{
    if n < m {
        lemma_concat_prefix(groups, n, m - 1);
        assert(groups.take(m).drop_last() =~= groups.take(m - 1));
    }
}

/// A member stands where its place says, before the members of later groups.
pub proof fn lemma_place<T>(groups: Seq<Seq<T>>, k: int, i: int)
    requires
        0 <= k < groups.len(),
        0 <= i < groups[k].len(),
    ensures
        0 <= place(groups, k, i) < concat(groups).len(),
        place(groups, k, i) < concat(groups.take(k + 1)).len(),
        concat(groups)[place(groups, k, i)] == groups[k][i],
{
    assert(groups.take(k + 1).drop_last() =~= groups.take(k));
    assert(groups.take(groups.len() as int) =~= groups);
    lemma_concat_prefix(groups, k + 1, groups.len() as int);
    assert(concat(groups.take(k + 1))[place(groups, k, i)] == groups[k][i]);
}

/// Every member stands in some group.
pub proof fn lemma_place_of<T>(groups: Seq<Seq<T>>, p: int) -> (at: (int, int))
    requires
        0 <= p < concat(groups).len(),
    ensures
        0 <= at.0 < groups.len(),
        0 <= at.1 < groups[at.0].len(),
        place(groups, at.0, at.1) == p,
    decreases groups.len(),
{
    let front = groups.drop_last();
    assert(groups.take(groups.len() - 1) =~= front);
    if p < concat(front).len() {
        let (k, i) = lemma_place_of(front, p);
        assert(front.take(k) =~= groups.take(k));
        (k, i)
    } else {
        (groups.len() - 1, p - concat(front).len())
    }
}

/// Groups of the same sizes have their members in the same places.
pub proof fn lemma_same_places<T, U>(groups: Seq<Seq<T>>, others: Seq<Seq<U>>)
    requires
        groups.len() == others.len(),
        forall|k: int| 0 <= k < groups.len() ==> (#[trigger] groups[k]).len() == others[k].len(),
    ensures
        concat(groups).len() == concat(others).len(),
    decreases groups.len(),
{
    if groups.len() > 0 {
        assert(groups[groups.len() - 1].len() == others[groups.len() - 1].len());
        lemma_same_places(groups.drop_last(), others.drop_last());
    }
}

/// The members in a row are those of one group after the other.
pub proof fn groups_are_joined_in_order<T>(left: Seq<Seq<T>>, right: Seq<Seq<T>>, group: Seq<T>)
    ensures
        concat(Seq::<Seq<T>>::empty()) == Seq::<T>::empty(),
        concat(seq![group]) == group,
        concat(left + right) == concat(left) + concat(right),
    decreases right.len(),
{
    let one = seq![group];
    assert(one.drop_last() =~= Seq::<Seq<T>>::empty());
    assert(concat(one.drop_last()) =~= Seq::<T>::empty());
    assert(concat(one) =~= group);
    if right.len() == 0 {
        assert(left + right =~= left);
        assert(concat(left) + concat(right) =~= concat(left));
    } else {
        assert((left + right).drop_last() =~= left + right.drop_last());
        groups_are_joined_in_order(left, right.drop_last(), group);
        assert(concat(left + right) =~= concat(left) + concat(right));
    }
}

} // verus!
