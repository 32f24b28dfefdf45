//! Exchanging two elements of a vector, and what that does to the
//! multiset of its elements.

use vstd::prelude::*;
use vstd::multiset::Multiset;
use vstd::seq_lib::group_to_multiset_ensures;
use vstd::seq_lib::lemma_seq_union_to_multiset_commutative;

verus! {

/// Exchanges the elements at positions `i` and `j`.
pub fn exchange<T>(v: &mut Vec<T>, i: usize, j: usize)
    requires
        i < old(v)@.len(),
        j < old(v)@.len(),
    ensures
        final(v)@ == old(v)@.update(i as int, old(v)@[j as int]).update(
            j as int,
            old(v)@[i as int],
        ),
{
    let ghost s = v@;
    if i < j {
        let b = v.remove(j);
        let a = v.remove(i);
        v.insert(i, b);
        v.insert(j, a);
        proof {
            assert(v@ =~= s.update(i as int, s[j as int]).update(j as int, s[i as int]));
        }
    } else if j < i {
        let b = v.remove(i);
        let a = v.remove(j);
        v.insert(j, b);
        v.insert(i, a);
        proof {
            assert(v@ =~= s.update(i as int, s[j as int]).update(j as int, s[i as int]));
        }
    } else {
        proof {
            assert(v@ =~= s.update(i as int, s[j as int]).update(j as int, s[i as int]));
        }
    }
}

/// An empty sequence holds the empty multiset.
pub proof fn lemma_empty_to_multiset<A>()
    ensures
        Seq::<A>::empty().to_multiset() == Multiset::<A>::empty(),
{
    broadcast use group_to_multiset_ensures;

    assert forall|x: A| Seq::<A>::empty().to_multiset().count(x) == 0 by {
        assert(!Seq::<A>::empty().contains(x));
    }
    assert(Seq::<A>::empty().to_multiset() =~= Multiset::<A>::empty());
}

/// Writing a fresh value at position `i` replaces one copy of the old
/// value in the multiset of elements.
pub proof fn lemma_update_to_multiset<A>(s: Seq<A>, i: int, a: A)
    requires
        0 <= i < s.len(),
    ensures
        s.update(i, a).to_multiset() == s.to_multiset().remove(s[i]).insert(a),
{
    broadcast use group_to_multiset_ensures;

    assert(s.update(i, a) =~= s.remove(i).insert(i, a));
}

/// Exchanging two positions leaves the multiset of elements unchanged.
pub proof fn lemma_exchange_to_multiset<A>(s: Seq<A>, i: int, j: int)
    requires
        0 <= i < s.len(),
        0 <= j < s.len(),
    ensures
        s.update(i, s[j]).update(j, s[i]).to_multiset() == s.to_multiset(),
{
    broadcast use group_to_multiset_ensures;
    broadcast use vstd::multiset::group_multiset_axioms;

    if i == j {
        assert(s.update(i, s[j]).update(j, s[i]) =~= s);
    } else {
        let s1 = s.update(i, s[j]);
        lemma_update_to_multiset(s, i, s[j]);
        lemma_update_to_multiset(s1, j, s[i]);
        assert(s1[j] == s[j]);
        assert(s1.update(j, s[i]).to_multiset() =~= s.to_multiset());
    }
}

/// Exchanging two positions inside a window leaves the multiset of the
/// window's elements unchanged.
pub proof fn lemma_exchange_within_window<A>(s: Seq<A>, lo: int, hi: int, i: int, j: int)
    requires
        0 <= lo <= i < hi <= s.len(),
        lo <= j < hi,
    ensures
        s.update(i, s[j]).update(j, s[i]).subrange(lo, hi).to_multiset() == s.subrange(
            lo,
            hi,
        ).to_multiset(),
{
    let t = s.subrange(lo, hi);
    let s1 = s.update(i, s[j]).update(j, s[i]);
    assert(s1.subrange(lo, hi) =~= t.update(i - lo, t[j - lo]).update(j - lo, t[i - lo]));
    lemma_exchange_to_multiset(t, i - lo, j - lo);
}

/// Moving the last element into position 0 and shortening by one removes
/// exactly one copy of the first element from the multiset.
pub proof fn lemma_pull_first_to_multiset<A>(s: Seq<A>)
    requires
        s.len() > 0,
    ensures
        s.update(0, s.last()).drop_last().to_multiset() == s.to_multiset().remove(s[0]),
{
    broadcast use group_to_multiset_ensures;
    broadcast use vstd::multiset::group_multiset_axioms;

    let t = s.update(0, s.last()).drop_last();
    let n = s.len() as int;
    if n == 1 {
        assert(t =~= Seq::<A>::empty());
        assert(s.remove(0) =~= Seq::<A>::empty());
        assert(s.remove(0).to_multiset() == s.to_multiset().remove(s[0]));
    } else {
        let mid = s.subrange(1, n - 1);
        let lst = seq![s.last()];
        assert(t =~= lst + mid);
        assert(s.remove(0) =~= mid + lst);
        lemma_seq_union_to_multiset_commutative(lst, mid);
        assert(s.remove(0).to_multiset() == s.to_multiset().remove(s[0]));
    }
}

} // verus!
