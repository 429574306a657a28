//! Exchanging two elements of a vector, and what that does to its
//! multiset of elements.

use vstd::prelude::*;

verus! {

/// Exchanges the elements at positions `i` and `j`.
pub(crate) fn swap_items<T>(v: &mut Vec<T>, i: usize, j: usize)
    requires
        i < old(v)@.len(),
        j < old(v)@.len(),
    ensures
        final(v)@ == old(v)@.update(i as int, old(v)@[j as int]).update(j as int, old(v)@[i as int]),
{
    if i == j {
        proof {
            assert(v@.update(i as int, v@[j as int]).update(j as int, v@[i as int]) =~= v@);
        }
        return ;
    }
    let (a, b) = if i < j {
        (i, j)
    } else {
        (j, i)
    };
    let ghost v0 = v@;
    let eb = v.remove(b);
    let ea = v.remove(a);
    v.insert(a, eb);
    v.insert(b, ea);
    proof {
        assert(v@ =~= v0.update(i as int, v0[j as int]).update(j as int, v0[i as int]));
    }
}

/// Writing position `i` replaces one occurrence of the old element with
/// the new one.
pub(crate) proof fn lemma_update_multiset<T>(s: Seq<T>, i: int, x: T)
    requires
        0 <= i < s.len(),
    ensures
        s.update(i, x).to_multiset() == s.to_multiset().remove(s[i]).insert(x),
{
    assert(s.update(i, x) =~= s.remove(i).insert(i, x));
    s.to_multiset_ensures();
    vstd::seq_lib::to_multiset_insert(s.remove(i), i, x);
}

/// Exchanging two positions leaves the multiset of elements unchanged.
pub(crate) proof fn lemma_swap_multiset<T>(s: Seq<T>, i: int, j: int)
    requires
        0 <= i < s.len(),
        0 <= j < s.len(),
    ensures
        s.update(i, s[j]).update(j, s[i]).to_multiset() == s.to_multiset(),
{
    broadcast use vstd::multiset::group_multiset_axioms;

    if i == j {
        assert(s.update(i, s[j]).update(j, s[i]) =~= s);
    } else {
        let s1 = s.update(i, s[j]);
        lemma_update_multiset(s, i, s[j]);
        lemma_update_multiset(s1, j, s[i]);
        assert(s1[j] == s[j]);
        s.to_multiset_ensures();
        assert(s.contains(s[i]));
        assert(s.to_multiset().count(s[i]) > 0);
        assert(s.to_multiset().remove(s[i]).insert(s[j]).remove(s[j]).insert(s[i])
            =~= s.to_multiset());
    }
}

} // verus!
