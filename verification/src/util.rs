use vstd::prelude::*;
use vstd::set_lib::*;

verus! {

/// Two to the power `n`.
pub open spec fn two_pow(n: nat) -> nat
    decreases n,
{
    if n == 0 {
        1
    } else {
        2 * two_pow((n - 1) as nat)
    }
}

/// A family of subsets of a finite set `u` is finite and has at most
/// `2^|u|` members.
pub proof fn lemma_family_bound<A>(u: Set<A>, f: Set<Set<A>>)
    requires
        u.finite(),
        forall|s: Set<A>| #[trigger] f.contains(s) ==> s.subset_of(u),
    ensures
        f.finite(),
        f.len() <= two_pow(u.len()),
    decreases u.len(),
{
    if u.len() == 0 {
        assert(u =~= Set::<A>::empty());
        let e = Set::<A>::empty();
        assert forall|s: Set<A>| #[trigger] f.contains(s) implies s == e by {
            assert(s =~= e);
        }
        assert(f.subset_of(set![e]));
        lemma_len_subset(f, set![e]);
    } else {
        let x = u.choose();
        let u2 = u.remove(x);
        let f1 = f.filter(|s: Set<A>| !s.contains(x));
        let f2 = f.filter(|s: Set<A>| s.contains(x));
        let rm = |s: Set<A>| s.remove(x);
        let ins = |s: Set<A>| s.insert(x);
        let g2 = f2.map(rm);
        assert forall|s: Set<A>| #[trigger] f1.contains(s) implies s.subset_of(u2) by {
            assert(f.contains(s));
        }
        lemma_family_bound(u2, f1);
        assert forall|s: Set<A>| #[trigger] g2.contains(s) implies s.subset_of(u2) by {
            let t = choose|t: Set<A>| f2.contains(t) && rm(t) == s;
            assert(f.contains(t));
        }
        lemma_family_bound(u2, g2);
        assert forall|s: Set<A>| #[trigger] f2.contains(s) implies g2.map(ins).contains(s) by {
            assert(g2.contains(rm(s)));
            assert(ins(rm(s)) =~= s);
        }
        assert forall|s: Set<A>| #[trigger] g2.map(ins).contains(s) implies f2.contains(s) by {
            let t = choose|t: Set<A>| g2.contains(t) && ins(t) == s;
            let w = choose|w: Set<A>| f2.contains(w) && rm(w) == t;
            assert(ins(rm(w)) =~= w);
        }
        assert(g2.map(ins) =~= f2);
        lemma_map_size_bound(g2, f2, ins);
        assert(f =~= f1.union(f2));
        lemma_len_union(f1, f2);
    }
}

/// A sequence of distinct subsets of a finite set `u` has at most `2^|u|`
/// elements.
pub proof fn lemma_distinct_subsets_bound<A>(u: Set<A>, s: Seq<Set<A>>)
    requires
        u.finite(),
        s.no_duplicates(),
        forall|i: int| 0 <= i < s.len() ==> (#[trigger] s[i]).subset_of(u),
    ensures
        s.len() <= two_pow(u.len()),
{
    s.unique_seq_to_set();
    assert forall|t: Set<A>| #[trigger] s.to_set().contains(t) implies t.subset_of(u) by {
        let i = choose|i: int| 0 <= i < s.len() && s[i] == t;
    }
    lemma_family_bound(u, s.to_set());
}

/// A set of indices below `n` has at most `n` members.
pub proof fn lemma_index_set_bound(s: Set<int>, n: int)
    requires
        0 <= n,
        forall|i: int| #[trigger] s.contains(i) ==> 0 <= i < n,
    ensures
        s.finite(),
        s.len() <= n,
{
    lemma_int_range(0, n);
    assert(s.subset_of(set_int_range(0, n)));
    lemma_len_subset(s, set_int_range(0, n));
}

} // verus!
