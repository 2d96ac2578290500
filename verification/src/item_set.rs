use vstd::prelude::*;
use vstd::std_specs::iter::IteratorSpec;

verus! {

/// Lexicographic order on the keys of set elements.
pub open spec fn key_lt(a: (int, int, int), b: (int, int, int)) -> bool {
    a.0 < b.0 || (a.0 == b.0 && (a.1 < b.1 || (a.1 == b.1 && a.2 < b.2)))
}

/// An element of an item set: it is ordered by a key of three integers, and
/// distinct elements have distinct keys.
pub trait SetElement: Sized + Copy {
    spec fn spec_key(self) -> (int, int, int);

    fn lt(&self, other: &Self) -> (b: bool)
        ensures
            b == key_lt(self.spec_key(), other.spec_key()),
    ;

    fn same(&self, other: &Self) -> (b: bool)
        ensures
            b == (*self == *other),
    ;

    proof fn lemma_key_injective(a: Self, b: Self)
        ensures
            a.spec_key() == b.spec_key() ==> a == b,
    ;
}

/// The elements are in strictly increasing key order.
pub open spec fn strictly_sorted<T: SetElement>(s: Seq<T>) -> bool {
    forall|i: int, j: int| 0 <= i < j < s.len() ==> key_lt(#[trigger] s[i].spec_key(), #[trigger] s[j].spec_key())
}

/// Two strictly sorted sequences with the same elements are the same sequence.
pub proof fn lemma_sorted_unique<T: SetElement>(a: Seq<T>, b: Seq<T>)
    requires
        strictly_sorted(a),
        strictly_sorted(b),
        a.to_set() == b.to_set(),
    ensures
        a == b,
    decreases a.len(),
{
    if a.len() == 0 {
        if b.len() > 0 {
            assert(b.to_set().contains(b[0]));
        }
        assert(a =~= b);
    } else {
        assert(a.to_set().contains(a[0]));
        if b.len() == 0 {
            assert(false);
        }
        assert(b.to_set().contains(b[0]));
        let j = choose|j: int| 0 <= j < b.len() && b[j] == a[0];
        let i = choose|i: int| 0 <= i < a.len() && a[i] == b[0];
        if j > 0 {
            assert(key_lt(b[0].spec_key(), b[j].spec_key()));
            if i > 0 {
                assert(key_lt(a[0].spec_key(), a[i].spec_key()));
            }
            assert(false);
        }
        let a1 = a.drop_first();
        let b1 = b.drop_first();
        assert forall|x: T| a1.to_set().contains(x) implies b1.to_set().contains(x) by {
            let k = choose|k: int| 0 <= k < a1.len() && a1[k] == x;
            assert(a[k + 1] == x);
            assert(key_lt(a[0].spec_key(), a[k + 1].spec_key()));
            assert(b.to_set().contains(x));
            let m = choose|m: int| 0 <= m < b.len() && b[m] == x;
            assert(m != 0);
            assert(b1[m - 1] == x);
        }
        assert forall|x: T| b1.to_set().contains(x) implies a1.to_set().contains(x) by {
            let k = choose|k: int| 0 <= k < b1.len() && b1[k] == x;
            assert(b[k + 1] == x);
            assert(key_lt(b[0].spec_key(), b[k + 1].spec_key()));
            assert(a.to_set().contains(x));
            let m = choose|m: int| 0 <= m < a.len() && a[m] == x;
            assert(m != 0);
            assert(a1[m - 1] == x);
        }
        assert(a1.to_set() =~= b1.to_set());
        lemma_sorted_unique(a1, b1);
        assert(a =~= seq![a[0]] + a1);
        assert(b =~= seq![b[0]] + b1);
    }
}

/// A set of LR items kept in increasing key order, so that two sets with the
/// same items always have the same layout.
#[derive(Debug)]
pub struct ItemSet<T> {
    items: Vec<T>,
}

impl<T: SetElement> ItemSet<T> {
    /// The items in increasing key order.
    pub closed spec fn elems(&self) -> Seq<T> {
        self.items@
    }

    /// Well-formedness: the items are strictly sorted.
    pub closed spec fn wf(&self) -> bool {
        strictly_sorted(self.items@)
    }

    /// The items as a mathematical set.
    pub open spec fn contents(&self) -> Set<T> {
        self.elems().to_set()
    }

    pub proof fn lemma_wf(&self)
        requires
            self.wf(),
        ensures
            strictly_sorted(self.elems()),
            self.elems().no_duplicates(),
            self.contents().finite(),
            self.contents().len() == self.elems().len(),
    {
        let s = self.items@;
        assert forall|i: int, j: int| 0 <= i < s.len() && 0 <= j < s.len() && i != j implies s[i] != s[j] by {
            if i < j {
                assert(key_lt(s[i].spec_key(), s[j].spec_key()));
            } else {
                assert(key_lt(s[j].spec_key(), s[i].spec_key()));
            }
        }
        s.unique_seq_to_set();
    }

    pub fn new() -> (r: Self)
        ensures
            r.wf(),
            r.elems() == Seq::<T>::empty(),
            r.contents() == Set::<T>::empty(),
    {
        let r = ItemSet { items: Vec::new() };
        assert(r.contents() =~= Set::<T>::empty());
        r
    }

    pub fn len(&self) -> (n: usize)
        ensures
            n == self.elems().len(),
    {
        self.items.len()
    }

    pub fn is_empty(&self) -> (b: bool)
        requires
            self.wf(),
        ensures
            b == (self.elems().len() == 0),
            b == (self.contents() == Set::<T>::empty()),
    {
        if self.items.len() == 0 {
            assert(self.contents() =~= Set::<T>::empty());
            true
        } else {
            assert(self.contents().contains(self.items@[0]));
            false
        }
    }

    /// The item at a position of the increasing order.
    pub fn get(&self, i: usize) -> (x: T)
        requires
            i < self.elems().len(),
        ensures
            x == self.elems()[i as int],
    {
        self.items[i]
    }

    /// Iterates over the items in increasing key order.
    pub fn iter(&self) -> (it: std::slice::Iter<'_, T>)
        ensures
            it.remaining().map_values(|r: &T| *r) == self.elems(),
    {
        self.items.iter()
    }

    /// Position of the first item whose key is not below that of `x`.
    fn lower_bound(&self, x: &T) -> (i: usize)
        requires
            self.wf(),
        ensures
            i <= self.elems().len(),
            forall|k: int| 0 <= k < i ==> key_lt(#[trigger] self.elems()[k].spec_key(), x.spec_key()),
            i < self.elems().len() ==> !key_lt(self.elems()[i as int].spec_key(), x.spec_key()),
    {
        let mut i: usize = 0;
        while i < self.items.len()
            invariant
                i <= self.items@.len(),
                forall|k: int| 0 <= k < i ==> key_lt(#[trigger] self.items@[k].spec_key(), x.spec_key()),
            decreases self.items@.len() - i,
        {
            if !self.items[i].lt(x) {
                return i;
            }
            i = i + 1;
        }
        i
    }

    pub fn contains(&self, x: &T) -> (b: bool)
        requires
            self.wf(),
        ensures
            b == self.contents().contains(*x),
    {
        let i = self.lower_bound(x);
        let ghost s = self.items@;
        if i < self.items.len() && self.items[i].same(x) {
            assert(s.to_set().contains(s[i as int]));
            true
        } else {
            assert forall|k: int| 0 <= k < s.len() implies s[k] != *x by {
                if k < i {
                    assert(key_lt(s[k].spec_key(), x.spec_key()));
                } else if k > i {
                    assert(key_lt(s[i as int].spec_key(), s[k].spec_key()));
                }
            }
            false
        }
    }

    /// Adds an item; returns whether it was new.
    pub fn insert(&mut self, x: T) -> (b: bool)
        requires
            old(self).wf(),
        ensures
            final(self).wf(),
            b == !old(self).contents().contains(x),
            final(self).contents() == old(self).contents().insert(x),
    {
        let i = self.lower_bound(&x);
        let ghost s = self.items@;
        if i < self.items.len() && self.items[i].same(&x) {
            assert(s.to_set().contains(s[i as int]));
            assert(self.contents() =~= old(self).contents().insert(x));
            false
        } else {
            assert forall|k: int| 0 <= k < s.len() implies s[k] != x by {
                if k < i {
                    assert(key_lt(s[k].spec_key(), x.spec_key()));
                } else if k > i {
                    assert(key_lt(s[i as int].spec_key(), s[k].spec_key()));
                }
            }
            if i < self.items.len() {
                proof {
                    T::lemma_key_injective(s[i as int], x);
                }
                assert(key_lt(x.spec_key(), s[i as int].spec_key()));
            }
            self.items.insert(i, x);
            let ghost n = self.items@;
            assert(n =~= s.subrange(0, i as int).push(x) + s.subrange(i as int, s.len() as int));
            assert forall|a: int, c: int| 0 <= a < c < n.len() implies key_lt(
                #[trigger] n[a].spec_key(),
                #[trigger] n[c].spec_key(),
            ) by {
                if a < i && c > i {
                    assert(n[c] == s[c - 1]);
                    if c - 1 > i {
                        assert(key_lt(s[i as int].spec_key(), s[c - 1].spec_key()));
                    }
                } else if a > i {
                    assert(n[a] == s[a - 1] && n[c] == s[c - 1]);
                } else if a == i && c > i {
                    assert(n[c] == s[c - 1]);
                    if c - 1 > i {
                        assert(key_lt(s[i as int].spec_key(), s[c - 1].spec_key()));
                    }
                }
            }
            assert forall|y: T| n.to_set().contains(y) <==> s.to_set().insert(x).contains(y) by {
                if n.to_set().contains(y) {
                    let k = choose|k: int| 0 <= k < n.len() && n[k] == y;
                    if k < i {
                        assert(s[k] == y);
                    } else if k > i {
                        assert(s[k - 1] == y);
                    }
                }
                if s.to_set().contains(y) {
                    let k = choose|k: int| 0 <= k < s.len() && s[k] == y;
                    if k < i {
                        assert(n[k] == y);
                    } else {
                        assert(n[k + 1] == y);
                    }
                }
                if y == x {
                    assert(n[i as int] == x);
                }
            }
            assert(self.contents() =~= old(self).contents().insert(x));
            true
        }
    }

    /// A copy of the set with the same items in the same order.
    pub fn duplicate(&self) -> (r: Self)
        ensures
            r.elems() == self.elems(),
            r.wf() == self.wf(),
    {
        let mut items: Vec<T> = Vec::new();
        let mut i: usize = 0;
        while i < self.items.len()
            invariant
                i <= self.items@.len(),
                items@ == self.items@.subrange(0, i as int),
            decreases self.items@.len() - i,
        {
            items.push(self.items[i]);
            i = i + 1;
        }
        assert(items@ =~= self.items@);
        ItemSet { items }
    }

    /// Whether two sets hold the same items.
    pub fn same_items(&self, other: &Self) -> (b: bool)
        requires
            self.wf(),
            other.wf(),
        ensures
            b == (self.contents() == other.contents()),
    {
        let ghost a = self.items@;
        let ghost c = other.items@;
        if self.items.len() != other.items.len() {
            proof {
                if a.to_set() == c.to_set() {
                    lemma_sorted_unique(a, c);
                }
            }
            return false;
        }
        let mut i: usize = 0;
        while i < self.items.len()
            invariant
                a == self.items@,
                c == other.items@,
                a.len() == c.len(),
                strictly_sorted(a),
                strictly_sorted(c),
                i <= a.len(),
                forall|k: int| 0 <= k < i ==> a[k] == c[k],
            decreases a.len() - i,
        {
            if !self.items[i].same(&other.items[i]) {
                proof {
                    if a.to_set() == c.to_set() {
                        lemma_sorted_unique(a, c);
                    }
                }
                return false;
            }
            i = i + 1;
        }
        assert(a =~= c);
        true
    }
}

impl<T: SetElement> Clone for ItemSet<T> {
    fn clone(&self) -> (r: Self)
        ensures
            r.elems() == self.elems(),
    {
        self.duplicate()
    }
}

} // verus!
