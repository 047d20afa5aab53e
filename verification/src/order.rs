//! The ordering the container is keyed by: a strict total order, given as a
//! specification-level `le` relation together with an executable three-way
//! comparison that decides it.

use core::cmp::Ordering;
use vstd::prelude::*;

verus! {

/// An element type the container can hold. `le` is the order itself; the
/// four proof obligations make it a total order; `compare` decides it at
/// run time. Equality under `le` is taken to be spec equality, so a type
/// with several representations of one logical value does not qualify.
pub trait TotalOrdered: Sized {
    /// `self` comes before `other`, or equals it.
    spec fn le(self, other: Self) -> bool;

    proof fn reflexive(x: Self)
        ensures
            Self::le(x, x),
    ;

    proof fn transitive(x: Self, y: Self, z: Self)
        requires
            Self::le(x, y),
            Self::le(y, z),
        ensures
            Self::le(x, z),
    ;

    proof fn antisymmetric(x: Self, y: Self)
        requires
            Self::le(x, y),
            Self::le(y, x),
        ensures
            x == y,
    ;

    proof fn total(x: Self, y: Self)
        ensures
            Self::le(x, y) || Self::le(y, x),
    ;

    /// Three-way comparison deciding `le`.
    fn compare(&self, other: &Self) -> (c: Ordering)
        ensures
            (match c {
                Ordering::Less => self.le(*other) && *self != *other,
                Ordering::Equal => *self == *other,
                Ordering::Greater => other.le(*self) && *self != *other,
            }),
    ;
}

/// `a` comes strictly before `b`.
pub open spec fn strictly_less<K: TotalOrdered>(a: K, b: K) -> bool {
    a.le(b) && a != b
}

/// A sequence is strictly ascending: any earlier element comes strictly
/// before any later one (so in particular no value appears twice).
pub open spec fn strictly_sorted<K: TotalOrdered>(s: Seq<K>) -> bool {
    forall|i: int, j: int| 0 <= i < j < s.len() ==> strictly_less(s[i], s[j])
}

/// A strictly ascending sequence has no repeated values.
pub proof fn lemma_sorted_no_duplicates<K: TotalOrdered>(s: Seq<K>)
    requires
        strictly_sorted(s),
    ensures
        s.no_duplicates(),
{
    assert forall|i: int, j: int|
        0 <= i < s.len() && 0 <= j < s.len() && i != j implies s[i] != s[j] by {
        if i < j {
            assert(strictly_less(s[i], s[j]));
        } else {
            assert(strictly_less(s[j], s[i]));
        }
    }
}

/// Dropping the first value of a strictly ascending sequence removes
/// exactly that value from its set; the rest stays strictly ascending.
proof fn lemma_drop_first_set<K: TotalOrdered>(s: Seq<K>)
    requires
        strictly_sorted(s),
        s.len() > 0,
    ensures
        strictly_sorted(s.drop_first()),
        forall|x: K| s.drop_first().contains(x) <==> s.contains(x) && strictly_less(s[0], x),
{
    let d = s.drop_first();
    assert forall|x: K| d.contains(x) implies s.contains(x) && strictly_less(s[0], x) by {
        let k = choose|k: int| 0 <= k < d.len() && d[k] == x;
        assert(s[k + 1] == x);
    }
    assert forall|x: K| s.contains(x) && strictly_less(s[0], x) implies d.contains(x) by {
        let k = choose|k: int| 0 <= k < s.len() && s[k] == x;
        assert(k > 0);
        assert(d[k - 1] == x);
    }
}

/// Order-independence law, on sequences: a strictly ascending sequence is
/// fully determined by the set of its values.
pub proof fn lemma_sorted_unique<K: TotalOrdered>(s1: Seq<K>, s2: Seq<K>)
    requires
        strictly_sorted(s1),
        strictly_sorted(s2),
        s1.to_set() == s2.to_set(),
    ensures
        s1 == s2,
    decreases s1.len(),
{
    if s1.len() == 0 && s2.len() == 0 {
        assert(s1 =~= s2);
    } else if s1.len() == 0 {
        assert(s2.contains(s2[0]));
        assert(s1.to_set().contains(s2[0]));
        assert(false);
    } else if s2.len() == 0 {
        assert(s1.contains(s1[0]));
        assert(s2.to_set().contains(s1[0]));
        assert(false);
    } else {
        assert(s1.contains(s1[0]));
        assert(s2.contains(s2[0]));
        assert(s1.to_set().contains(s1[0]));
        assert(s2.to_set().contains(s2[0]));
        assert(s2.contains(s1[0]));
        assert(s1.contains(s2[0]));
        let i = choose|i: int| 0 <= i < s2.len() && s2[i] == s1[0];
        let j = choose|j: int| 0 <= j < s1.len() && s1[j] == s2[0];
        if s1[0] != s2[0] {
            assert(strictly_less(s2[0], s2[i]));
            assert(strictly_less(s1[0], s1[j]));
            TotalOrdered::antisymmetric(s1[0], s2[0]);
            assert(false);
        }
        lemma_drop_first_set(s1);
        lemma_drop_first_set(s2);
        assert forall|x: K|
            s1.drop_first().to_set().contains(x) <==> s2.drop_first().to_set().contains(x) by {
            assert(s1.to_set().contains(x) <==> s1.contains(x));
            assert(s2.to_set().contains(x) <==> s2.contains(x));
            assert(s1.drop_first().to_set().contains(x) <==> s1.drop_first().contains(x));
            assert(s2.drop_first().to_set().contains(x) <==> s2.drop_first().contains(x));
        }
        assert(s1.drop_first().to_set() =~= s2.drop_first().to_set());
        lemma_sorted_unique(s1.drop_first(), s2.drop_first());
        assert(s1.len() == s2.len());
        assert forall|k: int| 0 <= k < s1.len() implies s1[k] == s2[k] by {
            if k > 0 {
                assert(s1.drop_first()[k - 1] == s1[k]);
                assert(s2.drop_first()[k - 1] == s2[k]);
            }
        }
        assert(s1 =~= s2);
    }
}

impl TotalOrdered for u64 {
    open spec fn le(self, other: Self) -> bool {
        self <= other
    }

    proof fn reflexive(x: Self) {
    }

    proof fn transitive(x: Self, y: Self, z: Self) {
    }

    proof fn antisymmetric(x: Self, y: Self) {
    }

    proof fn total(x: Self, y: Self) {
    }

    fn compare(&self, other: &Self) -> (c: Ordering) {
        if *self < *other {
            Ordering::Less
        } else if *self == *other {
            Ordering::Equal
        } else {
            Ordering::Greater
        }
    }
}

impl TotalOrdered for i64 {
    open spec fn le(self, other: Self) -> bool {
        self <= other
    }

    proof fn reflexive(x: Self) {
    }

    proof fn transitive(x: Self, y: Self, z: Self) {
    }

    proof fn antisymmetric(x: Self, y: Self) {
    }

    proof fn total(x: Self, y: Self) {
    }

    fn compare(&self, other: &Self) -> (c: Ordering) {
        if *self < *other {
            Ordering::Less
        } else if *self == *other {
            Ordering::Equal
        } else {
            Ordering::Greater
        }
    }
}

} // verus!
