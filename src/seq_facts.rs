//! Facts about sequences of node indices that the tree's proofs rely on.

use vstd::prelude::*;

verus! {

/// `(a + b)` holds exactly the elements of `a` and of `b`.
pub proof fn lemma_concat_contains<A>(a: Seq<A>, b: Seq<A>, y: A)
    ensures
        (a + b).contains(y) <==> a.contains(y) || b.contains(y),
{
    if a.contains(y) {
        let i = choose|i: int| 0 <= i < a.len() && a[i] == y;
        assert((a + b)[i] == y);
    }
    if b.contains(y) {
        let i = choose|i: int| 0 <= i < b.len() && b[i] == y;
        assert((a + b)[a.len() + i] == y);
    }
    if (a + b).contains(y) {
        let i = choose|i: int| 0 <= i < (a + b).len() && (a + b)[i] == y;
        if i < a.len() {
            assert(a[i] == y);
        } else {
            assert(b[i - a.len()] == y);
        }
    }
}

/// `s` with every `a` replaced by `b`.
pub open spec fn renamed(s: Seq<usize>, a: usize, b: usize) -> Seq<usize> {
    s.map_values(|z: usize| if z == a { b } else { z })
}

/// Removing the value at a position of a duplicate-free sequence removes that
/// position.
pub proof fn lemma_remove_value_at(s: Seq<usize>, j: int)
    requires
        s.no_duplicates(),
        0 <= j < s.len(),
    ensures
        s.remove_value(s[j]) == s.remove(j),
        s.remove(j).no_duplicates(),
        forall|z: usize| s.remove(j).contains(z) <==> (s.contains(z) && z != s[j]),
{
    s.index_of_first_ensures(s[j]);
    let r = s.remove(j);
    assert forall|a: int, b: int| 0 <= a < b < r.len() implies r[a] != r[b] by {
        let a1 = if a < j { a } else { a + 1 };
        let b1 = if b < j { b } else { b + 1 };
        assert(s[a1] != s[b1]);
    }
    assert forall|z: usize| r.contains(z) <==> (s.contains(z) && z != s[j]) by {
        if r.contains(z) {
            let a = choose|a: int| 0 <= a < r.len() && r[a] == z;
            let a1 = if a < j { a } else { a + 1 };
            assert(s[a1] == z);
        }
        if s.contains(z) && z != s[j] {
            let a = choose|a: int| 0 <= a < s.len() && s[a] == z;
            if a < j {
                assert(r[a] == z);
            } else {
                assert(r[a - 1] == z);
            }
        }
    }
}

/// Removing a value that is absent changes nothing.
pub proof fn lemma_remove_value_absent(s: Seq<usize>, x: usize)
    requires
        !s.contains(x),
    ensures
        s.remove_value(x) == s,
{
    s.index_of_first_ensures(x);
}

/// Renaming a value that is absent changes nothing; renaming the one
/// occurrence of a value updates its position.
pub proof fn lemma_renamed(s: Seq<usize>, a: usize, b: usize)
    ensures
        !s.contains(a) ==> renamed(s, a, b) == s,
        forall|j: int| 0 <= j < s.len() && s.no_duplicates() && #[trigger] s[j] == a ==> renamed(s, a, b) == s.update(j, b),
{
    if !s.contains(a) {
        assert forall|i: int| 0 <= i < s.len() implies renamed(s, a, b)[i] == s[i] by {
            if s[i] == a {
                assert(s.contains(a));
            }
        }
        assert(renamed(s, a, b) =~= s);
    }
    assert forall|j: int| 0 <= j < s.len() && s.no_duplicates() && #[trigger] s[j] == a implies renamed(s, a, b) == s.update(j, b) by {
        assert(renamed(s, a, b) =~= s.update(j, b));
    }
}

/// What `renamed(s, a, b)` holds.
pub proof fn lemma_renamed_contains(s: Seq<usize>, a: usize, b: usize, z: usize)
    ensures
        renamed(s, a, b).contains(z) <==> ((s.contains(z) && z != a) || (z == b && s.contains(a))),
{
    let r = renamed(s, a, b);
    if r.contains(z) {
        let i = choose|i: int| 0 <= i < r.len() && r[i] == z;
        assert(s.contains(s[i]));
    }
    if s.contains(z) && z != a {
        let i = choose|i: int| 0 <= i < s.len() && s[i] == z;
        assert(r[i] == z);
    }
    if z == b && s.contains(a) {
        let i = choose|i: int| 0 <= i < s.len() && s[i] == a;
        assert(r[i] == z);
    }
}

/// What `s.remove_value(x)` holds, for a duplicate-free `s`.
pub proof fn lemma_remove_value_contains(s: Seq<usize>, x: usize, z: usize)
    requires
        s.no_duplicates(),
    ensures
        s.remove_value(x).contains(z) <==> (s.contains(z) && z != x),
{
    if s.contains(x) {
        let j = choose|j: int| 0 <= j < s.len() && s[j] == x;
        lemma_remove_value_at(s, j);
    } else {
        lemma_remove_value_absent(s, x);
    }
}

} // verus!
