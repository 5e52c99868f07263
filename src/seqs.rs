//! Facts about sequences of handles without repeats: removing, inserting
//! and concatenating.
use vstd::prelude::*;

use crate::dom::Handle;

verus! {

/// `s` without the occurrences of `x`, order kept.
pub open spec fn without(s: Seq<Handle>, x: Handle) -> Seq<Handle>
    decreases s.len(),
{
    if s.len() == 0 {
        s
    } else if s.last() == x {
        without(s.drop_last(), x)
    } else {
        without(s.drop_last(), x).push(s.last())
    }
}

/// Leaving out an element that is not there changes nothing.
pub proof fn lemma_without_absent(s: Seq<Handle>, x: Handle)
    requires
        !s.contains(x),
    ensures
        without(s, x) == s,
    decreases s.len(),
{
    if s.len() > 0 {
        assert(!s.drop_last().contains(x)) by {
            if s.drop_last().contains(x) {
                let k = choose|k: int| 0 <= k < s.drop_last().len() && s.drop_last()[k] == x;
                assert(s[k] == x);
            }
        }
        lemma_without_absent(s.drop_last(), x);
        assert(s.drop_last().push(s.last()) =~= s);
    }
}

/// In a sequence without repeats, leaving out the element at `j` removes
/// that one place.
pub proof fn lemma_without_at(s: Seq<Handle>, j: int)
    requires
        0 <= j < s.len(),
        s.no_duplicates(),
    ensures
        without(s, s[j]) == s.remove(j),
    decreases s.len(),
{
    let x = s[j];
    if j == s.len() - 1 {
        assert(!s.drop_last().contains(x)) by {
            if s.drop_last().contains(x) {
                let k = choose|k: int| 0 <= k < s.drop_last().len() && s.drop_last()[k] == x;
                assert(s[k] == s[j]);
            }
        }
        lemma_without_absent(s.drop_last(), x);
        assert(s.remove(j) =~= s.drop_last());
    } else {
        assert(s.drop_last()[j] == x);
        lemma_without_at(s.drop_last(), j);
        assert(s.drop_last().remove(j).push(s.last()) =~= s.remove(j));
    }
}

/// Pushing a new element keeps a sequence free of repeats.
pub proof fn lemma_push_no_dup(s: Seq<Handle>, x: Handle)
    requires
        s.no_duplicates(),
        !s.contains(x),
    ensures
        s.push(x).no_duplicates(),
{
    assert forall|i: int, j: int|
        0 <= i < s.push(x).len() && 0 <= j < s.push(x).len() && i != j implies s.push(x)[i]
        != s.push(x)[j] by {
        if i < s.len() && j < s.len() {
            assert(s[i] != s[j]);
        } else if i < s.len() {
            assert(s[i] != x);
        } else {
            assert(s[j] != x);
        }
    }
}

/// Removing one place keeps a sequence free of repeats and drops exactly
/// that element.
pub proof fn lemma_remove_at(s: Seq<Handle>, j: int)
    requires
        0 <= j < s.len(),
        s.no_duplicates(),
    ensures
        s.remove(j).no_duplicates(),
        forall|y: Handle| s.remove(j).contains(y) <==> (s.contains(y) && y != s[j]),
{
    let r = s.remove(j);
    assert forall|a: int, b: int| 0 <= a < r.len() && 0 <= b < r.len() && a != b implies r[a]
        != r[b] by {
        let a0 = if a < j { a } else { a + 1 };
        let b0 = if b < j { b } else { b + 1 };
        assert(r[a] == s[a0] && r[b] == s[b0]);
    }
    assert forall|y: Handle| r.contains(y) <==> (s.contains(y) && y != s[j]) by {
        if r.contains(y) {
            let a = choose|a: int| 0 <= a < r.len() && r[a] == y;
            let a0 = if a < j { a } else { a + 1 };
            assert(s[a0] == y);
        }
        if s.contains(y) && y != s[j] {
            let a0 = choose|a: int| 0 <= a < s.len() && s[a] == y;
            let a = if a0 < j { a0 } else { a0 - 1 };
            assert(r[a] == y);
        }
    }
}

/// Inserting a new element keeps a sequence free of repeats.
pub proof fn lemma_insert_at(s: Seq<Handle>, i: int, x: Handle)
    requires
        0 <= i <= s.len(),
        s.no_duplicates(),
        !s.contains(x),
    ensures
        s.insert(i, x).no_duplicates(),
        forall|y: Handle| s.insert(i, x).contains(y) <==> (s.contains(y) || y == x),
{
    let r = s.insert(i, x);
    assert forall|a: int, b: int| 0 <= a < r.len() && 0 <= b < r.len() && a != b implies r[a]
        != r[b] by {
        if a != i && b != i {
            let a0 = if a < i { a } else { a - 1 };
            let b0 = if b < i { b } else { b - 1 };
            assert(r[a] == s[a0] && r[b] == s[b0]);
        } else if a == i {
            let b0 = if b < i { b } else { b - 1 };
            assert(r[b] == s[b0]);
        } else {
            let a0 = if a < i { a } else { a - 1 };
            assert(r[a] == s[a0]);
        }
    }
    assert forall|y: Handle| r.contains(y) <==> (s.contains(y) || y == x) by {
        if r.contains(y) {
            let a = choose|a: int| 0 <= a < r.len() && r[a] == y;
            if a != i {
                let a0 = if a < i { a } else { a - 1 };
                assert(s[a0] == y);
            }
        }
        if s.contains(y) {
            let a0 = choose|a: int| 0 <= a < s.len() && s[a] == y;
            let a = if a0 < i { a0 } else { a0 + 1 };
            assert(r[a] == y);
        }
        if y == x {
            assert(r[i] == y);
        }
    }
}

/// Two sequences without repeats and without common elements concatenate
/// to one without repeats.
pub proof fn lemma_concat_no_dup(a: Seq<Handle>, b: Seq<Handle>)
    requires
        a.no_duplicates(),
        b.no_duplicates(),
        forall|x: Handle| a.contains(x) ==> !b.contains(x),
    ensures
        (a + b).no_duplicates(),
{
    let r = a + b;
    assert forall|i: int, j: int| 0 <= i < r.len() && 0 <= j < r.len() && i != j implies r[i]
        != r[j] by {
        if i < a.len() && j < a.len() {
            assert(a[i] != a[j]);
        } else if i >= a.len() && j >= a.len() {
            assert(b[i - a.len()] != b[j - a.len()]);
        } else if i < a.len() {
            assert(a.contains(r[i]));
            assert(b[j - a.len()] == r[j]);
        } else {
            assert(a.contains(r[j]));
            assert(b[i - a.len()] == r[i]);
        }
    }
}

/// In a sequence without repeats, an element's index is its place.
pub proof fn lemma_index_of_unique(s: Seq<Handle>, i: int)
    requires
        0 <= i < s.len(),
        s.no_duplicates(),
    ensures
        s.index_of(s[i]) == i,
{
    assert(s.contains(s[i]));
}

} // verus!
