//! Name-keyed sequences.
//!
//! The declaration and entity collections are sequences of records keyed by
//! a name drawn from each record. Lookup finds the first record whose key
//! matches; insertion is last-write-wins: a record whose key is already
//! present replaces the earlier record in place, otherwise it is appended.

use vstd::prelude::*;

verus! {

/// Index of the first element of `s` satisfying `p`, or `-1` if none does.
pub open spec fn first_match<T>(s: Seq<T>, p: spec_fn(T) -> bool) -> int
    decreases s.len(),
{
    if s.len() == 0 {
        -1
    } else if p(s[0]) {
        0
    } else {
        let r = first_match(s.skip(1), p);
        if r < 0 {
            -1
        } else {
            r + 1
        }
    }
}

/// Last-write-wins insertion keyed by `p`: if some element satisfies `p`,
/// the first such element is replaced by `x`; otherwise `x` is appended.
pub open spec fn lww_insert<T>(s: Seq<T>, p: spec_fn(T) -> bool, x: T) -> Seq<T> {
    let i = first_match(s, p);
    if i < 0 {
        s.push(x)
    } else {
        s.update(i, x)
    }
}

/// No two elements of `s` share a key under the projection `f`.
pub open spec fn unique_by<T, K>(s: Seq<T>, f: spec_fn(T) -> K) -> bool {
    forall|i: int, j: int|
        0 <= i < s.len() && 0 <= j < s.len() && i != j ==> f(s[i]) != f(s[j])
}

/// `first_match` finds a matching element exactly when one exists, and then
/// the earliest one.
pub proof fn lemma_first_match<T>(s: Seq<T>, p: spec_fn(T) -> bool)
    ensures
        first_match(s, p) >= 0 <==> exists|i: int| 0 <= i < s.len() && p(s[i]),
        first_match(s, p) >= 0 ==> {
            let r = first_match(s, p);
            &&& r < s.len()
            &&& p(s[r])
            &&& forall|i: int| 0 <= i < r ==> !p(s[i])
        },
    decreases s.len(),
{
    if s.len() != 0 && !p(s[0]) {
        lemma_first_match(s.skip(1), p);
        assert forall|i: int| 0 <= i < s.skip(1).len() implies s.skip(1)[i] == s[i + 1] by {}
        if first_match(s.skip(1), p) >= 0 {
            let r = first_match(s.skip(1), p);
            assert(p(s[r + 1]));
            assert forall|i: int| 0 <= i < r + 1 implies !p(s[i]) by {
                if i > 0 {
                    assert(s.skip(1)[i - 1] == s[i]);
                    assert(!p(s.skip(1)[i - 1]));
                }
            }
        } else {
            assert forall|i: int| 0 <= i < s.len() implies !p(s[i]) by {
                if i > 0 {
                    assert(s.skip(1)[i - 1] == s[i]);
                }
            }
        }
    }
}

/// When no element matches before `i` and `s[i]` matches, `i` is the first
/// match.
pub proof fn lemma_first_match_at<T>(s: Seq<T>, p: spec_fn(T) -> bool, i: int)
    requires
        0 <= i < s.len(),
        p(s[i]),
        forall|j: int| 0 <= j < i ==> !p(s[j]),
    ensures
        first_match(s, p) == i,
{
    lemma_first_match(s, p);
    let r = first_match(s, p);
    assert(r >= 0);
    if r < i {
        assert(!p(s[r]));
    }
    if r > i {
        assert(!p(s[i]));
    }
}

/// Inserting `x` keyed by its own key preserves key uniqueness. The
/// predicate `p` must select exactly the elements sharing `x`'s key.
pub proof fn lemma_lww_insert_unique<T, K>(s: Seq<T>, f: spec_fn(T) -> K, p: spec_fn(T) -> bool, x: T)
    requires
        unique_by(s, f),
        forall|y: T| #[trigger] p(y) <==> f(y) == f(x),
    ensures
        unique_by(lww_insert(s, p, x), f),
{
    lemma_first_match(s, p);
    let r = lww_insert(s, p, x);
    let i0 = first_match(s, p);
    assert forall|i: int, j: int|
        0 <= i < r.len() && 0 <= j < r.len() && i != j implies f(r[i]) != f(r[j]) by {
        if i0 < 0 {
            if i < s.len() && j < s.len() {
            } else if i < s.len() {
                assert(!p(s[i]));
            } else {
                assert(!p(s[j]));
            }
        } else {
            if i != i0 && j != i0 {
            } else if i == i0 {
                assert(!p(s[j]) ==> f(r[j]) != f(x)) by {}
                if p(s[j]) {
                    assert(f(s[j]) == f(s[i0]));
                    assert(false);
                }
            } else {
                if p(s[i]) {
                    assert(f(s[i]) == f(s[i0]));
                    assert(false);
                }
            }
        }
    }
}

} // verus!
