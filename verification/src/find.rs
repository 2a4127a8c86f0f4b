//! "The first element that satisfies a predicate", stated declaratively.
use vstd::prelude::*;

verus! {

/// `i` is the position of the first element of `s` that satisfies `p`.
pub open spec fn is_first<T>(s: Seq<T>, p: spec_fn(T) -> bool, i: int) -> bool {
    &&& 0 <= i < s.len()
    &&& p(s[i])
    &&& forall|j: int| 0 <= j < i ==> !p(#[trigger] s[j])
}

/// No element of `s` satisfies `p`.
pub open spec fn none_satisfy<T>(s: Seq<T>, p: spec_fn(T) -> bool) -> bool {
    forall|j: int| 0 <= j < s.len() ==> !p(#[trigger] s[j])
}

/// There is at most one first position.
pub proof fn lemma_first_unique<T>(s: Seq<T>, p: spec_fn(T) -> bool, i: int, k: int)
    requires
        is_first(s, p, i),
        is_first(s, p, k),
    ensures
        i == k,
{
    if i < k {
        assert(!p(s[i]));
    } else if k < i {
        assert(!p(s[k]));
    }
}

/// Either nothing satisfies `p`, or there is a first position.
pub proof fn lemma_first_exists<T>(s: Seq<T>, p: spec_fn(T) -> bool)
    ensures
        none_satisfy(s, p) || exists|i: int| is_first(s, p, i),
    decreases s.len(),
{
    if s.len() > 0 {
        let t = s.drop_last();
        lemma_first_exists(t, p);
        if none_satisfy(t, p) {
            if !none_satisfy(s, p) {
                assert(is_first(s, p, s.len() - 1)) by {
                    assert forall|j: int| 0 <= j < s.len() - 1 implies !p(#[trigger] s[j]) by {
                        assert(t[j] == s[j]);
                    }
                }
            }
        } else {
            let i = choose|i: int| is_first(t, p, i);
            assert forall|j: int| 0 <= j < i implies !p(#[trigger] s[j]) by {
                assert(t[j] == s[j]);
            }
            assert(is_first(s, p, i));
        }
    }
}

/// `i` is the position of the last element of `s` that satisfies `p`.
pub open spec fn is_last<T>(s: Seq<T>, p: spec_fn(T) -> bool, i: int) -> bool {
    &&& 0 <= i < s.len()
    &&& p(s[i])
    &&& forall|j: int| i < j < s.len() ==> !p(#[trigger] s[j])
}

/// There is at most one last position.
pub proof fn lemma_last_unique<T>(s: Seq<T>, p: spec_fn(T) -> bool, i: int, k: int)
    requires
        is_last(s, p, i),
        is_last(s, p, k),
    ensures
        i == k,
{
    if i < k {
        assert(!p(s[k]));
    } else if k < i {
        assert(!p(s[i]));
    }
}

/// How the first and last positions change when a prefix grows by one element.
pub proof fn lemma_prefix_step<T>(s: Seq<T>, p: spec_fn(T) -> bool, k: int)
    requires
        0 <= k < s.len(),
    ensures
        forall|o: int| is_first(s.take(k), p, o) ==> is_first(s.take(k + 1), p, o),
        none_satisfy(s.take(k), p) && p(s[k]) ==> is_first(s.take(k + 1), p, k),
        none_satisfy(s.take(k), p) && !p(s[k]) ==> none_satisfy(s.take(k + 1), p),
        p(s[k]) ==> is_last(s.take(k + 1), p, k),
        forall|u: int| !p(s[k]) && is_last(s.take(k), p, u) ==> is_last(s.take(k + 1), p, u),
{
    let a = s.take(k);
    let b = s.take(k + 1);
    assert forall|j: int| 0 <= j < k implies a[j] == b[j] by {}
    assert(b[k] == s[k]);
    assert forall|o: int| is_first(a, p, o) implies is_first(b, p, o) by {
        assert forall|j: int| 0 <= j < o implies !p(#[trigger] b[j]) by {
            assert(!p(a[j]));
        }
    }
    if none_satisfy(a, p) {
        assert forall|j: int| 0 <= j < k implies !p(#[trigger] b[j]) by {
            assert(!p(a[j]));
        }
    }
    assert forall|u: int| !p(s[k]) && is_last(a, p, u) implies is_last(b, p, u) by {
        assert forall|j: int| u < j < k + 1 implies !p(#[trigger] b[j]) by {
            if j < k {
                assert(!p(a[j]));
            }
        }
    }
}

/// When some element satisfies `p`, there is a last one that does.
pub proof fn lemma_last_exists<T>(s: Seq<T>, p: spec_fn(T) -> bool, w: int)
    requires
        0 <= w < s.len(),
        p(s[w]),
    ensures
        exists|i: int| is_last(s, p, i),
    decreases s.len() - w,
{
    if exists|j: int| w < j < s.len() && p(s[j]) {
        let j = choose|j: int| w < j < s.len() && p(s[j]);
        lemma_last_exists(s, p, j);
    } else {
        assert(is_last(s, p, w));
    }
}

} // verus!
