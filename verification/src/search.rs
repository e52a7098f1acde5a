use vstd::prelude::*;

verus! {

/// The index of the first occurrence of `x` in `s`.
pub open spec fn position<T>(s: Seq<T>, x: T) -> Option<int>
    decreases s.len(),
{
    if s.len() == 0 {
        None
    } else if s[0] == x {
        Some(0)
    } else {
        match position(s.drop_first(), x) {
            Some(i) => Some(i + 1),
            None => None,
        }
    }
}

/// `i` is the index of the first occurrence of `x` in `s`.
pub open spec fn is_first<T>(s: Seq<T>, x: T, i: int) -> bool {
    &&& 0 <= i < s.len()
    &&& s[i] == x
    &&& forall|j: int| 0 <= j < i ==> s[j] != x
}

/// `x` does not occur in `s`.
pub open spec fn lacks<T>(s: Seq<T>, x: T) -> bool {
    forall|j: int| 0 <= j < s.len() ==> s[j] != x
}

/// No item occurs twice in `s`.
pub open spec fn distinct<T>(s: Seq<T>) -> bool {
    forall|i: int, j: int| 0 <= i < j < s.len() ==> s[i] != s[j]
}

/// `position` finds the first occurrence, and finds none only where there is none.
pub proof fn lemma_position<T>(s: Seq<T>, x: T)
    ensures
        match position(s, x) {
            Some(i) => is_first(s, x, i),
            None => lacks(s, x),
        },
    decreases s.len(),
{
    if s.len() > 0 && s[0] != x {
        let rest = s.drop_first();
        lemma_position(rest, x);
        match position(rest, x) {
            Some(i) => {
                assert(s[i + 1] == rest[i]);
                assert forall|j: int| 0 <= j < i + 1 implies s[j] != x by {
                    if j > 0 {
                        assert(s[j] == rest[j - 1]);
                    }
                }
            },
            None => {
                assert forall|j: int| 0 <= j < s.len() implies s[j] != x by {
                    if j > 0 {
                        assert(s[j] == rest[j - 1]);
                    }
                }
            },
        }
    }
}

/// A first occurrence is what `position` returns.
pub proof fn lemma_position_first<T>(s: Seq<T>, x: T, i: int)
    requires
        is_first(s, x, i),
    ensures
        position(s, x) == Some(i),
{
    lemma_position(s, x);
}

/// Where `x` does not occur, `position` finds nothing.
pub proof fn lemma_position_none<T>(s: Seq<T>, x: T)
    requires
        lacks(s, x),
    ensures
        position(s, x) is None,
{
    lemma_position(s, x);
}

} // verus!
