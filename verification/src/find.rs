//! The first element of a sequence that has a property.
use vstd::prelude::*;

verus! {

/// Where the first element with a property stands; the number of elements if there is none.
pub open spec fn first_index<T>(s: Seq<T>, p: spec_fn(T) -> bool) -> nat
    decreases s.len(),
{
    if s.len() == 0 || p(s[0]) {
        0
    } else {
        1 + first_index(s.drop_first(), p)
    }
}

/// What stands at the first index has the property, and nothing before it does.
pub proof fn lemma_first_index<T>(s: Seq<T>, p: spec_fn(T) -> bool)
    ensures
        first_index(s, p) <= s.len(),
        first_index(s, p) < s.len() ==> p(s[first_index(s, p) as int]),
        forall|i: int| 0 <= i < first_index(s, p) ==> !p(#[trigger] s[i]),
    decreases s.len(),
{
    if s.len() > 0 && !p(s[0]) {
        let rest = s.drop_first();
        lemma_first_index(rest, p);
        assert forall|i: int| 0 <= i < first_index(s, p) implies !p(#[trigger] s[i]) by {
            if i > 0 {
                assert(s[i] == rest[i - 1]);
            }
        }
    }
}

/// An index before which nothing has the property, and which is the end or has it, is the first.
pub proof fn lemma_first_index_is<T>(s: Seq<T>, p: spec_fn(T) -> bool, at: int)
    requires
        0 <= at <= s.len(),
        forall|i: int| 0 <= i < at ==> !p(#[trigger] s[i]),
        at < s.len() ==> p(s[at]),
    ensures
        first_index(s, p) == at,
{
    lemma_first_index(s, p);
    if first_index(s, p) < at {
        assert(p(s[first_index(s, p) as int]));
    }
}

/// A property holds first where it held before, if no element changed in that respect.
pub proof fn lemma_first_index_same<T>(s: Seq<T>, t: Seq<T>, p: spec_fn(T) -> bool)
    requires
        s.len() == t.len(),
        forall|i: int| 0 <= i < s.len() ==> p(#[trigger] s[i]) == p(t[i]),
    ensures
        first_index(s, p) == first_index(t, p),
{
    lemma_first_index(s, p);
    let at = first_index(s, p) as int;
    assert forall|i: int| 0 <= i < at implies !p(#[trigger] t[i]) by {
        assert(!p(s[i]));
    }
    if at < s.len() {
        assert(p(s[at]) == p(t[at]));
    }
    lemma_first_index_is(t, p, at);
}

} // verus!
