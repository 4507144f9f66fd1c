//! Finding things by name.

use vstd::prelude::*;

verus! {

/// The first place from `start` on where the name stands, if it stands anywhere.
pub open spec fn first_from(names: Seq<Seq<char>>, id: Seq<char>, start: int) -> Option<int>
    decreases names.len() - start,
{
    if start < 0 || start >= names.len() {
        None
    } else if names[start] == id {
        Some(start)
    } else {
        first_from(names, id, start + 1)
    }
}

/// The first place where the name stands, if it stands anywhere.
pub open spec fn first_named(names: Seq<Seq<char>>, id: Seq<char>) -> Option<int> {
    first_from(names, id, 0)
}

/// A name that is found stands where it was found and nowhere before.
pub proof fn lemma_first(names: Seq<Seq<char>>, id: Seq<char>, start: int)
    requires
        0 <= start,
    ensures
        first_from(names, id, start) matches Some(i) ==> start <= i < names.len() && names[i]
            == id && forall|k: int| start <= k < i ==> names[k] != id,
        first_from(names, id, start) is None ==> forall|k: int|
            start <= k < names.len() ==> names[k] != id,
    decreases names.len() - start,
{
    if start < names.len() && names[start] != id {
        lemma_first(names, id, start + 1);
    }
}

/// Where no name before `i` is the one looked for, the search may start at `i`.
pub proof fn lemma_skip(names: Seq<Seq<char>>, id: Seq<char>, i: int)
    requires
        0 <= i <= names.len(),
        forall|k: int| 0 <= k < i ==> names[k] != id,
    ensures
        first_named(names, id) == first_from(names, id, i),
    decreases i,
{
    if i > 0 {
        lemma_skip(names, id, i - 1);
    }
}

} // verus!
