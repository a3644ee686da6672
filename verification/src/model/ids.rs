use vstd::prelude::*;

verus! {

/// `i` is the first position of `id` in `ids`.
pub open spec fn is_first_id(ids: Seq<Seq<char>>, id: Seq<char>, i: int) -> bool {
    &&& 0 <= i < ids.len()
    &&& ids[i] == id
    &&& forall|j: int| 0 <= j < i ==> ids[j] != id
}

/// The first position of `id` in `ids`, if it occurs.
pub open spec fn find_id(ids: Seq<Seq<char>>, id: Seq<char>) -> Option<int> {
    if exists|i: int| is_first_id(ids, id, i) {
        Some(choose|i: int| is_first_id(ids, id, i))
    } else {
        None
    }
}

pub proof fn lemma_find_id_first(ids: Seq<Seq<char>>, id: Seq<char>, i: int)
    requires
        is_first_id(ids, id, i),
    ensures
        find_id(ids, id) == Some(i),
{
    let k = choose|k: int| is_first_id(ids, id, k);
    assert(is_first_id(ids, id, k));
    if k < i {
        assert(ids[k] != id);
    } else if i < k {
        assert(ids[i] != id);
    }
}

pub proof fn lemma_find_id_absent(ids: Seq<Seq<char>>, id: Seq<char>)
    requires
        forall|j: int| 0 <= j < ids.len() ==> ids[j] != id,
    ensures
        find_id(ids, id) is None,
{
    if exists|i: int| is_first_id(ids, id, i) {
        let k = choose|k: int| is_first_id(ids, id, k);
        assert(ids[k] == id);
    }
}

/// Where `id` occurs at all, it has a first position.
pub proof fn lemma_find_id_present(ids: Seq<Seq<char>>, id: Seq<char>, i: int)
    requires
        0 <= i < ids.len(),
        ids[i] == id,
    ensures
        find_id(ids, id) is Some,
    decreases i,
{
    if forall|j: int| 0 <= j < i ==> ids[j] != id {
        lemma_find_id_first(ids, id, i);
    } else {
        let j = choose|j: int| 0 <= j < i && ids[j] != id == false;
        lemma_find_id_present(ids, id, j);
    }
}

/// Calls `<str as PartialEq>::eq`; its documented meaning is that two string
/// slices are equal exactly when they hold the same characters.
#[verifier::external_body]
pub(crate) fn str_eq(a: &str, b: &str) -> (r: bool)
    ensures
        r == (a@ == b@),
{
    a == b
}

} // verus!
