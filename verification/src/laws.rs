use vstd::prelude::*;

use crate::ranking::{in_seq, ranked};
use crate::record::RecModel;
use crate::store::scored_for;

verus! {

/// Law: a freshly constructed store contains no identifier at all, so by the
/// contracts of `get` and `delete` both fail with `NotFound` on any id.
pub proof fn lemma_empty_store_not_found(id: Seq<char>)
    ensures
        !Map::<Seq<char>, RecModel>::empty().contains_key(id),
{
}

/// Law: inserting a record under an identifier and then looking that
/// identifier up yields exactly the inserted record model — the very
/// embedding and metadata that went in. `insert`'s contract turns the view
/// into `m.insert(id, rec)` and `get`'s returns the view at the identifier.
pub proof fn lemma_insert_get_round_trip(m: Map<Seq<char>, RecModel>, id: Seq<char>, rec: RecModel)
    ensures
        m.insert(id, rec).contains_key(id),
        m.insert(id, rec)[id] == rec,
{
}

/// Law: inserting twice under the same identifier replaces the record
/// entirely; the store afterwards equals the one obtained by the second
/// insert alone, so no field of the first record remains visible.
pub proof fn lemma_insert_overwrites(
    m: Map<Seq<char>, RecModel>,
    id: Seq<char>,
    first: RecModel,
    second: RecModel,
)
    ensures
        m.insert(id, first).insert(id, second) == m.insert(id, second),
        m.insert(id, first).insert(id, second)[id] == second,
{
    assert(m.insert(id, first).insert(id, second) =~= m.insert(id, second));
}

/// Law: once a delete of `id` has succeeded the view no longer contains
/// `id`, so by `get`'s contract a lookup fails with `NotFound`; and any
/// outcome of `search_nearest` against the shrunken store consists of
/// entries whose identifiers lie in its view, so none of them is `id`.
pub proof fn lemma_delete_removes_visibility(
    m: Map<Seq<char>, RecModel>,
    id: Seq<char>,
    scored: Seq<(String, u32)>,
    k: int,
    r: Seq<(String, u32)>,
)
    requires
        scored_for(m.remove(id), scored),
        ranked(scored, k, r),
    ensures
        !m.remove(id).contains_key(id),
        forall|i: int| 0 <= i < r.len() ==> (#[trigger] r[i]).0@ != id,
{
    assert forall|i: int| 0 <= i < r.len() implies (#[trigger] r[i]).0@ != id by {
        assert(in_seq(r[i], scored));
        let j = choose|j: int| 0 <= j < scored.len() && scored[j] == r[i];
        assert(m.remove(id).contains_key(scored[j].0@));
    }
}

} // verus!
