use vstd::prelude::*;

use crate::errors::VectorDBError;
use crate::ranking::{distinct_ids, in_seq, rank_top_k, ranked};
use crate::record::{md_view, RecModel, Vector};

verus! {

/// Pairwise distinctness of the identifiers in a record list.
pub open spec fn ids_distinct(s: Seq<Vector>) -> bool {
    forall|i: int, j: int| 0 <= i < j < s.len() ==> s[i].id@ != s[j].id@
}

/// Whether a scored list stands for the records of a store view: one entry
/// per stored record, identifiers distinct and all of them present in the
/// view. The score of each entry is whatever the caller computed for the
/// record under that identifier.
pub open spec fn scored_for(m: Map<Seq<char>, RecModel>, scored: Seq<(String, u32)>) -> bool {
    &&& scored.len() == m.dom().len()
    &&& distinct_ids(scored)
    &&& (forall|i: int| 0 <= i < scored.len() ==> m.contains_key((#[trigger] scored[i]).0@))
}

/// The vector store: a mapping from identifier to record together with the
/// fixed embedding dimension chosen at construction.
///
/// The records are kept in a list with pairwise-distinct identifiers; the
/// abstract view is the finite map from each identifier to the model of its
/// record.
pub struct VectorDB {
    vectors: Vec<Vector>,
    dimension: usize,
}

impl VectorDB {
    /// The map modeled by a record list: later entries override earlier ones.
    spec fn map_of(s: Seq<Vector>) -> Map<Seq<char>, RecModel>
        decreases s.len(),
    {
        if s.len() == 0 {
            Map::empty()
        } else {
            Self::map_of(s.drop_last()).insert(s.last().id@, s.last()@)
        }
    }

    /// The configured dimension.
    pub closed spec fn spec_dimension(self) -> usize {
        self.dimension
    }

    /// Well-formedness: identifiers are pairwise distinct and every stored
    /// embedding has exactly the configured dimension.
    pub closed spec fn wf(self) -> bool {
        &&& ids_distinct(self.vectors@)
        &&& (forall|i: int|
            0 <= i < self.vectors@.len() ==> (#[trigger] self.vectors@[i]).embedding@.len()
                == self.dimension)
    }

    /// An identifier is in the modeled map exactly when some list entry
    /// carries it.
    proof fn lemma_map_of_contains(s: Seq<Vector>, id: Seq<char>)
        ensures
            Self::map_of(s).contains_key(id) <==> (exists|i: int|
                0 <= i < s.len() && s[i].id@ == id),
        decreases s.len(),
    {
        if s.len() > 0 {
            Self::lemma_map_of_contains(s.drop_last(), id);
            if s.last().id@ == id {
                assert(s[s.len() - 1].id@ == id);
            } else {
                if Self::map_of(s).contains_key(id) {
                    let i = choose|i: int|
                        0 <= i < s.drop_last().len() && s.drop_last()[i].id@ == id;
                    assert(s[i].id@ == id);
                }
                if exists|i: int| 0 <= i < s.len() && s[i].id@ == id {
                    let i = choose|i: int| 0 <= i < s.len() && s[i].id@ == id;
                    assert(s.drop_last()[i].id@ == id);
                }
            }
        }
    }

    /// With distinct identifiers, the map sends each entry's identifier to
    /// that entry's model.
    proof fn lemma_map_of_index(s: Seq<Vector>, i: int)
        requires
            0 <= i < s.len(),
            ids_distinct(s),
        ensures
            Self::map_of(s).contains_key(s[i].id@),
            Self::map_of(s)[s[i].id@] == s[i]@,
        decreases s.len(),
    {
        if i == s.len() - 1 {
        } else {
            assert(ids_distinct(s.drop_last()));
            Self::lemma_map_of_index(s.drop_last(), i);
            assert(s.last().id@ != s[i].id@);
        }
    }

    /// With distinct identifiers, the map's domain is finite and exactly as
    /// large as the list.
    proof fn lemma_map_of_dom_len(s: Seq<Vector>)
        requires
            ids_distinct(s),
        ensures
            Self::map_of(s).dom().finite(),
            Self::map_of(s).dom().len() == s.len(),
        decreases s.len(),
    {
        if s.len() == 0 {
            assert(Self::map_of(s).dom() =~= Set::<Seq<char>>::empty());
        } else {
            assert(ids_distinct(s.drop_last()));
            Self::lemma_map_of_dom_len(s.drop_last());
            Self::lemma_map_of_contains(s.drop_last(), s.last().id@);
            assert(!(exists|i: int|
                0 <= i < s.drop_last().len() && s.drop_last()[i].id@ == s.last().id@)) by {
                if exists|i: int|
                    0 <= i < s.drop_last().len() && s.drop_last()[i].id@ == s.last().id@ {
                    let i = choose|i: int|
                        0 <= i < s.drop_last().len() && s.drop_last()[i].id@ == s.last().id@;
                    assert(s[i].id@ == s[s.len() - 1].id@);
                }
            }
            assert(Self::map_of(s).dom() =~= Self::map_of(s.drop_last()).dom().insert(
                s.last().id@,
            ));
        }
    }

    /// Appending an entry inserts its model under its identifier.
    proof fn lemma_map_of_push(s: Seq<Vector>, v: Vector)
        ensures
            Self::map_of(s.push(v)) == Self::map_of(s).insert(v.id@, v@),
    {
        assert(s.push(v).drop_last() =~= s);
        assert(s.push(v).last() == v);
    }

    /// Removing the entry at an index removes its identifier from the map,
    /// provided identifiers are distinct.
    proof fn lemma_map_of_remove(s: Seq<Vector>, i: int)
        requires
            0 <= i < s.len(),
            ids_distinct(s),
        ensures
            Self::map_of(s.remove(i)) == Self::map_of(s).remove(s[i].id@),
        decreases s.len(),
    {
        s.remove_ensures(i);
        if i == s.len() - 1 {
            Self::lemma_map_of_contains(s.drop_last(), s[i].id@);
            assert(!(exists|j: int|
                0 <= j < s.drop_last().len() && s.drop_last()[j].id@ == s[i].id@)) by {
                if exists|j: int|
                    0 <= j < s.drop_last().len() && s.drop_last()[j].id@ == s[i].id@ {
                    let j = choose|j: int|
                        0 <= j < s.drop_last().len() && s.drop_last()[j].id@ == s[i].id@;
                    assert(s[j].id@ == s[s.len() - 1].id@);
                }
            }
            assert(s.remove(i) =~= s.drop_last());
            assert(Self::map_of(s).remove(s[i].id@) =~= Self::map_of(s.drop_last()));
        } else {
            assert(ids_distinct(s.drop_last()));
            Self::lemma_map_of_remove(s.drop_last(), i);
            s.drop_last().remove_ensures(i);
            assert(s.remove(i).drop_last() =~= s.drop_last().remove(i));
            assert(s.remove(i).last() == s.last());
            assert(s.last().id@ != s[i].id@);
            assert(Self::map_of(s.drop_last()).remove(s[i].id@).insert(s.last().id@, s.last()@)
                =~= Self::map_of(s.drop_last()).insert(s.last().id@, s.last()@).remove(s[i].id@));
        }
    }

    /// Every identifier in the view maps to a record model that carries that
    /// same identifier: the keys and the embedded ids agree by construction.
    pub proof fn lemma_view_ids_consistent(self)
        requires
            self.wf(),
        ensures
            forall|id: Seq<char>| self@.contains_key(id) ==> (#[trigger] self@[id]).id == id,
    {
        assert forall|id: Seq<char>| self@.contains_key(id) implies (#[trigger] self@[id]).id
            == id by {
            Self::lemma_map_of_contains(self.vectors@, id);
            let i = choose|i: int| 0 <= i < self.vectors@.len() && self.vectors@[i].id@ == id;
            Self::lemma_map_of_index(self.vectors@, i);
        }
    }

    /// Every record model in the view carries an embedding of exactly the
    /// configured dimension: the store's dimensional invariant.
    pub proof fn lemma_view_dims_consistent(self)
        requires
            self.wf(),
        ensures
            forall|id: Seq<char>|
                self@.contains_key(id) ==> (#[trigger] self@[id]).embedding.len()
                    == self.spec_dimension(),
    {
        assert forall|id: Seq<char>| self@.contains_key(id) implies (
        #[trigger] self@[id]).embedding.len() == self.spec_dimension() by {
            Self::lemma_map_of_contains(self.vectors@, id);
            let i = choose|i: int| 0 <= i < self.vectors@.len() && self.vectors@[i].id@ == id;
            Self::lemma_map_of_index(self.vectors@, i);
        }
    }

    /// Creates an empty store with the given dimension.
    pub fn new(dimension: usize) -> (r: VectorDB)
        requires
            dimension >= 1,
        ensures
            r.wf(),
            r.spec_dimension() == dimension,
            r@ == Map::<Seq<char>, RecModel>::empty(),
    {
        VectorDB { vectors: Vec::new(), dimension }
    }

    /// Finds the position of the record carrying the given identifier.
    fn find_index(&self, key: &String) -> (r: Option<usize>)
        ensures
            match r {
                Some(i) => i < self.vectors@.len() && self.vectors@[i as int].id@ == key@,
                None => forall|i: int|
                    0 <= i < self.vectors@.len() ==> self.vectors@[i].id@ != key@,
            },
    {
        let mut i: usize = 0;
        while i < self.vectors.len()
            invariant
                i <= self.vectors@.len(),
                forall|j: int| 0 <= j < i ==> self.vectors@[j].id@ != key@,
            decreases self.vectors@.len() - i,
        {
            if self.vectors[i].id == *key {
                return Some(i);
            }
            i += 1;
        }
        None
    }

    /// Inserts a record, or replaces the record under the same identifier;
    /// embedding and metadata are both replaced, never merged. A vector whose
    /// length differs from the configured dimension is rejected with
    /// `DimensionMismatch` and the store is left unchanged.
    pub fn insert(&mut self, id: String, embedding: Vec<u32>, metadata: Vec<(String, String)>)
        -> (r: Result<(), VectorDBError>)
        requires
            old(self).wf(),
        ensures
            final(self).wf(),
            final(self).spec_dimension() == old(self).spec_dimension(),
            embedding@.len() != old(self).spec_dimension() ==> (*final(self) == *old(self) && (
            r matches Err(e) && (e matches VectorDBError::DimensionMismatch { expected, got }
                && expected == old(self).spec_dimension() && got == embedding@.len()))),
            embedding@.len() == old(self).spec_dimension() ==> (r is Ok && final(self)@ == old(
                self,
            )@.insert(
                id@,
                RecModel { id: id@, embedding: embedding@, metadata: md_view(metadata@) },
            )),
    {
        if embedding.len() != self.dimension {
            return Err(
                VectorDBError::DimensionMismatch { expected: self.dimension, got: embedding.len() },
            );
        }
        let v = Vector { id, embedding, metadata };
        let ghost s0 = self.vectors@;
        let ghost vm = v@;
        let ghost vid = v.id@;
        match self.find_index(&v.id) {
            Some(i) => {
                proof {
                    s0.remove_ensures(i as int);
                    Self::lemma_map_of_remove(s0, i as int);
                    Self::lemma_map_of_push(s0.remove(i as int), v);
                }
                let _replaced = self.vectors.remove(i);
                self.vectors.push(v);
                proof {
                    assert(ids_distinct(s0.remove(i as int)));
                    assert(ids_distinct(self.vectors@)) by {
                        assert forall|a: int, b: int|
                            0 <= a < b < self.vectors@.len() implies self.vectors@[a].id@
                            != self.vectors@[b].id@ by {
                            if b == self.vectors@.len() - 1 {
                                assert(s0.remove(i as int)[a].id@ != vid);
                            }
                        }
                    }
                    assert(self@ =~= Self::map_of(s0).insert(vid, vm));
                }
            },
            None => {
                proof {
                    Self::lemma_map_of_push(s0, v);
                }
                self.vectors.push(v);
                proof {
                    assert(ids_distinct(self.vectors@)) by {
                        assert forall|a: int, b: int|
                            0 <= a < b < self.vectors@.len() implies self.vectors@[a].id@
                            != self.vectors@[b].id@ by {
                            if b == self.vectors@.len() - 1 {
                                assert(s0[a].id@ != vid);
                            }
                        }
                    }
                }
            },
        }
        Ok(())
    }

    /// Copies the components of an embedding.
    fn copy_bits(src: &Vec<u32>) -> (r: Vec<u32>)
        ensures
            r@ == src@,
    {
        let mut out: Vec<u32> = Vec::new();
        let mut i: usize = 0;
        while i < src.len()
            invariant
                i <= src@.len(),
                out@ == src@.take(i as int),
            decreases src@.len() - i,
        {
            out.push(src[i]);
            proof {
                assert(out@ =~= src@.take(i + 1 as int));
            }
            i += 1;
        }
        proof {
            assert(src@.take(src@.len() as int) =~= src@);
        }
        out
    }

    /// Copies a metadata list.
    fn copy_metadata(src: &Vec<(String, String)>) -> (r: Vec<(String, String)>)
        ensures
            r@ == src@,
    {
        let mut out: Vec<(String, String)> = Vec::new();
        let mut i: usize = 0;
        while i < src.len()
            invariant
                i <= src@.len(),
                out@ == src@.take(i as int),
            decreases src@.len() - i,
        {
            let pair = &src[i];
            out.push((pair.0.clone(), pair.1.clone()));
            proof {
                assert(src@[i as int] == (src@[i as int].0, src@[i as int].1));
                assert(out@ =~= src@.take(i + 1 as int));
            }
            i += 1;
        }
        proof {
            assert(src@.take(src@.len() as int) =~= src@);
        }
        out
    }

    /// Returns a copy of the record stored under the given identifier, or
    /// `NotFound` when no record carries it.
    pub fn get(&self, id: &str) -> (r: Result<Vector, VectorDBError>)
        requires
            self.wf(),
        ensures
            self@.contains_key(id@) ==> (r matches Ok(v) && v@ == self@[id@] && v@.id == id@),
            !self@.contains_key(id@) ==> (r matches Err(e) && (
            e matches VectorDBError::NotFound(s) && s@ == id@)),
    {
        let key = id.to_owned();
        proof {
            Self::lemma_map_of_contains(self.vectors@, id@);
        }
        match self.find_index(&key) {
            Some(i) => {
                proof {
                    Self::lemma_map_of_index(self.vectors@, i as int);
                }
                let rec = &self.vectors[i];
                let out = Vector {
                    id: rec.id.clone(),
                    embedding: Self::copy_bits(&rec.embedding),
                    metadata: Self::copy_metadata(&rec.metadata),
                };
                Ok(out)
            },
            None => Err(VectorDBError::NotFound(key)),
        }
    }

    /// Removes the record under the given identifier, or fails with
    /// `NotFound` leaving the store unchanged.
    pub fn delete(&mut self, id: &str) -> (r: Result<(), VectorDBError>)
        requires
            old(self).wf(),
        ensures
            final(self).wf(),
            final(self).spec_dimension() == old(self).spec_dimension(),
            old(self)@.contains_key(id@) ==> (r is Ok && final(self)@ == old(self)@.remove(id@)),
            !old(self)@.contains_key(id@) ==> (*final(self) == *old(self) && (r matches Err(e)
                && (e matches VectorDBError::NotFound(s) && s@ == id@))),
    {
        let key = id.to_owned();
        proof {
            Self::lemma_map_of_contains(self.vectors@, id@);
        }
        match self.find_index(&key) {
            Some(i) => {
                let ghost s0 = self.vectors@;
                proof {
                    s0.remove_ensures(i as int);
                    Self::lemma_map_of_remove(s0, i as int);
                }
                let _removed = self.vectors.remove(i);
                proof {
                    assert(ids_distinct(self.vectors@));
                }
                Ok(())
            },
            None => Err(VectorDBError::NotFound(key)),
        }
    }

    /// Returns the records a query of the given length is to be scored
    /// against: one `(identifier, embedding)` pair per stored record. A
    /// query length other than the configured dimension is rejected with
    /// `DimensionMismatch` and nothing is returned.
    pub fn search_targets(&self, query_len: usize) -> (r: Result<
        Vec<(String, Vec<u32>)>,
        VectorDBError,
    >)
        requires
            self.wf(),
        ensures
            query_len != self.spec_dimension() ==> (r matches Err(e) && (
            e matches VectorDBError::DimensionMismatch { expected, got } && expected
                == self.spec_dimension() && got == query_len)),
            query_len == self.spec_dimension() ==> (r matches Ok(t) && t@.len()
                == self@.dom().len() && (forall|i: int|
                0 <= i < t@.len() ==> self@.contains_key((#[trigger] t@[i]).0@) && t@[i].1@
                    == self@[t@[i].0@].embedding) && (forall|i: int, j: int|
                #![trigger t@[i], t@[j]]
                0 <= i < j < t@.len() ==> t@[i].0@ != t@[j].0@) && (forall|id: Seq<char>|
                self@.contains_key(id) ==> exists|i: int|
                    0 <= i < t@.len() && (#[trigger] t@[i]).0@ == id)),
    {
        if query_len != self.dimension {
            return Err(
                VectorDBError::DimensionMismatch { expected: self.dimension, got: query_len },
            );
        }
        let mut t: Vec<(String, Vec<u32>)> = Vec::new();
        let mut i: usize = 0;
        while i < self.vectors.len()
            invariant
                i <= self.vectors@.len(),
                t@.len() == i,
                forall|a: int|
                    0 <= a < i ==> (#[trigger] t@[a]).0@ == self.vectors@[a].id@ && t@[a].1@
                        == self.vectors@[a].embedding@,
            decreases self.vectors@.len() - i,
        {
            let rec = &self.vectors[i];
            t.push((rec.id.clone(), Self::copy_bits(&rec.embedding)));
            i += 1;
        }
        proof {
            Self::lemma_map_of_dom_len(self.vectors@);
            assert forall|a: int| 0 <= a < t@.len() implies self@.contains_key(
                (#[trigger] t@[a]).0@,
            ) && t@[a].1@ == self@[t@[a].0@].embedding by {
                Self::lemma_map_of_index(self.vectors@, a);
            }
            assert forall|id: Seq<char>| self@.contains_key(id) implies exists|i2: int|
                0 <= i2 < t@.len() && (#[trigger] t@[i2]).0@ == id by {
                Self::lemma_map_of_contains(self.vectors@, id);
                let i2 = choose|i2: int|
                    0 <= i2 < self.vectors@.len() && self.vectors@[i2].id@ == id;
                assert(t@[i2].0@ == id);
            }
        }
        Ok(t)
    }

    /// Returns the `k` stored records that scored highest, as
    /// `(identifier, score)` pairs in descending rank order; with `k` past
    /// the number of stored records every record is returned. `scored` must
    /// carry one score per stored record (see [`scored_for`]); every
    /// returned identifier is a stored one.
    pub fn search_nearest(&self, scored: Vec<(String, u32)>, k: usize) -> (r: Vec<(String, u32)>)
        requires
            self.wf(),
            scored_for(self@, scored@),
        ensures
            ranked(scored@, k as int, r@),
            r@.len() == (if k as int <= self@.dom().len() {
                k as int
            } else {
                self@.dom().len() as int
            }),
            forall|i: int| 0 <= i < r@.len() ==> self@.contains_key((#[trigger] r@[i]).0@),
            distinct_ids(r@),
    {
        let ghost scored0 = scored@;
        let r = rank_top_k(scored, k);
        proof {
            assert forall|i: int| 0 <= i < r@.len() implies self@.contains_key(
                (#[trigger] r@[i]).0@,
            ) by {
                assert(in_seq(r@[i], scored0));
                let j = choose|j: int| 0 <= j < scored0.len() && scored0[j] == r@[i];
                assert(self@.contains_key(scored0[j].0@));
            }
        }
        r
    }
}

impl View for VectorDB {
    type V = Map<Seq<char>, RecModel>;

    closed spec fn view(&self) -> Map<Seq<char>, RecModel> {
        VectorDB::map_of(self.vectors@)
    }
}

} // verus!
