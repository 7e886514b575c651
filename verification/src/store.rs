//! The vector store: an N×D matrix of embedding scalars plus the
//! bidirectional identity mapping between row indexes and note relpaths.
//!
//! Embedding scalars are carried as opaque 32-bit values (the bit pattern
//! of the numeric component); the store never computes with them, it only
//! keeps and round-trips them exactly.

use vstd::prelude::*;

verus! {

/// Mathematical model of a vector store: the matrix rows, the row-index to
/// identity map (`ids`, indexed by row), and the identity to row-index map
/// (`pairs`, an association list of key/index entries in file order).
#[verifier::ext_equal]
pub ghost struct StoreModel {
    /// Embedding dimension D; every row has this length.
    pub dim: nat,
    /// The N matrix rows, in row order.
    pub rows: Seq<Seq<u32>>,
    /// Row index to note identity: `ids[i]` is the relpath of row `i`.
    pub ids: Seq<Seq<char>>,
    /// Note identity to row index, as key/index entries.
    pub pairs: Seq<(Seq<char>, nat)>,
}

/// Entry `j` of the identity map points at a row that carries its key.
pub open spec fn pair_consistent(m: StoreModel, j: int) -> bool
    recommends
        0 <= j < m.pairs.len(),
{
    &&& m.pairs[j].1 < m.ids.len()
    &&& m.ids[m.pairs[j].1 as int] == m.pairs[j].0
}

/// Some entry of the identity map points at row `i`.
pub open spec fn index_covered(m: StoreModel, i: int) -> bool {
    exists|j: int| 0 <= j < m.pairs.len() && (#[trigger] m.pairs[j]).1 == i
}

/// Well-formedness of a store model: the row count equals the cardinality
/// of both maps, every row has the store's dimension, and the two maps are
/// mutual inverses (every entry is consistent, keys are unique, and every
/// row index is covered by exactly one entry).
pub open spec fn store_wf(m: StoreModel) -> bool {
    &&& m.ids.len() == m.rows.len()
    &&& m.pairs.len() == m.rows.len()
    &&& forall|i: int| 0 <= i < m.rows.len() ==> (#[trigger] m.rows[i]).len() == m.dim
    &&& forall|j: int| 0 <= j < m.pairs.len() ==> #[trigger] pair_consistent(m, j)
    &&& forall|j1: int, j2: int|
        0 <= j1 < m.pairs.len() && 0 <= j2 < m.pairs.len() && j1 != j2 ==> (
        #[trigger] m.pairs[j1]).0 != (#[trigger] m.pairs[j2]).0
    &&& forall|i: int| 0 <= i < m.ids.len() ==> #[trigger] index_covered(m, i)
}

/// What the identity map gives for key `k`: the row index of the unique
/// entry whose key is `k`, or nothing when no entry carries `k`.
pub open spec fn lookup_id(m: StoreModel, k: Seq<char>) -> Option<nat> {
    if exists|j: int| 0 <= j < m.pairs.len() && (#[trigger] m.pairs[j]).0 == k {
        let j = choose|j: int| 0 <= j < m.pairs.len() && (#[trigger] m.pairs[j]).0 == k;
        Some(m.pairs[j].1)
    } else {
        None
    }
}

/// Note identities within one well-formed store are unique: no two rows
/// share a relpath.
pub proof fn lemma_ids_unique(m: StoreModel)
    requires
        store_wf(m),
    ensures
        forall|i1: int, i2: int|
            0 <= i1 < m.ids.len() && 0 <= i2 < m.ids.len() && i1 != i2 ==> m.ids[i1] != m.ids[i2],
{
    assert forall|i1: int, i2: int|
        0 <= i1 < m.ids.len() && 0 <= i2 < m.ids.len() && i1 != i2 implies m.ids[i1]
        != m.ids[i2] by {
        if m.ids[i1] == m.ids[i2] {
            let j1 = choose|j: int| 0 <= j < m.pairs.len() && (#[trigger] m.pairs[j]).1 == i1;
            let j2 = choose|j: int| 0 <= j < m.pairs.len() && (#[trigger] m.pairs[j]).1 == i2;
            assert(index_covered(m, i1));
            assert(index_covered(m, i2));
            assert(pair_consistent(m, j1));
            assert(pair_consistent(m, j2));
            assert(m.pairs[j1].0 == m.pairs[j2].0);
        }
    }
}

/// The two identity maps of a well-formed store are exact inverses: looking
/// up the identity of any row gives that row back, and every map entry
/// points at a row that carries its key.
pub proof fn lemma_maps_mutually_inverse(m: StoreModel)
    requires
        store_wf(m),
    ensures
        forall|i: int| 0 <= i < m.ids.len() ==> #[trigger] lookup_id(m, m.ids[i]) == Some(i as nat),
        forall|j: int|
            0 <= j < m.pairs.len() ==> (#[trigger] m.pairs[j]).1 < m.ids.len() && m.ids[m.pairs[j].1 as int]
                == m.pairs[j].0,
{
    lemma_ids_unique(m);
    assert forall|j: int|
        0 <= j < m.pairs.len() implies (#[trigger] m.pairs[j]).1 < m.ids.len() && m.ids[m.pairs[j].1 as int]
        == m.pairs[j].0 by {
        assert(pair_consistent(m, j));
    }
    assert forall|i: int| 0 <= i < m.ids.len() implies #[trigger] lookup_id(m, m.ids[i]) == Some(
        i as nat,
    ) by {
        assert(index_covered(m, i));
        let jc = choose|j: int| 0 <= j < m.pairs.len() && (#[trigger] m.pairs[j]).1 == i;
        assert(pair_consistent(m, jc));
        assert(m.pairs[jc].0 == m.ids[i]);
        let jl = choose|j: int| 0 <= j < m.pairs.len() && (#[trigger] m.pairs[j]).0 == m.ids[i];
        assert(pair_consistent(m, jl));
        assert(m.ids[m.pairs[jl].1 as int] == m.ids[i]);
        assert(m.pairs[jl].1 == i);
    }
}

/// The row count of a well-formed store equals the cardinality of each
/// identity map.
pub proof fn lemma_counts_agree(m: StoreModel)
    requires
        store_wf(m),
    ensures
        m.ids.len() == m.rows.len(),
        m.pairs.len() == m.rows.len(),
{
}

/// The matrix a vector of rows holds.
pub open spec fn rows_view(v: Seq<Vec<u32>>) -> Seq<Seq<u32>> {
    Seq::new(v.len(), |i: int| v[i]@)
}

/// The identities a vector of strings holds.
pub open spec fn ids_view(v: Seq<String>) -> Seq<Seq<char>> {
    Seq::new(v.len(), |i: int| v[i]@)
}

/// The identity-map entries a vector of raw key/index pairs holds.
pub open spec fn raw_pairs_view(v: Seq<(String, u64)>) -> Seq<(Seq<char>, nat)> {
    Seq::new(v.len(), |j: int| (v[j].0@, v[j].1 as nat))
}

/// One entry of the identity-to-row-index map.
pub struct IdEntry {
    /// The note identity: its relpath within the vault.
    pub id: String,
    /// The matrix row holding that note's embedding.
    pub index: usize,
}

impl View for IdEntry {
    type V = (Seq<char>, nat);

    open spec fn view(&self) -> (Seq<char>, nat) {
        (self.id@, self.index as nat)
    }
}

/// The in-memory vector store for one vault.
pub struct VectorStore {
    /// Embedding dimension D.
    pub dim: usize,
    /// The embedding matrix: N rows of D scalars each.
    pub rows: Vec<Vec<u32>>,
    /// Row index to note identity.
    pub index_to_id: Vec<String>,
    /// Note identity to row index.
    pub id_to_index: Vec<IdEntry>,
}

impl View for VectorStore {
    type V = StoreModel;

    open spec fn view(&self) -> StoreModel {
        StoreModel {
            dim: self.dim as nat,
            rows: Seq::new(self.rows@.len(), |i: int| self.rows@[i]@),
            ids: Seq::new(self.index_to_id@.len(), |i: int| self.index_to_id@[i]@),
            pairs: Seq::new(self.id_to_index@.len(), |i: int| self.id_to_index@[i]@),
        }
    }
}

impl VectorStore {
    /// Number of notes held: N.
    pub fn len(&self) -> (r: usize)
        ensures
            r == self@.rows.len(),
    {
        self.rows.len()
    }

    /// The row index recorded for `id`, by scanning the identity map.
    pub fn index_of_id(&self, id: &String) -> (r: Option<usize>)
        requires
            store_wf(self@),
        ensures
            r matches Some(i) ==> lookup_id(self@, id@) == Some(i as nat),
            r is None ==> lookup_id(self@, id@) is None,
    {
        let ghost m = self@;
        let n = self.id_to_index.len();
        for j in 0..n
            invariant
                n == self.id_to_index.len(),
                m == self@,
                store_wf(m),
                forall|j0: int| 0 <= j0 < j ==> (#[trigger] m.pairs[j0]).0 != id@,
        {
            if self.id_to_index[j].id == *id {
                proof {
                    assert(m.pairs[j as int].0 == id@);
                    let jl = choose|jl: int| 0 <= jl < m.pairs.len() && (#[trigger] m.pairs[jl]).0
                        == id@;
                    assert(jl == j as int);
                }
                return Some(self.id_to_index[j].index);
            }
        }
        proof {
            if lookup_id(m, id@) is Some {
                let jw = choose|jw: int| 0 <= jw < m.pairs.len() && (#[trigger] m.pairs[jw]).0
                    == id@;
                assert(m.pairs[jw].0 != id@);
            }
        }
        None
    }
}

} // verus!
