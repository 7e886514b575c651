//! The vector store builder: accumulates one embedding row per note, in
//! append order, and assigns both identity maps as one consistent pair
//! when the store is finished.
//!
//! Policy, fixed and deterministic: a note whose embedding generator
//! returned no vectors is skipped; only the first vector of a note is
//! retained; a vector of the wrong dimension or a repeated identity
//! aborts the build; a build that retained nothing yields no store, so
//! nothing is persisted for an empty or fully-skipped vault.

use vstd::prelude::*;
use crate::StoreError;
use crate::store::IdEntry;
use crate::store::VectorStore;
use crate::store::ids_view;
use crate::store::rows_view;
use crate::store::store_wf;

verus! {

/// Mathematical model of a builder: the rows retained so far and the
/// identity of each, index-aligned.
#[verifier::ext_equal]
pub ghost struct BuilderModel {
    pub rows: Seq<Seq<u32>>,
    pub ids: Seq<Seq<char>>,
}

/// Well-formedness of a builder: one identity per row, all identities
/// distinct, all rows of one dimension.
pub open spec fn builder_wf(m: BuilderModel) -> bool {
    &&& m.ids.len() == m.rows.len()
    &&& forall|i: int, j: int|
        0 <= i < j < m.ids.len() ==> (#[trigger] m.ids[i]) != (#[trigger] m.ids[j])
    &&& forall|i: int| 0 <= i < m.rows.len() ==> (#[trigger] m.rows[i]).len() == m.rows[0].len()
}

/// Some retained row already carries this identity.
pub open spec fn has_id(m: BuilderModel, id: Seq<char>) -> bool {
    exists|i: int| 0 <= i < m.ids.len() && (#[trigger] m.ids[i]) == id
}

/// One note, as the build pipeline hands it over: its identity and what
/// the embedding generator returned for its content (each vector a row of
/// scalar bit patterns; an empty sequence means no embedding).
pub struct NoteEmbedding {
    /// The note's relpath: its identity within the vault.
    pub relpath: String,
    /// The embedding vectors generated for the note's content.
    pub vectors: Vec<Vec<u32>>,
}

impl View for NoteEmbedding {
    type V = (Seq<char>, Seq<Seq<u32>>);

    open spec fn view(&self) -> (Seq<char>, Seq<Seq<u32>>) {
        (self.relpath@, rows_view(self.vectors@))
    }
}

impl DeepView for NoteEmbedding {
    type V = (Seq<char>, Seq<Seq<u32>>);

    open spec fn deep_view(&self) -> (Seq<char>, Seq<Seq<u32>>) {
        self.view()
    }
}

/// What adding one note does to a builder: skip a note with no vectors,
/// refuse a first vector of the wrong dimension, refuse a repeated
/// identity, and otherwise retain the first vector under that identity.
pub open spec fn builder_step(m: BuilderModel, note: (Seq<char>, Seq<Seq<u32>>)) -> Result<
    BuilderModel,
    StoreError,
> {
    if note.1.len() == 0 {
        Ok(m)
    } else if m.rows.len() > 0 && note.1[0].len() != m.rows[0].len() {
        Err(StoreError::DimensionMismatch)
    } else if has_id(m, note.0) {
        Err(StoreError::DuplicateId)
    } else {
        Ok(BuilderModel { rows: m.rows.push(note.1[0]), ids: m.ids.push(note.0) })
    }
}

/// What a whole build pass does: the notes folded through `builder_step`,
/// in order, from the empty builder; the first refusal aborts the pass.
pub open spec fn accumulate(notes: Seq<(Seq<char>, Seq<Seq<u32>>)>) -> Result<
    BuilderModel,
    StoreError,
>
    decreases notes.len(),
{
    if notes.len() == 0 {
        Ok(BuilderModel { rows: Seq::empty(), ids: Seq::empty() })
    } else {
        match accumulate(notes.drop_last()) {
            Ok(m) => builder_step(m, notes.last()),
            Err(e) => Err(e),
        }
    }
}

/// The identity-to-row-index entries of a finished store: one entry per
/// row, keyed by the row's identity, in row order.
pub open spec fn index_pairs(ids: Seq<Seq<char>>) -> Seq<(Seq<char>, nat)> {
    Seq::new(ids.len(), |i: int| (ids[i], i as nat))
}

/// Accumulates embeddings for one build pass.
pub struct StoreBuilder {
    /// The retained embedding rows, in append order.
    pub rows: Vec<Vec<u32>>,
    /// The identity of each retained row, index-aligned with `rows`.
    pub ids: Vec<String>,
}

impl View for StoreBuilder {
    type V = BuilderModel;

    open spec fn view(&self) -> BuilderModel {
        BuilderModel { rows: rows_view(self.rows@), ids: ids_view(self.ids@) }
    }
}

impl StoreBuilder {
    /// A fresh builder holding nothing.
    pub fn new() -> (b: StoreBuilder)
        ensures
            b@.rows == Seq::<Seq<u32>>::empty(),
            b@.ids == Seq::<Seq<char>>::empty(),
            builder_wf(b@),
    {
        let b = StoreBuilder { rows: Vec::new(), ids: Vec::new() };
        proof {
            assert(b@.rows =~= Seq::<Seq<u32>>::empty());
            assert(b@.ids =~= Seq::<Seq<char>>::empty());
        }
        b
    }

    /// How many rows have been retained so far.
    pub fn count(&self) -> (r: usize)
        ensures
            r == self@.rows.len(),
    {
        self.rows.len()
    }

    /// Whether some retained row already carries this identity.
    fn contains_id(&self, id: &String) -> (r: bool)
        ensures
            r == has_id(self@, id@),
    {
        let n = self.ids.len();
        for i in 0..n
            invariant
                n == self.ids.len(),
                forall|t: int| 0 <= t < i ==> (#[trigger] self@.ids[t]) != id@,
        {
            if self.ids[i] == *id {
                proof {
                    assert(self@.ids[i as int] == id@);
                }
                return true;
            }
        }
        proof {
            if has_id(self@, id@) {
                let w = choose|w: int| 0 <= w < self@.ids.len() && (#[trigger] self@.ids[w])
                    == id@;
                assert(self@.ids[w] != id@);
            }
        }
        false
    }

    /// Adds one note's embedding result, as `builder_step` says: `Ok(true)`
    /// when a row was retained, `Ok(false)` when the note was skipped for
    /// having no vectors, and an error, leaving the builder unchanged, when
    /// the first vector has the wrong dimension or the identity repeats.
    pub fn add_note(&mut self, relpath: String, vectors: Vec<Vec<u32>>) -> (r: Result<
        bool,
        StoreError,
    >)
        requires
            builder_wf(old(self)@),
        ensures
            builder_wf(final(self)@),
            match r {
                Ok(added) => builder_step(old(self)@, (relpath@, rows_view(vectors@))) == Ok::<
                    BuilderModel,
                    StoreError,
                >(final(self)@) && (added <==> vectors@.len() > 0),
                Err(e) => builder_step(old(self)@, (relpath@, rows_view(vectors@))) == Err::<
                    BuilderModel,
                    StoreError,
                >(e) && final(self)@ == old(self)@,
            },
    {
        let ghost note = (relpath@, rows_view(vectors@));
        if vectors.len() == 0 {
            return Ok(false);
        }
        let mut vs = vectors;
        let row = vs.remove(0);
        proof {
            assert(row@ == note.1[0]);
        }
        if self.rows.len() > 0 {
            let d0 = self.rows[0].len();
            if row.len() != d0 {
                return Err(StoreError::DimensionMismatch);
            }
        }
        if self.contains_id(&relpath) {
            return Err(StoreError::DuplicateId);
        }
        let ghost pre = self@;
        self.rows.push(row);
        self.ids.push(relpath);
        proof {
            assert(self@.rows =~= pre.rows.push(note.1[0]));
            assert(self@.ids =~= pre.ids.push(note.0));
            assert forall|i: int, j: int| 0 <= i < j < self@.ids.len() implies (
            #[trigger] self@.ids[i]) != (#[trigger] self@.ids[j]) by {
                if j == self@.ids.len() - 1 {
                    assert(!has_id(pre, note.0));
                    assert(pre.ids[i] != note.0);
                }
            }
        }
        Ok(true)
    }

    /// Closes the pass. A builder that retained nothing yields no store —
    /// the caller persists nothing. Otherwise the store holds exactly the
    /// retained rows and identities, with both identity maps assigned
    /// consistently from the append order, and is well-formed.
    pub fn finish(self) -> (r: Option<VectorStore>)
        requires
            builder_wf(self@),
        ensures
            match r {
                None => self@.rows.len() == 0,
                Some(s) => {
                    &&& self@.rows.len() > 0
                    &&& store_wf(s@)
                    &&& s@.dim == self@.rows[0].len()
                    &&& s@.rows == self@.rows
                    &&& s@.ids == self@.ids
                    &&& s@.pairs == index_pairs(self@.ids)
                },
            },
    {
        let ghost m = self@;
        if self.rows.len() == 0 {
            return None;
        }
        let dim = self.rows[0].len();
        let n = self.ids.len();
        let mut entries: Vec<IdEntry> = Vec::new();
        for i in 0..n
            invariant
                n == self.ids.len(),
                m == self@,
                entries@.len() == i,
                forall|t: int|
                    0 <= t < i ==> (#[trigger] entries@[t])@ == (m.ids[t], t as nat),
        {
            entries.push(IdEntry { id: self.ids[i].clone(), index: i });
        }
        let store = VectorStore {
            dim,
            rows: self.rows,
            index_to_id: self.ids,
            id_to_index: entries,
        };
        proof {
            assert(store@.rows =~= m.rows);
            assert(store@.ids =~= m.ids);
            assert(store@.pairs =~= index_pairs(m.ids));
            assert forall|j: int| 0 <= j < store@.pairs.len() implies #[trigger] crate::store::pair_consistent(
                store@,
                j,
            ) by {
                assert(store@.pairs[j] == (m.ids[j], j as nat));
            }
            assert forall|i: int| 0 <= i < store@.ids.len() implies #[trigger] crate::store::index_covered(
                store@,
                i,
            ) by {
                assert(store@.pairs[i].1 == i as nat);
            }
            assert(store_wf(store@));
        }
        Some(store)
    }
}

/// One whole build pass over pre-gathered embedding results: the notes
/// folded through the builder in order, then finished. `Ok(None)` means
/// nothing was retained — an empty vault, or one whose every note was
/// skipped — and nothing is to be persisted.
pub fn build_store(notes: Vec<NoteEmbedding>) -> (r: Result<Option<VectorStore>, StoreError>)
    ensures
        match r {
            Ok(opt) => accumulate(notes.deep_view()) matches Ok(m) && (match opt {
                None => m.rows.len() == 0,
                Some(s) => {
                    &&& m.rows.len() > 0
                    &&& store_wf(s@)
                    &&& s@.dim == m.rows[0].len()
                    &&& s@.rows == m.rows
                    &&& s@.ids == m.ids
                    &&& s@.pairs == index_pairs(m.ids)
                },
            }),
            Err(e) => accumulate(notes.deep_view()) == Err::<BuilderModel, StoreError>(e),
        },
{
    let ghost nv = notes.deep_view();
    let mut builder = StoreBuilder::new();
    let n = notes.len();
    proof {
        assert(nv.take(0) =~= Seq::<(Seq<char>, Seq<Seq<u32>>)>::empty());
        assert(accumulate(nv.take(0)) == Ok::<BuilderModel, StoreError>(builder@));
    }
    let mut notes_left = notes;
    let mut k: usize = 0;
    while k < n
        invariant
            nv == notes.deep_view(),
            k <= n,
            n == nv.len(),
            notes_left@.len() == n - k,
            forall|t: int|
                0 <= t < n - k ==> (#[trigger] notes_left@[t])@ == nv[k + t],
            builder_wf(builder@),
            accumulate(nv.take(k as int)) == Ok::<BuilderModel, StoreError>(builder@),
        decreases n - k,
    {
        let note = notes_left.remove(0);
        let ghost pre = builder@;
        let added = builder.add_note(note.relpath, note.vectors);
        proof {
            assert(nv.take(k + 1).drop_last() =~= nv.take(k as int));
            assert(nv.take(k + 1).last() == nv[k as int]);
            assert(note@ == nv[k as int]);
        }
        match added {
            Ok(_) => {},
            Err(e) => {
                proof {
                    assert(accumulate(nv.take(k + 1)) == Err::<BuilderModel, StoreError>(e));
                    assert(nv.take(nv.len() as int) =~= nv);
                    crate::builder::lemma_accumulate_error_persists(nv, k + 1);
                }
                return Err(e);
            },
        }
        k = k + 1;
    }
    proof {
        assert(nv.take(n as int) =~= nv);
    }
    Ok(builder.finish())
}

/// Once a build pass has refused a prefix of the notes, the whole pass
/// refuses with the same error.
pub proof fn lemma_accumulate_error_persists(notes: Seq<(Seq<char>, Seq<Seq<u32>>)>, k: int)
    requires
        0 <= k <= notes.len(),
        accumulate(notes.take(k)) is Err,
    ensures
        accumulate(notes) == accumulate(notes.take(k)),
    decreases notes.len() - k,
{
    if k < notes.len() {
        assert(notes.take(k + 1).drop_last() =~= notes.take(k));
        assert(accumulate(notes.take(k + 1)) == accumulate(notes.take(k)));
        lemma_accumulate_error_persists(notes, k + 1);
    } else {
        assert(notes.take(k) =~= notes);
    }
}

/// Rebuilding from the same enumerated notes and embedding results gives
/// the same outcome — the build is a function of the note sequence alone,
/// so two passes over identical content produce identical stores, and
/// with them bit-identical persisted bytes.
pub proof fn lemma_rebuild_deterministic(
    n1: Seq<(Seq<char>, Seq<Seq<u32>>)>,
    n2: Seq<(Seq<char>, Seq<Seq<u32>>)>,
)
    requires
        n1 == n2,
    ensures
        accumulate(n1) == accumulate(n2),
{
}

/// The skip policy keeps the counts consistent: a successful pass retains
/// exactly one row per note that embedded to at least one vector, so N is
/// the note count reduced by exactly the number of skipped notes.
pub proof fn lemma_count_excludes_skipped(notes: Seq<(Seq<char>, Seq<Seq<u32>>)>)
    requires
        accumulate(notes) is Ok,
    ensures
        (accumulate(notes)->Ok_0).rows.len() == notes.filter(
            |n: (Seq<char>, Seq<Seq<u32>>)| n.1.len() > 0,
        ).len(),
        (accumulate(notes)->Ok_0).ids.len() == (accumulate(notes)->Ok_0).rows.len(),
    decreases notes.len(),
{
    reveal(Seq::filter);
    let pred = |n: (Seq<char>, Seq<Seq<u32>>)| n.1.len() > 0;
    if notes.len() == 0 {
    } else {
        let prefix = notes.drop_last();
        assert(accumulate(prefix) is Ok);
        lemma_count_excludes_skipped(prefix);
    }
}

} // verus!
