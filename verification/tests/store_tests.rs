use notemancy::builder::{build_store, NoteEmbedding, StoreBuilder};
use notemancy::codec::{decode_store, encode_store};
use notemancy::StoreError;

fn vec32(vals: &[f32]) -> Vec<u32> {
    vals.iter().map(|v| v.to_bits()).collect()
}

fn note(relpath: &str, vectors: Vec<Vec<u32>>) -> NoteEmbedding {
    NoteEmbedding { relpath: relpath.to_string(), vectors }
}

#[test]
fn two_notes_build_consistent_store() {
    let notes = vec![
        note("a.md", vec![vec32(&[1.0, 0.0])]),
        note("b.md", vec![vec32(&[0.0, 1.0])]),
    ];
    let store = build_store(notes).unwrap().unwrap();
    assert_eq!(store.len(), 2);
    assert_eq!(store.dim, 2);
    assert_eq!(store.rows, vec![vec32(&[1.0, 0.0]), vec32(&[0.0, 1.0])]);
    assert_eq!(store.index_to_id, vec!["a.md".to_string(), "b.md".to_string()]);
    assert_eq!(store.index_of_id(&"a.md".to_string()), Some(0));
    assert_eq!(store.index_of_id(&"b.md".to_string()), Some(1));
    assert_eq!(store.index_of_id(&"c.md".to_string()), None);
    // The two maps are exact inverses.
    for (i, id) in store.index_to_id.iter().enumerate() {
        assert_eq!(store.index_of_id(id), Some(i));
    }
    for entry in &store.id_to_index {
        assert_eq!(&store.index_to_id[entry.index], &entry.id);
    }
}

#[test]
fn empty_vault_builds_no_store() {
    let r = build_store(Vec::new());
    assert!(matches!(r, Ok(None)));
}

#[test]
fn only_note_failing_to_embed_builds_no_store() {
    // One note whose generator returned no vectors: nothing is retained,
    // so no store is produced and nothing would be persisted.
    let r = build_store(vec![note("a.md", Vec::new())]);
    assert!(matches!(r, Ok(None)));
}

#[test]
fn skipped_note_is_excluded_and_counts_stay_consistent() {
    let notes = vec![
        note("a.md", vec![vec32(&[1.0])]),
        note("skip.md", Vec::new()),
        note("b.md", vec![vec32(&[2.0])]),
    ];
    let store = build_store(notes).unwrap().unwrap();
    assert_eq!(store.len(), 2);
    assert_eq!(store.rows.len(), 2);
    assert_eq!(store.index_to_id.len(), 2);
    assert_eq!(store.id_to_index.len(), 2);
    assert_eq!(store.index_to_id, vec!["a.md".to_string(), "b.md".to_string()]);
    assert_eq!(store.index_of_id(&"skip.md".to_string()), None);
    assert_eq!(store.index_of_id(&"b.md".to_string()), Some(1));
}

#[test]
fn only_first_vector_of_a_note_is_retained() {
    let notes = vec![note("a.md", vec![vec32(&[3.0]), vec32(&[4.0])])];
    let store = build_store(notes).unwrap().unwrap();
    assert_eq!(store.len(), 1);
    assert_eq!(store.rows[0], vec32(&[3.0]));
}

#[test]
fn dimension_mismatch_aborts_build() {
    let notes = vec![
        note("a.md", vec![vec32(&[1.0, 2.0])]),
        note("b.md", vec![vec32(&[1.0, 2.0, 3.0])]),
    ];
    let r = build_store(notes);
    assert!(matches!(r, Err(StoreError::DimensionMismatch)));
}

#[test]
fn duplicate_identity_aborts_build() {
    let notes = vec![
        note("a.md", vec![vec32(&[1.0])]),
        note("a.md", vec![vec32(&[2.0])]),
    ];
    let r = build_store(notes);
    assert!(matches!(r, Err(StoreError::DuplicateId)));
}

#[test]
fn builder_reports_skip_and_retain() {
    let mut b = StoreBuilder::new();
    assert_eq!(b.add_note("a.md".to_string(), vec![vec32(&[1.0])]), Ok(true));
    assert_eq!(b.add_note("s.md".to_string(), Vec::new()), Ok(false));
    assert_eq!(b.count(), 1);
    let store = b.finish().unwrap();
    assert_eq!(store.len(), 1);
}

#[test]
fn round_trip_is_exact() {
    let notes = vec![
        note("projects/alpha.md", vec![vec32(&[0.25, -1.5, 3.75])]),
        note("beta.md", vec![vec32(&[f32::MIN_POSITIVE, 0.0, -0.0])]),
        note("nested/deep/γράμμα.md", vec![vec32(&[1.0e-38, 2.0, -7.25])]),
    ];
    let store = build_store(notes).unwrap().unwrap();
    let bytes = encode_store(&store);
    let back = decode_store(&bytes).unwrap();
    assert_eq!(back.dim, store.dim);
    assert_eq!(back.rows, store.rows);
    assert_eq!(back.index_to_id, store.index_to_id);
    assert_eq!(back.id_to_index.len(), store.id_to_index.len());
    for (a, b) in back.id_to_index.iter().zip(store.id_to_index.iter()) {
        assert_eq!(a.id, b.id);
        assert_eq!(a.index, b.index);
    }
}

#[test]
fn rebuild_from_identical_content_is_bit_identical() {
    let make = || {
        vec![
            note("a.md", vec![vec32(&[1.25, 2.5])]),
            note("b.md", vec![vec32(&[-3.0, 4.0])]),
        ]
    };
    let s1 = build_store(make()).unwrap().unwrap();
    let s2 = build_store(make()).unwrap().unwrap();
    let b1 = encode_store(&s1);
    let b2 = encode_store(&s2);
    assert_eq!(b1, b2);
}

#[test]
fn truncated_bytes_are_corrupt() {
    let store = build_store(vec![note("a.md", vec![vec32(&[1.0])])])
        .unwrap()
        .unwrap();
    let mut bytes = encode_store(&store);
    bytes.pop();
    assert!(matches!(decode_store(&bytes), Err(StoreError::CorruptStore)));
}

#[test]
fn trailing_bytes_are_corrupt() {
    let store = build_store(vec![note("a.md", vec![vec32(&[1.0])])])
        .unwrap()
        .unwrap();
    let mut bytes = encode_store(&store);
    bytes.push(0);
    assert!(matches!(decode_store(&bytes), Err(StoreError::CorruptStore)));
}

fn put_u64(out: &mut Vec<u8>, x: u64) {
    out.extend_from_slice(&x.to_le_bytes());
}

fn put_u32(out: &mut Vec<u8>, x: u32) {
    out.extend_from_slice(&x.to_le_bytes());
}

fn put_id(out: &mut Vec<u8>, s: &str) {
    put_u64(out, s.chars().count() as u64);
    for c in s.chars() {
        put_u32(out, c as u32);
    }
}

#[test]
fn maps_that_are_not_inverses_are_corrupt() {
    // dim 1, one row, index_to_id says "a.md" but the reverse map keys
    // "b.md": the mandatory load-time check must refuse it.
    let mut bytes = Vec::new();
    put_u64(&mut bytes, 1);
    put_u64(&mut bytes, 1);
    put_u32(&mut bytes, 42);
    put_id(&mut bytes, "a.md");
    put_id(&mut bytes, "b.md");
    put_u64(&mut bytes, 0);
    assert!(matches!(decode_store(&bytes), Err(StoreError::CorruptStore)));
}

#[test]
fn out_of_range_row_index_is_corrupt() {
    let mut bytes = Vec::new();
    put_u64(&mut bytes, 1);
    put_u64(&mut bytes, 1);
    put_u32(&mut bytes, 42);
    put_id(&mut bytes, "a.md");
    put_id(&mut bytes, "a.md");
    put_u64(&mut bytes, 7);
    assert!(matches!(decode_store(&bytes), Err(StoreError::CorruptStore)));
}

#[test]
fn surrogate_code_point_is_corrupt() {
    // An identity character must be a Unicode scalar value; 0xD800 is a
    // surrogate and must be refused.
    let mut bytes = Vec::new();
    put_u64(&mut bytes, 1);
    put_u64(&mut bytes, 1);
    put_u32(&mut bytes, 42);
    put_u64(&mut bytes, 1);
    put_u32(&mut bytes, 0xD800);
    put_id(&mut bytes, "a.md");
    put_u64(&mut bytes, 0);
    assert!(matches!(decode_store(&bytes), Err(StoreError::CorruptStore)));
}

#[test]
fn well_formed_artifact_decodes() {
    let mut bytes = Vec::new();
    put_u64(&mut bytes, 2);
    put_u64(&mut bytes, 1);
    put_u32(&mut bytes, 1.0f32.to_bits());
    put_u32(&mut bytes, 2.0f32.to_bits());
    put_id(&mut bytes, "x.md");
    put_id(&mut bytes, "x.md");
    put_u64(&mut bytes, 0);
    let store = decode_store(&bytes).unwrap();
    assert_eq!(store.dim, 2);
    assert_eq!(store.len(), 1);
    assert_eq!(store.rows[0], vec![1.0f32.to_bits(), 2.0f32.to_bits()]);
    assert_eq!(store.index_to_id[0], "x.md");
    assert_eq!(store.index_of_id(&"x.md".to_string()), Some(0));
}

#[test]
fn error_messages_are_fixed() {
    assert_eq!(StoreError::CorruptStore.message(), "corrupt vector store");
    assert_eq!(
        StoreError::DimensionMismatch.message(),
        "embedding dimension mismatch"
    );
    assert_eq!(StoreError::DuplicateId.message(), "duplicate note identity");
}

#[test]
fn store_file_name_is_fixed_by_the_vault_name() {
    assert_eq!(notemancy::codec::store_file_name("main"), "main_vectors.bin");
}

#[test]
fn decode_accepts_entries_in_any_order() {
    // The identity map may be recorded in any entry order, as long as the
    // two maps are mutual inverses.
    let mut bytes = Vec::new();
    put_u64(&mut bytes, 1);
    put_u64(&mut bytes, 2);
    put_u32(&mut bytes, 10);
    put_u32(&mut bytes, 20);
    put_id(&mut bytes, "a.md");
    put_id(&mut bytes, "b.md");
    put_id(&mut bytes, "b.md");
    put_u64(&mut bytes, 1);
    put_id(&mut bytes, "a.md");
    put_u64(&mut bytes, 0);
    let store = decode_store(&bytes).unwrap();
    assert_eq!(store.len(), 2);
    assert_eq!(store.index_of_id(&"a.md".to_string()), Some(0));
    assert_eq!(store.index_of_id(&"b.md".to_string()), Some(1));
}
