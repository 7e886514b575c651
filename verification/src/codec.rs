//! Store persistence: a deterministic binary codec for the vector store.
//!
//! Layout of the persisted artifact, all integers little-endian:
//! the dimension D as a u64, the note count N as a u64, the N matrix rows
//! of D scalars (4 bytes each), the N identities (a u64 character count,
//! then one u32 code point per character), and the N identity-map entries
//! (an identity in the same form, then the row index as a u64).
//!
//! `decode_store` accepts exactly the byte strings that describe a
//! well-formed store and spell it with no trailing bytes; everything else
//! is `StoreError::CorruptStore`. Encoding a well-formed store and decoding
//! the result gives the store back exactly (`lemma_store_round_trip`).

use vstd::prelude::*;
use vstd::bytes::*;
use vstd::string::*;
use vstd::utf8::char_is_scalar;
use vstd::utf8::char_u32_cast;
use vstd::utf8::is_scalar;
use crate::store::IdEntry;
use crate::store::StoreModel;
use crate::store::ids_view;
use crate::store::index_covered;
use crate::store::pair_consistent;
use crate::store::raw_pairs_view;
use crate::store::rows_view;
use crate::store::VectorStore;
use crate::store::store_wf;
use crate::StoreError;
use crate::text::char_from_u32;
use crate::text::push_char;

verus! {

// ---------------------------------------------------------------------
// What the bytes of a store are, spelled from the model.
// ---------------------------------------------------------------------
/// The scalars of one matrix row, 4 bytes each.
pub open spec fn encode_scalars(s: Seq<u32>) -> Seq<u8>
    decreases s.len(),
{
    if s.len() == 0 {
        Seq::empty()
    } else {
        spec_u32_to_le_bytes(s[0]) + encode_scalars(s.drop_first())
    }
}

/// All matrix rows, in row order.
pub open spec fn encode_rows(rows: Seq<Seq<u32>>) -> Seq<u8>
    decreases rows.len(),
{
    if rows.len() == 0 {
        Seq::empty()
    } else {
        encode_scalars(rows[0]) + encode_rows(rows.drop_first())
    }
}

/// The characters of an identity, one u32 code point each.
pub open spec fn encode_chars(s: Seq<char>) -> Seq<u8>
    decreases s.len(),
{
    if s.len() == 0 {
        Seq::empty()
    } else {
        spec_u32_to_le_bytes(s[0] as u32) + encode_chars(s.drop_first())
    }
}

/// One identity: its character count, then its code points.
pub open spec fn encode_id(s: Seq<char>) -> Seq<u8> {
    spec_u64_to_le_bytes(s.len() as u64) + encode_chars(s)
}

/// The row-index-to-identity map, in row order.
pub open spec fn encode_ids(ids: Seq<Seq<char>>) -> Seq<u8>
    decreases ids.len(),
{
    if ids.len() == 0 {
        Seq::empty()
    } else {
        encode_id(ids[0]) + encode_ids(ids.drop_first())
    }
}

/// One identity-map entry: the key, then the row index.
pub open spec fn encode_pair(p: (Seq<char>, nat)) -> Seq<u8> {
    encode_id(p.0) + spec_u64_to_le_bytes(p.1 as u64)
}

/// The identity-to-row-index map, in entry order.
pub open spec fn encode_pairs(ps: Seq<(Seq<char>, nat)>) -> Seq<u8>
    decreases ps.len(),
{
    if ps.len() == 0 {
        Seq::empty()
    } else {
        encode_pair(ps[0]) + encode_pairs(ps.drop_first())
    }
}

/// The whole persisted artifact of a store.
pub open spec fn encode_model(m: StoreModel) -> Seq<u8> {
    spec_u64_to_le_bytes(m.dim as u64) + spec_u64_to_le_bytes(m.rows.len() as u64) + encode_rows(
        m.rows,
    ) + encode_ids(m.ids) + encode_pairs(m.pairs)
}

/// The machine limits under which the encoding is faithful: every count
/// written as a u64 must actually fit one, and the dimension and note
/// count must be addressable. Stores built by this library satisfy this
/// by construction.
pub open spec fn encodable(m: StoreModel) -> bool {
    &&& m.dim <= usize::MAX
    &&& m.rows.len() <= usize::MAX
    &&& forall|i: int| 0 <= i < m.ids.len() ==> (#[trigger] m.ids[i]).len() <= u64::MAX
    &&& forall|j: int|
        0 <= j < m.pairs.len() ==> (#[trigger] m.pairs[j]).0.len() <= u64::MAX && m.pairs[j].1
            <= u64::MAX
}

// ---------------------------------------------------------------------
// Appending one element to a sequence appends its bytes.
// ---------------------------------------------------------------------
proof fn lemma_encode_scalars_push(s: Seq<u32>, x: u32)
    ensures
        encode_scalars(s.push(x)) == encode_scalars(s) + spec_u32_to_le_bytes(x),
    decreases s.len(),
{
    if s.len() == 0 {
        assert(s.push(x).drop_first() =~= s);
        assert(s.push(x)[0] == x);
        assert(encode_scalars(s) =~= Seq::<u8>::empty());
        assert(encode_scalars(s.push(x)) =~= encode_scalars(s) + spec_u32_to_le_bytes(x));
    } else {
        lemma_encode_scalars_push(s.drop_first(), x);
        assert(s.push(x).drop_first() =~= s.drop_first().push(x));
        assert(s.push(x)[0] == s[0]);
        assert(encode_scalars(s.push(x)) == spec_u32_to_le_bytes(s[0]) + encode_scalars(
            s.drop_first().push(x),
        ));
        assert(encode_scalars(s.push(x)) =~= encode_scalars(s) + spec_u32_to_le_bytes(x));
    }
}

proof fn lemma_encode_rows_push(rows: Seq<Seq<u32>>, r: Seq<u32>)
    ensures
        encode_rows(rows.push(r)) == encode_rows(rows) + encode_scalars(r),
    decreases rows.len(),
{
    if rows.len() == 0 {
        assert(rows.push(r).drop_first() =~= rows);
        assert(rows.push(r)[0] == r);
        assert(encode_rows(rows) =~= Seq::<u8>::empty());
        assert(encode_rows(rows.push(r)) =~= encode_rows(rows) + encode_scalars(r));
    } else {
        lemma_encode_rows_push(rows.drop_first(), r);
        assert(rows.push(r).drop_first() =~= rows.drop_first().push(r));
        assert(rows.push(r)[0] == rows[0]);
        assert(encode_rows(rows.push(r)) == encode_scalars(rows[0]) + encode_rows(
            rows.drop_first().push(r),
        ));
        assert(encode_rows(rows.push(r)) =~= encode_rows(rows) + encode_scalars(r));
    }
}

proof fn lemma_encode_chars_push(s: Seq<char>, c: char)
    ensures
        encode_chars(s.push(c)) == encode_chars(s) + spec_u32_to_le_bytes(c as u32),
    decreases s.len(),
{
    if s.len() == 0 {
        assert(s.push(c).drop_first() =~= s);
        assert(s.push(c)[0] == c);
        assert(encode_chars(s) =~= Seq::<u8>::empty());
        assert(encode_chars(s.push(c)) =~= encode_chars(s) + spec_u32_to_le_bytes(c as u32));
    } else {
        lemma_encode_chars_push(s.drop_first(), c);
        assert(s.push(c).drop_first() =~= s.drop_first().push(c));
        assert(s.push(c)[0] == s[0]);
        assert(encode_chars(s.push(c)) == spec_u32_to_le_bytes(s[0] as u32) + encode_chars(
            s.drop_first().push(c),
        ));
        assert(encode_chars(s.push(c)) =~= encode_chars(s) + spec_u32_to_le_bytes(c as u32));
    }
}

proof fn lemma_encode_ids_push(ids: Seq<Seq<char>>, id: Seq<char>)
    ensures
        encode_ids(ids.push(id)) == encode_ids(ids) + encode_id(id),
    decreases ids.len(),
{
    if ids.len() == 0 {
        assert(ids.push(id).drop_first() =~= ids);
        assert(ids.push(id)[0] == id);
        assert(encode_ids(ids) =~= Seq::<u8>::empty());
        assert(encode_ids(ids.push(id)) =~= encode_ids(ids) + encode_id(id));
    } else {
        lemma_encode_ids_push(ids.drop_first(), id);
        assert(ids.push(id).drop_first() =~= ids.drop_first().push(id));
        assert(ids.push(id)[0] == ids[0]);
        assert(encode_ids(ids.push(id)) == encode_id(ids[0]) + encode_ids(
            ids.drop_first().push(id),
        ));
        assert(encode_ids(ids.push(id)) =~= encode_ids(ids) + encode_id(id));
    }
}

proof fn lemma_encode_pairs_push(ps: Seq<(Seq<char>, nat)>, p: (Seq<char>, nat))
    ensures
        encode_pairs(ps.push(p)) == encode_pairs(ps) + encode_pair(p),
    decreases ps.len(),
{
    if ps.len() == 0 {
        assert(ps.push(p).drop_first() =~= ps);
        assert(ps.push(p)[0] == p);
        assert(encode_pairs(ps) =~= Seq::<u8>::empty());
        assert(encode_pairs(ps.push(p)) =~= encode_pairs(ps) + encode_pair(p));
    } else {
        lemma_encode_pairs_push(ps.drop_first(), p);
        assert(ps.push(p).drop_first() =~= ps.drop_first().push(p));
        assert(ps.push(p)[0] == ps[0]);
        assert(encode_pairs(ps.push(p)) == encode_pair(ps[0]) + encode_pairs(
            ps.drop_first().push(p),
        ));
        assert(encode_pairs(ps.push(p)) =~= encode_pairs(ps) + encode_pair(p));
    }
}

// ---------------------------------------------------------------------
// What a byte string means: a structural parser, position by position.
// Each function consumes from position `i` and gives the parsed value
// with the next position, or nothing when the bytes do not fit.
// ---------------------------------------------------------------------
pub open spec fn parse_u64(b: Seq<u8>, i: int) -> Option<(u64, int)> {
    if 0 <= i && i + 8 <= b.len() {
        Some((spec_u64_from_le_bytes(b.subrange(i, i + 8)), i + 8))
    } else {
        None
    }
}

pub open spec fn parse_u32(b: Seq<u8>, i: int) -> Option<(u32, int)> {
    if 0 <= i && i + 4 <= b.len() {
        Some((spec_u32_from_le_bytes(b.subrange(i, i + 4)), i + 4))
    } else {
        None
    }
}

/// `d` scalars of one matrix row.
pub open spec fn parse_scalars(b: Seq<u8>, i: int, d: int) -> Option<(Seq<u32>, int)>
    decreases d,
{
    if d <= 0 {
        Some((Seq::empty(), i))
    } else {
        match parse_u32(b, i) {
            Some((x, i2)) => match parse_scalars(b, i2, d - 1) {
                Some((s, i3)) => Some((seq![x] + s, i3)),
                None => None,
            },
            None => None,
        }
    }
}

/// `n` rows of `d` scalars each.
pub open spec fn parse_rows(b: Seq<u8>, i: int, n: int, d: int) -> Option<(Seq<Seq<u32>>, int)>
    decreases n,
{
    if n <= 0 {
        Some((Seq::empty(), i))
    } else {
        match parse_scalars(b, i, d) {
            Some((row, i2)) => match parse_rows(b, i2, n - 1, d) {
                Some((rows, i3)) => Some((seq![row] + rows, i3)),
                None => None,
            },
            None => None,
        }
    }
}

/// `l` characters, each a u32 code point that must be a Unicode scalar.
pub open spec fn parse_chars(b: Seq<u8>, i: int, l: int) -> Option<(Seq<char>, int)>
    decreases l,
{
    if l <= 0 {
        Some((Seq::empty(), i))
    } else {
        match parse_u32(b, i) {
            Some((x, i2)) => if is_scalar(x) {
                match parse_chars(b, i2, l - 1) {
                    Some((s, i3)) => Some((seq![x as char] + s, i3)),
                    None => None,
                }
            } else {
                None
            },
            None => None,
        }
    }
}

/// One identity: a character count, then that many characters.
pub open spec fn parse_id(b: Seq<u8>, i: int) -> Option<(Seq<char>, int)> {
    match parse_u64(b, i) {
        Some((l, i2)) => parse_chars(b, i2, l as int),
        None => None,
    }
}

/// `n` identities.
pub open spec fn parse_ids(b: Seq<u8>, i: int, n: int) -> Option<(Seq<Seq<char>>, int)>
    decreases n,
{
    if n <= 0 {
        Some((Seq::empty(), i))
    } else {
        match parse_id(b, i) {
            Some((id, i2)) => match parse_ids(b, i2, n - 1) {
                Some((ids, i3)) => Some((seq![id] + ids, i3)),
                None => None,
            },
            None => None,
        }
    }
}

/// One identity-map entry: a key, then the row index.
pub open spec fn parse_pair(b: Seq<u8>, i: int) -> Option<((Seq<char>, nat), int)> {
    match parse_id(b, i) {
        Some((k, i2)) => match parse_u64(b, i2) {
            Some((v, i3)) => Some(((k, v as nat), i3)),
            None => None,
        },
        None => None,
    }
}

/// `n` identity-map entries.
pub open spec fn parse_pairs(b: Seq<u8>, i: int, n: int) -> Option<(Seq<(Seq<char>, nat)>, int)>
    decreases n,
{
    if n <= 0 {
        Some((Seq::empty(), i))
    } else {
        match parse_pair(b, i) {
            Some((p, i2)) => match parse_pairs(b, i2, n - 1) {
                Some((ps, i3)) => Some((seq![p] + ps, i3)),
                None => None,
            },
            None => None,
        }
    }
}

/// What a whole persisted artifact means: the store model it describes,
/// or nothing when the bytes are malformed, hold trailing garbage, exceed
/// what this machine can address, or describe a store whose identity maps
/// are not mutual inverses.
pub open spec fn parse_model(b: Seq<u8>) -> Option<StoreModel> {
    match parse_u64(b, 0) {
        Some((d, i1)) => match parse_u64(b, i1) {
            Some((n, i2)) => if d <= usize::MAX && n <= usize::MAX {
                match parse_rows(b, i2, n as int, d as int) {
                    Some((rows, i3)) => match parse_ids(b, i3, n as int) {
                        Some((ids, i4)) => match parse_pairs(b, i4, n as int) {
                            Some((pairs, i5)) => if i5 == b.len() {
                                let m = StoreModel { dim: d as nat, rows, ids, pairs };
                                if store_wf(m) {
                                    Some(m)
                                } else {
                                    None
                                }
                            } else {
                                None
                            },
                            None => None,
                        },
                        None => None,
                    },
                    None => None,
                }
            } else {
                None
            },
            None => None,
        },
        None => None,
    }
}

// ---------------------------------------------------------------------
// Executable encoding.
// ---------------------------------------------------------------------
fn emit_u64(out: &mut Vec<u8>, x: u64)
    ensures
        final(out)@ == old(out)@ + spec_u64_to_le_bytes(x),
{
    let mut b = u64_to_le_bytes(x);
    out.append(&mut b);
}

fn emit_u32(out: &mut Vec<u8>, x: u32)
    ensures
        final(out)@ == old(out)@ + spec_u32_to_le_bytes(x),
{
    let mut b = u32_to_le_bytes(x);
    out.append(&mut b);
}

/// The characters of `s`, code point by code point.
fn emit_chars(out: &mut Vec<u8>, s: &str)
    ensures
        final(out)@ == old(out)@ + encode_chars(s@),
{
    let n = s.unicode_len();
    let ghost base = out@;
    assert(out@ =~= base + encode_chars(s@.take(0)));
    for k in 0..n
        invariant
            n == s@.len(),
            out@ == base + encode_chars(s@.take(k as int)),
    {
        let c = s.get_char(k);
        emit_u32(out, c as u32);
        proof {
            lemma_encode_chars_push(s@.take(k as int), c);
            assert(s@.take(k as int).push(c) =~= s@.take(k + 1 as int));
            assert(out@ =~= base + encode_chars(s@.take(k + 1 as int)));
        }
    }
    assert(s@.take(n as int) =~= s@);
}

/// One identity: character count, then the characters.
fn emit_id(out: &mut Vec<u8>, s: &str)
    ensures
        final(out)@ == old(out)@ + encode_id(s@),
        s@.len() <= usize::MAX,
{
    let n = s.unicode_len();
    emit_u64(out, n as u64);
    emit_chars(out, s);
    assert(out@ =~= old(out)@ + encode_id(s@));
}

/// The persisted bytes of a store. Encoding is a pure function of the
/// store's model, so rebuilding identical content always gives
/// bit-identical bytes. That the store fit in memory shows it within the
/// machine limits under which the encoding is faithful (`encodable`).
pub fn encode_store(store: &VectorStore) -> (out: Vec<u8>)
    ensures
        out@ == encode_model(store@),
        encodable(store@),
{
    let ghost m = store@;
    let mut out: Vec<u8> = Vec::new();
    emit_u64(&mut out, store.dim as u64);
    emit_u64(&mut out, store.rows.len() as u64);
    let ghost header = out@;
    assert(header =~= spec_u64_to_le_bytes(m.dim as u64) + spec_u64_to_le_bytes(
        m.rows.len() as u64,
    ));

    // The matrix rows.
    let nrows = store.rows.len();
    assert(out@ =~= header + encode_rows(m.rows.take(0)));
    for i in 0..nrows
        invariant
            nrows == store.rows.len(),
            m == store@,
            out@ == header + encode_rows(m.rows.take(i as int)),
    {
        let row = &store.rows[i];
        let d = row.len();
        let ghost rbase = out@;
        assert(out@ =~= rbase + encode_scalars(row@.take(0)));
        for k in 0..d
            invariant
                d == row.len(),
                row@ == store.rows@[i as int]@,
                out@ == rbase + encode_scalars(row@.take(k as int)),
        {
            emit_u32(&mut out, row[k]);
            proof {
                lemma_encode_scalars_push(row@.take(k as int), row@[k as int]);
                assert(row@.take(k as int).push(row@[k as int]) =~= row@.take(k + 1 as int));
                assert(out@ =~= rbase + encode_scalars(row@.take(k + 1 as int)));
            }
        }
        proof {
            assert(row@.take(d as int) =~= row@);
            assert(row@ =~= m.rows[i as int]);
            lemma_encode_rows_push(m.rows.take(i as int), m.rows[i as int]);
            assert(m.rows.take(i as int).push(m.rows[i as int]) =~= m.rows.take(i + 1 as int));
            assert(out@ =~= header + encode_rows(m.rows.take(i + 1 as int)));
        }
    }
    proof {
        assert(m.rows.take(nrows as int) =~= m.rows);
    }
    let ghost with_rows = out@;

    // The row-index-to-identity map.
    let nids = store.index_to_id.len();
    assert(out@ =~= with_rows + encode_ids(m.ids.take(0)));
    for i in 0..nids
        invariant
            nids == store.index_to_id.len(),
            m == store@,
            out@ == with_rows + encode_ids(m.ids.take(i as int)),
            forall|t: int| 0 <= t < i ==> (#[trigger] m.ids[t]).len() <= usize::MAX,
    {
        emit_id(&mut out, store.index_to_id[i].as_str());
        proof {
            lemma_encode_ids_push(m.ids.take(i as int), m.ids[i as int]);
            assert(m.ids.take(i as int).push(m.ids[i as int]) =~= m.ids.take(i + 1 as int));
            assert(out@ =~= with_rows + encode_ids(m.ids.take(i + 1 as int)));
        }
    }
    proof {
        assert(m.ids.take(nids as int) =~= m.ids);
    }
    let ghost with_ids = out@;

    // The identity-to-row-index map.
    let npairs = store.id_to_index.len();
    assert(out@ =~= with_ids + encode_pairs(m.pairs.take(0)));
    for j in 0..npairs
        invariant
            npairs == store.id_to_index.len(),
            m == store@,
            out@ == with_ids + encode_pairs(m.pairs.take(j as int)),
            forall|t: int| 0 <= t < j ==> (#[trigger] m.pairs[t]).0.len() <= usize::MAX,
    {
        emit_id(&mut out, store.id_to_index[j].id.as_str());
        emit_u64(&mut out, store.id_to_index[j].index as u64);
        proof {
            lemma_encode_pairs_push(m.pairs.take(j as int), m.pairs[j as int]);
            assert(m.pairs.take(j as int).push(m.pairs[j as int]) =~= m.pairs.take(j + 1 as int));
            assert(out@ =~= with_ids + encode_pairs(m.pairs.take(j + 1 as int)));
        }
    }
    proof {
        assert(m.pairs.take(npairs as int) =~= m.pairs);
        assert(out@ =~= encode_model(m));
        assert forall|j: int|
            0 <= j < m.pairs.len() implies (#[trigger] m.pairs[j]).0.len() <= u64::MAX
            && m.pairs[j].1 <= u64::MAX by {
            assert(m.pairs[j] == store.id_to_index@[j]@);
        }
        assert(encodable(m));
    }
    out
}

/// The file name of a vault's persisted store, fixed by the vault
/// identifier alone: `"<vault>_vectors.bin"`.
pub fn store_file_name(vault: &str) -> (r: String)
    ensures
        r@ == vault@ + "_vectors.bin"@,
{
    let mut s = String::from_str(vault);
    s.append("_vectors.bin");
    s
}

// ---------------------------------------------------------------------
// Round trip: parsing what was encoded gives the store back.
// ---------------------------------------------------------------------
proof fn lemma_encode_scalars_len(s: Seq<u32>)
    ensures
        encode_scalars(s).len() == 4 * s.len(),
    decreases s.len(),
{
    lemma_auto_spec_u32_to_from_le_bytes();
    if s.len() > 0 {
        lemma_encode_scalars_len(s.drop_first());
    }
}

proof fn lemma_encode_chars_len(s: Seq<char>)
    ensures
        encode_chars(s).len() == 4 * s.len(),
    decreases s.len(),
{
    lemma_auto_spec_u32_to_from_le_bytes();
    if s.len() > 0 {
        lemma_encode_chars_len(s.drop_first());
    }
}

/// A subrange equal to a concatenation splits into subranges equal to the
/// two parts.
proof fn lemma_subrange_split(b: Seq<u8>, i: int, x: Seq<u8>, y: Seq<u8>)
    requires
        0 <= i,
        i + x.len() + y.len() <= b.len(),
        b.subrange(i, i + x.len() + y.len()) == x + y,
    ensures
        b.subrange(i, i + x.len()) == x,
        b.subrange(i + x.len(), i + x.len() + y.len()) == y,
{
    assert forall|t: int| 0 <= t < x.len() implies b.subrange(i, i + x.len())[t] == x[t] by {
        assert((x + y)[t] == x[t]);
        assert(b.subrange(i, i + x.len() + y.len())[t] == b[i + t]);
    }
    assert(b.subrange(i, i + x.len()) =~= x);
    assert forall|t: int|
        0 <= t < y.len() implies b.subrange(i + x.len(), i + x.len() + y.len())[t] == y[t] by {
        assert((x + y)[x.len() + t] == y[t]);
        assert(b.subrange(i, i + x.len() + y.len())[x.len() + t] == b[i + x.len() + t]);
    }
    assert(b.subrange(i + x.len(), i + x.len() + y.len()) =~= y);
}

proof fn lemma_parse_u64_at(b: Seq<u8>, i: int, x: u64)
    requires
        0 <= i,
        i + 8 <= b.len(),
        b.subrange(i, i + 8) == spec_u64_to_le_bytes(x),
    ensures
        parse_u64(b, i) == Some((x, i + 8)),
{
    lemma_auto_spec_u64_to_from_le_bytes();
    assert(spec_u64_to_le_bytes(x).len() == 8);
    assert(spec_u64_from_le_bytes(spec_u64_to_le_bytes(x)) == x);
}

proof fn lemma_parse_u32_at(b: Seq<u8>, i: int, x: u32)
    requires
        0 <= i,
        i + 4 <= b.len(),
        b.subrange(i, i + 4) == spec_u32_to_le_bytes(x),
    ensures
        parse_u32(b, i) == Some((x, i + 4)),
{
    lemma_auto_spec_u32_to_from_le_bytes();
    assert(spec_u32_to_le_bytes(x).len() == 4);
    assert(spec_u32_from_le_bytes(spec_u32_to_le_bytes(x)) == x);
}

proof fn lemma_parse_scalars_at(b: Seq<u8>, i: int, s: Seq<u32>)
    requires
        0 <= i,
        i + encode_scalars(s).len() <= b.len(),
        b.subrange(i, i + encode_scalars(s).len()) == encode_scalars(s),
    ensures
        parse_scalars(b, i, s.len() as int) == Some((s, i + encode_scalars(s).len())),
    decreases s.len(),
{
    lemma_auto_spec_u32_to_from_le_bytes();
    lemma_encode_scalars_len(s);
    if s.len() == 0 {
        assert(s =~= Seq::<u32>::empty());
    } else {
        let rest = s.drop_first();
        lemma_encode_scalars_len(rest);
        lemma_subrange_split(b, i, spec_u32_to_le_bytes(s[0]), encode_scalars(rest));
        lemma_parse_u32_at(b, i, s[0]);
        lemma_parse_scalars_at(b, i + 4, rest);
        assert(seq![s[0]] + rest =~= s);
    }
}

proof fn lemma_parse_chars_at(b: Seq<u8>, i: int, s: Seq<char>)
    requires
        0 <= i,
        i + encode_chars(s).len() <= b.len(),
        b.subrange(i, i + encode_chars(s).len()) == encode_chars(s),
    ensures
        parse_chars(b, i, s.len() as int) == Some((s, i + encode_chars(s).len())),
    decreases s.len(),
{
    lemma_auto_spec_u32_to_from_le_bytes();
    lemma_encode_chars_len(s);
    if s.len() == 0 {
        assert(s =~= Seq::<char>::empty());
    } else {
        let rest = s.drop_first();
        lemma_encode_chars_len(rest);
        lemma_subrange_split(b, i, spec_u32_to_le_bytes(s[0] as u32), encode_chars(rest));
        lemma_parse_u32_at(b, i, s[0] as u32);
        char_is_scalar(s[0]);
        char_u32_cast(s[0], s[0] as u32);
        lemma_parse_chars_at(b, i + 4, rest);
        assert(seq![s[0]] + rest =~= s);
    }
}

proof fn lemma_parse_id_at(b: Seq<u8>, i: int, s: Seq<char>)
    requires
        0 <= i,
        s.len() <= u64::MAX,
        i + encode_id(s).len() <= b.len(),
        b.subrange(i, i + encode_id(s).len()) == encode_id(s),
    ensures
        parse_id(b, i) == Some((s, i + encode_id(s).len())),
{
    lemma_auto_spec_u64_to_from_le_bytes();
    lemma_encode_chars_len(s);
    lemma_subrange_split(b, i, spec_u64_to_le_bytes(s.len() as u64), encode_chars(s));
    lemma_parse_u64_at(b, i, s.len() as u64);
    lemma_parse_chars_at(b, i + 8, s);
    assert((s.len() as u64) as int == s.len() as int);
}

proof fn lemma_parse_rows_at(b: Seq<u8>, i: int, rows: Seq<Seq<u32>>, d: int)
    requires
        0 <= i,
        forall|k: int| 0 <= k < rows.len() ==> (#[trigger] rows[k]).len() == d,
        i + encode_rows(rows).len() <= b.len(),
        b.subrange(i, i + encode_rows(rows).len()) == encode_rows(rows),
    ensures
        parse_rows(b, i, rows.len() as int, d) == Some((rows, i + encode_rows(rows).len())),
    decreases rows.len(),
{
    if rows.len() == 0 {
        assert(rows =~= Seq::<Seq<u32>>::empty());
    } else {
        let head = rows[0];
        let rest = rows.drop_first();
        lemma_encode_scalars_len(head);
        lemma_subrange_split(b, i, encode_scalars(head), encode_rows(rest));
        lemma_parse_scalars_at(b, i, head);
        let i2 = i + encode_scalars(head).len();
        lemma_parse_rows_at(b, i2, rest, d);
        assert(head.len() as int == d);
        assert(seq![head] + rest =~= rows);
    }
}

proof fn lemma_parse_ids_at(b: Seq<u8>, i: int, ids: Seq<Seq<char>>)
    requires
        0 <= i,
        forall|k: int| 0 <= k < ids.len() ==> (#[trigger] ids[k]).len() <= u64::MAX,
        i + encode_ids(ids).len() <= b.len(),
        b.subrange(i, i + encode_ids(ids).len()) == encode_ids(ids),
    ensures
        parse_ids(b, i, ids.len() as int) == Some((ids, i + encode_ids(ids).len())),
    decreases ids.len(),
{
    if ids.len() == 0 {
        assert(ids =~= Seq::<Seq<char>>::empty());
    } else {
        let head = ids[0];
        let rest = ids.drop_first();
        lemma_subrange_split(b, i, encode_id(head), encode_ids(rest));
        lemma_parse_id_at(b, i, head);
        let i2 = i + encode_id(head).len();
        lemma_parse_ids_at(b, i2, rest);
        assert(seq![head] + rest =~= ids);
    }
}

proof fn lemma_parse_pair_at(b: Seq<u8>, i: int, p: (Seq<char>, nat))
    requires
        0 <= i,
        p.0.len() <= u64::MAX,
        p.1 <= u64::MAX,
        i + encode_pair(p).len() <= b.len(),
        b.subrange(i, i + encode_pair(p).len()) == encode_pair(p),
    ensures
        parse_pair(b, i) == Some((p, i + encode_pair(p).len())),
{
    lemma_auto_spec_u64_to_from_le_bytes();
    lemma_subrange_split(b, i, encode_id(p.0), spec_u64_to_le_bytes(p.1 as u64));
    lemma_parse_id_at(b, i, p.0);
    let i2 = i + encode_id(p.0).len();
    lemma_parse_u64_at(b, i2, p.1 as u64);
    assert((p.1 as u64) as nat == p.1);
    assert((p.0, (p.1 as u64) as nat) == p);
}

proof fn lemma_parse_pairs_at(b: Seq<u8>, i: int, ps: Seq<(Seq<char>, nat)>)
    requires
        0 <= i,
        forall|k: int|
            0 <= k < ps.len() ==> (#[trigger] ps[k]).0.len() <= u64::MAX && ps[k].1 <= u64::MAX,
        i + encode_pairs(ps).len() <= b.len(),
        b.subrange(i, i + encode_pairs(ps).len()) == encode_pairs(ps),
    ensures
        parse_pairs(b, i, ps.len() as int) == Some((ps, i + encode_pairs(ps).len())),
    decreases ps.len(),
{
    if ps.len() == 0 {
        assert(ps =~= Seq::<(Seq<char>, nat)>::empty());
    } else {
        let head = ps[0];
        let rest = ps.drop_first();
        lemma_subrange_split(b, i, encode_pair(head), encode_pairs(rest));
        lemma_parse_pair_at(b, i, head);
        let i2 = i + encode_pair(head).len();
        lemma_parse_pairs_at(b, i2, rest);
        assert(seq![head] + rest =~= ps);
    }
}

/// Persistence round-trips exactly: the bytes of any well-formed store
/// that this machine can hold parse back to that very store — matrix
/// values bit for bit, and both identity maps entry for entry.
pub proof fn lemma_store_round_trip(m: StoreModel)
    requires
        store_wf(m),
        encodable(m),
    ensures
        parse_model(encode_model(m)) == Some(m),
{
    lemma_auto_spec_u64_to_from_le_bytes();
    let h1 = spec_u64_to_le_bytes(m.dim as u64);
    let h2 = spec_u64_to_le_bytes(m.rows.len() as u64);
    let br = encode_rows(m.rows);
    let bi = encode_ids(m.ids);
    let bp = encode_pairs(m.pairs);
    let b = encode_model(m);
    assert(b.len() == 16 + br.len() + bi.len() + bp.len());

    assert(b.subrange(0, b.len() as int) =~= b);
    assert(b =~= h1 + (h2 + br + bi + bp));
    lemma_subrange_split(b, 0, h1, h2 + br + bi + bp);
    assert(h2 + br + bi + bp =~= h2 + (br + bi + bp));
    lemma_subrange_split(b, 8, h2, br + bi + bp);
    assert(br + bi + bp =~= br + (bi + bp));
    lemma_subrange_split(b, 16, br, bi + bp);
    let i3 = 16 + br.len();
    lemma_subrange_split(b, i3 as int, bi, bp);
    let i4 = i3 + bi.len();

    lemma_parse_u64_at(b, 0, m.dim as u64);
    lemma_parse_u64_at(b, 8, m.rows.len() as u64);
    assert((m.dim as u64) as int == m.dim as int);
    assert((m.rows.len() as u64) as int == m.rows.len() as int);

    lemma_parse_rows_at(b, 16, m.rows, m.dim as int);
    lemma_parse_ids_at(b, i3 as int, m.ids);
    assert(m.ids.len() == m.rows.len());

    let i5 = i4 + bp.len();
    lemma_parse_pairs_at(b, i4 as int, m.pairs);
    assert(m.pairs.len() == m.rows.len());
    assert(i5 == b.len());

    let parsed = StoreModel {
        dim: (m.dim as u64) as nat,
        rows: m.rows,
        ids: m.ids,
        pairs: m.pairs,
    };
    assert(parsed =~= m);
    assert(parse_model(b) == Some(m));
}

/// The persisted bytes determine the store: two well-formed stores with
/// the same artifact are the same store, so nothing is lost in the file.
pub proof fn lemma_encoding_injective(m1: StoreModel, m2: StoreModel)
    requires
        store_wf(m1),
        encodable(m1),
        store_wf(m2),
        encodable(m2),
        encode_model(m1) == encode_model(m2),
    ensures
        m1 == m2,
{
    lemma_store_round_trip(m1);
    lemma_store_round_trip(m2);
}

// ---------------------------------------------------------------------
// Executable decoding, proved to agree with the structural parser.
// ---------------------------------------------------------------------
/// Too few bytes for `l` characters: the parse cannot succeed.
proof fn lemma_parse_chars_short(b: Seq<u8>, i: int, l: int)
    requires
        0 <= i,
        1 <= l,
        i + 4 * l > b.len(),
    ensures
        parse_chars(b, i, l) is None,
    decreases l,
{
    if i + 4 <= b.len() {
        lemma_parse_chars_short(b, i + 4, l - 1);
    }
}

/// Too few bytes for `d` scalars: the parse cannot succeed.
proof fn lemma_parse_scalars_short(b: Seq<u8>, i: int, d: int)
    requires
        0 <= i,
        1 <= d,
        i + 4 * d > b.len(),
    ensures
        parse_scalars(b, i, d) is None,
    decreases d,
{
    if i + 4 <= b.len() {
        lemma_parse_scalars_short(b, i + 4, d - 1);
    }
}

fn copy_range(bytes: &Vec<u8>, pos: usize, count: usize) -> (out: Vec<u8>)
    requires
        pos + count <= bytes@.len(),
    ensures
        out@ == bytes@.subrange(pos as int, pos + count),
{
    let n_bytes = bytes.len();
    let mut out: Vec<u8> = Vec::with_capacity(count);
    assert(out@ =~= bytes@.subrange(pos as int, pos as int));
    for k in 0..count
        invariant
            pos + count <= n_bytes == bytes@.len(),
            out@ == bytes@.subrange(pos as int, pos + k),
    {
        out.push(bytes[pos + k]);
        assert(out@ =~= bytes@.subrange(pos as int, pos + k + 1));
    }
    out
}

fn read_u64(bytes: &Vec<u8>, pos: usize) -> (r: Option<(u64, usize)>)
    ensures
        match r {
            Some(p) => parse_u64(bytes@, pos as int) == Some((p.0, p.1 as int)) && p.1 == pos + 8
                && p.1 <= bytes@.len(),
            None => parse_u64(bytes@, pos as int) is None,
        },
{
    if bytes.len() >= 8 && pos <= bytes.len() - 8 {
        let chunk = copy_range(bytes, pos, 8);
        let x = u64_from_le_bytes(chunk.as_slice());
        Some((x, pos + 8))
    } else {
        None
    }
}

fn read_u32(bytes: &Vec<u8>, pos: usize) -> (r: Option<(u32, usize)>)
    ensures
        match r {
            Some(p) => parse_u32(bytes@, pos as int) == Some((p.0, p.1 as int)) && p.1 == pos + 4
                && p.1 <= bytes@.len(),
            None => parse_u32(bytes@, pos as int) is None,
        },
{
    if bytes.len() >= 4 && pos <= bytes.len() - 4 {
        let chunk = copy_range(bytes, pos, 4);
        let x = u32_from_le_bytes(chunk.as_slice());
        Some((x, pos + 4))
    } else {
        None
    }
}

/// The loop invariant of the sequence readers: what remains to parse from
/// `cur`, prefixed by what is already accumulated, is what the whole parse
/// from `i0` gives.
spec fn chars_step(b: Seq<u8>, i0: int, l: int, acc: Seq<char>, cur: int, rem: int) -> bool {
    parse_chars(b, i0, l) == (match parse_chars(b, cur, rem) {
        Some(p) => Some::<(Seq<char>, int)>((acc + p.0, p.1)),
        None => None::<(Seq<char>, int)>,
    })
}

fn read_chars(bytes: &Vec<u8>, pos: usize, l: u64) -> (r: Option<(String, usize)>)
    requires
        pos <= bytes@.len(),
    ensures
        match r {
            Some(p) => parse_chars(bytes@, pos as int, l as int) == Some((p.0@, p.1 as int)) && p.1
                <= bytes@.len(),
            None => parse_chars(bytes@, pos as int, l as int) is None,
        },
{
    let n_bytes = bytes.len();
    if l > ((n_bytes - pos) / 4) as u64 {
        proof {
            lemma_parse_chars_short(bytes@, pos as int, l as int);
        }
        return None;
    }
    let lu = l as usize;
    let mut s = String::new();
    let mut cur = pos;
    let ghost i0 = pos as int;
    let ghost lg = l as int;
    proof {
        if parse_chars(bytes@, i0, lg) is Some {
            let p = parse_chars(bytes@, i0, lg)->Some_0;
            assert(s@ + p.0 =~= p.0);
        }
    }
    for k in 0..lu
        invariant
            lu == l,
            lg == l as int,
            i0 == pos as int,
            cur == pos + 4 * k,
            pos + 4 * lu <= bytes@.len(),
            chars_step(bytes@, i0, lg, s@, cur as int, lg - k),
    {
        let ghost rem = lg - k;
        let ghost pre = s@;
        let x = match read_u32(bytes, cur) {
            Some(p) => p.0,
            None => {
                proof {
                    assert(cur + 4 <= bytes@.len());
                    assert(false);
                }
                0
            },
        };
        match char_from_u32(x) {
            Some(c) => {
                push_char(&mut s, c);
                cur = cur + 4;
                proof {
                    assert(parse_chars(bytes@, cur - 4, rem) == (
                    match parse_chars(bytes@, cur as int, rem - 1) {
                        Some(p) => Some::<(Seq<char>, int)>((seq![c] + p.0, p.1)),
                        None => None::<(Seq<char>, int)>,
                    }));
                    if parse_chars(bytes@, cur as int, rem - 1) is Some {
                        let p = parse_chars(bytes@, cur as int, rem - 1)->Some_0;
                        assert(pre + (seq![c] + p.0) =~= pre.push(c) + p.0);
                    }
                }
            },
            None => {
                proof {
                    assert(parse_chars(bytes@, cur as int, rem) is None);
                    assert(chars_step(bytes@, i0, lg, s@, cur as int, rem));
                    assert(parse_chars(bytes@, i0, lg) is None);
                    assert(i0 == pos as int && lg == l as int);
                }
                return None;
            },
        }
    }
    proof {
        assert(parse_chars(bytes@, cur as int, 0) == Some((Seq::<char>::empty(), cur as int)));
        assert(s@ + Seq::<char>::empty() =~= s@);
    }
    Some((s, cur))
}

spec fn scalars_step(b: Seq<u8>, i0: int, d: int, acc: Seq<u32>, cur: int, rem: int) -> bool {
    parse_scalars(b, i0, d) == (match parse_scalars(b, cur, rem) {
        Some(p) => Some::<(Seq<u32>, int)>((acc + p.0, p.1)),
        None => None::<(Seq<u32>, int)>,
    })
}

fn read_scalars(bytes: &Vec<u8>, pos: usize, d: usize) -> (r: Option<(Vec<u32>, usize)>)
    requires
        pos <= bytes@.len(),
    ensures
        match r {
            Some(p) => parse_scalars(bytes@, pos as int, d as int) == Some((p.0@, p.1 as int))
                && p.1 <= bytes@.len() && p.0@.len() == d,
            None => parse_scalars(bytes@, pos as int, d as int) is None,
        },
{
    let n_bytes = bytes.len();
    if d > (n_bytes - pos) / 4 {
        proof {
            lemma_parse_scalars_short(bytes@, pos as int, d as int);
        }
        return None;
    }
    let mut v: Vec<u32> = Vec::with_capacity(d);
    let mut cur = pos;
    let ghost i0 = pos as int;
    let ghost dg = d as int;
    proof {
        if parse_scalars(bytes@, i0, dg) is Some {
            let p = parse_scalars(bytes@, i0, dg)->Some_0;
            assert(v@ + p.0 =~= p.0);
        }
    }
    for k in 0..d
        invariant
            cur == pos + 4 * k,
            pos + 4 * d <= bytes@.len(),
            dg == d as int,
            i0 == pos as int,
            v@.len() == k,
            scalars_step(bytes@, i0, dg, v@, cur as int, dg - k),
    {
        let ghost rem = dg - k;
        let ghost pre = v@;
        let x = match read_u32(bytes, cur) {
            Some(p) => p.0,
            None => {
                proof {
                    assert(cur + 4 <= bytes@.len());
                    assert(false);
                }
                0
            },
        };
        v.push(x);
        cur = cur + 4;
        proof {
            assert(parse_scalars(bytes@, cur - 4, rem) == (
            match parse_scalars(bytes@, cur as int, rem - 1) {
                Some(p) => Some::<(Seq<u32>, int)>((seq![x] + p.0, p.1)),
                None => None::<(Seq<u32>, int)>,
            }));
            if parse_scalars(bytes@, cur as int, rem - 1) is Some {
                let p = parse_scalars(bytes@, cur as int, rem - 1)->Some_0;
                assert(pre + (seq![x] + p.0) =~= pre.push(x) + p.0);
            }
        }
    }
    proof {
        assert(parse_scalars(bytes@, cur as int, 0) == Some((Seq::<u32>::empty(), cur as int)));
        assert(v@ + Seq::<u32>::empty() =~= v@);
    }
    Some((v, cur))
}

spec fn rows_step(
    b: Seq<u8>,
    i0: int,
    n: int,
    d: int,
    acc: Seq<Seq<u32>>,
    cur: int,
    rem: int,
) -> bool {
    parse_rows(b, i0, n, d) == (match parse_rows(b, cur, rem, d) {
        Some(p) => Some::<(Seq<Seq<u32>>, int)>((acc + p.0, p.1)),
        None => None::<(Seq<Seq<u32>>, int)>,
    })
}

#[verifier::loop_isolation(false)]
fn read_rows(bytes: &Vec<u8>, pos: usize, n: usize, d: usize) -> (r: Option<
    (Vec<Vec<u32>>, usize),
>)
    requires
        pos <= bytes@.len(),
    ensures
        match r {
            Some(p) => parse_rows(bytes@, pos as int, n as int, d as int) == Some(
                (rows_view(p.0@), p.1 as int),
            ) && p.1 <= bytes@.len() && p.0@.len() == n && (forall|i: int|
                0 <= i < n ==> (#[trigger] p.0@[i])@.len() == d),
            None => parse_rows(bytes@, pos as int, n as int, d as int) is None,
        },
{
    let mut v: Vec<Vec<u32>> = Vec::new();
    let mut cur = pos;
    let ghost i0 = pos as int;
    let ghost ng = n as int;
    let ghost dg = d as int;
    proof {
        if parse_rows(bytes@, i0, ng, dg) is Some {
            let p = parse_rows(bytes@, i0, ng, dg)->Some_0;
            assert(rows_view(v@) + p.0 =~= p.0);
        }
    }
    for k in 0..n
        invariant
            cur <= bytes@.len(),
            v@.len() == k,
            forall|i: int| 0 <= i < k ==> (#[trigger] v@[i])@.len() == d,
            rows_step(bytes@, i0, ng, dg, rows_view(v@), cur as int, ng - k),
    {
        let ghost rem = ng - k;
        let ghost pre = rows_view(v@);
        match read_scalars(bytes, cur, d) {
            Some(p) => {
                let row = p.0;
                let ghost prev = cur as int;
                cur = p.1;
                proof {
                    assert(parse_rows(bytes@, prev, rem, dg) == (
                    match parse_rows(bytes@, cur as int, rem - 1, dg) {
                        Some(q) => Some::<(Seq<Seq<u32>>, int)>((seq![row@] + q.0, q.1)),
                        None => None::<(Seq<Seq<u32>>, int)>,
                    }));
                    if parse_rows(bytes@, cur as int, rem - 1, dg) is Some {
                        let q = parse_rows(bytes@, cur as int, rem - 1, dg)->Some_0;
                        assert(pre + (seq![row@] + q.0) =~= pre.push(row@) + q.0);
                    }
                }
                v.push(row);
                proof {
                    assert(rows_view(v@) =~= pre.push(v@[k as int]@));
                }
            },
            None => {
                proof {
                    assert(parse_rows(bytes@, cur as int, rem, dg) is None);
                    assert(parse_rows(bytes@, i0, ng, dg) is None);
                }
                return None;
            },
        }
    }
    proof {
        assert(parse_rows(bytes@, cur as int, 0, dg) == Some(
            (Seq::<Seq<u32>>::empty(), cur as int),
        ));
        assert(rows_view(v@) + Seq::<Seq<u32>>::empty() =~= rows_view(v@));
    }
    Some((v, cur))
}

fn read_id(bytes: &Vec<u8>, pos: usize) -> (r: Option<(String, usize)>)
    requires
        pos <= bytes@.len(),
    ensures
        match r {
            Some(p) => parse_id(bytes@, pos as int) == Some((p.0@, p.1 as int)) && p.1
                <= bytes@.len(),
            None => parse_id(bytes@, pos as int) is None,
        },
{
    match read_u64(bytes, pos) {
        Some(p) => read_chars(bytes, p.1, p.0),
        None => None,
    }
}

spec fn ids_step(b: Seq<u8>, i0: int, n: int, acc: Seq<Seq<char>>, cur: int, rem: int) -> bool {
    parse_ids(b, i0, n) == (match parse_ids(b, cur, rem) {
        Some(p) => Some::<(Seq<Seq<char>>, int)>((acc + p.0, p.1)),
        None => None::<(Seq<Seq<char>>, int)>,
    })
}

#[verifier::loop_isolation(false)]
fn read_ids(bytes: &Vec<u8>, pos: usize, n: usize) -> (r: Option<(Vec<String>, usize)>)
    requires
        pos <= bytes@.len(),
    ensures
        match r {
            Some(p) => parse_ids(bytes@, pos as int, n as int) == Some(
                (ids_view(p.0@), p.1 as int),
            ) && p.1 <= bytes@.len() && p.0@.len() == n,
            None => parse_ids(bytes@, pos as int, n as int) is None,
        },
{
    let mut v: Vec<String> = Vec::new();
    let mut cur = pos;
    let ghost i0 = pos as int;
    let ghost ng = n as int;
    proof {
        if parse_ids(bytes@, i0, ng) is Some {
            let p = parse_ids(bytes@, i0, ng)->Some_0;
            assert(ids_view(v@) + p.0 =~= p.0);
        }
    }
    for k in 0..n
        invariant
            cur <= bytes@.len(),
            v@.len() == k,
            ids_step(bytes@, i0, ng, ids_view(v@), cur as int, ng - k),
    {
        let ghost rem = ng - k;
        let ghost pre = ids_view(v@);
        match read_id(bytes, cur) {
            Some(p) => {
                let id = p.0;
                let ghost prev = cur as int;
                cur = p.1;
                proof {
                    assert(parse_ids(bytes@, prev, rem) == (
                    match parse_ids(bytes@, cur as int, rem - 1) {
                        Some(q) => Some::<(Seq<Seq<char>>, int)>((seq![id@] + q.0, q.1)),
                        None => None::<(Seq<Seq<char>>, int)>,
                    }));
                    if parse_ids(bytes@, cur as int, rem - 1) is Some {
                        let q = parse_ids(bytes@, cur as int, rem - 1)->Some_0;
                        assert(pre + (seq![id@] + q.0) =~= pre.push(id@) + q.0);
                    }
                }
                v.push(id);
                proof {
                    assert(ids_view(v@) =~= pre.push(v@[k as int]@));
                }
            },
            None => {
                proof {
                    assert(parse_ids(bytes@, cur as int, rem) is None);
                    assert(parse_ids(bytes@, i0, ng) is None);
                }
                return None;
            },
        }
    }
    proof {
        assert(parse_ids(bytes@, cur as int, 0) == Some((Seq::<Seq<char>>::empty(), cur as int)));
        assert(ids_view(v@) + Seq::<Seq<char>>::empty() =~= ids_view(v@));
    }
    Some((v, cur))
}

fn read_pair(bytes: &Vec<u8>, pos: usize) -> (r: Option<((String, u64), usize)>)
    requires
        pos <= bytes@.len(),
    ensures
        match r {
            Some(p) => parse_pair(bytes@, pos as int) == Some(
                ((p.0.0@, p.0.1 as nat), p.1 as int),
            ) && p.1 <= bytes@.len(),
            None => parse_pair(bytes@, pos as int) is None,
        },
{
    match read_id(bytes, pos) {
        Some(p) => match read_u64(bytes, p.1) {
            Some(q) => Some(((p.0, q.0), q.1)),
            None => None,
        },
        None => None,
    }
}

spec fn pairs_step(
    b: Seq<u8>,
    i0: int,
    n: int,
    acc: Seq<(Seq<char>, nat)>,
    cur: int,
    rem: int,
) -> bool {
    parse_pairs(b, i0, n) == (match parse_pairs(b, cur, rem) {
        Some(p) => Some::<(Seq<(Seq<char>, nat)>, int)>((acc + p.0, p.1)),
        None => None::<(Seq<(Seq<char>, nat)>, int)>,
    })
}

#[verifier::loop_isolation(false)]
fn read_pairs(bytes: &Vec<u8>, pos: usize, n: usize) -> (r: Option<(Vec<(String, u64)>, usize)>)
    requires
        pos <= bytes@.len(),
    ensures
        match r {
            Some(p) => parse_pairs(bytes@, pos as int, n as int) == Some(
                (raw_pairs_view(p.0@), p.1 as int),
            ) && p.1 <= bytes@.len() && p.0@.len() == n,
            None => parse_pairs(bytes@, pos as int, n as int) is None,
        },
{
    let mut v: Vec<(String, u64)> = Vec::new();
    let mut cur = pos;
    let ghost i0 = pos as int;
    let ghost ng = n as int;
    proof {
        if parse_pairs(bytes@, i0, ng) is Some {
            let p = parse_pairs(bytes@, i0, ng)->Some_0;
            assert(raw_pairs_view(v@) + p.0 =~= p.0);
        }
    }
    for k in 0..n
        invariant
            cur <= bytes@.len(),
            v@.len() == k,
            pairs_step(bytes@, i0, ng, raw_pairs_view(v@), cur as int, ng - k),
    {
        let ghost rem = ng - k;
        let ghost pre = raw_pairs_view(v@);
        match read_pair(bytes, cur) {
            Some(p) => {
                let entry = p.0;
                let ghost prev = cur as int;
                let ghost ev = (entry.0@, entry.1 as nat);
                cur = p.1;
                proof {
                    assert(parse_pairs(bytes@, prev, rem) == (
                    match parse_pairs(bytes@, cur as int, rem - 1) {
                        Some(q) => Some::<(Seq<(Seq<char>, nat)>, int)>((seq![ev] + q.0, q.1)),
                        None => None::<(Seq<(Seq<char>, nat)>, int)>,
                    }));
                    if parse_pairs(bytes@, cur as int, rem - 1) is Some {
                        let q = parse_pairs(bytes@, cur as int, rem - 1)->Some_0;
                        assert(pre + (seq![ev] + q.0) =~= pre.push(ev) + q.0);
                    }
                }
                v.push(entry);
                proof {
                    assert(raw_pairs_view(v@) =~= pre.push(ev));
                }
            },
            None => {
                proof {
                    assert(parse_pairs(bytes@, cur as int, rem) is None);
                    assert(parse_pairs(bytes@, i0, ng) is None);
                }
                return None;
            },
        }
    }
    proof {
        assert(parse_pairs(bytes@, cur as int, 0) == Some(
            (Seq::<(Seq<char>, nat)>::empty(), cur as int),
        ));
        assert(raw_pairs_view(v@) + Seq::<(Seq<char>, nat)>::empty() =~= raw_pairs_view(v@));
    }
    Some((v, cur))
}

/// Reconstructs a store from its persisted bytes. Accepts exactly the
/// byte strings that `parse_model` accepts: a complete artifact with no
/// trailing bytes whose two identity maps are mutual inverses and whose
/// row count agrees with both map cardinalities; anything else is
/// `StoreError::CorruptStore`.
#[verifier::loop_isolation(false)]
#[verifier::rlimit(30)]
pub fn decode_store(bytes: &Vec<u8>) -> (r: Result<VectorStore, StoreError>)
    ensures
        match r {
            Ok(s) => parse_model(bytes@) == Some(s@) && store_wf(s@),
            Err(e) => parse_model(bytes@) is None && e == StoreError::CorruptStore,
        },
{
    let (dv, p1) = match read_u64(bytes, 0) {
        Some(p) => p,
        None => {
            return Err(StoreError::CorruptStore);
        },
    };
    let (nv, p2) = match read_u64(bytes, p1) {
        Some(p) => p,
        None => {
            return Err(StoreError::CorruptStore);
        },
    };
    if dv > usize::MAX as u64 || nv > usize::MAX as u64 {
        return Err(StoreError::CorruptStore);
    }
    let d_us = dv as usize;
    let n_us = nv as usize;
    let (rows_v, p3) = match read_rows(bytes, p2, n_us, d_us) {
        Some(p) => p,
        None => {
            return Err(StoreError::CorruptStore);
        },
    };
    let (ids_v, p4) = match read_ids(bytes, p3, n_us) {
        Some(p) => p,
        None => {
            return Err(StoreError::CorruptStore);
        },
    };
    let (raw, p5) = match read_pairs(bytes, p4, n_us) {
        Some(p) => p,
        None => {
            return Err(StoreError::CorruptStore);
        },
    };
    if p5 != bytes.len() {
        return Err(StoreError::CorruptStore);
    }
    let ghost m0 = StoreModel {
        dim: dv as nat,
        rows: rows_view(rows_v@),
        ids: ids_view(ids_v@),
        pairs: raw_pairs_view(raw@),
    };
    proof {
        assert(parse_model(bytes@) == (if store_wf(m0) {
            Some(m0)
        } else {
            None::<StoreModel>
        }));
    }

    // Validation: every identity-map entry must point at a row that
    // carries its key.
    let mut entries: Vec<IdEntry> = Vec::new();
    for j in 0..n_us
        invariant
            entries@.len() == j,
            forall|t: int| 0 <= t < j ==> #[trigger] pair_consistent(m0, t),
            forall|t: int| 0 <= t < j ==> (#[trigger] entries@[t])@ == m0.pairs[t],
    {
        let key_index = raw[j].1;
        if key_index >= nv {
            proof {
                assert(!pair_consistent(m0, j as int));
            }
            return Err(StoreError::CorruptStore);
        }
        let ki = key_index as usize;
        if !(ids_v[ki] == raw[j].0) {
            proof {
                assert(m0.ids[key_index as int] == ids_v@[key_index as int]@);
                assert(!pair_consistent(m0, j as int));
            }
            return Err(StoreError::CorruptStore);
        }
        entries.push(IdEntry { id: raw[j].0.clone(), index: ki });
        proof {
            assert(pair_consistent(m0, j as int));
            assert(entries@[j as int]@ == m0.pairs[j as int]);
        }
    }

    // Validation: no two entries may share a key.
    for j1 in 0..n_us
        invariant
            forall|t1: int, t2: int|
                0 <= t1 < j1 && t1 < t2 < n_us ==> (#[trigger] m0.pairs[t1]).0 != (
                #[trigger] m0.pairs[t2]).0,
    {
        for j2 in (j1 + 1)..n_us
            invariant
                forall|t1: int, t2: int|
                    0 <= t1 < j1 && t1 < t2 < n_us ==> (#[trigger] m0.pairs[t1]).0 != (
                    #[trigger] m0.pairs[t2]).0,
                forall|t2: int|
                    j1 < t2 < j2 ==> (#[trigger] m0.pairs[t2]).0 != m0.pairs[j1 as int].0,
        {
            if raw[j1].0 == raw[j2].0 {
                proof {
                    assert(m0.pairs[j1 as int].0 == m0.pairs[j2 as int].0);
                    assert(!store_wf(m0));
                }
                return Err(StoreError::CorruptStore);
            }
        }
    }

    // Validation: every row index must be covered by some entry.
    for i in 0..n_us
        invariant
            forall|t: int| 0 <= t < i ==> #[trigger] index_covered(m0, t),
    {
        let mut found = false;
        for j in 0..n_us
            invariant
                found ==> index_covered(m0, i as int),
                !found ==> forall|t: int| 0 <= t < j ==> (#[trigger] m0.pairs[t]).1 != i as nat,
        {
            if raw[j].1 == i as u64 {
                proof {
                    assert(m0.pairs[j as int].1 == i as nat);
                    assert(index_covered(m0, i as int));
                }
                found = true;
            }
        }
        if !found {
            proof {
                if index_covered(m0, i as int) {
                    let jw = choose|jw: int|
                        0 <= jw < m0.pairs.len() && (#[trigger] m0.pairs[jw]).1 == i as nat;
                    assert(m0.pairs[jw].1 != i as nat);
                }
                assert(!store_wf(m0));
            }
            return Err(StoreError::CorruptStore);
        }
    }

    proof {
        assert forall|j1: int, j2: int|
            0 <= j1 < m0.pairs.len() && 0 <= j2 < m0.pairs.len() && j1 != j2 implies (
        #[trigger] m0.pairs[j1]).0 != (#[trigger] m0.pairs[j2]).0 by {
            if j1 < j2 {
                assert(m0.pairs[j1].0 != m0.pairs[j2].0);
            } else {
                assert(m0.pairs[j2].0 != m0.pairs[j1].0);
            }
        }
        assert(store_wf(m0));
    }
    let store = VectorStore { dim: d_us, rows: rows_v, index_to_id: ids_v, id_to_index: entries };
    proof {
        assert(store@.rows =~= m0.rows);
        assert(store@.ids =~= m0.ids);
        assert(store@.pairs =~= m0.pairs);
        assert(store@ =~= m0);
    }
    Ok(store)
}

} // verus!
