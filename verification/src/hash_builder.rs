use vstd::prelude::*;
use crate::accumulator::{accumulate, sum128};
use crate::config::IdHashConfig;
use crate::unf_vector::{canon_bytes, encode_cell};
use crate::value::{batch_rows, batch_wf, cell_ok, schema_types, Batch, ColumnType, Schema, ValueModel};

verus! {

/// The 128-bit value that the MurmurHash3 x64 128-bit variant, with
/// seed 0, assigns to a byte string of fewer than 2^31 bytes.  The
/// hash is a fixed, seedless function of the input bytes alone; its
/// definition lives in the hashing library and is not restated here.
pub uninterp spec fn murmur3_x64_128_of(bytes: Seq<u8>) -> u128;

/// Relies on fasthash's `murmur3::Hash128_x64` (`FastHash::hash`, which
/// applies MurmurHash3_x64_128 with the default seed 0): the result is
/// a pure function of the input bytes, named [`murmur3_x64_128_of`].
/// The implementation behind it takes the input length as a 32-bit
/// signed integer, so only inputs below 2^31 bytes are admitted: on
/// longer ones the cast would wrap and the call would not compute the
/// hash of the given bytes.
#[verifier::external_body]
fn murmur3_hash(bytes: &Vec<u8>) -> (r: u128)
    requires
        bytes@.len() <= 0x7fff_ffff,
    ensures
        r == murmur3_x64_128_of(bytes@),
{
    <fasthash::murmur3::Hash128_x64 as fasthash::FastHash>::hash(bytes.as_slice())
}

/// The character limit of one column: timestamp columns use a fixed
/// truncation length reflecting their bounded textual width, every
/// other column the configured limit.
pub open spec fn limit_of(ty: ColumnType, cfg: IdHashConfig) -> int {
    if ty == ColumnType::Timestamp {
        12
    } else {
        cfg.characters as int
    }
}

/// The canonical bytes of one cell in a column of the given type.
pub open spec fn cell_bytes(ty: ColumnType, v: ValueModel, cfg: IdHashConfig) -> Seq<u8> {
    canon_bytes(v, limit_of(ty, cfg), cfg.digits as nat)
}

/// The bytes of one row: the canonical forms of its cells concatenated
/// in column order, with no additional delimiter (each cell already
/// carries its own trailing sentinel).
pub open spec fn row_bytes(types: Seq<ColumnType>, row: Seq<ValueModel>, cfg: IdHashConfig) -> Seq<
    u8,
>
    decreases row.len(),
{
    if row.len() == 0 {
        Seq::empty()
    } else {
        row_bytes(types.drop_last(), row.drop_last(), cfg) + cell_bytes(
            types[row.len() - 1],
            row.last(),
            cfg,
        )
    }
}

/// The hash of one row: the mixing hash of its concatenated canonical
/// bytes.
pub open spec fn row_hash(types: Seq<ColumnType>, row: Seq<ValueModel>, cfg: IdHashConfig) -> u128 {
    murmur3_x64_128_of(row_bytes(types, row, cfg))
}

/// The rows of a columnar batch, in row-major order.
pub open spec fn rows_of(cols: Seq<Seq<ValueModel>>) -> Seq<Seq<ValueModel>> {
    Seq::new(batch_rows(cols), |r: int| Seq::new(cols.len(), |c: int| cols[c][r]))
}

/// The row hashes of a batch, in row order.
pub open spec fn batch_row_hashes(
    types: Seq<ColumnType>,
    cols: Seq<Seq<ValueModel>>,
    cfg: IdHashConfig,
) -> Seq<u128> {
    rows_of(cols).map_values(|row: Seq<ValueModel>| row_hash(types, row, cfg))
}

/// The fingerprint contribution of one batch: its row hashes folded
/// with the modulo-2^128 sum; an empty batch yields the identity 0.
pub open spec fn batch_fingerprint(
    types: Seq<ColumnType>,
    cols: Seq<Seq<ValueModel>>,
    cfg: IdHashConfig,
) -> u128 {
    sum128(batch_row_hashes(types, cols, cfg))
}

/// The most bytes a row under the given column types can encode to:
/// each cell contributes at most its column's character limit plus the
/// two sentinel bytes.
pub open spec fn row_capacity(types: Seq<ColumnType>, cfg: IdHashConfig) -> int
    decreases types.len(),
{
    if types.len() == 0 {
        0
    } else {
        row_capacity(types.drop_last(), cfg) + limit_of(types.last(), cfg) + 2
    }
}

/// One cell encodes to at most its column's limit plus the sentinel.
proof fn lemma_cell_bytes_len(ty: ColumnType, v: ValueModel, cfg: IdHashConfig)
    ensures
        0 <= cell_bytes(ty, v, cfg).len() <= limit_of(ty, cfg) + 2,
{
    assert(limit_of(ty, cfg) >= 0);
}

/// A row's bytes stay within the capacity of its column types.
proof fn lemma_row_bytes_len(types: Seq<ColumnType>, row: Seq<ValueModel>, cfg: IdHashConfig)
    requires
        row.len() == types.len(),
    ensures
        0 <= row_bytes(types, row, cfg).len() <= row_capacity(types, cfg),
    decreases row.len(),
{
    if row.len() > 0 {
        lemma_row_bytes_len(types.drop_last(), row.drop_last(), cfg);
        lemma_cell_bytes_len(types[row.len() - 1], row.last(), cfg);
    }
}

/// The capacity only grows as columns are added.
proof fn lemma_row_capacity_prefix(types: Seq<ColumnType>, cfg: IdHashConfig, k: int)
    requires
        0 <= k <= types.len(),
    ensures
        row_capacity(types.take(k), cfg) <= row_capacity(types, cfg),
    decreases types.len(),
{
    if k < types.len() {
        lemma_row_capacity_prefix(types.drop_last(), cfg, k);
        assert(types.drop_last().take(k) =~= types.take(k));
        assert(limit_of(types.last(), cfg) >= 0);
    } else {
        assert(types.take(k) =~= types);
    }
}

/// Whether every row under this schema and configuration is guaranteed
/// to encode to fewer bytes than the row hasher admits.  Callers of
/// the hashing functions establish this bound up front, from the
/// schema and the configuration alone.
pub fn hash_input_fits(schema: &Schema, config: IdHashConfig) -> (b: bool)
    ensures
        b == (row_capacity(schema_types(schema@), config) <= 0x7fff_ffff),
{
    let ghost types = schema_types(schema@);
    let mut acc: u64 = 0;
    let mut i: usize = 0;
    while i < schema.fields.len()
        invariant
            0 <= i <= schema.fields@.len(),
            types == schema_types(schema@),
            types.len() == schema.fields@.len(),
            acc == row_capacity(types.take(i as int), config),
            acc <= 0x7fff_ffff,
        decreases schema.fields@.len() - i,
    {
        let ty = schema.fields[i].ty;
        assert(schema@[i as int] == schema.fields@[i as int]@);
        assert(types[i as int] == ty);
        let limit: usize = if matches!(ty, ColumnType::Timestamp) {
            12
        } else {
            config.characters
        };
        assert(limit == limit_of(ty, config));
        let lim64 = limit as u64;
        proof {
            assert(types.take(i + 1).drop_last() =~= types.take(i as int));
            assert(types.take(i + 1).last() == types[i as int]);
        }
        if lim64 > 0x7fff_ffff || acc + lim64 + 2 > 0x7fff_ffff {
            proof {
                assert(row_capacity(types.take(i + 1), config) > 0x7fff_ffff);
                lemma_row_capacity_prefix(types, config, i + 1);
            }
            return false;
        }
        acc = acc + lim64 + 2;
        i += 1;
    }
    assert(types.take(types.len() as int) =~= types);
    true
}

/// Builds the concatenated canonical bytes of row `r` of a batch.
fn row_bytes_exec(input: &Batch, schema: &Schema, r: usize, config: IdHashConfig) -> (b: Vec<u8>)
    requires
        config.digits >= 1,
        batch_wf(schema_types(schema@), input@),
        r < batch_rows(input@),
    ensures
        b@ == row_bytes(schema_types(schema@), rows_of(input@)[r as int], config),
{
    let ghost types = schema_types(schema@);
    let ghost row = rows_of(input@)[r as int];
    assert(row.len() == input@.len());
    assert(forall|c: int| 0 <= c < row.len() ==> row[c] == input@[c][r as int]);
    let mut b: Vec<u8> = Vec::new();
    let mut c: usize = 0;
    while c < input.columns.len()
        invariant
            0 <= c <= input.columns@.len(),
            input@.len() == input.columns@.len(),
            types == schema_types(schema@),
            types.len() == schema.fields@.len(),
            types.len() == input@.len(),
            row.len() == input@.len(),
            config.digits >= 1,
            r < batch_rows(input@),
            batch_wf(types, input@),
            forall|j: int| 0 <= j < row.len() ==> row[j] == input@[j][r as int],
            b@ == row_bytes(types.take(c as int), row.take(c as int), config),
        decreases input.columns@.len() - c,
    {
        let ty = schema.fields[c].ty;
        assert(schema@[c as int] == schema.fields@[c as int]@);
        assert(types[c as int] == ty);
        let limit: usize = if matches!(ty, ColumnType::Timestamp) {
            12
        } else {
            config.characters
        };
        assert(limit == limit_of(ty, config));
        assert(input@[c as int] == input.columns@[c as int]@);
        assert(input@[c as int].len() == batch_rows(input@));
        assert(cell_ok(ty, input@[c as int][r as int]));
        assert(input@[c as int][r as int] == input.columns@[c as int].cells@[r as int]@);
        let mut eb = encode_cell(&input.columns[c].cells[r], limit, config.digits);
        b.append(&mut eb);
        proof {
            assert(types.take(c + 1).drop_last() =~= types.take(c as int));
            assert(row.take(c + 1).drop_last() =~= row.take(c as int));
            assert(row.take(c + 1).last() == row[c as int]);
            assert(types.take(c + 1)[row.take(c + 1).len() - 1] == types[c as int]);
        }
        c += 1;
    }
    assert(types.take(types.len() as int) =~= types);
    assert(row.take(row.len() as int) =~= row);
    b
}

/// The fingerprint contribution of one batch: builds each row's
/// canonical bytes in turn (one row in memory at a time), hashes it,
/// and folds the row hashes with the modulo-2^128 sum.  An empty batch
/// yields the identity 0.
pub fn idhash_batch(input: &Batch, schema: &Schema, config: IdHashConfig) -> (h: u128)
    requires
        config.digits >= 1,
        batch_wf(schema_types(schema@), input@),
        row_capacity(schema_types(schema@), config) <= 0x7fff_ffff,
    ensures
        h == batch_fingerprint(schema_types(schema@), input@, config),
{
    let ghost types = schema_types(schema@);
    let ghost hashes = batch_row_hashes(types, input@, config);
    assert(hashes.len() == batch_rows(input@));
    let rows = input.num_rows();
    let mut acc: u128 = 0;
    let mut r: usize = 0;
    assert(acc == sum128(hashes.take(0)));
    while r < rows
        invariant
            0 <= r <= rows,
            rows == batch_rows(input@),
            config.digits >= 1,
            batch_wf(types, input@),
            types == schema_types(schema@),
            hashes == batch_row_hashes(types, input@, config),
            hashes.len() == rows,
            row_capacity(types, config) <= 0x7fff_ffff,
            acc == sum128(hashes.take(r as int)),
        decreases rows - r,
    {
        let rb = row_bytes_exec(input, schema, r, config);
        proof {
            let rowseq = rows_of(input@)[r as int];
            assert(rowseq.len() == types.len());
            lemma_row_bytes_len(types, rowseq, config);
        }
        let h = murmur3_hash(&rb);
        assert(h == hashes[r as int]);
        acc = accumulate(acc, h);
        proof {
            assert(hashes.take(r + 1).drop_last() =~= hashes.take(r as int));
            assert(hashes.take(r + 1).last() == hashes[r as int]);
        }
        r += 1;
    }
    assert(hashes.take(rows as int) =~= hashes);
    acc
}

} // verus!
