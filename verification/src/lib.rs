use vstd::prelude::*;

pub mod accumulator;
pub mod config;
pub mod hash_builder;
pub mod unf_vector;
pub mod value;

use rayon::iter::{IntoParallelRefIterator, ParallelIterator};

use crate::accumulator::{accumulate, lemma_sum128_append, lemma_sum128_map_permutation, sum128};
use crate::config::IdHashConfig;
use crate::hash_builder::{batch_fingerprint, idhash_batch, row_capacity, row_hash, rows_of};
use crate::value::{dataset_wf, schema_types, Batch, ColumnType, Schema, ValueModel};

verus! {

/// The fingerprint contribution of each batch, in batch order.
pub open spec fn batch_fingerprints(
    types: Seq<ColumnType>,
    batches: Seq<Seq<Seq<ValueModel>>>,
    cfg: IdHashConfig,
) -> Seq<u128> {
    batches.map_values(|cols: Seq<Seq<ValueModel>>| batch_fingerprint(types, cols, cfg))
}

/// The fingerprint of a dataset: the per-batch values folded with the
/// same modulo-2^128 sum that folded the row hashes, so the whole
/// pipeline is one associative, commutative fold.  Zero batches yield
/// the identity 0.
pub open spec fn dataset_fingerprint(
    types: Seq<ColumnType>,
    batches: Seq<Seq<Seq<ValueModel>>>,
    cfg: IdHashConfig,
) -> u128 {
    sum128(batch_fingerprints(types, batches, cfg))
}

/// The rows of a whole dataset: the rows of its batches, concatenated
/// in batch order.
pub open spec fn dataset_rows(batches: Seq<Seq<Seq<ValueModel>>>) -> Seq<Seq<ValueModel>>
    decreases batches.len(),
{
    if batches.len() == 0 {
        Seq::empty()
    } else {
        dataset_rows(batches.drop_last()) + rows_of(batches.last())
    }
}

/// Calculates the identifiable hash of a series of batches by folding
/// their contributions sequentially, in the order given.  Zero batches
/// yield the identity value 0.  Callers establish up front, with
/// [`crate::hash_builder::hash_input_fits`], that rows under this
/// schema and configuration fit the row hasher's input bound.
pub fn calculate_idhash(batch_input: &Vec<Batch>, schema: &Schema, config: IdHashConfig) -> (r:
    u128)
    requires
        config.digits >= 1,
        dataset_wf(schema_types(schema@), batch_input@.map_values(|b: Batch| b@)),
        row_capacity(schema_types(schema@), config) <= 0x7fff_ffff,
    ensures
        r == dataset_fingerprint(
            schema_types(schema@),
            batch_input@.map_values(|b: Batch| b@),
            config,
        ),
{
    let ghost types = schema_types(schema@);
    let ghost views = batch_input@.map_values(|b: Batch| b@);
    let ghost fps = batch_fingerprints(types, views, config);
    let mut acc: u128 = 0;
    let mut i: usize = 0;
    assert(acc == sum128(fps.take(0)));
    while i < batch_input.len()
        invariant
            0 <= i <= batch_input@.len(),
            config.digits >= 1,
            types == schema_types(schema@),
            views == batch_input@.map_values(|b: Batch| b@),
            dataset_wf(types, views),
            row_capacity(types, config) <= 0x7fff_ffff,
            fps == batch_fingerprints(types, views, config),
            fps.len() == batch_input@.len(),
            acc == sum128(fps.take(i as int)),
        decreases batch_input@.len() - i,
    {
        assert(views[i as int] == batch_input@[i as int]@);
        let h = idhash_batch(&batch_input[i], schema, config);
        assert(h == fps[i as int]);
        acc = accumulate(acc, h);
        proof {
            assert(fps.take(i + 1).drop_last() =~= fps.take(i as int));
            assert(fps.take(i + 1).last() == fps[i as int]);
        }
        i += 1;
    }
    assert(fps.take(fps.len() as int) =~= fps);
    acc
}

/// Relies on rayon's `par_iter().map(..).collect()` over a `Vec`: the
/// parallel iterator is indexed, so `collect` preserves order, and
/// `map` applies this crate's verified `idhash_batch` to each batch on
/// some worker.  Slot `i` of the result therefore holds the
/// fingerprint contribution of batch `i`, whatever the worker count
/// and schedule.  The preconditions here are exactly what the closure
/// needs to meet `idhash_batch`'s own.
#[verifier::external_body]
fn batch_fingerprints_parallel(batch_input: &Vec<Batch>, schema: &Schema, config: IdHashConfig)
    -> (r: Vec<u128>)
    requires
        config.digits >= 1,
        dataset_wf(schema_types(schema@), batch_input@.map_values(|b: Batch| b@)),
        row_capacity(schema_types(schema@), config) <= 0x7fff_ffff,
    ensures
        r@.len() == batch_input@.len(),
        forall|i: int|
            0 <= i < r@.len() ==> r@[i] == batch_fingerprint(
                schema_types(schema@),
                batch_input@.map_values(|b: Batch| b@)[i],
                config,
            ),
{
    batch_input.par_iter().map(|b| idhash_batch(b, schema, config)).collect()
}

/// Calculates the identifiable hash of a series of batches with a
/// data-parallel map over a worker pool, then folds the per-batch
/// contributions with the same operator the sequential strategy uses.
/// The result is bit-identical to [`calculate_idhash`] on the same
/// input: the fold is associative and commutative with identity 0, so
/// neither the worker count nor the schedule can show through.
pub fn calculate_idhash_par(batch_input: &Vec<Batch>, schema: &Schema, config: IdHashConfig) -> (r:
    u128)
    requires
        config.digits >= 1,
        dataset_wf(schema_types(schema@), batch_input@.map_values(|b: Batch| b@)),
        row_capacity(schema_types(schema@), config) <= 0x7fff_ffff,
    ensures
        r == dataset_fingerprint(
            schema_types(schema@),
            batch_input@.map_values(|b: Batch| b@),
            config,
        ),
{
    let ghost types = schema_types(schema@);
    let ghost views = batch_input@.map_values(|b: Batch| b@);
    let ghost fps = batch_fingerprints(types, views, config);
    let parts = batch_fingerprints_parallel(batch_input, schema, config);
    assert(parts@ =~= fps);
    let mut acc: u128 = 0;
    let mut i: usize = 0;
    assert(acc == sum128(fps.take(0)));
    while i < parts.len()
        invariant
            0 <= i <= parts@.len(),
            parts@ == fps,
            acc == sum128(fps.take(i as int)),
        decreases parts@.len() - i,
    {
        acc = accumulate(acc, parts[i]);
        proof {
            assert(fps.take(i + 1).drop_last() =~= fps.take(i as int));
            assert(fps.take(i + 1).last() == fps[i as int]);
        }
        i += 1;
    }
    assert(fps.take(fps.len() as int) =~= fps);
    acc
}

// ---------------------------------------------------------------------------
// Laws of the reduction.
// ---------------------------------------------------------------------------

/// The fingerprint of a dataset is the fold of the row hashes of its
/// flattened row sequence: batch boundaries only bracket the one
/// underlying sum.
pub proof fn lemma_dataset_fingerprint_is_row_fold(
    types: Seq<ColumnType>,
    batches: Seq<Seq<Seq<ValueModel>>>,
    cfg: IdHashConfig,
)
    ensures
        dataset_fingerprint(types, batches, cfg) == sum128(
            dataset_rows(batches).map_values(|row: Seq<ValueModel>| row_hash(types, row, cfg)),
        ),
    decreases batches.len(),
{
    let f = |row: Seq<ValueModel>| row_hash(types, row, cfg);
    if batches.len() == 0 {
        assert(dataset_rows(batches).map_values(f) =~= Seq::<u128>::empty());
        assert(batch_fingerprints(types, batches, cfg) =~= Seq::<u128>::empty());
    } else {
        let head = batches.drop_last();
        let last = batches.last();
        lemma_dataset_fingerprint_is_row_fold(types, head, cfg);
        let a = dataset_rows(head).map_values(f);
        let b = rows_of(last).map_values(f);
        assert(dataset_rows(batches).map_values(f) =~= a + b);
        lemma_sum128_append(a, b);
        assert(crate::hash_builder::batch_row_hashes(types, last, cfg) =~= b);
        let fps = batch_fingerprints(types, batches, cfg);
        assert(fps.drop_last() =~= batch_fingerprints(types, head, cfg));
        assert(fps.last() == batch_fingerprint(types, last, cfg));
    }
}

/// Batch-size independence: any two batchings that carve the same
/// logical row sequence into (possibly different) consecutive batches
/// produce the same fingerprint.
pub proof fn lemma_batch_size_independence(
    types: Seq<ColumnType>,
    batches1: Seq<Seq<Seq<ValueModel>>>,
    batches2: Seq<Seq<Seq<ValueModel>>>,
    cfg: IdHashConfig,
)
    requires
        dataset_rows(batches1) == dataset_rows(batches2),
    ensures
        dataset_fingerprint(types, batches1, cfg) == dataset_fingerprint(types, batches2, cfg),
{
    lemma_dataset_fingerprint_is_row_fold(types, batches1, cfg);
    lemma_dataset_fingerprint_is_row_fold(types, batches2, cfg);
}

/// Order independence: permuting the rows of a dataset (the same rows,
/// with the same multiplicities, in any order and any batching) leaves
/// the fingerprint unchanged.
pub proof fn lemma_order_independence(
    types: Seq<ColumnType>,
    batches1: Seq<Seq<Seq<ValueModel>>>,
    batches2: Seq<Seq<Seq<ValueModel>>>,
    cfg: IdHashConfig,
)
    requires
        dataset_rows(batches1).to_multiset() == dataset_rows(batches2).to_multiset(),
    ensures
        dataset_fingerprint(types, batches1, cfg) == dataset_fingerprint(types, batches2, cfg),
{
    lemma_dataset_fingerprint_is_row_fold(types, batches1, cfg);
    lemma_dataset_fingerprint_is_row_fold(types, batches2, cfg);
    lemma_sum128_map_permutation(
        dataset_rows(batches1),
        dataset_rows(batches2),
        |row: Seq<ValueModel>| row_hash(types, row, cfg),
    );
}

/// Folding zero batches yields the documented identity value 0.
pub proof fn lemma_empty_dataset(types: Seq<ColumnType>, cfg: IdHashConfig)
    ensures
        dataset_fingerprint(types, Seq::<Seq<Seq<ValueModel>>>::empty(), cfg) == 0,
{
    assert(batch_fingerprints(types, Seq::<Seq<Seq<ValueModel>>>::empty(), cfg)
        =~= Seq::<u128>::empty());
}

} // verus!

