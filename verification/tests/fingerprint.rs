use idhash::accumulator::accumulate;
use idhash::config::{IdHashConfig, IdHashConfigBuilder};
use idhash::hash_builder::idhash_batch;
use idhash::value::{Batch, Column, ColumnType, Field, Schema, Value};
use idhash::{calculate_idhash, calculate_idhash_par};

fn schema_of(types: &[ColumnType]) -> Schema {
    Schema {
        fields: types
            .iter()
            .enumerate()
            .map(|(i, ty)| Field { name: format!("c{}", i), ty: *ty })
            .collect(),
    }
}

fn int_text_batch(rows: &[(i64, &str)]) -> Batch {
    Batch {
        columns: vec![
            Column { cells: rows.iter().map(|(i, _)| Value::Int(*i)).collect() },
            Column { cells: rows.iter().map(|(_, s)| Value::Text(s.to_string())).collect() },
        ],
    }
}

fn default_config() -> IdHashConfig {
    IdHashConfigBuilder::new().build()
}

#[test]
fn one_batch_equals_two_batches() {
    // Rows (1, "a") and (2, "b"): one two-row batch must hash like two
    // one-row batches.
    let schema = schema_of(&[ColumnType::Int, ColumnType::Text]);
    let config = default_config();
    let whole = vec![int_text_batch(&[(1, "a"), (2, "b")])];
    let split = vec![int_text_batch(&[(1, "a")]), int_text_batch(&[(2, "b")])];
    assert!(whole.iter().all(|b| b.conforms(&schema)));
    assert!(split.iter().all(|b| b.conforms(&schema)));
    assert_eq!(
        calculate_idhash(&whole, &schema, config),
        calculate_idhash(&split, &schema, config),
    );
}

#[test]
fn row_order_does_not_matter() {
    // The same rows in a different physical sort order give the same
    // fingerprint.
    let schema = schema_of(&[ColumnType::Int, ColumnType::Text]);
    let config = default_config();
    let sorted = vec![int_text_batch(&[(1, "a"), (2, "b"), (3, "c")])];
    let shuffled = vec![int_text_batch(&[(3, "c"), (1, "a"), (2, "b")])];
    assert_eq!(
        calculate_idhash(&sorted, &schema, config),
        calculate_idhash(&shuffled, &schema, config),
    );
}

#[test]
fn different_rows_change_the_fingerprint() {
    let schema = schema_of(&[ColumnType::Int, ColumnType::Text]);
    let config = default_config();
    let one = vec![int_text_batch(&[(1, "a"), (2, "b")])];
    let other = vec![int_text_batch(&[(1, "a"), (2, "c")])];
    assert_ne!(
        calculate_idhash(&one, &schema, config),
        calculate_idhash(&other, &schema, config),
    );
}

#[test]
fn repeated_runs_are_bit_identical() {
    let schema = schema_of(&[ColumnType::Int, ColumnType::Text]);
    let config = default_config();
    let data = vec![int_text_batch(&[(7, "x"), (8, "y"), (9, "z")])];
    let first = calculate_idhash(&data, &schema, config);
    for _ in 0..5 {
        assert_eq!(calculate_idhash(&data, &schema, config), first);
    }
}

#[test]
fn empty_dataset_yields_identity_zero() {
    let schema = schema_of(&[ColumnType::Int, ColumnType::Text]);
    let config = default_config();
    let batches: Vec<Batch> = Vec::new();
    assert_eq!(calculate_idhash(&batches, &schema, config), 0);
    assert_eq!(calculate_idhash_par(&batches, &schema, config), 0);
}

#[test]
fn empty_batch_yields_identity_zero() {
    let schema = schema_of(&[ColumnType::Int, ColumnType::Text]);
    let config = default_config();
    let empty = int_text_batch(&[]);
    assert_eq!(idhash_batch(&empty, &schema, config), 0);
    let batches = vec![int_text_batch(&[(1, "a")]), int_text_batch(&[])];
    let just_one = vec![int_text_batch(&[(1, "a")])];
    assert_eq!(
        calculate_idhash(&batches, &schema, config),
        calculate_idhash(&just_one, &schema, config),
    );
}

#[test]
fn parallel_equals_sequential() {
    let schema = schema_of(&[ColumnType::Int, ColumnType::Text]);
    let config = default_config();
    let rows: Vec<(i64, String)> = (0..500).map(|i| (i, format!("row{}", i))).collect();
    let batches: Vec<Batch> = rows
        .chunks(7)
        .map(|chunk| {
            int_text_batch(
                &chunk.iter().map(|(i, s)| (*i, s.as_str())).collect::<Vec<(i64, &str)>>(),
            )
        })
        .collect();
    assert_eq!(
        calculate_idhash(&batches, &schema, config),
        calculate_idhash_par(&batches, &schema, config),
    );
}

#[test]
fn batch_fingerprint_matches_reference_murmur3() {
    // One row (1, "a"): its bytes are the two canonical cell forms
    // concatenated, and the batch value is their 128-bit hash.  The
    // expected value comes from an independent MurmurHash3 x64 128
    // implementation.
    let schema = schema_of(&[ColumnType::Int, ColumnType::Text]);
    let config = default_config();
    let batch = int_text_batch(&[(1, "a")]);
    let expected = fastmurmur3::murmur3_x64_128(b"1\n\x00a\n\x00", 0);
    assert_eq!(idhash_batch(&batch, &schema, config), expected);
}

#[test]
fn dataset_fingerprint_is_wrapping_sum_of_row_hashes() {
    let schema = schema_of(&[ColumnType::Int, ColumnType::Text]);
    let config = default_config();
    let data = vec![int_text_batch(&[(1, "a"), (2, "b")])];
    let h1 = fastmurmur3::murmur3_x64_128(b"1\n\x00a\n\x00", 0);
    let h2 = fastmurmur3::murmur3_x64_128(b"2\n\x00b\n\x00", 0);
    assert_eq!(calculate_idhash(&data, &schema, config), h1.wrapping_add(h2));
}

#[test]
fn accumulate_wraps_at_the_modulus() {
    assert_eq!(accumulate(u128::MAX, 1), 0);
    assert_eq!(accumulate(5, 0), 5);
    assert_eq!(accumulate(0, 5), 5);
    assert_eq!(accumulate(3, 4), accumulate(4, 3));
}

#[test]
fn timestamp_columns_use_fixed_truncation() {
    // A sixteen-digit tick count is cut to twelve characters in a
    // timestamp column, but kept whole in a plain integer column.
    let config = default_config();
    let ts_schema = schema_of(&[ColumnType::Timestamp]);
    let batch = Batch { columns: vec![Column { cells: vec![Value::Int(1234567890123456)] }] };
    assert!(batch.conforms(&ts_schema));
    let expected = fastmurmur3::murmur3_x64_128(b"123456789012\n\x00", 0);
    assert_eq!(idhash_batch(&batch, &ts_schema, config), expected);

    let int_schema = schema_of(&[ColumnType::Int]);
    let expected_full = fastmurmur3::murmur3_x64_128(b"1234567890123456\n\x00", 0);
    assert_eq!(idhash_batch(&batch, &int_schema, config), expected_full);
}

#[test]
fn null_rows_hash_through_the_sentinel() {
    let schema = schema_of(&[ColumnType::Int]);
    let config = default_config();
    let batch = Batch { columns: vec![Column { cells: vec![Value::Null] }] };
    let expected = fastmurmur3::murmur3_x64_128(b"null\n\x00", 0);
    assert_eq!(idhash_batch(&batch, &schema, config), expected);
}

#[test]
fn conformance_checks_catch_type_mismatches() {
    let schema = schema_of(&[ColumnType::Int, ColumnType::Text]);
    let wrong = Batch {
        columns: vec![
            Column { cells: vec![Value::Text("1".to_string())] },
            Column { cells: vec![Value::Text("a".to_string())] },
        ],
    };
    assert!(!wrong.conforms(&schema));
    let ragged = Batch {
        columns: vec![
            Column { cells: vec![Value::Int(1), Value::Int(2)] },
            Column { cells: vec![Value::Text("a".to_string())] },
        ],
    };
    assert!(!ragged.conforms(&schema));
    let good = int_text_batch(&[(1, "a")]);
    assert!(good.conforms(&schema));
}

#[test]
fn hash_input_fits_checks_the_row_capacity() {
    // Two columns at the default 128-character limit fit easily; a
    // limit near the address-space maximum cannot be promised to fit.
    let schema = schema_of(&[ColumnType::Int, ColumnType::Text]);
    assert!(idhash::hash_builder::hash_input_fits(&schema, default_config()));
    let huge = IdHashConfigBuilder::new().characters(usize::MAX).build();
    assert!(!idhash::hash_builder::hash_input_fits(&schema, huge));
    // A timestamp column counts its fixed truncation length, not the
    // configured limit.
    let ts_schema = schema_of(&[ColumnType::Timestamp]);
    assert!(idhash::hash_builder::hash_input_fits(&ts_schema, huge));
}
