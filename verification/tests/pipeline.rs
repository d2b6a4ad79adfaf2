use json_columnar::codec::Compression;
use json_columnar::convert::{convert_records, ConvertOptions};
use json_columnar::file::read_file;
use json_columnar::schema::RawRecord;
use json_columnar::value::{LogicalType, RawValue, Value};
use json_columnar::ConvertError;

fn rec(pairs: Vec<(&str, RawValue)>) -> RawRecord {
    let mut fields = Vec::new();
    for (k, v) in pairs {
        fields.push((k.to_string(), v));
    }
    RawRecord { fields }
}

fn opts(block_size: usize, enable_dict: bool, compression: Compression) -> ConvertOptions {
    ConvertOptions {
        sample_size: None,
        block_size,
        page_size: 1024,
        dict_page_size: 1024,
        enable_dict,
        compression,
    }
}

#[test]
fn three_records_two_groups() {
    let records = vec![
        rec(vec![("a", RawValue::Int(1)), ("b", RawValue::Text("x".to_string()))]),
        rec(vec![("a", RawValue::Int(2))]),
        rec(vec![("a", RawValue::Int(3)), ("b", RawValue::Text("y".to_string()))]),
    ];
    let out = convert_records(&records, &opts(2, false, Compression::Uncompressed)).unwrap();
    assert_eq!(out.rows_written, 3);
    assert_eq!(out.rows_skipped, 0);
    assert_eq!(out.n_groups, 2);
    assert_eq!(out.schema.fields.len(), 2);
    assert_eq!(out.schema.fields[0].name, "a");
    assert_eq!(out.schema.fields[0].ty, LogicalType::Integer);
    assert!(!out.schema.fields[0].nullable);
    assert_eq!(out.schema.fields[1].name, "b");
    assert_eq!(out.schema.fields[1].ty, LogicalType::Text);
    assert!(out.schema.fields[1].nullable);

    let fd = read_file(&out.bytes).unwrap();
    assert_eq!(fd.groups.len(), 2);
    assert_eq!(fd.groups[0].n_rows, 2);
    assert_eq!(fd.groups[1].n_rows, 1);
    assert_eq!(fd.total_rows, 3);
    assert_eq!(fd.skipped_rows, 0);
    assert_eq!(fd.totals[0].null_count, 0);
    assert_eq!(fd.totals[0].int_bounds, Some((1, 3)));
    assert_eq!(fd.totals[1].null_count, 1);
    assert_eq!(fd.totals[1].int_bounds, None);
    assert_eq!(
        fd.rows,
        vec![
            vec![Some(Value::Int(1)), Some(Value::Text("x".to_string()))],
            vec![Some(Value::Int(2)), None],
            vec![Some(Value::Int(3)), Some(Value::Text("y".to_string()))],
        ]
    );
}

#[test]
fn empty_input_fails_schema_inference() {
    let records: Vec<RawRecord> = Vec::new();
    let r = convert_records(&records, &opts(8, false, Compression::Uncompressed));
    assert_eq!(r.err().unwrap(), ConvertError::SchemaInference);
}

#[test]
fn zero_sample_fails_schema_inference() {
    let records = vec![rec(vec![("a", RawValue::Int(1))])];
    let mut o = opts(8, false, Compression::Uncompressed);
    o.sample_size = Some(0);
    let r = convert_records(&records, &o);
    assert_eq!(r.err().unwrap(), ConvertError::SchemaInference);
}

#[test]
fn missing_required_field_skips_row() {
    // The first two records commit `b` as never-null; the third lacks it,
    // fails for that row only, and the run completes.
    let records = vec![
        rec(vec![("a", RawValue::Int(1)), ("b", RawValue::Int(10))]),
        rec(vec![("a", RawValue::Int(2)), ("b", RawValue::Int(20))]),
        rec(vec![("a", RawValue::Int(3))]),
    ];
    let mut o = opts(8, false, Compression::Uncompressed);
    o.sample_size = Some(2);
    let out = convert_records(&records, &o).unwrap();
    assert!(!out.schema.fields[1].nullable);
    assert_eq!(out.rows_skipped, 1);
    assert_eq!(out.rows_written, 2);
    let fd = read_file(&out.bytes).unwrap();
    assert_eq!(fd.skipped_rows, 1);
    assert_eq!(fd.total_rows, 2);
}

fn all_type_records() -> Vec<RawRecord> {
    let mut records = Vec::new();
    for i in 0..10i64 {
        records.push(rec(vec![
            ("n", RawValue::Int(i)),
            ("f", RawValue::Float((i as f64 * 0.5).to_bits())),
            ("b", RawValue::Bool(i % 2 == 0)),
            ("s", RawValue::Text(format!("value{}", i % 3))),
        ]));
    }
    records.push(rec(vec![("n", RawValue::Int(99)), ("b", RawValue::Bool(false))]));
    records
}

fn round_trip_with(compression: Compression, enable_dict: bool) {
    let records = all_type_records();
    let out = convert_records(&records, &opts(4, enable_dict, compression)).unwrap();
    let fd = read_file(&out.bytes).unwrap();
    assert_eq!(fd.total_rows, 11);
    assert_eq!(fd.rows.len(), 11);
    for i in 0..10usize {
        assert_eq!(fd.rows[i][0], Some(Value::Int(i as i64)));
        assert_eq!(fd.rows[i][1], Some(Value::Float((i as f64 * 0.5).to_bits())));
        assert_eq!(fd.rows[i][2], Some(Value::Bool(i % 2 == 0)));
        assert_eq!(fd.rows[i][3], Some(Value::Text(format!("value{}", i % 3))));
    }
    assert_eq!(fd.rows[10][0], Some(Value::Int(99)));
    assert_eq!(fd.rows[10][1], None);
    assert_eq!(fd.rows[10][2], Some(Value::Bool(false)));
    assert_eq!(fd.rows[10][3], None);
}

#[test]
fn round_trip_uncompressed_plain() {
    round_trip_with(Compression::Uncompressed, false);
}

#[test]
fn round_trip_fast_generic() {
    round_trip_with(Compression::FastGeneric, false);
}

#[test]
fn round_trip_balanced_generic() {
    round_trip_with(Compression::BalancedGeneric, false);
}

#[test]
fn round_trip_high_ratio_generic() {
    round_trip_with(Compression::HighRatioGeneric, false);
}

#[test]
fn round_trip_with_dictionary() {
    round_trip_with(Compression::Uncompressed, true);
    round_trip_with(Compression::HighRatioGeneric, true);
}

#[test]
fn row_groups_respect_block_size() {
    let mut records = Vec::new();
    for i in 0..5i64 {
        records.push(rec(vec![("v", RawValue::Int(i))]));
    }
    let out = convert_records(&records, &opts(2, false, Compression::Uncompressed)).unwrap();
    assert_eq!(out.n_groups, 3);
    let fd = read_file(&out.bytes).unwrap();
    assert_eq!(fd.groups.len(), 3);
    assert_eq!(fd.groups[0].n_rows, 2);
    assert_eq!(fd.groups[1].n_rows, 2);
    assert_eq!(fd.groups[2].n_rows, 1);
}

#[test]
fn corrupt_image_is_rejected() {
    let garbage = vec![1u8, 2, 3, 4, 5];
    assert_eq!(read_file(&garbage).err().unwrap(), ConvertError::CorruptFile);
    let records = vec![rec(vec![("a", RawValue::Int(1))])];
    let out = convert_records(&records, &opts(8, false, Compression::Uncompressed)).unwrap();
    let mut broken = out.bytes.clone();
    let n = broken.len();
    broken[n - 1] ^= 0xff;
    assert_eq!(read_file(&broken).err().unwrap(), ConvertError::CorruptFile);
}

#[test]
fn widened_int_coerces_to_float() {
    let records = vec![
        rec(vec![("x", RawValue::Int(1))]),
        rec(vec![("x", RawValue::Float((2.5f64).to_bits()))]),
    ];
    let out = convert_records(&records, &opts(8, false, Compression::Uncompressed)).unwrap();
    assert_eq!(out.schema.fields[0].ty, LogicalType::Float);
    let fd = read_file(&out.bytes).unwrap();
    assert_eq!(fd.rows[0][0], Some(Value::Float((1.0f64).to_bits())));
    assert_eq!(fd.rows[1][0], Some(Value::Float((2.5f64).to_bits())));
}

#[test]
fn type_mismatch_skips_row() {
    // The sample commits `x` as integer; a later boolean cannot coerce.
    let records = vec![
        rec(vec![("x", RawValue::Int(1))]),
        rec(vec![("x", RawValue::Bool(true))]),
    ];
    let mut o = opts(8, false, Compression::Uncompressed);
    o.sample_size = Some(1);
    let out = convert_records(&records, &o).unwrap();
    assert_eq!(out.rows_written, 1);
    assert_eq!(out.rows_skipped, 1);
}

#[test]
fn nested_values_are_rejected_per_row() {
    let records = vec![
        rec(vec![("x", RawValue::Int(1))]),
        rec(vec![("x", RawValue::Nested)]),
    ];
    let mut o = opts(8, false, Compression::Uncompressed);
    o.sample_size = Some(1);
    let out = convert_records(&records, &o).unwrap();
    assert_eq!(out.rows_written, 1);
    assert_eq!(out.rows_skipped, 1);
}

#[test]
fn uncompressed_group_is_exactly_plain_size() {
    // One row group, compression off: the file body before the footer is
    // exactly the plain encodings of the columns.
    let records = vec![
        rec(vec![("a", RawValue::Int(7))]),
        rec(vec![("a", RawValue::Int(8))]),
    ];
    let out = convert_records(&records, &opts(8, false, Compression::Uncompressed)).unwrap();
    let fd = read_file(&out.bytes).unwrap();
    let chunk = &fd.groups[0].columns[0];
    assert_eq!(chunk.comp_len, chunk.uncomp_len);
    // Two plain integer cells: (1 tag + 8 payload) bytes each.
    assert_eq!(chunk.uncomp_len, 18);
}

#[test]
fn null_only_field_round_trips() {
    let records = vec![
        rec(vec![("a", RawValue::Int(1)), ("n", RawValue::Null)]),
        rec(vec![("a", RawValue::Int(2)), ("n", RawValue::Null)]),
    ];
    let out = convert_records(&records, &opts(8, false, Compression::Uncompressed)).unwrap();
    assert_eq!(out.schema.fields[1].ty, LogicalType::NullOnly);
    assert!(out.schema.fields[1].nullable);
    let fd = read_file(&out.bytes).unwrap();
    assert_eq!(fd.rows[0][1], None);
    assert_eq!(fd.rows[1][1], None);
    assert_eq!(fd.totals[1].null_count, 2);
}

#[test]
fn unicode_text_round_trips() {
    let records = vec![
        rec(vec![("s", RawValue::Text("héllo → ⽇本".to_string()))]),
        rec(vec![("s", RawValue::Text(String::new()))]),
    ];
    let out = convert_records(&records, &opts(8, true, Compression::HighRatioGeneric)).unwrap();
    let fd = read_file(&out.bytes).unwrap();
    assert_eq!(fd.rows[0][0], Some(Value::Text("héllo → ⽇本".to_string())));
    assert_eq!(fd.rows[1][0], Some(Value::Text(String::new())));
}

#[test]
fn block_size_one_gives_one_group_per_row() {
    let records = vec![
        rec(vec![("v", RawValue::Bool(true))]),
        rec(vec![("v", RawValue::Bool(false))]),
        rec(vec![("v", RawValue::Bool(true))]),
    ];
    let out = convert_records(&records, &opts(1, false, Compression::Uncompressed)).unwrap();
    assert_eq!(out.n_groups, 3);
    let fd = read_file(&out.bytes).unwrap();
    assert_eq!(fd.groups.len(), 3);
    for g in &fd.groups {
        assert_eq!(g.n_rows, 1);
    }
}

#[test]
fn sample_bound_larger_than_input_scans_all() {
    let records = vec![
        rec(vec![("a", RawValue::Int(1))]),
        rec(vec![("b", RawValue::Int(2))]),
    ];
    let mut o = opts(8, false, Compression::Uncompressed);
    o.sample_size = Some(100);
    let out = convert_records(&records, &o).unwrap();
    assert_eq!(out.schema.fields.len(), 2);
    assert!(out.schema.fields[0].nullable);
    assert!(out.schema.fields[1].nullable);
}

#[test]
fn mixed_column_keeps_each_scalar() {
    let records = vec![
        rec(vec![("x", RawValue::Int(5))]),
        rec(vec![("x", RawValue::Text("five".to_string()))]),
        rec(vec![("x", RawValue::Bool(true))]),
    ];
    let out = convert_records(&records, &opts(8, false, Compression::BalancedGeneric)).unwrap();
    assert_eq!(out.schema.fields[0].ty, LogicalType::Mixed);
    let fd = read_file(&out.bytes).unwrap();
    assert_eq!(fd.rows[0][0], Some(Value::Int(5)));
    assert_eq!(fd.rows[1][0], Some(Value::Text("five".to_string())));
    assert_eq!(fd.rows[2][0], Some(Value::Bool(true)));
}

#[test]
fn footer_records_carry_chunk_statistics() {
    // The worked three-record example, checked against the footer records
    // that the conversion itself returns.
    let records = vec![
        rec(vec![("a", RawValue::Int(1)), ("b", RawValue::Text("x".to_string()))]),
        rec(vec![("a", RawValue::Int(2))]),
        rec(vec![("a", RawValue::Int(3)), ("b", RawValue::Text("y".to_string()))]),
    ];
    let out = convert_records(&records, &opts(2, false, Compression::Uncompressed)).unwrap();
    assert_eq!(out.groups.len(), 2);
    assert_eq!(out.groups[0].n_rows, 2);
    assert_eq!(out.groups[1].n_rows, 1);
    assert_eq!(out.groups[0].columns[0].stats.int_bounds, Some((1, 2)));
    assert_eq!(out.groups[1].columns[0].stats.int_bounds, Some((3, 3)));
    assert_eq!(out.totals[0].int_bounds, Some((1, 3)));
    assert_eq!(out.totals[0].null_count, 0);
    assert_eq!(out.totals[1].null_count, 1);
    assert_eq!(out.totals[1].int_bounds, None);
}
