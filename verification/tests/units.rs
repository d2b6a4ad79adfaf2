use json_columnar::codec::{compress, decompress, Compression};
use json_columnar::encode::{compute_stats, dict_decode, dict_encode, encode_block, EncodingKind};
use json_columnar::fp::int_to_float_bits;
use json_columnar::group::ColumnBuffer;
use json_columnar::schema::{widen, infer_schema};
use json_columnar::schema::RawRecord;
use json_columnar::value::{LogicalType, RawValue, Value};
use json_columnar::ConvertError;

fn rec2(pairs: Vec<(&str, RawValue)>) -> RawRecord {
    let mut fields = Vec::new();
    for (k, v) in pairs {
        fields.push((k.to_string(), v));
    }
    RawRecord { fields }
}

#[test]
fn widen_table() {
    let int = LogicalType::Integer;
    let flt = LogicalType::Float;
    let txt = LogicalType::Text;
    let boolean = LogicalType::Boolean;
    let null_only = LogicalType::NullOnly;
    let mixed = LogicalType::Mixed;
    assert_eq!(widen(int, int), int);
    assert_eq!(widen(int, flt), flt);
    assert_eq!(widen(flt, int), flt);
    assert_eq!(widen(null_only, txt), txt);
    assert_eq!(widen(boolean, null_only), boolean);
    assert_eq!(widen(null_only, null_only), null_only);
    assert_eq!(widen(int, txt), mixed);
    assert_eq!(widen(mixed, int), mixed);
    assert_eq!(widen(boolean, flt), mixed);
}

#[test]
fn nullability_follows_presence() {
    // `a` carries a value in every sampled record; `b` is absent once;
    // `c` is present but null once.
    let records = vec![
        rec2(vec![
            ("a", RawValue::Int(1)),
            ("b", RawValue::Int(2)),
            ("c", RawValue::Null),
        ]),
        rec2(vec![("a", RawValue::Int(3)), ("c", RawValue::Int(4))]),
    ];
    let s = infer_schema(&records, None).unwrap();
    assert_eq!(s.fields[0].name, "a");
    assert!(!s.fields[0].nullable);
    assert_eq!(s.fields[1].name, "b");
    assert!(s.fields[1].nullable);
    assert_eq!(s.fields[2].name, "c");
    assert!(s.fields[2].nullable);
    assert_eq!(s.fields[2].ty, LogicalType::Integer);
}

#[test]
fn dictionary_round_trips_with_nulls() {
    let col = ColumnBuffer {
        ty: LogicalType::Text,
        cells: vec![
            Some(Value::Text("red".to_string())),
            None,
            Some(Value::Text("blue".to_string())),
            Some(Value::Text("red".to_string())),
            None,
            Some(Value::Text("red".to_string())),
        ],
    };
    let (dict, codes) = dict_encode(&col);
    assert_eq!(
        dict,
        vec![Value::Text("red".to_string()), Value::Text("blue".to_string())]
    );
    assert_eq!(
        codes,
        vec![Some(0), None, Some(1), Some(0), None, Some(0)]
    );
    let decoded = dict_decode(&dict, &codes).unwrap();
    assert_eq!(decoded, col.cells);
}

#[test]
fn dictionary_rejects_out_of_range_code() {
    let dict = vec![Value::Int(5)];
    let codes = vec![Some(0u64), Some(3u64)];
    assert_eq!(dict_decode(&dict, &codes).err().unwrap(), ConvertError::CorruptFile);
}

#[test]
fn compression_round_trips() {
    let mut data: Vec<u8> = Vec::new();
    for i in 0..1000u64 {
        data.push((i % 7) as u8);
    }
    for _ in 0..500 {
        data.push(42);
    }
    for c in [
        Compression::Uncompressed,
        Compression::FastGeneric,
        Compression::BalancedGeneric,
        Compression::HighRatioGeneric,
    ] {
        let packed = compress(&data, c);
        let unpacked = decompress(&packed, c).unwrap();
        assert_eq!(unpacked, data);
    }
    let repetitive = compress(&data, Compression::HighRatioGeneric);
    assert!(repetitive.len() < data.len());
}

#[test]
fn uncompressed_setting_is_identity() {
    let data = vec![9u8, 8, 7, 6, 5];
    let packed = compress(&data, Compression::Uncompressed);
    assert_eq!(packed, data);
    assert_eq!(packed.len(), data.len());
}

#[test]
fn empty_payload_round_trips() {
    let data: Vec<u8> = Vec::new();
    for c in [
        Compression::Uncompressed,
        Compression::FastGeneric,
        Compression::BalancedGeneric,
        Compression::HighRatioGeneric,
    ] {
        let packed = compress(&data, c);
        let unpacked = decompress(&packed, c).unwrap();
        assert_eq!(unpacked, data);
    }
}

#[test]
fn truncated_token_stream_is_rejected() {
    // A literal header announcing four bytes with none following.
    let bad = vec![3u8];
    assert_eq!(
        decompress(&bad, Compression::FastGeneric).err().unwrap(),
        ConvertError::CorruptFile
    );
}

#[test]
fn float_bits_of_small_integers() {
    assert_eq!(int_to_float_bits(0), (0.0f64).to_bits());
    assert_eq!(int_to_float_bits(1), (1.0f64).to_bits());
    assert_eq!(int_to_float_bits(-1), (-1.0f64).to_bits());
    assert_eq!(int_to_float_bits(2), (2.0f64).to_bits());
    assert_eq!(int_to_float_bits(12345), (12345.0f64).to_bits());
    assert_eq!(int_to_float_bits(-987654321), (-987654321.0f64).to_bits());
}

#[test]
fn float_bits_at_the_exact_bound() {
    let bound: i64 = 9007199254740992;
    assert_eq!(int_to_float_bits(bound), (bound as f64).to_bits());
    assert_eq!(int_to_float_bits(-bound), (-bound as f64).to_bits());
    assert_eq!(int_to_float_bits(bound - 1), ((bound - 1) as f64).to_bits());
}

#[test]
fn float_bits_match_native_conversion_broadly() {
    let mut i: i64 = 1;
    while i < 9007199254740992 {
        assert_eq!(int_to_float_bits(i), (i as f64).to_bits());
        assert_eq!(int_to_float_bits(-i), ((-i) as f64).to_bits());
        i = i * 3 + 1;
    }
}

#[test]
fn stats_cover_nulls_and_bounds() {
    let col = ColumnBuffer {
        ty: LogicalType::Integer,
        cells: vec![
            Some(Value::Int(-5)),
            None,
            Some(Value::Int(12)),
            Some(Value::Int(3)),
            None,
        ],
    };
    let stats = compute_stats(&col);
    assert_eq!(stats.null_count, 2);
    assert_eq!(stats.int_bounds, Some((-5, 12)));
}

#[test]
fn encode_block_picks_dictionary_only_when_it_pays() {
    let repetitive = ColumnBuffer {
        ty: LogicalType::Integer,
        cells: vec![
            Some(Value::Int(1)),
            Some(Value::Int(1)),
            Some(Value::Int(1)),
            Some(Value::Int(1)),
            Some(Value::Int(1)),
        ],
    };
    let b = encode_block(&repetitive, true, Compression::Uncompressed).unwrap();
    assert_eq!(b.kind, EncodingKind::Dictionary);
    let b2 = encode_block(&repetitive, false, Compression::Uncompressed).unwrap();
    assert_eq!(b2.kind, EncodingKind::Plain);
    let distinct = ColumnBuffer {
        ty: LogicalType::Integer,
        cells: vec![Some(Value::Int(1)), Some(Value::Int(2)), Some(Value::Int(3))],
    };
    let b3 = encode_block(&distinct, true, Compression::Uncompressed).unwrap();
    assert_eq!(b3.kind, EncodingKind::Plain);
}

#[test]
fn encode_block_flags_ill_typed_cells() {
    let bad = ColumnBuffer {
        ty: LogicalType::Integer,
        cells: vec![Some(Value::Bool(true))],
    };
    assert_eq!(
        encode_block(&bad, false, Compression::Uncompressed).err().unwrap(),
        ConvertError::Encoding
    );
}

#[test]
fn field_order_is_first_appearance() {
    let records = vec![
        rec2(vec![("z", RawValue::Int(1)), ("m", RawValue::Int(2))]),
        rec2(vec![("a", RawValue::Int(3)), ("z", RawValue::Int(4))]),
    ];
    let s = infer_schema(&records, None).unwrap();
    assert_eq!(s.fields.len(), 3);
    assert_eq!(s.fields[0].name, "z");
    assert_eq!(s.fields[1].name, "m");
    assert_eq!(s.fields[2].name, "a");
}

#[test]
fn mixed_type_widening() {
    let records = vec![
        rec2(vec![("x", RawValue::Int(1))]),
        rec2(vec![("x", RawValue::Text("t".to_string()))]),
    ];
    let s = infer_schema(&records, None).unwrap();
    assert_eq!(s.fields[0].ty, LogicalType::Mixed);
}
