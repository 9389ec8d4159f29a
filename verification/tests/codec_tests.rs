use pcd_rs::dec_text::{dec_u64, parse_int_in, split_tokens};
use pcd_rs::error::PCDError;
use pcd_rs::float_text::{parse_single, render_single};
use pcd_rs::metas::{DataKind, FieldDef, Schema, ValueKind, ViewPoint};
use pcd_rs::record::{DynRecord, Field, PcdDeserialize, PcdSerialize};
use pcd_rs::stream::{MemReader, MemWriter};

fn def(name: &str, kind: ValueKind, count: usize) -> FieldDef {
    FieldDef {
        name: name.to_owned(),
        kind,
        count,
    }
}

fn all_kinds_schema() -> Schema {
    Schema::new(vec![
        def("a", ValueKind::I8, 2),
        def("b", ValueKind::I16, 1),
        def("c", ValueKind::I32, 3),
        def("d", ValueKind::U8, 1),
        def("e", ValueKind::U16, 2),
        def("f", ValueKind::U32, 1),
        def("g", ValueKind::F32, 2),
        def("h", ValueKind::F64, 1),
    ])
}

fn all_kinds_record() -> DynRecord {
    DynRecord(vec![
        Field::I8(vec![-128, 127]),
        Field::I16(vec![-1234]),
        Field::I32(vec![-2147483648, 0, 2147483647]),
        Field::U8(vec![255]),
        Field::U16(vec![0, 65535]),
        Field::U32(vec![4294967295]),
        Field::F32(vec![3.5f32.to_bits(), (-0.25f32).to_bits()]),
        Field::F64(vec![6.125f64.to_bits()]),
    ])
}

#[test]
fn chunk_round_trip_all_kinds() {
    let schema = all_kinds_schema();
    let rec = all_kinds_record();
    let mut w = MemWriter::new();
    rec.write_chunk(&mut w, &schema).unwrap();
    let bytes = w.into_bytes();
    assert_eq!(bytes.len(), 2 + 2 + 12 + 1 + 4 + 4 + 8 + 8);
    let mut r = MemReader::new(bytes);
    let back = DynRecord::read_chunk(&mut r, &schema).unwrap();
    assert_eq!(back, rec);
}

#[test]
fn chunk_bytes_are_little_endian() {
    let schema = Schema::new(vec![def("v", ValueKind::U32, 1)]);
    let rec = DynRecord(vec![Field::U32(vec![0x01020304])]);
    let mut w = MemWriter::new();
    rec.write_chunk(&mut w, &schema).unwrap();
    assert_eq!(w.bytes().as_slice(), &[0x04, 0x03, 0x02, 0x01]);
}

#[test]
fn chunk_truncated_input_is_io_error() {
    let schema = Schema::new(vec![def("v", ValueKind::U32, 2)]);
    let mut r = MemReader::new(vec![1, 2, 3, 4, 5]);
    let e = DynRecord::read_chunk(&mut r, &schema).unwrap_err();
    assert!(matches!(e, PCDError::IoError { .. }));
}

#[test]
fn line_round_trip_integers() {
    let schema = Schema::new(vec![
        def("a", ValueKind::I8, 1),
        def("b", ValueKind::I16, 2),
        def("c", ValueKind::I32, 1),
        def("d", ValueKind::U8, 1),
        def("e", ValueKind::U16, 1),
        def("f", ValueKind::U32, 1),
    ]);
    let rec = DynRecord(vec![
        Field::I8(vec![-7]),
        Field::I16(vec![-32768, 32767]),
        Field::I32(vec![123456789]),
        Field::U8(vec![0]),
        Field::U16(vec![4096]),
        Field::U32(vec![4294967295]),
    ]);
    let mut w = MemWriter::new();
    rec.write_line(&mut w, &schema).unwrap();
    let line = w.into_bytes();
    assert_eq!(line.as_slice(), b"-7 -32768 32767 123456789 0 4096 4294967295\n");
    let mut r = MemReader::new(line);
    let back = DynRecord::read_line(&mut r, &schema).unwrap();
    assert_eq!(back, rec);
}

#[test]
fn line_round_trip_float_exact() {
    let schema = Schema::new(vec![def("x", ValueKind::F32, 1), def("y", ValueKind::F64, 1)]);
    let rec = DynRecord(vec![
        Field::F32(vec![3.5f32.to_bits()]),
        Field::F64(vec![(-0.5f64).to_bits()]),
    ]);
    let mut w = MemWriter::new();
    rec.write_line(&mut w, &schema).unwrap();
    let line = w.into_bytes();
    let mut r = MemReader::new(line);
    let back = DynRecord::read_line(&mut r, &schema).unwrap();
    assert_eq!(back, rec);
}

#[test]
fn line_token_count_mismatch() {
    let schema = Schema::new(vec![def("a", ValueKind::I32, 2), def("b", ValueKind::U8, 1)]);
    let mut r = MemReader::new(b"1 2\n".to_vec());
    let e = DynRecord::read_line(&mut r, &schema).unwrap_err();
    match e {
        PCDError::TextTokenMismatchError { expect, found } => {
            assert_eq!(expect, 3);
            assert_eq!(found, 2);
        }
        other => panic!("expected a token count mismatch, got {:?}", other),
    }
}

#[test]
fn line_parse_error_reports_line() {
    let schema = Schema::new(vec![def("a", ValueKind::I32, 2)]);
    let mut r = MemReader::new(b"12 notanumber\n".to_vec());
    let e = DynRecord::read_line(&mut r, &schema).unwrap_err();
    match e {
        PCDError::ParseError { line, .. } => assert_eq!(line, 1),
        other => panic!("expected a parse error, got {:?}", other),
    }
}

#[test]
fn line_out_of_range_integer_is_parse_error() {
    let schema = Schema::new(vec![def("a", ValueKind::U8, 1)]);
    let mut r = MemReader::new(b"256\n".to_vec());
    let e = DynRecord::read_line(&mut r, &schema).unwrap_err();
    assert!(matches!(e, PCDError::ParseError { .. }));
}

#[test]
fn schema_mismatch_writes_nothing() {
    let schema = Schema::new(vec![def("a", ValueKind::I32, 1)]);
    let rec = DynRecord(vec![Field::U32(vec![5])]);
    let mut w = MemWriter::new();
    let e = rec.write_chunk(&mut w, &schema).unwrap_err();
    assert!(matches!(e, PCDError::SchemaMismatchError { .. }));
    assert_eq!(w.bytes().len(), 0);
    let e2 = rec.write_line(&mut w, &schema).unwrap_err();
    assert!(matches!(e2, PCDError::SchemaMismatchError { .. }));
    assert_eq!(w.bytes().len(), 0);
}

#[test]
fn schema_mismatch_on_count() {
    let schema = Schema::new(vec![def("a", ValueKind::I32, 2)]);
    let rec = DynRecord(vec![Field::I32(vec![5])]);
    assert!(!rec.is_schema_consistent(&schema));
    let mut w = MemWriter::new();
    assert!(rec.write_line(&mut w, &schema).is_err());
    assert_eq!(w.bytes().len(), 0);
}

#[test]
fn is_schema_consistent_accepts_matching_shape() {
    let schema = all_kinds_schema();
    let rec = all_kinds_record();
    assert!(rec.is_schema_consistent(&schema));
}

#[test]
fn field_kind_and_count() {
    let f = Field::I16(vec![1, 2, 3]);
    assert_eq!(f.kind(), ValueKind::I16);
    assert_eq!(f.count(), 3);
    let g = Field::F64(vec![1.0f64.to_bits()]);
    assert_eq!(g.kind(), ValueKind::F64);
    assert_eq!(g.count(), 1);
}

#[test]
fn xyz_integer_is_exact() {
    let rec = DynRecord(vec![
        Field::I32(vec![-5]),
        Field::I32(vec![0]),
        Field::I32(vec![7]),
    ]);
    assert_eq!(rec.xyz(), Some([-5i64, 0, 7]));
}

#[test]
fn xyz_exact_float() {
    let rec = DynRecord(vec![
        Field::F32(vec![3.0f32.to_bits()]),
        Field::F32(vec![(-2.0f32).to_bits()]),
        Field::F32(vec![0.0f32.to_bits()]),
    ]);
    assert_eq!(rec.xyz(), Some([3i64, -2, 0]));
}

#[test]
fn xyz_fractional_float_yields_none() {
    let rec = DynRecord(vec![
        Field::F32(vec![3.5f32.to_bits()]),
        Field::F32(vec![1.0f32.to_bits()]),
        Field::F32(vec![2.0f32.to_bits()]),
    ]);
    assert_eq!(rec.xyz(), None);
}

#[test]
fn xyz_non_finite_yields_none() {
    let rec = DynRecord(vec![
        Field::F64(vec![f64::NAN.to_bits()]),
        Field::F64(vec![1.0f64.to_bits()]),
        Field::F64(vec![2.0f64.to_bits()]),
    ]);
    assert_eq!(rec.xyz(), None);
}

#[test]
fn xyz_double_large_exact() {
    let rec = DynRecord(vec![
        Field::F64(vec![9007199254740992.0f64.to_bits()]),
        Field::F64(vec![(-1048576.0f64).to_bits()]),
        Field::F64(vec![1.0f64.to_bits()]),
    ]);
    assert_eq!(rec.xyz(), Some([9007199254740992i64, -1048576, 1]));
}

#[test]
fn primitive_read_chunk() {
    let mut r = MemReader::new(vec![0x2a]);
    let schema = Schema::new(vec![]);
    let v = u8::read_chunk(&mut r, &schema).unwrap();
    assert_eq!(v, 42);
    let mut r2 = MemReader::new(vec![0xfe, 0xff]);
    let v2 = i16::read_chunk(&mut r2, &schema).unwrap();
    assert_eq!(v2, -2);
    let mut r3 = MemReader::new(vec![0x01, 0x00, 0x00, 0x80]);
    let v3 = u32::read_chunk(&mut r3, &schema).unwrap();
    assert_eq!(v3, 0x80000001);
}

#[test]
fn primitive_read_line() {
    let schema = Schema::new(vec![]);
    let mut r = MemReader::new(b"-17\n".to_vec());
    let v = i32::read_line(&mut r, &schema).unwrap();
    assert_eq!(v, -17);
    let mut r2 = MemReader::new(b"  250 \n".to_vec());
    let v2 = u8::read_line(&mut r2, &schema).unwrap();
    assert_eq!(v2, 250);
    let mut r3 = MemReader::new(b"1 2\n".to_vec());
    let e = u8::read_line(&mut r3, &schema).unwrap_err();
    assert!(matches!(e, PCDError::TextTokenMismatchError { expect: 1, found: 2 }));
}

#[test]
fn primitive_read_spec_rows() {
    let rows = u8::read_spec();
    assert_eq!(rows.len(), 1);
    assert_eq!(rows[0].0, None);
    assert_eq!(rows[0].1, ValueKind::U8);
    assert_eq!(rows[0].2, Some(1));
    assert!(!u8::is_dynamic());
    assert!(<DynRecord as PcdDeserialize>::is_dynamic());
    assert!(DynRecord::read_spec().is_empty());
}

#[test]
fn error_constructors_build_their_variants() {
    assert!(matches!(
        PCDError::new_parse_error(3, "bad literal"),
        PCDError::ParseError { line: 3, .. }
    ));
    let sm = PCDError::new_schema_mismatch_error(
        &[(Some("x".to_owned()), ValueKind::F32, Some(1))],
        &[def("x", ValueKind::I32, 1)],
    );
    match sm {
        PCDError::SchemaMismatchError { expect, found } => {
            assert_eq!(expect.len(), 1);
            assert_eq!(found.len(), 1);
            assert_eq!(found[0].1, ValueKind::I32);
        }
        other => panic!("expected a schema mismatch, got {:?}", other),
    }
    assert!(matches!(
        PCDError::new_field_size_mismatch_error("x", 3, 2),
        PCDError::FieldSizeMismatchError { expect: 3, found: 2, .. }
    ));
    assert!(matches!(
        PCDError::new_text_token_mismatch_error(4, 5),
        PCDError::TextTokenMismatchError { expect: 4, found: 5 }
    ));
    assert!(matches!(
        PCDError::new_invalid_argument_error("nope"),
        PCDError::InvalidArgumentError { .. }
    ));
    assert!(matches!(
        PCDError::new_io_error("eof"),
        PCDError::IoError { .. }
    ));
}

#[test]
fn decimal_rendering_and_parsing() {
    assert_eq!(dec_u64(0).as_slice(), b"0");
    assert_eq!(dec_u64(12345).as_slice(), b"12345");
    assert_eq!(dec_u64(18446744073709551615).as_slice(), b"18446744073709551615");
    assert_eq!(parse_int_in(b"-17", -128, 127), Some(-17));
    assert_eq!(parse_int_in(b"+17", -128, 127), Some(17));
    assert_eq!(parse_int_in(b"128", -128, 127), None);
    assert_eq!(parse_int_in(b"0012", -128, 127), Some(12));
    assert_eq!(parse_int_in(b"", -128, 127), None);
    assert_eq!(parse_int_in(b"-", -128, 127), None);
    assert_eq!(parse_int_in(b"1x2", -128, 127), None);
}

#[test]
fn split_tokens_on_whitespace() {
    let toks = split_tokens(b"  a bb\tccc \n");
    let views: Vec<&[u8]> = toks.iter().map(|t| t.as_slice()).collect();
    assert_eq!(views, vec![b"a" as &[u8], b"bb", b"ccc"]);
    assert!(split_tokens(b"   \n").is_empty());
}

#[test]
fn float_text_wrappers_convert() {
    // The wrappers must hand back a rendering of the value, not their input.
    let bits = 3.5f32.to_bits();
    let txt = render_single(bits);
    let parsed: f32 = std::str::from_utf8(&txt).unwrap().parse().unwrap();
    assert_eq!(parsed.to_bits(), bits);
    assert_eq!(parse_single(b"3.5"), Some(bits));
    assert_eq!(parse_single(b"bogus"), None);
}

#[test]
fn viewpoint_default_is_identity_pose() {
    let vp = ViewPoint::default();
    assert_eq!(vp.tx, 0);
    assert_eq!(vp.qw, 1.0f64.to_bits());
    assert_eq!(vp.qz, 0);
    let _ = DataKind::ASCII;
}

#[test]
fn empty_record_line_round_trip() {
    let schema = Schema::new(vec![]);
    let rec = DynRecord(vec![]);
    let mut w = MemWriter::new();
    rec.write_line(&mut w, &schema).unwrap();
    let line = w.into_bytes();
    assert_eq!(line.as_slice(), b"\n");
    let mut r = MemReader::new(line);
    let back = DynRecord::read_line(&mut r, &schema).unwrap();
    assert_eq!(back, rec);
}

#[test]
fn reader_counts_lines_for_error_reports() {
    let schema = Schema::new(vec![def("a", ValueKind::U8, 1)]);
    let mut r = MemReader::new(b"1\nbad\n".to_vec());
    let first = DynRecord::read_line(&mut r, &schema).unwrap();
    assert_eq!(first, DynRecord(vec![Field::U8(vec![1])]));
    match DynRecord::read_line(&mut r, &schema).unwrap_err() {
        PCDError::ParseError { line, .. } => assert_eq!(line, 2),
        other => panic!("expected a parse error, got {:?}", other),
    }
}
