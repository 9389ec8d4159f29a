use pcd_rs::error::PCDError;
use pcd_rs::metas::{DataKind, Schema, ValueKind, ViewPoint};
use pcd_rs::record::{DynRecord, PcdDeserialize};
use pcd_rs::stream::MemReader;
use pcd_rs::point::PointXyz;
use pcd_rs::record::PcdSerialize;
use pcd_rs::seq_writer::{SeqWriter, SeqWriterBuilder};
use pcd_rs::stream::MemWriter;

fn ascii_writer(width: u64, height: u64) -> SeqWriter<PointXyz> {
    let builder: SeqWriterBuilder<PointXyz> =
        SeqWriterBuilder::new(width, height, ViewPoint::default(), DataKind::ASCII).unwrap();
    builder.from_writer(MemWriter::new()).unwrap()
}

fn header_lines(bytes: &[u8]) -> Vec<String> {
    String::from_utf8_lossy(bytes).lines().map(|l| l.to_string()).collect()
}

#[test]
fn header_layout_for_xyz_writer() {
    let mut w = ascii_writer(300, 1);
    let p = PointXyz {
        x: 3.14159f32.to_bits(),
        y: 2.71828f32.to_bits(),
        z: (-5.0f32).to_bits(),
    };
    w.push(&p).unwrap();
    let bytes = w.writer.into_bytes();
    let lines = header_lines(&bytes);
    assert_eq!(lines[0], "# .PCD v.7 - Point Cloud Data file format");
    assert_eq!(lines[1], "VERSION .7");
    assert_eq!(lines[2], "FIELDS x y z");
    assert_eq!(lines[3], "SIZE 4 4 4");
    assert_eq!(lines[4], "TYPE F F F");
    assert_eq!(lines[5], "COUNT 1 1 1");
    assert_eq!(lines[6], "WIDTH 300");
    assert_eq!(lines[7], "HEIGHT 1");
    assert_eq!(lines[8], "VIEWPOINT 0 0 0 1 0 0 0");
    assert!(lines[9].starts_with("POINTS 1"));
    assert_eq!(lines[9].trim_end(), "POINTS 1");
    assert_eq!(lines[10], "DATA ascii");
    // The body line denotes exactly the pushed coordinates.
    let body: Vec<f32> = lines[11]
        .split_ascii_whitespace()
        .map(|t| t.parse().unwrap())
        .collect();
    assert_eq!(body.len(), 3);
    assert_eq!(body[0].to_bits(), p.x);
    assert_eq!(body[1].to_bits(), p.y);
    assert_eq!(body[2].to_bits(), p.z);
    assert_eq!(body[2], -5.0f32);
}

#[test]
fn points_field_tracks_push_count() {
    let mut w = ascii_writer(10, 1);
    for i in 0..7u32 {
        let p = PointXyz {
            x: (i as f32).to_bits(),
            y: 0.0f32.to_bits(),
            z: 0.0f32.to_bits(),
        };
        w.push(&p).unwrap();
        let text = String::from_utf8_lossy(w.writer.bytes()).to_string();
        let points_line = text.lines().find(|l| l.starts_with("POINTS")).unwrap();
        assert_eq!(points_line.trim_end(), format!("POINTS {}", i + 1));
    }
    assert_eq!(w.num_records, 7);
}

#[test]
fn points_field_reserved_blank_before_first_push() {
    let w = ascii_writer(10, 1);
    let text = String::from_utf8_lossy(w.writer.bytes()).to_string();
    let points_line = text.lines().find(|l| l.starts_with("POINTS")).unwrap();
    assert_eq!(points_line.trim_end(), "POINTS");
    // The reservation is wide enough for the largest count the platform
    // can address.
    let reserved = points_line.len() - "POINTS ".len();
    assert_eq!(reserved, usize::MAX.to_string().len());
}

#[test]
fn binary_writer_appends_chunks_in_order() {
    let builder: SeqWriterBuilder<PointXyz> =
        SeqWriterBuilder::new(2, 1, ViewPoint::default(), DataKind::Binary).unwrap();
    let mut w = builder.from_writer(MemWriter::new()).unwrap();
    let a = PointXyz { x: 1.0f32.to_bits(), y: 2.0f32.to_bits(), z: 3.0f32.to_bits() };
    let b = PointXyz { x: 4.0f32.to_bits(), y: 5.0f32.to_bits(), z: 6.0f32.to_bits() };
    w.push(&a).unwrap();
    w.push(&b).unwrap();
    let bytes = w.writer.into_bytes();
    let text = String::from_utf8_lossy(&bytes).to_string();
    assert!(text.contains("DATA binary\n"));
    let body_start = text.find("DATA binary\n").unwrap() + "DATA binary\n".len();
    let body = &bytes[body_start..];
    assert_eq!(body.len(), 24);
    let mut expect = Vec::new();
    for v in [1.0f32, 2.0, 3.0, 4.0, 5.0, 6.0] {
        expect.extend_from_slice(&v.to_bits().to_le_bytes());
    }
    assert_eq!(body, expect.as_slice());
}

#[test]
fn write_spec_matches_read_spec_for_point() {
    let ws = <PointXyz as PcdSerialize>::write_spec();
    let rs = <PointXyz as PcdDeserialize>::read_spec();
    assert_eq!(ws.fields.len(), rs.len());
    for (d, r) in ws.fields.iter().zip(rs.iter()) {
        assert_eq!(Some(d.name.clone()), r.0);
        assert_eq!(d.kind, r.1);
        assert_eq!(Some(d.count), r.2);
    }
    assert_eq!(ws.fields[0].name, "x");
    assert_eq!(ws.fields[1].name, "y");
    assert_eq!(ws.fields[2].name, "z");
    assert!(ws.fields.iter().all(|d| d.kind == ValueKind::F32 && d.count == 1));
}

#[test]
fn point_round_trips_through_both_formats() {
    let schema = <PointXyz as PcdSerialize>::write_spec();
    let p = PointXyz { x: 1.5f32.to_bits(), y: (-2.25f32).to_bits(), z: 0.0f32.to_bits() };
    let mut w = MemWriter::new();
    p.write_chunk(&mut w, &schema).unwrap();
    let mut r = MemReader::new(w.into_bytes());
    let back = PointXyz::read_chunk(&mut r, &schema).unwrap();
    assert_eq!(back, p);
    let mut w2 = MemWriter::new();
    p.write_line(&mut w2, &schema).unwrap();
    let mut r2 = MemReader::new(w2.into_bytes());
    let back2 = PointXyz::read_line(&mut r2, &schema).unwrap();
    assert_eq!(back2, p);
}

#[test]
fn dynamic_contract_cannot_build_a_writer() {
    let r: Result<SeqWriterBuilder<DynRecord>, PCDError> =
        SeqWriterBuilder::new(1, 1, ViewPoint::default(), DataKind::ASCII);
    assert!(matches!(r, Err(PCDError::InvalidArgumentError { .. })));
}
