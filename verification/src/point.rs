//! A statically-shaped example point: three single-precision coordinates
//! named `x`, `y` and `z`, carried as bit patterns. It implements both sides
//! of the record contract, so it can drive a writer and be read back.

use crate::error::PCDError;
use crate::float_text::{parse_single, render_single, single_dec, single_of_dec};
use crate::le_bytes::{lemma_le_bytes_len, lemma_pow256_values};
use crate::metas::{FieldDef, Schema, ValueKind};
use crate::record::{
    elem_bytes, tokens_bytes, views_of, wrap_is_identity_for, PcdDeserialize, PcdSerialize,
};
use crate::stream::{splice, MemReader, MemWriter};
use crate::dec_text::{split_tokens, split_ws};
use vstd::prelude::*;

verus! {

/// One point with three single-precision coordinates, stored as IEEE-754 bit
/// patterns.
#[derive(Clone, Copy, Debug, PartialEq, Eq, Structural)]
pub struct PointXyz {
    pub x: u32,
    pub y: u32,
    pub z: u32,
}

/// The binary chunk of one `PointXyz`: the three coordinates, little-endian,
/// in order.
pub open spec fn point_chunk(p: PointXyz) -> Seq<u8> {
    elem_bytes(ValueKind::F32, p.x as int) + elem_bytes(ValueKind::F32, p.y as int) + elem_bytes(
        ValueKind::F32,
        p.z as int,
    )
}

/// The ASCII tokens of one `PointXyz`.
pub open spec fn point_tokens(p: PointXyz) -> Seq<Seq<u8>> {
    seq![single_dec(p.x), single_dec(p.y), single_dec(p.z)]
}

/// The ASCII line of one `PointXyz`.
pub open spec fn point_line(p: PointXyz) -> Seq<u8> {
    tokens_bytes(point_tokens(p), true) + seq![10u8]
}

impl PcdSerialize for PointXyz {
    open spec fn spec_is_dynamic() -> bool {
        false
    }

    open spec fn spec_write_spec() -> Seq<(Seq<char>, ValueKind, int)> {
        seq![("x")@, ("y")@, ("z")@].map_values(|n: Seq<char>| (n, ValueKind::F32, 1int))
    }

    open spec fn wf_for(&self, defs: Seq<FieldDef>) -> bool {
        true
    }

    open spec fn spec_chunk(&self, defs: Seq<FieldDef>) -> Seq<u8> {
        point_chunk(*self)
    }

    open spec fn spec_line(&self, defs: Seq<FieldDef>) -> Seq<u8> {
        point_line(*self)
    }

    fn is_dynamic() -> (r: bool) {
        false
    }

    fn write_spec() -> (r: Schema) {
        let mut fields: Vec<FieldDef> = Vec::new();
        fields.push(FieldDef { name: ("x").to_owned(), kind: ValueKind::F32, count: 1 });
        fields.push(FieldDef { name: ("y").to_owned(), kind: ValueKind::F32, count: 1 });
        fields.push(FieldDef { name: ("z").to_owned(), kind: ValueKind::F32, count: 1 });
        Schema::new(fields)
    }

    fn write_chunk(&self, writer: &mut MemWriter, spec: &Schema) -> (r: Result<(), PCDError>) {
        proof {
            lemma_pow256_values();
            wrap_is_identity_for(ValueKind::F32, self.x as int);
            wrap_is_identity_for(ValueKind::F32, self.y as int);
            wrap_is_identity_for(ValueKind::F32, self.z as int);
        }
        let mut chunk: Vec<u8> = Vec::new();
        crate::le_bytes::push_le(&mut chunk, self.x as u64, 4);
        crate::le_bytes::push_le(&mut chunk, self.y as u64, 4);
        crate::le_bytes::push_le(&mut chunk, self.z as u64, 4);
        proof {
            assert(chunk@ =~= point_chunk(*self));
        }
        if chunk.len() > usize::MAX - writer.bytes().len() {
            return Err(PCDError::new_io_error("sink cannot grow by one more chunk"));
        }
        let ghost b0: Seq<u8> = writer.buf@;
        let ghost p0: int = writer.pos as int;
        writer.write_bytes(chunk.as_slice());
        proof {
            assert(splice(b0, p0, chunk@) =~= b0 + chunk@);
        }
        Ok(())
    }

    fn write_line(&self, writer: &mut MemWriter, spec: &Schema) -> (r: Result<(), PCDError>) {
        let mut lineb: Vec<u8> = render_single(self.x);
        lineb.push(32);
        let mut yb: Vec<u8> = render_single(self.y);
        lineb.append(&mut yb);
        lineb.push(32);
        let mut zb: Vec<u8> = render_single(self.z);
        lineb.append(&mut zb);
        lineb.push(10);
        proof {
            reveal_with_fuel(tokens_bytes, 5);
            assert(point_tokens(*self).drop_first() =~= seq![single_dec(self.y), single_dec(
                self.z,
            )]);
            assert(point_tokens(*self).drop_first().drop_first() =~= seq![single_dec(self.z)]);
            assert(seq![single_dec(self.z)].drop_first() =~= Seq::<Seq<u8>>::empty());
            assert(tokens_bytes(Seq::<Seq<u8>>::empty(), false) =~= Seq::<u8>::empty());
            assert(lineb@ =~= point_line(*self));
        }
        if lineb.len() > usize::MAX - writer.bytes().len() {
            return Err(PCDError::new_io_error("sink cannot grow by one more line"));
        }
        let ghost b0: Seq<u8> = writer.buf@;
        let ghost p0: int = writer.pos as int;
        writer.write_bytes(lineb.as_slice());
        proof {
            assert(splice(b0, p0, lineb@) =~= b0 + lineb@);
        }
        Ok(())
    }
}

impl PcdDeserialize for PointXyz {
    open spec fn spec_is_dynamic() -> bool {
        false
    }

    open spec fn spec_read_spec() -> Seq<(Option<Seq<char>>, ValueKind, Option<usize>)> {
        seq![("x")@, ("y")@, ("z")@].map_values(
            |n: Seq<char>| (Some(n), ValueKind::F32, Some(1usize)),
        )
    }

    open spec fn spec_chunk_len(defs: Seq<FieldDef>) -> int {
        12
    }

    open spec fn chunk_encodes(v: Self, defs: Seq<FieldDef>, bytes: Seq<u8>) -> bool {
        bytes == point_chunk(v)
    }

    open spec fn line_token_count(defs: Seq<FieldDef>) -> int {
        3
    }

    open spec fn line_parses(defs: Seq<FieldDef>, ts: Seq<Seq<u8>>) -> bool {
        single_of_dec(ts[0]) is Some && single_of_dec(ts[1]) is Some && single_of_dec(
            ts[2],
        ) is Some
    }

    open spec fn line_decodes(v: Self, defs: Seq<FieldDef>, ts: Seq<Seq<u8>>) -> bool {
        v.x == single_of_dec(ts[0]).unwrap() && v.y == single_of_dec(ts[1]).unwrap() && v.z
            == single_of_dec(ts[2]).unwrap()
    }

    fn is_dynamic() -> (r: bool) {
        false
    }

    fn read_spec() -> (r: Vec<(Option<String>, ValueKind, Option<usize>)>) {
        let mut v: Vec<(Option<String>, ValueKind, Option<usize>)> = Vec::new();
        v.push((Some(("x").to_owned()), ValueKind::F32, Some(1)));
        v.push((Some(("y").to_owned()), ValueKind::F32, Some(1)));
        v.push((Some(("z").to_owned()), ValueKind::F32, Some(1)));
        v
    }

    fn read_chunk(reader: &mut MemReader, field_defs: &Schema) -> (r: Result<Self, PCDError>) {
        let raw: Vec<u64> = match crate::record::read_raw(reader, 3, 4) {
            Ok(u) => u,
            Err(e) => {
                return Err(e);
            },
        };
        proof {
            lemma_pow256_values();
        }
        let x: u32 = raw[0] as u32;
        let y: u32 = raw[1] as u32;
        let z: u32 = raw[2] as u32;
        let p = PointXyz { x, y, z };
        proof {
            wrap_is_identity_for(ValueKind::F32, x as int);
            wrap_is_identity_for(ValueKind::F32, y as int);
            wrap_is_identity_for(ValueKind::F32, z as int);
            lemma_le_bytes_len(x as int, 4);
            lemma_le_bytes_len(y as int, 4);
            lemma_le_bytes_len(z as int, 4);
            assert(raw@.drop_last() =~= seq![raw@[0], raw@[1]]);
            assert(raw@.drop_last().drop_last() =~= seq![raw@[0]]);
            assert(seq![raw@[0]].drop_last() =~= Seq::<u64>::empty());
            reveal_with_fuel(crate::record::raw_bytes, 5);
            assert(crate::record::raw_bytes(raw@, 4) =~= point_chunk(p));
        }
        Ok(p)
    }

    fn read_line(reader: &mut MemReader, field_defs: &Schema) -> (r: Result<Self, PCDError>) {
        let line_no: usize = reader.line_number();
        let lineb: Vec<u8> = reader.read_line_bytes();
        let toks: Vec<Vec<u8>> = split_tokens(lineb.as_slice());
        let ghost ts: Seq<Seq<u8>> = split_ws(lineb@);
        proof {
            assert(views_of(toks@) =~= ts);
        }
        if toks.len() != 3 {
            return Err(PCDError::new_text_token_mismatch_error(3, toks.len()));
        }
        proof {
            assert(ts[0] == toks@[0]@ && ts[1] == toks@[1]@ && ts[2] == toks@[2]@);
        }
        let x: u32 = match parse_single(toks[0].as_slice()) {
            Some(b) => b,
            None => {
                return Err(PCDError::new_parse_error(line_no, "invalid numeric literal"));
            },
        };
        let y: u32 = match parse_single(toks[1].as_slice()) {
            Some(b) => b,
            None => {
                return Err(PCDError::new_parse_error(line_no, "invalid numeric literal"));
            },
        };
        let z: u32 = match parse_single(toks[2].as_slice()) {
            Some(b) => b,
            None => {
                return Err(PCDError::new_parse_error(line_no, "invalid numeric literal"));
            },
        };
        Ok(PointXyz { x, y, z })
    }
}

/// Specification symmetry for the static point: the kinds and counts of its
/// write-specification match its read-specification position by position,
/// and no read row is marked variable-count.
pub proof fn lemma_point_xyz_spec_symmetry()
    ensures
        PointXyz::spec_read_spec().len() == PointXyz::spec_write_spec().len(),
        forall|i: int|
            0 <= i < PointXyz::spec_read_spec().len() ==> (#[trigger] PointXyz::spec_read_spec()[
                i
            ]).1 == PointXyz::spec_write_spec()[i].1,
        forall|i: int|
            0 <= i < PointXyz::spec_read_spec().len() ==> (#[trigger] PointXyz::spec_read_spec()[
                i
            ]).2 == Some(PointXyz::spec_write_spec()[i].2 as usize),
{
}

} // verus!
