//! The record layer: the untyped `Field`/`DynRecord` representation of one
//! point, the serialize/deserialize capability traits every point type
//! offers, and the binary-chunk and ASCII-line codecs for dynamic records and
//! primitive scalars.

use crate::dec_text::{dec_i64, dec_int, is_int_token, parse_int_in, parse_int_tok, split_tokens, split_ws};
use crate::error::PCDError;
use crate::float_text::{
    double_dec, double_of_dec, parse_double, parse_single, render_double, render_single,
    single_dec, single_of_dec,
};
use crate::le_bytes::{
    le_bytes, lemma_from_le_bound, lemma_le_bytes_from_le, lemma_le_bytes_len,
    lemma_pow256_values, pow256, push_le, u64_from_le, unwrap, wrap,
};
use crate::metas::{total_count_of, FieldDef, Schema, ValueKind};
use crate::stream::{line_end, splice, MemReader, MemWriter};
use vstd::prelude::*;

verus! {

/// An untyped data field: one schema entry's worth of scalar elements, tagged
/// with their kind. Floating-point elements are carried as IEEE-754 bit
/// patterns.
#[derive(Clone, Debug, PartialEq)]
pub enum Field {
    I8(Vec<i8>),
    I16(Vec<i16>),
    I32(Vec<i32>),
    U8(Vec<u8>),
    U16(Vec<u16>),
    U32(Vec<u32>),
    F32(Vec<u32>),
    F64(Vec<u64>),
}

impl Field {
    /// The kind tag of this field.
    pub open spec fn spec_kind(self) -> ValueKind {
        match self {
            Field::I8(_) => ValueKind::I8,
            Field::I16(_) => ValueKind::I16,
            Field::I32(_) => ValueKind::I32,
            Field::U8(_) => ValueKind::U8,
            Field::U16(_) => ValueKind::U16,
            Field::U32(_) => ValueKind::U32,
            Field::F32(_) => ValueKind::F32,
            Field::F64(_) => ValueKind::F64,
        }
    }

    /// The element values of this field as unbounded integers: signed values
    /// as themselves, floating-point elements as their bit patterns.
    pub open spec fn vals(self) -> Seq<int> {
        match self {
            Field::I8(v) => v@.map_values(|x: i8| x as int),
            Field::I16(v) => v@.map_values(|x: i16| x as int),
            Field::I32(v) => v@.map_values(|x: i32| x as int),
            Field::U8(v) => v@.map_values(|x: u8| x as int),
            Field::U16(v) => v@.map_values(|x: u16| x as int),
            Field::U32(v) => v@.map_values(|x: u32| x as int),
            Field::F32(v) => v@.map_values(|x: u32| x as int),
            Field::F64(v) => v@.map_values(|x: u64| x as int),
        }
    }

    pub fn kind(&self) -> (r: ValueKind)
        ensures
            r == self.spec_kind(),
    {
        match self {
            Field::I8(_) => ValueKind::I8,
            Field::I16(_) => ValueKind::I16,
            Field::I32(_) => ValueKind::I32,
            Field::U8(_) => ValueKind::U8,
            Field::U16(_) => ValueKind::U16,
            Field::U32(_) => ValueKind::U32,
            Field::F32(_) => ValueKind::F32,
            Field::F64(_) => ValueKind::F64,
        }
    }

    pub fn count(&self) -> (r: usize)
        ensures
            r == self.vals().len(),
    {
        match self {
            Field::I8(v) => v.len(),
            Field::I16(v) => v.len(),
            Field::I32(v) => v.len(),
            Field::U8(v) => v.len(),
            Field::U16(v) => v.len(),
            Field::U32(v) => v.len(),
            Field::F32(v) => v.len(),
            Field::F64(v) => v.len(),
        }
    }
}

/// Width in bytes of one element of kind `k`.
pub open spec fn kind_width(k: ValueKind) -> int {
    k.spec_size() as int
}

/// `256^width(k)`: the modulus of kind `k`'s two's-complement representation.
pub open spec fn kind_mod(k: ValueKind) -> int {
    pow256(k.spec_size())
}

/// Whether the integer `v` is a value of kind `k`: in the signed range for
/// the signed kinds, in the unsigned range for the unsigned kinds, and a
/// valid bit-pattern index for the floating-point kinds.
pub open spec fn in_kind_range(k: ValueKind, v: int) -> bool {
    match k {
        ValueKind::I8 => -0x80 <= v < 0x80,
        ValueKind::I16 => -0x8000 <= v < 0x8000,
        ValueKind::I32 => -0x8000_0000 <= v < 0x8000_0000,
        ValueKind::U8 => 0 <= v < 0x100,
        ValueKind::U16 => 0 <= v < 0x10000,
        ValueKind::U32 => 0 <= v < 0x1_0000_0000,
        ValueKind::F32 => 0 <= v < 0x1_0000_0000,
        ValueKind::F64 => 0 <= v < 0x1_0000_0000_0000_0000,
    }
}

/// The little-endian bytes of one element of kind `k` with value `v`.
pub open spec fn elem_bytes(k: ValueKind, v: int) -> Seq<u8> {
    le_bytes(wrap(v, kind_mod(k)), k.spec_size())
}

/// The little-endian bytes of the elements `vs` of kind `k`, in order.
pub open spec fn vals_bytes(k: ValueKind, vs: Seq<int>) -> Seq<u8>
    decreases vs.len(),
{
    if vs.len() == 0 {
        Seq::empty()
    } else {
        vals_bytes(k, vs.drop_last()) + elem_bytes(k, vs.last())
    }
}

/// The binary chunk of one field.
pub open spec fn field_chunk(f: Field) -> Seq<u8> {
    vals_bytes(f.spec_kind(), f.vals())
}

/// The binary chunk of one record: its fields' chunks in order, no padding.
pub open spec fn record_chunk(fs: Seq<Field>) -> Seq<u8>
    decreases fs.len(),
{
    if fs.len() == 0 {
        Seq::empty()
    } else {
        record_chunk(fs.drop_last()) + field_chunk(fs.last())
    }
}

/// The ASCII token of one element of kind `k` with value `v`.
pub open spec fn token_of(k: ValueKind, v: int) -> Seq<u8> {
    match k {
        ValueKind::F32 => single_dec(v as u32),
        ValueKind::F64 => double_dec(v as u64),
        _ => dec_int(v),
    }
}

/// The ASCII tokens of the elements `vs` of kind `k`, in order.
pub open spec fn tokens_of_vals(k: ValueKind, vs: Seq<int>) -> Seq<Seq<u8>> {
    Seq::new(vs.len(), |i: int| token_of(k, vs[i]))
}

/// The ASCII tokens of one field.
pub open spec fn field_tokens(f: Field) -> Seq<Seq<u8>> {
    tokens_of_vals(f.spec_kind(), f.vals())
}

/// The ASCII tokens of one record: its fields' tokens in order.
pub open spec fn record_tokens(fs: Seq<Field>) -> Seq<Seq<u8>>
    decreases fs.len(),
{
    if fs.len() == 0 {
        Seq::empty()
    } else {
        record_tokens(fs.drop_last()) + field_tokens(fs.last())
    }
}

/// The tokens `ts` joined by single spaces; `first` says whether the first
/// token of `ts` opens the line (no separator before it).
pub open spec fn tokens_bytes(ts: Seq<Seq<u8>>, first: bool) -> Seq<u8>
    decreases ts.len(),
{
    if ts.len() == 0 {
        Seq::empty()
    } else {
        (if first {
            Seq::empty()
        } else {
            seq![32u8]
        }) + ts[0] + tokens_bytes(ts.drop_first(), false)
    }
}

/// The ASCII line of one record: its tokens joined by single spaces, with a
/// trailing line feed.
pub open spec fn line_of(fs: Seq<Field>) -> Seq<u8> {
    tokens_bytes(record_tokens(fs), true) + seq![10u8]
}

/// Whether one field fits one descriptor: same kind, same element count.
pub open spec fn field_matches(f: Field, d: FieldDef) -> bool {
    f.spec_kind() == d.kind && f.vals().len() == d.count
}

/// Whether a field sequence is consistent with a schema: same length, and a
/// kind/count match at every position.
pub open spec fn consistent(fs: Seq<Field>, defs: Seq<FieldDef>) -> bool {
    fs.len() == defs.len() && forall|i: int|
        0 <= i < fs.len() ==> field_matches(#[trigger] fs[i], defs[i])
}

/// The kind/count model of a record: what survives encoding.
pub open spec fn rec_model(fs: Seq<Field>) -> Seq<(ValueKind, Seq<int>)> {
    Seq::new(fs.len(), |i: int| (fs[i].spec_kind(), fs[i].vals()))
}

/// Represents an untyped point: one `Field` per schema entry, in schema
/// order.
#[derive(Clone, Debug, PartialEq)]
pub struct DynRecord(pub Vec<Field>);

impl DynRecord {
    /// Whether this record's shape agrees with `schema` at every position.
    pub fn is_schema_consistent(&self, schema: &Schema) -> (r: bool)
        ensures
            r == consistent(self.0@, schema.fields@),
    {
        if self.0.len() != schema.fields.len() {
            return false;
        }
        let mut i: usize = 0;
        while i < self.0.len()
            invariant
                i <= self.0@.len(),
                self.0@.len() == schema.fields@.len(),
                forall|j: int| 0 <= j < i ==> field_matches(#[trigger] self.0@[j], schema.fields@[j]),
            decreases self.0@.len() - i,
        {
            let f = &self.0[i];
            let def = &schema.fields[i];
            if f.count() != def.count {
                return false;
            }
            let fk: ValueKind = f.kind();
            if fk != def.kind {
                return false;
            }
            i = i + 1;
        }
        true
    }
}

/// Whether a schema entry carries the given name text, kind and count.
pub open spec fn def_models(d: FieldDef, m: (Seq<char>, ValueKind, int)) -> bool {
    d.name@ == m.0 && d.kind == m.1 && d.count as int == m.2
}

/// Whether a read-specification entry carries the given name text, kind and
/// count marker.
pub open spec fn read_entry_models(
    e: (Option<String>, ValueKind, Option<usize>),
    m: (Option<Seq<char>>, ValueKind, Option<usize>),
) -> bool {
    &&& match (e.0, m.0) {
        (Some(x), Some(y)) => x@ == y,
        (None, None) => true,
        _ => false,
    }
    &&& e.1 == m.1
    &&& e.2 == m.2
}

/// What a point type offers so a writer can emit it: a static
/// write-specification (absent for the dynamic record), and an encoder into
/// each of the two body formats.
///
/// An encoder appends to the sink's end and writes nothing at all when the
/// value does not fit the schema.
pub trait PcdSerialize: Sized {
    /// Whether this type's shape is known only at run time.
    spec fn spec_is_dynamic() -> bool;

    /// The name/kind/count rows of the static write-specification.
    spec fn spec_write_spec() -> Seq<(Seq<char>, ValueKind, int)>;

    /// Whether this value fits the schema, so that encoding succeeds.
    spec fn wf_for(&self, defs: Seq<FieldDef>) -> bool;

    /// The binary chunk this value encodes to under the schema.
    spec fn spec_chunk(&self, defs: Seq<FieldDef>) -> Seq<u8>;

    /// The ASCII line this value encodes to under the schema.
    spec fn spec_line(&self, defs: Seq<FieldDef>) -> Seq<u8>;

    fn is_dynamic() -> (r: bool)
        ensures
            r == Self::spec_is_dynamic(),
    ;

    /// The static field layout of this point type.
    fn write_spec() -> (r: Schema)
        requires
            !Self::spec_is_dynamic(),
        ensures
            r.fields@.len() == Self::spec_write_spec().len(),
            forall|i: int|
                0 <= i < r.fields@.len() ==> def_models(
                    #[trigger] r.fields@[i],
                    Self::spec_write_spec()[i],
                ),
    ;

    /// Appends this value's binary chunk to the sink. Fails with a schema
    /// mismatch, writing nothing, when the value does not fit the schema, and
    /// with an I/O error kind when the sink cannot grow by one more chunk.
    fn write_chunk(&self, writer: &mut MemWriter, spec: &Schema) -> (r: Result<(), PCDError>)
        requires
            old(writer).wf(),
            old(writer).pos == old(writer).buf@.len(),
        ensures
            final(writer).wf(),
            r is Ok <==> self.wf_for(spec.fields@) && old(writer).buf@.len() + self.spec_chunk(
                spec.fields@,
            ).len() <= usize::MAX,
            r is Ok ==> final(writer).buf@ == old(writer).buf@ + self.spec_chunk(spec.fields@)
                && final(writer).pos == final(writer).buf@.len(),
            r is Err ==> final(writer).buf@ == old(writer).buf@ && final(writer).pos == old(
                writer,
            ).pos,
            !self.wf_for(spec.fields@) ==> (r matches Err(e) && e matches
                PCDError::SchemaMismatchError { .. }),
            r is Err && self.wf_for(spec.fields@) ==> (r matches Err(e) && e matches
                PCDError::IoError { .. }),
    ;

    /// Appends this value's ASCII line to the sink. Fails with a schema
    /// mismatch, writing nothing, when the value does not fit the schema, and
    /// with an I/O error kind when the sink cannot grow by one more line.
    fn write_line(&self, writer: &mut MemWriter, spec: &Schema) -> (r: Result<(), PCDError>)
        requires
            old(writer).wf(),
            old(writer).pos == old(writer).buf@.len(),
        ensures
            final(writer).wf(),
            r is Ok <==> self.wf_for(spec.fields@) && old(writer).buf@.len() + self.spec_line(
                spec.fields@,
            ).len() <= usize::MAX,
            r is Ok ==> final(writer).buf@ == old(writer).buf@ + self.spec_line(spec.fields@)
                && final(writer).pos == final(writer).buf@.len(),
            r is Err ==> final(writer).buf@ == old(writer).buf@ && final(writer).pos == old(
                writer,
            ).pos,
            !self.wf_for(spec.fields@) ==> (r matches Err(e) && e matches
                PCDError::SchemaMismatchError { .. }),
            r is Err && self.wf_for(spec.fields@) ==> (r matches Err(e) && e matches
                PCDError::IoError { .. }),
    ;
}

/// Joining tokens distributes over concatenation: the tail is joined as a
/// continuation (separator before its first token) whenever the head is
/// non-empty.
pub proof fn lemma_tokens_bytes_concat(a: Seq<Seq<u8>>, b: Seq<Seq<u8>>, first: bool)
    ensures
        tokens_bytes(a + b, first) == tokens_bytes(a, first) + tokens_bytes(
            b,
            first && a.len() == 0,
        ),
    decreases a.len(),
{
    if a.len() == 0 {
        assert(a + b =~= b);
        assert(tokens_bytes(a, first) + tokens_bytes(b, first) =~= tokens_bytes(b, first));
    } else {
        assert((a + b).drop_first() =~= a.drop_first() + b);
        lemma_tokens_bytes_concat(a.drop_first(), b, false);
        assert((a + b).len() != 0);
        assert((a + b)[0] == a[0]);
        assert(tokens_bytes(a + b, first) == (if first {
            Seq::<u8>::empty()
        } else {
            seq![32u8]
        }) + a[0] + (tokens_bytes(a.drop_first(), false) + tokens_bytes(b, false)));
        assert(tokens_bytes(a, first) + tokens_bytes(b, first && a.len() == 0) =~= (if first {
            Seq::<u8>::empty()
        } else {
            seq![32u8]
        }) + a[0] + (tokens_bytes(a.drop_first(), false) + tokens_bytes(b, false)));
    }
}

/// Appends the binary encoding of one field to `out`.
fn push_field_bytes(out: &mut Vec<u8>, f: &Field)
    ensures
        final(out)@ == old(out)@ + field_chunk(*f),
{
    proof {
        lemma_pow256_values();
    }
    match f {
        Field::I8(vs) => {
            let ghost vals: Seq<int> = f.vals();
            let mut j: usize = 0;
            while j < vs.len()
                invariant
                    j <= vs@.len(),
                    vals == vs@.map_values(|x: i8| x as int),
                    out@ == old(out)@ + vals_bytes(ValueKind::I8, vals.take(j as int)),
                decreases vs@.len() - j,
            {
                let v: i8 = vs[j];
                let rep: u64 = if v < 0 {
                    (v as i64 + 0x100) as u64
                } else {
                    v as u64
                };
                proof {
                    lemma_pow256_values();
                    assert(rep as int == wrap(vals[j as int], kind_mod(ValueKind::I8)));
                }
                push_le(out, rep, 1);
                proof {
                    assert(vals.take(j as int + 1).drop_last() =~= vals.take(j as int));
                }
                j = j + 1;
            }
            proof {
                assert(vals.take(vals.len() as int) =~= vals);
            }
        },
        Field::I16(vs) => {
            let ghost vals: Seq<int> = f.vals();
            let mut j: usize = 0;
            while j < vs.len()
                invariant
                    j <= vs@.len(),
                    vals == vs@.map_values(|x: i16| x as int),
                    out@ == old(out)@ + vals_bytes(ValueKind::I16, vals.take(j as int)),
                decreases vs@.len() - j,
            {
                let v: i16 = vs[j];
                let rep: u64 = if v < 0 {
                    (v as i64 + 0x10000) as u64
                } else {
                    v as u64
                };
                proof {
                    lemma_pow256_values();
                    assert(rep as int == wrap(vals[j as int], kind_mod(ValueKind::I16)));
                }
                push_le(out, rep, 2);
                proof {
                    assert(vals.take(j as int + 1).drop_last() =~= vals.take(j as int));
                }
                j = j + 1;
            }
            proof {
                assert(vals.take(vals.len() as int) =~= vals);
            }
        },
        Field::I32(vs) => {
            let ghost vals: Seq<int> = f.vals();
            let mut j: usize = 0;
            while j < vs.len()
                invariant
                    j <= vs@.len(),
                    vals == vs@.map_values(|x: i32| x as int),
                    out@ == old(out)@ + vals_bytes(ValueKind::I32, vals.take(j as int)),
                decreases vs@.len() - j,
            {
                let v: i32 = vs[j];
                let rep: u64 = if v < 0 {
                    (v as i64 + 0x1_0000_0000) as u64
                } else {
                    v as u64
                };
                proof {
                    lemma_pow256_values();
                    assert(rep as int == wrap(vals[j as int], kind_mod(ValueKind::I32)));
                }
                push_le(out, rep, 4);
                proof {
                    assert(vals.take(j as int + 1).drop_last() =~= vals.take(j as int));
                }
                j = j + 1;
            }
            proof {
                assert(vals.take(vals.len() as int) =~= vals);
            }
        },
        Field::U8(vs) => {
            let ghost vals: Seq<int> = f.vals();
            let mut j: usize = 0;
            while j < vs.len()
                invariant
                    j <= vs@.len(),
                    vals == vs@.map_values(|x: u8| x as int),
                    out@ == old(out)@ + vals_bytes(ValueKind::U8, vals.take(j as int)),
                decreases vs@.len() - j,
            {
                let v: u8 = vs[j];
                proof {
                    lemma_pow256_values();
                }
                push_le(out, v as u64, 1);
                proof {
                    assert(vals.take(j as int + 1).drop_last() =~= vals.take(j as int));
                }
                j = j + 1;
            }
            proof {
                assert(vals.take(vals.len() as int) =~= vals);
            }
        },
        Field::U16(vs) => {
            let ghost vals: Seq<int> = f.vals();
            let mut j: usize = 0;
            while j < vs.len()
                invariant
                    j <= vs@.len(),
                    vals == vs@.map_values(|x: u16| x as int),
                    out@ == old(out)@ + vals_bytes(ValueKind::U16, vals.take(j as int)),
                decreases vs@.len() - j,
            {
                let v: u16 = vs[j];
                proof {
                    lemma_pow256_values();
                }
                push_le(out, v as u64, 2);
                proof {
                    assert(vals.take(j as int + 1).drop_last() =~= vals.take(j as int));
                }
                j = j + 1;
            }
            proof {
                assert(vals.take(vals.len() as int) =~= vals);
            }
        },
        Field::U32(vs) => {
            let ghost vals: Seq<int> = f.vals();
            let mut j: usize = 0;
            while j < vs.len()
                invariant
                    j <= vs@.len(),
                    vals == vs@.map_values(|x: u32| x as int),
                    out@ == old(out)@ + vals_bytes(ValueKind::U32, vals.take(j as int)),
                decreases vs@.len() - j,
            {
                let v: u32 = vs[j];
                proof {
                    lemma_pow256_values();
                }
                push_le(out, v as u64, 4);
                proof {
                    assert(vals.take(j as int + 1).drop_last() =~= vals.take(j as int));
                }
                j = j + 1;
            }
            proof {
                assert(vals.take(vals.len() as int) =~= vals);
            }
        },
        Field::F32(vs) => {
            let ghost vals: Seq<int> = f.vals();
            let mut j: usize = 0;
            while j < vs.len()
                invariant
                    j <= vs@.len(),
                    vals == vs@.map_values(|x: u32| x as int),
                    out@ == old(out)@ + vals_bytes(ValueKind::F32, vals.take(j as int)),
                decreases vs@.len() - j,
            {
                let v: u32 = vs[j];
                proof {
                    lemma_pow256_values();
                }
                push_le(out, v as u64, 4);
                proof {
                    assert(vals.take(j as int + 1).drop_last() =~= vals.take(j as int));
                }
                j = j + 1;
            }
            proof {
                assert(vals.take(vals.len() as int) =~= vals);
            }
        },
        Field::F64(vs) => {
            let ghost vals: Seq<int> = f.vals();
            let mut j: usize = 0;
            while j < vs.len()
                invariant
                    j <= vs@.len(),
                    vals == vs@.map_values(|x: u64| x as int),
                    out@ == old(out)@ + vals_bytes(ValueKind::F64, vals.take(j as int)),
                decreases vs@.len() - j,
            {
                let v: u64 = vs[j];
                proof {
                    lemma_pow256_values();
                }
                push_le(out, v, 8);
                proof {
                    assert(vals.take(j as int + 1).drop_last() =~= vals.take(j as int));
                }
                j = j + 1;
            }
            proof {
                assert(vals.take(vals.len() as int) =~= vals);
            }
        },
    }
}

/// Appends the ASCII tokens of one field to `out`, separated by single
/// spaces, with a separator before the first token unless the line is still
/// empty.
fn push_field_tokens(out: &mut Vec<u8>, f: &Field, first: &mut bool)
    ensures
        final(out)@ == old(out)@ + tokens_bytes(field_tokens(*f), *old(first)),
        *final(first) == (*old(first) && field_tokens(*f).len() == 0),
{
    let ghost toks: Seq<Seq<u8>> = field_tokens(*f);
    let ghost first0: bool = *old(first);
    let n: usize = f.count();
    let mut j: usize = 0;
    while j < n
        invariant
            j <= n,
            n == toks.len(),
            toks == field_tokens(*f),
            first0 == *old(first),
            out@ == old(out)@ + tokens_bytes(toks.take(j as int), first0),
            *first == (first0 && j == 0),
        decreases n - j,
    {
        if !*first {
            out.push(32);
        }
        let mut tok: Vec<u8> = token_for(f, j);
        proof {
            let ghost fj: bool = first0 && j == 0;
            assert(toks.take(j as int + 1) =~= toks.take(j as int) + seq![toks[j as int]]);
            lemma_tokens_bytes_concat(toks.take(j as int), seq![toks[j as int]], first0);
            assert(seq![toks[j as int]].drop_first() =~= Seq::<Seq<u8>>::empty());
            assert(tokens_bytes(Seq::<Seq<u8>>::empty(), false) =~= Seq::<u8>::empty());
            assert(tokens_bytes(seq![toks[j as int]], fj) == (if fj {
                Seq::<u8>::empty()
            } else {
                seq![32u8]
            }) + seq![toks[j as int]][0] + tokens_bytes(seq![toks[j as int]].drop_first(), false));
            assert(tokens_bytes(seq![toks[j as int]], fj) =~= (if fj {
                Seq::<u8>::empty()
            } else {
                seq![32u8]
            }) + toks[j as int]);
        }
        out.append(&mut tok);
        proof {
            assert(out@ =~= old(out)@ + tokens_bytes(toks.take(j as int + 1), first0));
        }
        *first = false;
        j = j + 1;
    }
    proof {
        assert(toks.take(n as int) =~= toks);
        if first0 && n == 0 {
            assert(tokens_bytes(toks, first0) =~= Seq::<u8>::empty());
        }
    }
}

/// The ASCII token of element `j` of the field.
fn token_for(f: &Field, j: usize) -> (r: Vec<u8>)
    requires
        j < f.vals().len(),
    ensures
        r@ == field_tokens(*f)[j as int],
{
    match f {
        Field::I8(vs) => {
            let v: i8 = vs[j];
            dec_i64(v as i64)
        },
        Field::I16(vs) => {
            let v: i16 = vs[j];
            dec_i64(v as i64)
        },
        Field::I32(vs) => {
            let v: i32 = vs[j];
            dec_i64(v as i64)
        },
        Field::U8(vs) => {
            let v: u8 = vs[j];
            dec_i64(v as i64)
        },
        Field::U16(vs) => {
            let v: u16 = vs[j];
            dec_i64(v as i64)
        },
        Field::U32(vs) => {
            let v: u32 = vs[j];
            dec_i64(v as i64)
        },
        Field::F32(vs) => {
            let v: u32 = vs[j];
            render_single(v)
        },
        Field::F64(vs) => {
            let v: u64 = vs[j];
            render_double(v)
        },
    }
}

/// Builds the schema-mismatch error for a record whose shape disagrees with
/// `schema`: the schema as the expected rows, the record's shape as found.
fn mismatch_error(rec: &DynRecord, schema: &Schema) -> (r: PCDError)
    ensures
        r matches PCDError::SchemaMismatchError { .. },
{
    let mut expect: Vec<(Option<String>, ValueKind, Option<usize>)> = Vec::new();
    let mut i: usize = 0;
    while i < schema.fields.len()
        invariant
            i <= schema.fields@.len(),
        decreases schema.fields@.len() - i,
    {
        let d = &schema.fields[i];
        expect.push((Some(d.name.clone()), d.kind, Some(d.count)));
        i = i + 1;
    }
    let mut found: Vec<FieldDef> = Vec::new();
    let mut j: usize = 0;
    while j < rec.0.len()
        invariant
            j <= rec.0@.len(),
        decreases rec.0@.len() - j,
    {
        let f = &rec.0[j];
        found.push(FieldDef { name: String::new(), kind: f.kind(), count: f.count() });
        j = j + 1;
    }
    PCDError::new_schema_mismatch_error(expect.as_slice(), found.as_slice())
}

impl PcdSerialize for DynRecord {
    open spec fn spec_is_dynamic() -> bool {
        true
    }

    open spec fn spec_write_spec() -> Seq<(Seq<char>, ValueKind, int)> {
        Seq::empty()
    }

    open spec fn wf_for(&self, defs: Seq<FieldDef>) -> bool {
        consistent(self.0@, defs)
    }

    open spec fn spec_chunk(&self, defs: Seq<FieldDef>) -> Seq<u8> {
        record_chunk(self.0@)
    }

    open spec fn spec_line(&self, defs: Seq<FieldDef>) -> Seq<u8> {
        line_of(self.0@)
    }

    fn is_dynamic() -> (r: bool) {
        true
    }

    /// A dynamic record has no static specification; construction paths that
    /// need one reject the dynamic contract first, so this is never reached.
    fn write_spec() -> (r: Schema) {
        proof {
            assert(false);
        }
        vstd::pervasive::unreached()
    }

    fn write_chunk(&self, writer: &mut MemWriter, spec: &Schema) -> (r: Result<(), PCDError>) {
        if !self.is_schema_consistent(spec) {
            return Err(mismatch_error(self, spec));
        }
        let mut chunk: Vec<u8> = Vec::new();
        let ghost fs: Seq<Field> = self.0@;
        proof {
            assert(fs.take(0) =~= Seq::<Field>::empty());
        }
        let mut i: usize = 0;
        while i < self.0.len()
            invariant
                i <= fs.len(),
                fs == self.0@,
                chunk@ == record_chunk(fs.take(i as int)),
            decreases fs.len() - i,
        {
            push_field_bytes(&mut chunk, &self.0[i]);
            proof {
                assert(fs.take(i as int + 1).drop_last() =~= fs.take(i as int));
                assert(fs.take(i as int + 1).last() == fs[i as int]);
            }
            i = i + 1;
        }
        proof {
            assert(fs.take(fs.len() as int) =~= fs);
        }
        if chunk.len() > usize::MAX - writer.bytes().len() {
            return Err(PCDError::new_io_error("sink cannot grow by one more chunk"));
        }
        let ghost b0: Seq<u8> = writer.buf@;
        let ghost p0: int = writer.pos as int;
        writer.write_bytes(chunk.as_slice());
        proof {
            assert(splice(b0, p0, chunk@) =~= b0 + chunk@);
        }
        Ok(())
    }

    fn write_line(&self, writer: &mut MemWriter, spec: &Schema) -> (r: Result<(), PCDError>) {
        if !self.is_schema_consistent(spec) {
            return Err(mismatch_error(self, spec));
        }
        let mut lineb: Vec<u8> = Vec::new();
        let mut first: bool = true;
        let ghost fs: Seq<Field> = self.0@;
        proof {
            assert(fs.take(0) =~= Seq::<Field>::empty());
        }
        let mut i: usize = 0;
        while i < self.0.len()
            invariant
                i <= fs.len(),
                fs == self.0@,
                lineb@ == tokens_bytes(record_tokens(fs.take(i as int)), true),
                first == (record_tokens(fs.take(i as int)).len() == 0),
            decreases fs.len() - i,
        {
            let ghost rt: Seq<Seq<u8>> = record_tokens(fs.take(i as int));
            proof {
                assert(fs.take(i as int + 1).drop_last() =~= fs.take(i as int));
                assert(fs.take(i as int + 1).last() == fs[i as int]);
                lemma_tokens_bytes_concat(rt, field_tokens(fs[i as int]), true);
            }
            push_field_tokens(&mut lineb, &self.0[i], &mut first);
            i = i + 1;
        }
        proof {
            assert(fs.take(fs.len() as int) =~= fs);
        }
        lineb.push(10);
        proof {
            assert(lineb@ =~= line_of(fs));
        }
        if lineb.len() > usize::MAX - writer.bytes().len() {
            return Err(PCDError::new_io_error("sink cannot grow by one more line"));
        }
        let ghost b0: Seq<u8> = writer.buf@;
        let ghost p0: int = writer.pos as int;
        writer.write_bytes(lineb.as_slice());
        proof {
            assert(splice(b0, p0, lineb@) =~= b0 + lineb@);
        }
        Ok(())
    }
}

/// The byte width of one record's binary chunk under a schema.
pub open spec fn schema_chunk_len(defs: Seq<FieldDef>) -> int
    decreases defs.len(),
{
    if defs.len() == 0 {
        0
    } else {
        schema_chunk_len(defs.drop_last()) + defs.last().count * kind_width(defs.last().kind)
    }
}

pub proof fn lemma_schema_chunk_len_nonneg(defs: Seq<FieldDef>)
    ensures
        schema_chunk_len(defs) >= 0,
    decreases defs.len(),
{
    if defs.len() > 0 {
        lemma_schema_chunk_len_nonneg(defs.drop_last());
    }
}

/// A schema's chunk width splits at any position.
pub proof fn lemma_schema_chunk_len_parts(defs: Seq<FieldDef>, i: int)
    requires
        0 <= i <= defs.len(),
    ensures
        schema_chunk_len(defs) == schema_chunk_len(defs.take(i)) + schema_chunk_len(defs.skip(i)),
    decreases defs.len() - i,
{
    if i == defs.len() {
        assert(defs.take(i) =~= defs);
        assert(defs.skip(i) =~= Seq::<FieldDef>::empty());
    } else {
        lemma_schema_chunk_len_parts(defs, i + 1);
        assert(defs.take(i + 1).drop_last() =~= defs.take(i));
        assert(defs.take(i + 1).last() == defs[i]);
        lemma_schema_chunk_len_skip_step(defs, i);
    }
}

proof fn lemma_schema_chunk_len_skip_step(defs: Seq<FieldDef>, i: int)
    requires
        0 <= i < defs.len(),
    ensures
        schema_chunk_len(defs.skip(i)) == defs[i].count * kind_width(defs[i].kind)
            + schema_chunk_len(defs.skip(i + 1)),
    decreases defs.len() - i,
{
    lemma_schema_prefix_step(defs.skip(i));
    assert(defs.skip(i).drop_first() =~= defs.skip(i + 1));
    assert(defs.skip(i)[0] == defs[i]);
}

/// Chunk width seen from the front: first field plus the rest.
proof fn lemma_schema_prefix_step(defs: Seq<FieldDef>)
    requires
        defs.len() > 0,
    ensures
        schema_chunk_len(defs) == defs[0].count * kind_width(defs[0].kind) + schema_chunk_len(
            defs.drop_first(),
        ),
    decreases defs.len(),
{
    if defs.len() == 1 {
        assert(defs.drop_last() =~= Seq::<FieldDef>::empty());
        assert(defs.drop_first() =~= Seq::<FieldDef>::empty());
    } else {
        lemma_schema_prefix_step(defs.drop_last());
        assert(defs.drop_last().drop_first() =~= defs.drop_first().drop_last());
        assert(defs.drop_last()[0] == defs[0]);
        assert(defs.drop_first().last() == defs.last());
    }
}

pub proof fn lemma_total_count_nonneg(defs: Seq<FieldDef>)
    ensures
        total_count_of(defs) >= 0,
    decreases defs.len(),
{
    if defs.len() > 0 {
        lemma_total_count_nonneg(defs.drop_last());
    }
}

/// A schema's total element count splits at any position.
pub proof fn lemma_total_count_parts(defs: Seq<FieldDef>, i: int)
    requires
        0 <= i <= defs.len(),
    ensures
        total_count_of(defs) == total_count_of(defs.take(i)) + total_count_of(defs.skip(i)),
    decreases defs.len() - i,
{
    if i == defs.len() {
        assert(defs.take(i) =~= defs);
        assert(defs.skip(i) =~= Seq::<FieldDef>::empty());
    } else {
        lemma_total_count_parts(defs, i + 1);
        assert(defs.take(i + 1).drop_last() =~= defs.take(i));
        assert(defs.take(i + 1).last() == defs[i]);
        lemma_total_count_skip_step(defs, i);
    }
}

proof fn lemma_total_count_skip_step(defs: Seq<FieldDef>, i: int)
    requires
        0 <= i < defs.len(),
    ensures
        total_count_of(defs.skip(i)) == defs[i].count + total_count_of(defs.skip(i + 1)),
    decreases defs.len() - i,
{
    lemma_total_count_prefix_step(defs.skip(i));
    assert(defs.skip(i).drop_first() =~= defs.skip(i + 1));
    assert(defs.skip(i)[0] == defs[i]);
}

proof fn lemma_total_count_prefix_step(defs: Seq<FieldDef>)
    requires
        defs.len() > 0,
    ensures
        total_count_of(defs) == defs[0].count + total_count_of(defs.drop_first()),
    decreases defs.len(),
{
    if defs.len() == 1 {
        assert(defs.drop_last() =~= Seq::<FieldDef>::empty());
        assert(defs.drop_first() =~= Seq::<FieldDef>::empty());
    } else {
        lemma_total_count_prefix_step(defs.drop_last());
        assert(defs.drop_last().drop_first() =~= defs.drop_first().drop_last());
        assert(defs.drop_last()[0] == defs[0]);
        assert(defs.drop_first().last() == defs.last());
    }
}

/// The little-endian bytes of the raw (unsigned) element values `us`, each
/// `w` bytes wide.
pub open spec fn raw_bytes(us: Seq<u64>, w: nat) -> Seq<u8>
    decreases us.len(),
{
    if us.len() == 0 {
        Seq::empty()
    } else {
        raw_bytes(us.drop_last(), w) + le_bytes(us.last() as int, w)
    }
}

/// Elementwise equal encodings give equal streams: carries the raw unsigned
/// reads over to a kind's value encoding.
pub proof fn lemma_vals_bytes_eq_raw(k: ValueKind, vs: Seq<int>, us: Seq<u64>)
    requires
        vs.len() == us.len(),
        forall|i: int|
            0 <= i < vs.len() ==> elem_bytes(k, #[trigger] vs[i]) == le_bytes(us[i] as int,
            k.spec_size()),
    ensures
        vals_bytes(k, vs) == raw_bytes(us, k.spec_size()),
    decreases vs.len(),
{
    if vs.len() > 0 {
        lemma_vals_bytes_eq_raw(k, vs.drop_last(), us.drop_last());
    }
}

/// A non-negative value is its own two's-complement representative.
pub proof fn wrap_is_identity_for(k: ValueKind, v: int)
    requires
        0 <= v,
    ensures
        wrap(v, kind_mod(k)) == v,
{
}

/// Reads `count` raw little-endian values of `width` bytes each. Succeeds
/// exactly when that many bytes remain.
pub(crate) fn read_raw(reader: &mut MemReader, count: usize, width: usize) -> (r: Result<Vec<u64>, PCDError>)
    requires
        old(reader).wf(),
        1 <= width <= 8,
    ensures
        final(reader).wf(),
        final(reader).buf == old(reader).buf,
        final(reader).line == old(reader).line,
        old(reader).pos <= final(reader).pos <= old(reader).buf@.len(),
        old(reader).pos + count * width <= old(reader).buf@.len() ==> r is Ok,
        r matches Ok(us) ==> us@.len() == count && final(reader).pos == old(reader).pos + count
            * width && raw_bytes(us@, width as nat) == old(reader).buf@.subrange(
            old(reader).pos as int,
            final(reader).pos as int,
        ) && forall|i: int| 0 <= i < count ==> 0 <= #[trigger] us@[i] < pow256(width as nat),
        r matches Err(e) ==> e matches PCDError::IoError { .. },
    {
    let ghost p0: int = old(reader).pos as int;
    let mut us: Vec<u64> = Vec::new();
    let mut j: usize = 0;
    proof {
        assert(old(reader).buf@.subrange(p0, p0) =~= Seq::<u8>::empty());
    }
    while j < count
        invariant
            old(reader).wf(),
            1 <= width <= 8,
            j <= count,
            reader.wf(),
            reader.buf == old(reader).buf,
            reader.line == old(reader).line,
            p0 == old(reader).pos as int,
            reader.pos == p0 + j * width,
            reader.pos <= reader.buf@.len(),
            us@.len() == j,
            raw_bytes(us@, width as nat) == old(reader).buf@.subrange(p0, reader.pos as int),
            forall|i: int| 0 <= i < j ==> 0 <= #[trigger] us@[i] < pow256(width as nat),
        decreases count - j,
    {
        let ghost pj: int = reader.pos as int;
        let b: Vec<u8> = match reader.read_bytes(width) {
            Ok(b) => b,
            Err(e) => {
                proof {
                    vstd::arithmetic::mul::lemma_mul_inequality(
                        j as int + 1,
                        count as int,
                        width as int,
                    );
                    vstd::arithmetic::mul::lemma_mul_is_distributive_add_other_way(
                        width as int,
                        j as int,
                        1,
                    );
                }
                return Err(e);
            },
        };
        let u: u64 = u64_from_le(b.as_slice());
        proof {
            lemma_from_le_bound(b@);
            lemma_le_bytes_from_le(b@);
        }
        let ghost us0: Seq<u64> = us@;
        us.push(u);
        proof {
            assert(us@.drop_last() =~= us0);
            assert(old(reader).buf@.subrange(p0, pj + width) =~= old(reader).buf@.subrange(p0, pj)
                + old(reader).buf@.subrange(pj, pj + width));
            vstd::arithmetic::mul::lemma_mul_is_distributive_add_other_way(
                width as int,
                j as int,
                1,
            );
        }
        j = j + 1;
    }
    Ok(us)
}

/// Whether the token `t` parses as one element of kind `k`: a well-formed
/// in-range integer literal, or a numeric floating-point literal.
pub open spec fn token_parses(k: ValueKind, t: Seq<u8>) -> bool {
    match k {
        ValueKind::F32 => single_of_dec(t) is Some,
        ValueKind::F64 => double_of_dec(t) is Some,
        _ => is_int_token(t) && in_kind_range(k, parse_int_tok(t)),
    }
}

/// The element value the token `t` denotes under kind `k`.
pub open spec fn token_val(k: ValueKind, t: Seq<u8>) -> int {
    match k {
        ValueKind::F32 => single_of_dec(t).unwrap() as int,
        ValueKind::F64 => double_of_dec(t).unwrap() as int,
        _ => parse_int_tok(t),
    }
}

/// The token at offset `off + j` of a token list.
pub open spec fn tok_at(ts: Seq<Seq<u8>>, off: int, j: int) -> Seq<u8> {
    ts[off + j]
}

/// The byte views of a vector of tokens.
pub open spec fn views_of(ts: Seq<Vec<u8>>) -> Seq<Seq<u8>> {
    ts.map_values(|t: Vec<u8>| t@)
}

/// Whether every token of a line parses under the schema, field by field in
/// schema order.
pub open spec fn dyn_line_parses(defs: Seq<FieldDef>, ts: Seq<Seq<u8>>) -> bool {
    forall|fi: int, j: int|
        0 <= fi < defs.len() && 0 <= j < defs[fi].count ==> token_parses(
            defs[fi].kind,
            #[trigger] tok_at(ts, total_count_of(defs.take(fi)), j),
        )
}

/// Whether the record `fs` holds exactly the values the line's tokens denote
/// under the schema.
pub open spec fn dyn_line_decodes(fs: Seq<Field>, defs: Seq<FieldDef>, ts: Seq<Seq<u8>>) -> bool {
    consistent(fs, defs) && forall|fi: int, j: int|
        0 <= fi < defs.len() && 0 <= j < defs[fi].count ==> fs[fi].vals()[j] == token_val(
            defs[fi].kind,
            #[trigger] tok_at(ts, total_count_of(defs.take(fi)), j),
        )
}

/// What a point type offers so a reader can produce it: a static
/// read-specification, and a decoder from each of the two body formats.
///
/// A chunk decoder consumes exactly the bytes the schema predicts and yields
/// a value that encodes back to them; a line decoder consumes one line,
/// demands exactly the predicted token count, and parses every token.
pub trait PcdDeserialize: Sized {
    /// Whether this type's shape is known only at run time.
    spec fn spec_is_dynamic() -> bool;

    /// The rows of the static read-specification; a `None` count marks a
    /// field whose count is schema-supplied.
    spec fn spec_read_spec() -> Seq<(Option<Seq<char>>, ValueKind, Option<usize>)>;

    /// How many body bytes one chunk of this type takes under the schema.
    spec fn spec_chunk_len(defs: Seq<FieldDef>) -> int;

    /// Whether the consumed bytes are the encoding of `v` under the schema.
    spec fn chunk_encodes(v: Self, defs: Seq<FieldDef>, bytes: Seq<u8>) -> bool;

    /// How many whitespace tokens one line of this type holds under the
    /// schema.
    spec fn line_token_count(defs: Seq<FieldDef>) -> int;

    /// Whether every token of the line parses for this type.
    spec fn line_parses(defs: Seq<FieldDef>, ts: Seq<Seq<u8>>) -> bool;

    /// Whether `v` holds exactly the values the line's tokens denote.
    spec fn line_decodes(v: Self, defs: Seq<FieldDef>, ts: Seq<Seq<u8>>) -> bool;

    fn is_dynamic() -> (r: bool)
        ensures
            r == Self::spec_is_dynamic(),
    ;

    /// The static field layout this type expects, row by row.
    fn read_spec() -> (r: Vec<(Option<String>, ValueKind, Option<usize>)>)
        ensures
            r@.len() == Self::spec_read_spec().len(),
            forall|i: int|
                0 <= i < r@.len() ==> read_entry_models(
                    #[trigger] r@[i],
                    Self::spec_read_spec()[i],
                ),
    ;

    /// Decodes one binary chunk. Succeeds exactly when enough bytes remain,
    /// and fails with an I/O error kind on truncated input.
    fn read_chunk(reader: &mut MemReader, field_defs: &Schema) -> (r: Result<Self, PCDError>)
        requires
            old(reader).wf(),
        ensures
            final(reader).wf(),
            final(reader).buf == old(reader).buf,
            final(reader).line == old(reader).line,
            old(reader).pos <= final(reader).pos <= old(reader).buf@.len(),
            old(reader).pos + Self::spec_chunk_len(field_defs@) <= old(reader).buf@.len() ==> r
                is Ok,
            r matches Ok(v) ==> final(reader).pos == old(reader).pos + Self::spec_chunk_len(
                field_defs@,
            ) && Self::chunk_encodes(
                v,
                field_defs@,
                old(reader).buf@.subrange(old(reader).pos as int, final(reader).pos as int),
            ),
            r matches Err(e) ==> e matches PCDError::IoError { .. },
    ;

    /// Decodes one ASCII line. Fails with a token-count mismatch when the
    /// line's token count disagrees with the schema's aggregate count, and
    /// with a parse error when a token fails numeric parsing.
    fn read_line(reader: &mut MemReader, field_defs: &Schema) -> (r: Result<Self, PCDError>)
        requires
            old(reader).wf(),
            old(reader).line < usize::MAX,
            0 <= Self::line_token_count(field_defs@) <= usize::MAX,
        ensures
            final(reader).wf(),
            final(reader).buf == old(reader).buf,
            final(reader).line == old(reader).line + 1,
            final(reader).pos == line_end(old(reader).buf@, old(reader).pos as int),
            ({
                let ts = split_ws(
                    old(reader).buf@.subrange(
                        old(reader).pos as int,
                        line_end(old(reader).buf@, old(reader).pos as int),
                    ),
                );
                &&& (ts.len() != Self::line_token_count(field_defs@) ==> (r matches Err(e) && (
                e matches PCDError::TextTokenMismatchError { expect, found } && expect
                    == Self::line_token_count(field_defs@) && found == ts.len())))
                &&& (ts.len() == Self::line_token_count(field_defs@) ==> {
                    &&& (r is Ok <==> Self::line_parses(field_defs@, ts))
                    &&& (r matches Ok(v) ==> Self::line_decodes(v, field_defs@, ts))
                    &&& (r matches Err(e) ==> (e matches PCDError::ParseError { line, .. } && line
                        == old(reader).line))
                })
            }),
    ;
}

/// Reads one field's elements from a binary chunk.
fn read_field(reader: &mut MemReader, def: &FieldDef) -> (r: Result<Field, PCDError>)
    requires
        old(reader).wf(),
    ensures
        final(reader).wf(),
        final(reader).buf == old(reader).buf,
        final(reader).line == old(reader).line,
        old(reader).pos <= final(reader).pos <= old(reader).buf@.len(),
        old(reader).pos + def.count * kind_width(def.kind) <= old(reader).buf@.len() ==> r is Ok,
        r matches Ok(f) ==> field_matches(f, *def) && final(reader).pos == old(reader).pos
            + def.count * kind_width(def.kind) && field_chunk(f) == old(reader).buf@.subrange(
            old(reader).pos as int,
            final(reader).pos as int,
        ),
        r matches Err(e) ==> e matches PCDError::IoError { .. },
{
    let w: usize = def.kind.size();
    let raw: Vec<u64> = match read_raw(reader, def.count, w) {
        Ok(u) => u,
        Err(e) => {
            return Err(e);
        },
    };
    proof {
        lemma_pow256_values();
    }
    match def.kind {
        ValueKind::I8 => {
            let mut vec: Vec<i8> = Vec::new();
            let mut j: usize = 0;
            while j < raw.len()
                invariant
                    j <= raw@.len(),
                    vec@.len() == j,
                    forall|i: int| 0 <= i < raw@.len() ==> 0 <= #[trigger] raw@[i] < 0x100,
                    forall|i: int|
                        0 <= i < j ==> #[trigger] vec@[i] as int == unwrap(raw@[i] as int, 0x100),
                decreases raw@.len() - j,
            {
                let u: u64 = raw[j];
                let v: i8 = if u >= 0x80 {
                    ((u as i64) - 0x100) as i8
                } else {
                    u as i8
                };
                vec.push(v);
                j = j + 1;
            }
            let f = Field::I8(vec);
            proof {
                assert forall|i: int| 0 <= i < f.vals().len() implies elem_bytes(
                    ValueKind::I8,
                    #[trigger] f.vals()[i],
                ) == le_bytes(raw@[i] as int, 1) by {
                    assert(f.vals()[i] == unwrap(raw@[i] as int, 0x100));
                    assert(wrap(unwrap(raw@[i] as int, 0x100), 0x100) == raw@[i] as int);
                }
                lemma_vals_bytes_eq_raw(ValueKind::I8, f.vals(), raw@);
            }
            Ok(f)
        },
        ValueKind::I16 => {
            let mut vec: Vec<i16> = Vec::new();
            let mut j: usize = 0;
            while j < raw.len()
                invariant
                    j <= raw@.len(),
                    vec@.len() == j,
                    forall|i: int| 0 <= i < raw@.len() ==> 0 <= #[trigger] raw@[i] < 0x10000,
                    forall|i: int|
                        0 <= i < j ==> #[trigger] vec@[i] as int == unwrap(raw@[i] as int, 0x10000),
                decreases raw@.len() - j,
            {
                let u: u64 = raw[j];
                let v: i16 = if u >= 0x8000 {
                    ((u as i64) - 0x10000) as i16
                } else {
                    u as i16
                };
                vec.push(v);
                j = j + 1;
            }
            let f = Field::I16(vec);
            proof {
                assert forall|i: int| 0 <= i < f.vals().len() implies elem_bytes(
                    ValueKind::I16,
                    #[trigger] f.vals()[i],
                ) == le_bytes(raw@[i] as int, 2) by {
                    assert(f.vals()[i] == unwrap(raw@[i] as int, 0x10000));
                    assert(wrap(unwrap(raw@[i] as int, 0x10000), 0x10000) == raw@[i] as int);
                }
                lemma_vals_bytes_eq_raw(ValueKind::I16, f.vals(), raw@);
            }
            Ok(f)
        },
        ValueKind::I32 => {
            let mut vec: Vec<i32> = Vec::new();
            let mut j: usize = 0;
            while j < raw.len()
                invariant
                    j <= raw@.len(),
                    vec@.len() == j,
                    forall|i: int| 0 <= i < raw@.len() ==> 0 <= #[trigger] raw@[i] < 0x1_0000_0000,
                    forall|i: int|
                        0 <= i < j ==> #[trigger] vec@[i] as int == unwrap(
                            raw@[i] as int,
                            0x1_0000_0000,
                        ),
                decreases raw@.len() - j,
            {
                let u: u64 = raw[j];
                let v: i32 = if u >= 0x8000_0000 {
                    ((u as i64) - 0x1_0000_0000) as i32
                } else {
                    u as i32
                };
                vec.push(v);
                j = j + 1;
            }
            let f = Field::I32(vec);
            proof {
                assert forall|i: int| 0 <= i < f.vals().len() implies elem_bytes(
                    ValueKind::I32,
                    #[trigger] f.vals()[i],
                ) == le_bytes(raw@[i] as int, 4) by {
                    assert(f.vals()[i] == unwrap(raw@[i] as int, 0x1_0000_0000));
                    assert(wrap(unwrap(raw@[i] as int, 0x1_0000_0000), 0x1_0000_0000) == raw@[i]
                        as int);
                }
                lemma_vals_bytes_eq_raw(ValueKind::I32, f.vals(), raw@);
            }
            Ok(f)
        },
        ValueKind::U8 => {
            let mut vec: Vec<u8> = Vec::new();
            let mut j: usize = 0;
            while j < raw.len()
                invariant
                    j <= raw@.len(),
                    vec@.len() == j,
                    forall|i: int| 0 <= i < raw@.len() ==> 0 <= #[trigger] raw@[i] < 0x100,
                    forall|i: int| 0 <= i < j ==> #[trigger] vec@[i] as int == raw@[i] as int,
                decreases raw@.len() - j,
            {
                let u: u64 = raw[j];
                vec.push(u as u8);
                j = j + 1;
            }
            let f = Field::U8(vec);
            proof {
                assert forall|i: int| 0 <= i < f.vals().len() implies elem_bytes(
                    ValueKind::U8,
                    #[trigger] f.vals()[i],
                ) == le_bytes(raw@[i] as int, 1) by {
                    assert(f.vals()[i] == raw@[i] as int);
                }
                lemma_vals_bytes_eq_raw(ValueKind::U8, f.vals(), raw@);
            }
            Ok(f)
        },
        ValueKind::U16 => {
            let mut vec: Vec<u16> = Vec::new();
            let mut j: usize = 0;
            while j < raw.len()
                invariant
                    j <= raw@.len(),
                    vec@.len() == j,
                    forall|i: int| 0 <= i < raw@.len() ==> 0 <= #[trigger] raw@[i] < 0x10000,
                    forall|i: int| 0 <= i < j ==> #[trigger] vec@[i] as int == raw@[i] as int,
                decreases raw@.len() - j,
            {
                let u: u64 = raw[j];
                vec.push(u as u16);
                j = j + 1;
            }
            let f = Field::U16(vec);
            proof {
                assert forall|i: int| 0 <= i < f.vals().len() implies elem_bytes(
                    ValueKind::U16,
                    #[trigger] f.vals()[i],
                ) == le_bytes(raw@[i] as int, 2) by {
                    assert(f.vals()[i] == raw@[i] as int);
                }
                lemma_vals_bytes_eq_raw(ValueKind::U16, f.vals(), raw@);
            }
            Ok(f)
        },
        ValueKind::U32 => {
            let mut vec: Vec<u32> = Vec::new();
            let mut j: usize = 0;
            while j < raw.len()
                invariant
                    j <= raw@.len(),
                    vec@.len() == j,
                    forall|i: int| 0 <= i < raw@.len() ==> 0 <= #[trigger] raw@[i] < 0x1_0000_0000,
                    forall|i: int| 0 <= i < j ==> #[trigger] vec@[i] as int == raw@[i] as int,
                decreases raw@.len() - j,
            {
                let u: u64 = raw[j];
                vec.push(u as u32);
                j = j + 1;
            }
            let f = Field::U32(vec);
            proof {
                assert forall|i: int| 0 <= i < f.vals().len() implies elem_bytes(
                    ValueKind::U32,
                    #[trigger] f.vals()[i],
                ) == le_bytes(raw@[i] as int, 4) by {
                    assert(f.vals()[i] == raw@[i] as int);
                }
                lemma_vals_bytes_eq_raw(ValueKind::U32, f.vals(), raw@);
            }
            Ok(f)
        },
        ValueKind::F32 => {
            let mut vec: Vec<u32> = Vec::new();
            let mut j: usize = 0;
            while j < raw.len()
                invariant
                    j <= raw@.len(),
                    vec@.len() == j,
                    forall|i: int| 0 <= i < raw@.len() ==> 0 <= #[trigger] raw@[i] < 0x1_0000_0000,
                    forall|i: int| 0 <= i < j ==> #[trigger] vec@[i] as int == raw@[i] as int,
                decreases raw@.len() - j,
            {
                let u: u64 = raw[j];
                vec.push(u as u32);
                j = j + 1;
            }
            let f = Field::F32(vec);
            proof {
                assert forall|i: int| 0 <= i < f.vals().len() implies elem_bytes(
                    ValueKind::F32,
                    #[trigger] f.vals()[i],
                ) == le_bytes(raw@[i] as int, 4) by {
                    assert(f.vals()[i] == raw@[i] as int);
                }
                lemma_vals_bytes_eq_raw(ValueKind::F32, f.vals(), raw@);
            }
            Ok(f)
        },
        ValueKind::F64 => {
            let mut vec: Vec<u64> = Vec::new();
            let mut j: usize = 0;
            while j < raw.len()
                invariant
                    j <= raw@.len(),
                    vec@.len() == j,
                    forall|i: int|
                        0 <= i < raw@.len() ==> 0 <= #[trigger] raw@[i]
                            < 0x1_0000_0000_0000_0000,
                    forall|i: int| 0 <= i < j ==> #[trigger] vec@[i] as int == raw@[i] as int,
                decreases raw@.len() - j,
            {
                let u: u64 = raw[j];
                vec.push(u);
                j = j + 1;
            }
            let f = Field::F64(vec);
            proof {
                assert forall|i: int| 0 <= i < f.vals().len() implies elem_bytes(
                    ValueKind::F64,
                    #[trigger] f.vals()[i],
                ) == le_bytes(raw@[i] as int, 8) by {
                    assert(f.vals()[i] == raw@[i] as int);
                }
                lemma_vals_bytes_eq_raw(ValueKind::F64, f.vals(), raw@);
            }
            Ok(f)
        },
    }
}

/// Parses `def.count` consecutive tokens, starting at `start`, as one field
/// of `def`'s kind. Succeeds exactly when every one of those tokens parses.
fn parse_field(toks: &Vec<Vec<u8>>, start: usize, def: &FieldDef, line_no: usize) -> (r: Result<
    Field,
    PCDError,
>)
    requires
        start + def.count <= toks@.len(),
    ensures
        r is Ok <==> (forall|j: int|
            0 <= j < def.count ==> token_parses(
                def.kind,
                #[trigger] tok_at(views_of(toks@), start as int, j),
            )),
        r matches Ok(f) ==> field_matches(f, *def) && (forall|j: int|
            0 <= j < def.count ==> f.vals()[j] == token_val(
                def.kind,
                #[trigger] tok_at(views_of(toks@), start as int, j),
            )),
        r matches Err(e) ==> (e matches PCDError::ParseError { line, .. } && line == line_no),
{
    let nt: usize = toks.len();
    match def.kind {
        ValueKind::I8 => {
            let mut vec: Vec<i8> = Vec::new();
            let mut j: usize = 0;
            while j < def.count
                invariant
                    j <= def.count,
                    start + def.count <= toks@.len(),
                    nt == toks@.len(),
                    def.kind == ValueKind::I8,
                    vec@.len() == j,
                    forall|i: int|
                        0 <= i < j ==> token_parses(
                            ValueKind::I8,
                            #[trigger] tok_at(views_of(toks@), start as int, i),
                        ) && vec@[i] as int == parse_int_tok(tok_at(views_of(toks@), start as int, i)),
                decreases def.count - j,
            {
                let tk = &toks[start + j];
                match parse_int_in(tk.as_slice(), -0x80, 0x7f) {
                    Some(v) => {
                        vec.push(v as i8);
                        proof {
                            assert(tok_at(views_of(toks@), start as int, j as int) == toks@[start
                                + j]@);
                        }
                    },
                    None => {
                        proof {
                            assert(tok_at(views_of(toks@), start as int, j as int) == toks@[start
                                + j]@);
                            assert(!token_parses(
                                ValueKind::I8,
                                tok_at(views_of(toks@), start as int, j as int),
                            ));
                            assert(!(forall|jx: int|
                                0 <= jx < def.count ==> token_parses(
                                    def.kind,
                                    #[trigger] tok_at(views_of(toks@), start as int, jx),
                                ))) by {
                                if (forall|jx: int|
                                    0 <= jx < def.count ==> token_parses(
                                        def.kind,
                                        #[trigger] tok_at(views_of(toks@), start as int, jx),
                                    )) {
                                    assert(token_parses(
                                        def.kind,
                                        tok_at(views_of(toks@), start as int, j as int),
                                    ));
                                }
                            }
                        }
                        return Err(PCDError::new_parse_error(line_no, "invalid integer literal"));
                    },
                }
                j = j + 1;
            }
            Ok(Field::I8(vec))
        },
        ValueKind::I16 => {
            let mut vec: Vec<i16> = Vec::new();
            let mut j: usize = 0;
            while j < def.count
                invariant
                    j <= def.count,
                    start + def.count <= toks@.len(),
                    nt == toks@.len(),
                    def.kind == ValueKind::I16,
                    vec@.len() == j,
                    forall|i: int|
                        0 <= i < j ==> token_parses(
                            ValueKind::I16,
                            #[trigger] tok_at(views_of(toks@), start as int, i),
                        ) && vec@[i] as int == parse_int_tok(tok_at(views_of(toks@), start as int, i)),
                decreases def.count - j,
            {
                let tk = &toks[start + j];
                match parse_int_in(tk.as_slice(), -0x8000, 0x7fff) {
                    Some(v) => {
                        vec.push(v as i16);
                        proof {
                            assert(tok_at(views_of(toks@), start as int, j as int) == toks@[start
                                + j]@);
                        }
                    },
                    None => {
                        proof {
                            assert(tok_at(views_of(toks@), start as int, j as int) == toks@[start
                                + j]@);
                            assert(!token_parses(
                                ValueKind::I16,
                                tok_at(views_of(toks@), start as int, j as int),
                            ));
                            assert(!(forall|jx: int|
                                0 <= jx < def.count ==> token_parses(
                                    def.kind,
                                    #[trigger] tok_at(views_of(toks@), start as int, jx),
                                ))) by {
                                if (forall|jx: int|
                                    0 <= jx < def.count ==> token_parses(
                                        def.kind,
                                        #[trigger] tok_at(views_of(toks@), start as int, jx),
                                    )) {
                                    assert(token_parses(
                                        def.kind,
                                        tok_at(views_of(toks@), start as int, j as int),
                                    ));
                                }
                            }
                        }
                        return Err(PCDError::new_parse_error(line_no, "invalid integer literal"));
                    },
                }
                j = j + 1;
            }
            Ok(Field::I16(vec))
        },
        ValueKind::I32 => {
            let mut vec: Vec<i32> = Vec::new();
            let mut j: usize = 0;
            while j < def.count
                invariant
                    j <= def.count,
                    start + def.count <= toks@.len(),
                    nt == toks@.len(),
                    def.kind == ValueKind::I32,
                    vec@.len() == j,
                    forall|i: int|
                        0 <= i < j ==> token_parses(
                            ValueKind::I32,
                            #[trigger] tok_at(views_of(toks@), start as int, i),
                        ) && vec@[i] as int == parse_int_tok(tok_at(views_of(toks@), start as int, i)),
                decreases def.count - j,
            {
                let tk = &toks[start + j];
                match parse_int_in(tk.as_slice(), -0x8000_0000, 0x7fff_ffff) {
                    Some(v) => {
                        vec.push(v as i32);
                        proof {
                            assert(tok_at(views_of(toks@), start as int, j as int) == toks@[start
                                + j]@);
                        }
                    },
                    None => {
                        proof {
                            assert(tok_at(views_of(toks@), start as int, j as int) == toks@[start
                                + j]@);
                            assert(!token_parses(
                                ValueKind::I32,
                                tok_at(views_of(toks@), start as int, j as int),
                            ));
                            assert(!(forall|jx: int|
                                0 <= jx < def.count ==> token_parses(
                                    def.kind,
                                    #[trigger] tok_at(views_of(toks@), start as int, jx),
                                ))) by {
                                if (forall|jx: int|
                                    0 <= jx < def.count ==> token_parses(
                                        def.kind,
                                        #[trigger] tok_at(views_of(toks@), start as int, jx),
                                    )) {
                                    assert(token_parses(
                                        def.kind,
                                        tok_at(views_of(toks@), start as int, j as int),
                                    ));
                                }
                            }
                        }
                        return Err(PCDError::new_parse_error(line_no, "invalid integer literal"));
                    },
                }
                j = j + 1;
            }
            Ok(Field::I32(vec))
        },
        ValueKind::U8 => {
            let mut vec: Vec<u8> = Vec::new();
            let mut j: usize = 0;
            while j < def.count
                invariant
                    j <= def.count,
                    start + def.count <= toks@.len(),
                    nt == toks@.len(),
                    def.kind == ValueKind::U8,
                    vec@.len() == j,
                    forall|i: int|
                        0 <= i < j ==> token_parses(
                            ValueKind::U8,
                            #[trigger] tok_at(views_of(toks@), start as int, i),
                        ) && vec@[i] as int == parse_int_tok(tok_at(views_of(toks@), start as int, i)),
                decreases def.count - j,
            {
                let tk = &toks[start + j];
                match parse_int_in(tk.as_slice(), 0, 0xff) {
                    Some(v) => {
                        vec.push(v as u8);
                        proof {
                            assert(tok_at(views_of(toks@), start as int, j as int) == toks@[start
                                + j]@);
                        }
                    },
                    None => {
                        proof {
                            assert(tok_at(views_of(toks@), start as int, j as int) == toks@[start
                                + j]@);
                            assert(!token_parses(
                                ValueKind::U8,
                                tok_at(views_of(toks@), start as int, j as int),
                            ));
                            assert(!(forall|jx: int|
                                0 <= jx < def.count ==> token_parses(
                                    def.kind,
                                    #[trigger] tok_at(views_of(toks@), start as int, jx),
                                ))) by {
                                if (forall|jx: int|
                                    0 <= jx < def.count ==> token_parses(
                                        def.kind,
                                        #[trigger] tok_at(views_of(toks@), start as int, jx),
                                    )) {
                                    assert(token_parses(
                                        def.kind,
                                        tok_at(views_of(toks@), start as int, j as int),
                                    ));
                                }
                            }
                        }
                        return Err(PCDError::new_parse_error(line_no, "invalid integer literal"));
                    },
                }
                j = j + 1;
            }
            Ok(Field::U8(vec))
        },
        ValueKind::U16 => {
            let mut vec: Vec<u16> = Vec::new();
            let mut j: usize = 0;
            while j < def.count
                invariant
                    j <= def.count,
                    start + def.count <= toks@.len(),
                    nt == toks@.len(),
                    def.kind == ValueKind::U16,
                    vec@.len() == j,
                    forall|i: int|
                        0 <= i < j ==> token_parses(
                            ValueKind::U16,
                            #[trigger] tok_at(views_of(toks@), start as int, i),
                        ) && vec@[i] as int == parse_int_tok(tok_at(views_of(toks@), start as int, i)),
                decreases def.count - j,
            {
                let tk = &toks[start + j];
                match parse_int_in(tk.as_slice(), 0, 0xffff) {
                    Some(v) => {
                        vec.push(v as u16);
                        proof {
                            assert(tok_at(views_of(toks@), start as int, j as int) == toks@[start
                                + j]@);
                        }
                    },
                    None => {
                        proof {
                            assert(tok_at(views_of(toks@), start as int, j as int) == toks@[start
                                + j]@);
                            assert(!token_parses(
                                ValueKind::U16,
                                tok_at(views_of(toks@), start as int, j as int),
                            ));
                            assert(!(forall|jx: int|
                                0 <= jx < def.count ==> token_parses(
                                    def.kind,
                                    #[trigger] tok_at(views_of(toks@), start as int, jx),
                                ))) by {
                                if (forall|jx: int|
                                    0 <= jx < def.count ==> token_parses(
                                        def.kind,
                                        #[trigger] tok_at(views_of(toks@), start as int, jx),
                                    )) {
                                    assert(token_parses(
                                        def.kind,
                                        tok_at(views_of(toks@), start as int, j as int),
                                    ));
                                }
                            }
                        }
                        return Err(PCDError::new_parse_error(line_no, "invalid integer literal"));
                    },
                }
                j = j + 1;
            }
            Ok(Field::U16(vec))
        },
        ValueKind::U32 => {
            let mut vec: Vec<u32> = Vec::new();
            let mut j: usize = 0;
            while j < def.count
                invariant
                    j <= def.count,
                    start + def.count <= toks@.len(),
                    nt == toks@.len(),
                    def.kind == ValueKind::U32,
                    vec@.len() == j,
                    forall|i: int|
                        0 <= i < j ==> token_parses(
                            ValueKind::U32,
                            #[trigger] tok_at(views_of(toks@), start as int, i),
                        ) && vec@[i] as int == parse_int_tok(tok_at(views_of(toks@), start as int, i)),
                decreases def.count - j,
            {
                let tk = &toks[start + j];
                match parse_int_in(tk.as_slice(), 0, 0xffff_ffff) {
                    Some(v) => {
                        vec.push(v as u32);
                        proof {
                            assert(tok_at(views_of(toks@), start as int, j as int) == toks@[start
                                + j]@);
                        }
                    },
                    None => {
                        proof {
                            assert(tok_at(views_of(toks@), start as int, j as int) == toks@[start
                                + j]@);
                            assert(!token_parses(
                                ValueKind::U32,
                                tok_at(views_of(toks@), start as int, j as int),
                            ));
                            assert(!(forall|jx: int|
                                0 <= jx < def.count ==> token_parses(
                                    def.kind,
                                    #[trigger] tok_at(views_of(toks@), start as int, jx),
                                ))) by {
                                if (forall|jx: int|
                                    0 <= jx < def.count ==> token_parses(
                                        def.kind,
                                        #[trigger] tok_at(views_of(toks@), start as int, jx),
                                    )) {
                                    assert(token_parses(
                                        def.kind,
                                        tok_at(views_of(toks@), start as int, j as int),
                                    ));
                                }
                            }
                        }
                        return Err(PCDError::new_parse_error(line_no, "invalid integer literal"));
                    },
                }
                j = j + 1;
            }
            Ok(Field::U32(vec))
        },
        ValueKind::F32 => {
            let mut vec: Vec<u32> = Vec::new();
            let mut j: usize = 0;
            while j < def.count
                invariant
                    j <= def.count,
                    start + def.count <= toks@.len(),
                    nt == toks@.len(),
                    def.kind == ValueKind::F32,
                    vec@.len() == j,
                    forall|i: int|
                        0 <= i < j ==> token_parses(
                            ValueKind::F32,
                            #[trigger] tok_at(views_of(toks@), start as int, i),
                        ) && vec@[i] as int == token_val(
                            ValueKind::F32,
                            tok_at(views_of(toks@), start as int, i),
                        ),
                decreases def.count - j,
            {
                let tk = &toks[start + j];
                match parse_single(tk.as_slice()) {
                    Some(bits) => {
                        vec.push(bits);
                        proof {
                            assert(tok_at(views_of(toks@), start as int, j as int) == toks@[start
                                + j]@);
                        }
                    },
                    None => {
                        proof {
                            assert(tok_at(views_of(toks@), start as int, j as int) == toks@[start
                                + j]@);
                            assert(!token_parses(
                                def.kind,
                                tok_at(views_of(toks@), start as int, j as int),
                            ));
                            assert(!(forall|jx: int|
                                0 <= jx < def.count ==> token_parses(
                                    def.kind,
                                    #[trigger] tok_at(views_of(toks@), start as int, jx),
                                ))) by {
                                if (forall|jx: int|
                                    0 <= jx < def.count ==> token_parses(
                                        def.kind,
                                        #[trigger] tok_at(views_of(toks@), start as int, jx),
                                    )) {
                                    assert(token_parses(
                                        def.kind,
                                        tok_at(views_of(toks@), start as int, j as int),
                                    ));
                                }
                            }
                        }
                        return Err(PCDError::new_parse_error(line_no, "invalid numeric literal"));
                    },
                }
                j = j + 1;
            }
            Ok(Field::F32(vec))
        },
        ValueKind::F64 => {
            let mut vec: Vec<u64> = Vec::new();
            let mut j: usize = 0;
            while j < def.count
                invariant
                    j <= def.count,
                    start + def.count <= toks@.len(),
                    nt == toks@.len(),
                    def.kind == ValueKind::F64,
                    vec@.len() == j,
                    forall|i: int|
                        0 <= i < j ==> token_parses(
                            ValueKind::F64,
                            #[trigger] tok_at(views_of(toks@), start as int, i),
                        ) && vec@[i] as int == token_val(
                            ValueKind::F64,
                            tok_at(views_of(toks@), start as int, i),
                        ),
                decreases def.count - j,
            {
                let tk = &toks[start + j];
                match parse_double(tk.as_slice()) {
                    Some(bits) => {
                        vec.push(bits);
                        proof {
                            assert(tok_at(views_of(toks@), start as int, j as int) == toks@[start
                                + j]@);
                        }
                    },
                    None => {
                        proof {
                            assert(tok_at(views_of(toks@), start as int, j as int) == toks@[start
                                + j]@);
                            assert(!token_parses(
                                def.kind,
                                tok_at(views_of(toks@), start as int, j as int),
                            ));
                            assert(!(forall|jx: int|
                                0 <= jx < def.count ==> token_parses(
                                    def.kind,
                                    #[trigger] tok_at(views_of(toks@), start as int, jx),
                                ))) by {
                                if (forall|jx: int|
                                    0 <= jx < def.count ==> token_parses(
                                        def.kind,
                                        #[trigger] tok_at(views_of(toks@), start as int, jx),
                                    )) {
                                    assert(token_parses(
                                        def.kind,
                                        tok_at(views_of(toks@), start as int, j as int),
                                    ));
                                }
                            }
                        }
                        return Err(PCDError::new_parse_error(line_no, "invalid numeric literal"));
                    },
                }
                j = j + 1;
            }
            Ok(Field::F64(vec))
        },
    }
}

impl PcdDeserialize for DynRecord {
    open spec fn spec_is_dynamic() -> bool {
        true
    }

    open spec fn spec_read_spec() -> Seq<(Option<Seq<char>>, ValueKind, Option<usize>)> {
        Seq::empty()
    }

    open spec fn spec_chunk_len(defs: Seq<FieldDef>) -> int {
        schema_chunk_len(defs)
    }

    open spec fn chunk_encodes(v: Self, defs: Seq<FieldDef>, bytes: Seq<u8>) -> bool {
        consistent(v.0@, defs) && record_chunk(v.0@) == bytes
    }

    open spec fn line_token_count(defs: Seq<FieldDef>) -> int {
        total_count_of(defs)
    }

    open spec fn line_parses(defs: Seq<FieldDef>, ts: Seq<Seq<u8>>) -> bool {
        dyn_line_parses(defs, ts)
    }

    open spec fn line_decodes(v: Self, defs: Seq<FieldDef>, ts: Seq<Seq<u8>>) -> bool {
        dyn_line_decodes(v.0@, defs, ts)
    }

    fn is_dynamic() -> (r: bool) {
        true
    }

    /// A dynamic record has no static specification; the empty row list is
    /// its sentinel.
    fn read_spec() -> (r: Vec<(Option<String>, ValueKind, Option<usize>)>) {
        Vec::new()
    }

    fn read_chunk(reader: &mut MemReader, field_defs: &Schema) -> (r: Result<Self, PCDError>) {
        let ghost defs: Seq<FieldDef> = field_defs@;
        let ghost p0: int = old(reader).pos as int;
        let mut fields: Vec<Field> = Vec::new();
        let mut i: usize = 0;
        proof {
            assert(defs.take(0) =~= Seq::<FieldDef>::empty());
            assert(old(reader).buf@.subrange(p0, p0) =~= Seq::<u8>::empty());
        }
        while i < field_defs.fields.len()
            invariant
                reader.wf(),
                reader.buf == old(reader).buf,
                reader.line == old(reader).line,
                defs == field_defs@,
                i <= defs.len(),
                p0 == old(reader).pos as int,
                p0 <= reader.pos <= reader.buf@.len(),
                reader.pos == p0 + schema_chunk_len(defs.take(i as int)),
                fields@.len() == i,
                consistent(fields@, defs.take(i as int)),
                record_chunk(fields@) == old(reader).buf@.subrange(p0, reader.pos as int),
            decreases defs.len() - i,
        {
            let def = &field_defs.fields[i];
            let ghost pj: int = reader.pos as int;
            proof {
                lemma_schema_chunk_len_parts(defs, i as int);
                lemma_schema_chunk_len_skip_step(defs, i as int);
                lemma_schema_chunk_len_nonneg(defs.skip(i as int + 1));
            }
            let f = match read_field(reader, def) {
                Ok(f) => f,
                Err(e) => {
                    return Err(e);
                },
            };
            let ghost fs0: Seq<Field> = fields@;
            fields.push(f);
            proof {
                assert(fields@.drop_last() =~= fs0);
                assert(old(reader).buf@.subrange(p0, reader.pos as int) =~= old(
                    reader,
                ).buf@.subrange(p0, pj) + old(reader).buf@.subrange(pj, reader.pos as int));
                assert(defs.take(i as int + 1).drop_last() =~= defs.take(i as int));
                assert(defs.take(i as int + 1).last() == defs[i as int]);
            }
            i = i + 1;
        }
        proof {
            assert(defs.take(defs.len() as int) =~= defs);
        }
        Ok(DynRecord(fields))
    }

    fn read_line(reader: &mut MemReader, field_defs: &Schema) -> (r: Result<Self, PCDError>) {
        let ghost defs: Seq<FieldDef> = field_defs@;
        let line_no: usize = reader.line_number();
        let lineb: Vec<u8> = reader.read_line_bytes();
        let toks: Vec<Vec<u8>> = split_tokens(lineb.as_slice());
        let ghost ts: Seq<Seq<u8>> = split_ws(lineb@);
        proof {
            assert(views_of(toks@) =~= ts);
        }
        let mut expected: usize = 0;
        let mut i: usize = 0;
        proof {
            assert(defs.take(0) =~= Seq::<FieldDef>::empty());
        }
        while i < field_defs.fields.len()
            invariant
                i <= defs.len(),
                defs == field_defs@,
                expected == total_count_of(defs.take(i as int)),
                total_count_of(defs) <= usize::MAX,
            decreases defs.len() - i,
        {
            let def = &field_defs.fields[i];
            proof {
                lemma_total_count_parts(defs, i as int + 1);
                lemma_total_count_nonneg(defs.skip(i as int + 1));
                assert(defs.take(i as int + 1).drop_last() =~= defs.take(i as int));
                assert(defs.take(i as int + 1).last() == defs[i as int]);
            }
            expected = expected + def.count;
            i = i + 1;
        }
        proof {
            assert(defs.take(defs.len() as int) =~= defs);
        }
        if toks.len() != expected {
            return Err(PCDError::new_text_token_mismatch_error(expected, toks.len()));
        }
        let mut fields: Vec<Field> = Vec::new();
        let mut t: usize = 0;
        let mut fi: usize = 0;
        proof {
            assert(defs.take(0) =~= Seq::<FieldDef>::empty());
        }
        while fi < field_defs.fields.len()
            invariant
                reader.wf(),
                reader.buf == old(reader).buf,
                reader.line == old(reader).line + 1,
                reader.pos == line_end(old(reader).buf@, old(reader).pos as int),
                ts == split_ws(
                    old(reader).buf@.subrange(
                        old(reader).pos as int,
                        line_end(old(reader).buf@, old(reader).pos as int),
                    ),
                ),
                line_no == old(reader).line,
                fi <= defs.len(),
                defs == field_defs@,
                ts == views_of(toks@),
                ts.len() == total_count_of(defs),
                total_count_of(defs) <= usize::MAX,
                t == total_count_of(defs.take(fi as int)),
                0 <= t <= ts.len(),
                fields@.len() == fi,
                consistent(fields@, defs.take(fi as int)),
                forall|gi: int, j: int|
                    0 <= gi < fi && 0 <= j < defs[gi].count ==> token_parses(
                        defs[gi].kind,
                        #[trigger] tok_at(ts, total_count_of(defs.take(gi)), j),
                    ),
                forall|gi: int, j: int|
                    0 <= gi < fi && 0 <= j < defs[gi].count ==> fields@[gi].vals()[j] == token_val(
                        defs[gi].kind,
                        #[trigger] tok_at(ts, total_count_of(defs.take(gi)), j),
                    ),
            decreases defs.len() - fi,
        {
            let def = &field_defs.fields[fi];
            proof {
                lemma_total_count_parts(defs, fi as int);
                lemma_total_count_skip_step(defs, fi as int);
                lemma_total_count_nonneg(defs.skip(fi as int + 1));
                lemma_total_count_nonneg(defs.take(fi as int));
            }
            let f = match parse_field(&toks, t, def, line_no) {
                Ok(f) => f,
                Err(e) => {
                    proof {
                        if dyn_line_parses(defs, ts) {
                            assert forall|j: int| 0 <= j < def.count implies token_parses(
                                def.kind,
                                #[trigger] tok_at(views_of(toks@), t as int, j),
                            ) by {
                                assert(token_parses(
                                    defs[fi as int].kind,
                                    tok_at(ts, total_count_of(defs.take(fi as int)), j),
                                ));
                            }
                            assert(false);
                        }
                    }
                    return Err(e);
                },
            };
            let ghost fs0: Seq<Field> = fields@;
            fields.push(f);
            proof {
                assert(fields@.drop_last() =~= fs0);
                assert(defs.take(fi as int + 1).drop_last() =~= defs.take(fi as int));
                assert(defs.take(fi as int + 1).last() == defs[fi as int]);
                assert forall|j: int| 0 <= j < defs[fi as int].count implies token_parses(
                    defs[fi as int].kind,
                    #[trigger] tok_at(ts, total_count_of(defs.take(fi as int)), j),
                ) && fields@[fi as int].vals()[j] == token_val(
                    defs[fi as int].kind,
                    tok_at(ts, total_count_of(defs.take(fi as int)), j),
                ) by {
                    assert(token_parses(def.kind, tok_at(views_of(toks@), t as int, j)));
                    assert(f.vals()[j] == token_val(def.kind, tok_at(views_of(toks@), t as int, j)));
                }
            }
            t = t + def.count;
            fi = fi + 1;
        }
        proof {
            assert(defs.take(defs.len() as int) =~= defs);
        }
        Ok(DynRecord(fields))
    }
}

/// A bare `u8` scalar behaves as a single-field record of kind `U8` with
/// count one; the schema is not consulted.
impl PcdDeserialize for u8 {
    open spec fn spec_is_dynamic() -> bool {
        false
    }

    open spec fn spec_read_spec() -> Seq<(Option<Seq<char>>, ValueKind, Option<usize>)> {
        seq![(None, ValueKind::U8, Some(1usize))]
    }

    open spec fn spec_chunk_len(defs: Seq<FieldDef>) -> int {
        1
    }

    open spec fn chunk_encodes(v: Self, defs: Seq<FieldDef>, bytes: Seq<u8>) -> bool {
        bytes == elem_bytes(ValueKind::U8, v as int)
    }

    open spec fn line_token_count(defs: Seq<FieldDef>) -> int {
        1
    }

    open spec fn line_parses(defs: Seq<FieldDef>, ts: Seq<Seq<u8>>) -> bool {
        token_parses(ValueKind::U8, ts[0])
    }

    open spec fn line_decodes(v: Self, defs: Seq<FieldDef>, ts: Seq<Seq<u8>>) -> bool {
        v as int == token_val(ValueKind::U8, ts[0])
    }

    fn is_dynamic() -> (r: bool) {
        false
    }

    fn read_spec() -> (r: Vec<(Option<String>, ValueKind, Option<usize>)>) {
        let mut v: Vec<(Option<String>, ValueKind, Option<usize>)> = Vec::new();
        v.push((None, ValueKind::U8, Some(1)));
        v
    }

    fn read_chunk(reader: &mut MemReader, field_defs: &Schema) -> (r: Result<Self, PCDError>) {
        let raw: Vec<u64> = match read_raw(reader, 1, 1) {
            Ok(u) => u,
            Err(e) => {
                return Err(e);
            },
        };
        let u: u64 = raw[0];
        proof {
            lemma_pow256_values();
        }
        let v: u8 = u as u8;
        proof {
            assert(wrap(v as int, kind_mod(ValueKind::U8)) == u as int);
            assert(raw@.drop_last() =~= Seq::<u64>::empty());
            lemma_le_bytes_len(u as int, 1);
            assert(raw_bytes(raw@, 1) =~= le_bytes(u as int, 1));
        }
        Ok(v)
    }

    fn read_line(reader: &mut MemReader, field_defs: &Schema) -> (r: Result<Self, PCDError>) {
        let line_no: usize = reader.line_number();
        let lineb: Vec<u8> = reader.read_line_bytes();
        let toks: Vec<Vec<u8>> = split_tokens(lineb.as_slice());
        let ghost ts: Seq<Seq<u8>> = split_ws(lineb@);
        proof {
            assert(views_of(toks@) =~= ts);
        }
        if toks.len() != 1 {
            return Err(PCDError::new_text_token_mismatch_error(1, toks.len()));
        }
        let tk = &toks[0];
        proof {
            assert(ts[0] == toks@[0]@);
        }
        match parse_int_in(tk.as_slice(), 0, 0xff) {
            Some(v) => Ok(v as u8),
            None => Err(PCDError::new_parse_error(line_no, "invalid integer literal")),
        }
    }
}

/// A bare `i8` scalar behaves as a single-field record of kind `I8` with
/// count one; the schema is not consulted.
impl PcdDeserialize for i8 {
    open spec fn spec_is_dynamic() -> bool {
        false
    }

    open spec fn spec_read_spec() -> Seq<(Option<Seq<char>>, ValueKind, Option<usize>)> {
        seq![(None, ValueKind::I8, Some(1usize))]
    }

    open spec fn spec_chunk_len(defs: Seq<FieldDef>) -> int {
        1
    }

    open spec fn chunk_encodes(v: Self, defs: Seq<FieldDef>, bytes: Seq<u8>) -> bool {
        bytes == elem_bytes(ValueKind::I8, v as int)
    }

    open spec fn line_token_count(defs: Seq<FieldDef>) -> int {
        1
    }

    open spec fn line_parses(defs: Seq<FieldDef>, ts: Seq<Seq<u8>>) -> bool {
        token_parses(ValueKind::I8, ts[0])
    }

    open spec fn line_decodes(v: Self, defs: Seq<FieldDef>, ts: Seq<Seq<u8>>) -> bool {
        v as int == token_val(ValueKind::I8, ts[0])
    }

    fn is_dynamic() -> (r: bool) {
        false
    }

    fn read_spec() -> (r: Vec<(Option<String>, ValueKind, Option<usize>)>) {
        let mut v: Vec<(Option<String>, ValueKind, Option<usize>)> = Vec::new();
        v.push((None, ValueKind::I8, Some(1)));
        v
    }

    fn read_chunk(reader: &mut MemReader, field_defs: &Schema) -> (r: Result<Self, PCDError>) {
        let raw: Vec<u64> = match read_raw(reader, 1, 1) {
            Ok(u) => u,
            Err(e) => {
                return Err(e);
            },
        };
        let u: u64 = raw[0];
        proof {
            lemma_pow256_values();
        }
        let v: i8 = if u >= 0x80 {
            ((u as i64) - 0x100) as i8
        } else {
            u as i8
        };
        proof {
            assert(v as int == unwrap(u as int, 0x100));
            assert(wrap(v as int, kind_mod(ValueKind::I8)) == u as int);
            assert(raw@.drop_last() =~= Seq::<u64>::empty());
            lemma_le_bytes_len(u as int, 1);
            assert(raw_bytes(raw@, 1) =~= le_bytes(u as int, 1));
        }
        Ok(v)
    }

    fn read_line(reader: &mut MemReader, field_defs: &Schema) -> (r: Result<Self, PCDError>) {
        let line_no: usize = reader.line_number();
        let lineb: Vec<u8> = reader.read_line_bytes();
        let toks: Vec<Vec<u8>> = split_tokens(lineb.as_slice());
        let ghost ts: Seq<Seq<u8>> = split_ws(lineb@);
        proof {
            assert(views_of(toks@) =~= ts);
        }
        if toks.len() != 1 {
            return Err(PCDError::new_text_token_mismatch_error(1, toks.len()));
        }
        let tk = &toks[0];
        proof {
            assert(ts[0] == toks@[0]@);
        }
        match parse_int_in(tk.as_slice(), -0x80, 0x7f) {
            Some(v) => Ok(v as i8),
            None => Err(PCDError::new_parse_error(line_no, "invalid integer literal")),
        }
    }
}

/// A bare `u16` scalar behaves as a single-field record of kind `U16` with
/// count one; the schema is not consulted.
impl PcdDeserialize for u16 {
    open spec fn spec_is_dynamic() -> bool {
        false
    }

    open spec fn spec_read_spec() -> Seq<(Option<Seq<char>>, ValueKind, Option<usize>)> {
        seq![(None, ValueKind::U16, Some(1usize))]
    }

    open spec fn spec_chunk_len(defs: Seq<FieldDef>) -> int {
        2
    }

    open spec fn chunk_encodes(v: Self, defs: Seq<FieldDef>, bytes: Seq<u8>) -> bool {
        bytes == elem_bytes(ValueKind::U16, v as int)
    }

    open spec fn line_token_count(defs: Seq<FieldDef>) -> int {
        1
    }

    open spec fn line_parses(defs: Seq<FieldDef>, ts: Seq<Seq<u8>>) -> bool {
        token_parses(ValueKind::U16, ts[0])
    }

    open spec fn line_decodes(v: Self, defs: Seq<FieldDef>, ts: Seq<Seq<u8>>) -> bool {
        v as int == token_val(ValueKind::U16, ts[0])
    }

    fn is_dynamic() -> (r: bool) {
        false
    }

    fn read_spec() -> (r: Vec<(Option<String>, ValueKind, Option<usize>)>) {
        let mut v: Vec<(Option<String>, ValueKind, Option<usize>)> = Vec::new();
        v.push((None, ValueKind::U16, Some(1)));
        v
    }

    fn read_chunk(reader: &mut MemReader, field_defs: &Schema) -> (r: Result<Self, PCDError>) {
        let raw: Vec<u64> = match read_raw(reader, 1, 2) {
            Ok(u) => u,
            Err(e) => {
                return Err(e);
            },
        };
        let u: u64 = raw[0];
        proof {
            lemma_pow256_values();
        }
        let v: u16 = u as u16;
        proof {
            assert(wrap(v as int, kind_mod(ValueKind::U16)) == u as int);
            assert(raw@.drop_last() =~= Seq::<u64>::empty());
            lemma_le_bytes_len(u as int, 2);
            assert(raw_bytes(raw@, 2) =~= le_bytes(u as int, 2));
        }
        Ok(v)
    }

    fn read_line(reader: &mut MemReader, field_defs: &Schema) -> (r: Result<Self, PCDError>) {
        let line_no: usize = reader.line_number();
        let lineb: Vec<u8> = reader.read_line_bytes();
        let toks: Vec<Vec<u8>> = split_tokens(lineb.as_slice());
        let ghost ts: Seq<Seq<u8>> = split_ws(lineb@);
        proof {
            assert(views_of(toks@) =~= ts);
        }
        if toks.len() != 1 {
            return Err(PCDError::new_text_token_mismatch_error(1, toks.len()));
        }
        let tk = &toks[0];
        proof {
            assert(ts[0] == toks@[0]@);
        }
        match parse_int_in(tk.as_slice(), 0, 0xffff) {
            Some(v) => Ok(v as u16),
            None => Err(PCDError::new_parse_error(line_no, "invalid integer literal")),
        }
    }
}

/// A bare `i16` scalar behaves as a single-field record of kind `I16` with
/// count one; the schema is not consulted.
impl PcdDeserialize for i16 {
    open spec fn spec_is_dynamic() -> bool {
        false
    }

    open spec fn spec_read_spec() -> Seq<(Option<Seq<char>>, ValueKind, Option<usize>)> {
        seq![(None, ValueKind::I16, Some(1usize))]
    }

    open spec fn spec_chunk_len(defs: Seq<FieldDef>) -> int {
        2
    }

    open spec fn chunk_encodes(v: Self, defs: Seq<FieldDef>, bytes: Seq<u8>) -> bool {
        bytes == elem_bytes(ValueKind::I16, v as int)
    }

    open spec fn line_token_count(defs: Seq<FieldDef>) -> int {
        1
    }

    open spec fn line_parses(defs: Seq<FieldDef>, ts: Seq<Seq<u8>>) -> bool {
        token_parses(ValueKind::I16, ts[0])
    }

    open spec fn line_decodes(v: Self, defs: Seq<FieldDef>, ts: Seq<Seq<u8>>) -> bool {
        v as int == token_val(ValueKind::I16, ts[0])
    }

    fn is_dynamic() -> (r: bool) {
        false
    }

    fn read_spec() -> (r: Vec<(Option<String>, ValueKind, Option<usize>)>) {
        let mut v: Vec<(Option<String>, ValueKind, Option<usize>)> = Vec::new();
        v.push((None, ValueKind::I16, Some(1)));
        v
    }

    fn read_chunk(reader: &mut MemReader, field_defs: &Schema) -> (r: Result<Self, PCDError>) {
        let raw: Vec<u64> = match read_raw(reader, 1, 2) {
            Ok(u) => u,
            Err(e) => {
                return Err(e);
            },
        };
        let u: u64 = raw[0];
        proof {
            lemma_pow256_values();
        }
        let v: i16 = if u >= 0x8000 {
            ((u as i64) - 0x10000) as i16
        } else {
            u as i16
        };
        proof {
            assert(v as int == unwrap(u as int, 0x10000));
            assert(wrap(v as int, kind_mod(ValueKind::I16)) == u as int);
            assert(raw@.drop_last() =~= Seq::<u64>::empty());
            lemma_le_bytes_len(u as int, 2);
            assert(raw_bytes(raw@, 2) =~= le_bytes(u as int, 2));
        }
        Ok(v)
    }

    fn read_line(reader: &mut MemReader, field_defs: &Schema) -> (r: Result<Self, PCDError>) {
        let line_no: usize = reader.line_number();
        let lineb: Vec<u8> = reader.read_line_bytes();
        let toks: Vec<Vec<u8>> = split_tokens(lineb.as_slice());
        let ghost ts: Seq<Seq<u8>> = split_ws(lineb@);
        proof {
            assert(views_of(toks@) =~= ts);
        }
        if toks.len() != 1 {
            return Err(PCDError::new_text_token_mismatch_error(1, toks.len()));
        }
        let tk = &toks[0];
        proof {
            assert(ts[0] == toks@[0]@);
        }
        match parse_int_in(tk.as_slice(), -0x8000, 0x7fff) {
            Some(v) => Ok(v as i16),
            None => Err(PCDError::new_parse_error(line_no, "invalid integer literal")),
        }
    }
}

/// A bare `u32` scalar behaves as a single-field record of kind `U32` with
/// count one; the schema is not consulted.
impl PcdDeserialize for u32 {
    open spec fn spec_is_dynamic() -> bool {
        false
    }

    open spec fn spec_read_spec() -> Seq<(Option<Seq<char>>, ValueKind, Option<usize>)> {
        seq![(None, ValueKind::U32, Some(1usize))]
    }

    open spec fn spec_chunk_len(defs: Seq<FieldDef>) -> int {
        4
    }

    open spec fn chunk_encodes(v: Self, defs: Seq<FieldDef>, bytes: Seq<u8>) -> bool {
        bytes == elem_bytes(ValueKind::U32, v as int)
    }

    open spec fn line_token_count(defs: Seq<FieldDef>) -> int {
        1
    }

    open spec fn line_parses(defs: Seq<FieldDef>, ts: Seq<Seq<u8>>) -> bool {
        token_parses(ValueKind::U32, ts[0])
    }

    open spec fn line_decodes(v: Self, defs: Seq<FieldDef>, ts: Seq<Seq<u8>>) -> bool {
        v as int == token_val(ValueKind::U32, ts[0])
    }

    fn is_dynamic() -> (r: bool) {
        false
    }

    fn read_spec() -> (r: Vec<(Option<String>, ValueKind, Option<usize>)>) {
        let mut v: Vec<(Option<String>, ValueKind, Option<usize>)> = Vec::new();
        v.push((None, ValueKind::U32, Some(1)));
        v
    }

    fn read_chunk(reader: &mut MemReader, field_defs: &Schema) -> (r: Result<Self, PCDError>) {
        let raw: Vec<u64> = match read_raw(reader, 1, 4) {
            Ok(u) => u,
            Err(e) => {
                return Err(e);
            },
        };
        let u: u64 = raw[0];
        proof {
            lemma_pow256_values();
        }
        let v: u32 = u as u32;
        proof {
            assert(wrap(v as int, kind_mod(ValueKind::U32)) == u as int);
            assert(raw@.drop_last() =~= Seq::<u64>::empty());
            lemma_le_bytes_len(u as int, 4);
            assert(raw_bytes(raw@, 4) =~= le_bytes(u as int, 4));
        }
        Ok(v)
    }

    fn read_line(reader: &mut MemReader, field_defs: &Schema) -> (r: Result<Self, PCDError>) {
        let line_no: usize = reader.line_number();
        let lineb: Vec<u8> = reader.read_line_bytes();
        let toks: Vec<Vec<u8>> = split_tokens(lineb.as_slice());
        let ghost ts: Seq<Seq<u8>> = split_ws(lineb@);
        proof {
            assert(views_of(toks@) =~= ts);
        }
        if toks.len() != 1 {
            return Err(PCDError::new_text_token_mismatch_error(1, toks.len()));
        }
        let tk = &toks[0];
        proof {
            assert(ts[0] == toks@[0]@);
        }
        match parse_int_in(tk.as_slice(), 0, 0xffff_ffff) {
            Some(v) => Ok(v as u32),
            None => Err(PCDError::new_parse_error(line_no, "invalid integer literal")),
        }
    }
}

/// A bare `i32` scalar behaves as a single-field record of kind `I32` with
/// count one; the schema is not consulted.
impl PcdDeserialize for i32 {
    open spec fn spec_is_dynamic() -> bool {
        false
    }

    open spec fn spec_read_spec() -> Seq<(Option<Seq<char>>, ValueKind, Option<usize>)> {
        seq![(None, ValueKind::I32, Some(1usize))]
    }

    open spec fn spec_chunk_len(defs: Seq<FieldDef>) -> int {
        4
    }

    open spec fn chunk_encodes(v: Self, defs: Seq<FieldDef>, bytes: Seq<u8>) -> bool {
        bytes == elem_bytes(ValueKind::I32, v as int)
    }

    open spec fn line_token_count(defs: Seq<FieldDef>) -> int {
        1
    }

    open spec fn line_parses(defs: Seq<FieldDef>, ts: Seq<Seq<u8>>) -> bool {
        token_parses(ValueKind::I32, ts[0])
    }

    open spec fn line_decodes(v: Self, defs: Seq<FieldDef>, ts: Seq<Seq<u8>>) -> bool {
        v as int == token_val(ValueKind::I32, ts[0])
    }

    fn is_dynamic() -> (r: bool) {
        false
    }

    fn read_spec() -> (r: Vec<(Option<String>, ValueKind, Option<usize>)>) {
        let mut v: Vec<(Option<String>, ValueKind, Option<usize>)> = Vec::new();
        v.push((None, ValueKind::I32, Some(1)));
        v
    }

    fn read_chunk(reader: &mut MemReader, field_defs: &Schema) -> (r: Result<Self, PCDError>) {
        let raw: Vec<u64> = match read_raw(reader, 1, 4) {
            Ok(u) => u,
            Err(e) => {
                return Err(e);
            },
        };
        let u: u64 = raw[0];
        proof {
            lemma_pow256_values();
        }
        let v: i32 = if u >= 0x8000_0000 {
            ((u as i64) - 0x1_0000_0000) as i32
        } else {
            u as i32
        };
        proof {
            assert(v as int == unwrap(u as int, 0x1_0000_0000));
            assert(wrap(v as int, kind_mod(ValueKind::I32)) == u as int);
            assert(raw@.drop_last() =~= Seq::<u64>::empty());
            lemma_le_bytes_len(u as int, 4);
            assert(raw_bytes(raw@, 4) =~= le_bytes(u as int, 4));
        }
        Ok(v)
    }

    fn read_line(reader: &mut MemReader, field_defs: &Schema) -> (r: Result<Self, PCDError>) {
        let line_no: usize = reader.line_number();
        let lineb: Vec<u8> = reader.read_line_bytes();
        let toks: Vec<Vec<u8>> = split_tokens(lineb.as_slice());
        let ghost ts: Seq<Seq<u8>> = split_ws(lineb@);
        proof {
            assert(views_of(toks@) =~= ts);
        }
        if toks.len() != 1 {
            return Err(PCDError::new_text_token_mismatch_error(1, toks.len()));
        }
        let tk = &toks[0];
        proof {
            assert(ts[0] == toks@[0]@);
        }
        match parse_int_in(tk.as_slice(), -0x8000_0000, 0x7fff_ffff) {
            Some(v) => Ok(v as i32),
            None => Err(PCDError::new_parse_error(line_no, "invalid integer literal")),
        }
    }
}

} // verus!
