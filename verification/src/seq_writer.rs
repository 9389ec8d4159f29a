//! The sequential writer: streams encoded points to a random-access sink,
//! emits the textual header once, and keeps the header's POINTS field equal
//! to the number of points pushed so far by patching it in place after every
//! push.

use crate::dec_text::{dec_nat, dec_u64, lemma_dec_nat_len_mono};
use crate::error::PCDError;
use crate::float_text::{double_dec, render_double};
use crate::metas::{DataKind, FieldDef, Schema, ValueKind, ViewPoint};
use crate::record::{def_models, kind_width, tokens_bytes, views_of, lemma_tokens_bytes_concat, PcdSerialize};
use crate::stream::{splice, MemWriter};
use vstd::prelude::*;
use vstd::string::StringSliceAdditionalSpecFns;

verus! {

/// `n` space bytes.
pub open spec fn spaces(n: nat) -> Seq<u8> {
    Seq::new(n, |i: int| 32u8)
}

/// The header names row: one token per field, its name's UTF-8 bytes.
pub open spec fn name_tokens(defs: Seq<FieldDef>) -> Seq<Seq<u8>> {
    Seq::new(defs.len(), |i: int| utf8_of(defs[i].name@))
}

/// The UTF-8 bytes of a character sequence.
pub uninterp spec fn utf8_of(s: Seq<char>) -> Seq<u8>;

/// Relies on `str::as_bytes`: the UTF-8 bytes of a string, a function of its
/// characters alone.
#[verifier::external_body]
fn string_bytes(s: &String) -> (r: Vec<u8>)
    ensures
        r@ == utf8_of(s@),
{
    s.as_bytes().to_vec()
}

/// The header SIZE row: each field's per-element byte width in decimal.
pub open spec fn size_tokens(defs: Seq<FieldDef>) -> Seq<Seq<u8>> {
    Seq::new(defs.len(), |i: int| dec_nat(kind_width(defs[i].kind)))
}

/// The header TYPE row: `U`, `I` or `F` per field.
pub open spec fn type_tokens(defs: Seq<FieldDef>) -> Seq<Seq<u8>> {
    Seq::new(defs.len(), |i: int| seq![defs[i].kind.spec_type_byte()])
}

/// The header COUNT row: each field's element count in decimal.
pub open spec fn count_tokens(defs: Seq<FieldDef>) -> Seq<Seq<u8>> {
    Seq::new(defs.len(), |i: int| dec_nat(defs[i].count as int))
}

/// The header VIEWPOINT row: the seven pose components in order.
pub open spec fn viewpoint_tokens(vp: ViewPoint) -> Seq<Seq<u8>> {
    seq![
        double_dec(vp.tx),
        double_dec(vp.ty),
        double_dec(vp.tz),
        double_dec(vp.qw),
        double_dec(vp.qx),
        double_dec(vp.qy),
        double_dec(vp.qz),
    ]
}

/// One header row: its keyword and a space, the given tokens joined by
/// single spaces, and a closing line feed.
pub open spec fn header_row(label: Seq<u8>, toks: Seq<Seq<u8>>) -> Seq<u8> {
    label + tokens_bytes(toks, true) + seq![10u8]
}

/// Everything the header holds before the reserved POINTS digits: the banner,
/// the version, the five layout rows, the grid size, the viewpoint, and the
/// opening of the POINTS line.
pub open spec fn header_prefix(
    defs: Seq<FieldDef>,
    width: u64,
    height: u64,
    vp: ViewPoint,
) -> Seq<u8> {
    ("# .PCD v.7 - Point Cloud Data file format\n").spec_bytes() + (
    "VERSION .7\n").spec_bytes() + header_row(("FIELDS ").spec_bytes(), name_tokens(defs))
        + header_row(("SIZE ").spec_bytes(), size_tokens(defs)) + header_row(
        ("TYPE ").spec_bytes(),
        type_tokens(defs),
    ) + header_row(("COUNT ").spec_bytes(), count_tokens(defs)) + (("WIDTH ").spec_bytes()
        + dec_nat(width as int) + seq![10u8]) + (("HEIGHT ").spec_bytes() + dec_nat(height as int)
        + seq![10u8]) + header_row(("VIEWPOINT ").spec_bytes(), viewpoint_tokens(vp)) + (
    "POINTS ").spec_bytes()
}

/// What follows the reserved POINTS digits: the line feed that closes the
/// POINTS line, then the DATA line naming the body mode.
pub open spec fn header_suffix(kind: DataKind) -> Seq<u8> {
    seq![10u8] + (match kind {
        DataKind::ASCII => ("DATA ascii\n").spec_bytes(),
        DataKind::Binary => ("DATA binary\n").spec_bytes(),
    })
}

/// The number of decimal digits reserved for the POINTS field: enough for
/// the largest point count this platform can address.
pub open spec fn count_width() -> nat {
    dec_nat(usize::MAX as int).len()
}

/// The reserved POINTS digits after `n` successful pushes: blank before the
/// first push, then the count left-aligned and padded with spaces.
pub open spec fn points_field(n: int, w: nat) -> Seq<u8> {
    if n == 0 {
        spaces(w)
    } else {
        dec_nat(n) + spaces((w - dec_nat(n).len()) as nat)
    }
}

/// Holds the header data a writer needs, including the record contract's
/// static write-specification.
pub struct SeqWriterBuilder<T: PcdSerialize> {
    pub width: u64,
    pub height: u64,
    pub viewpoint: ViewPoint,
    pub data_kind: DataKind,
    pub record_spec: Schema,
    pub marker: core::marker::PhantomData<T>,
}

impl<T: PcdSerialize> SeqWriterBuilder<T> {
    /// Creates a builder from the header data and `T`'s static
    /// write-specification. A dynamic contract has no static specification
    /// and is rejected.
    pub fn new(width: u64, height: u64, viewpoint: ViewPoint, data_kind: DataKind) -> (r: Result<
        SeqWriterBuilder<T>,
        PCDError,
    >)
        ensures
            r is Err <==> T::spec_is_dynamic(),
            r matches Err(e) ==> e matches PCDError::InvalidArgumentError { .. },
            r matches Ok(b) ==> b.width == width && b.height == height && b.viewpoint == viewpoint
                && b.data_kind == data_kind && b.record_spec@.len() == T::spec_write_spec().len()
                && (forall|i: int|
                0 <= i < b.record_spec@.len() ==> def_models(
                    #[trigger] b.record_spec@[i],
                    T::spec_write_spec()[i],
                )),
    {
        if T::is_dynamic() {
            return Err(
                PCDError::new_invalid_argument_error(
                    "a dynamic record contract has no static write-specification",
                ),
            );
        }
        let record_spec = T::write_spec();
        Ok(
            SeqWriterBuilder {
                width,
                height,
                viewpoint,
                data_kind,
                record_spec,
                marker: core::marker::PhantomData,
            },
        )
    }

    /// Builds the writer over a fresh sink: emits the header, reserving the
    /// POINTS digits, and stands ready to stream points.
    pub fn from_writer(self, writer: MemWriter) -> (r: Result<SeqWriter<T>, PCDError>)
        requires
            writer.buf@.len() == 0,
            writer.pos == 0,
        ensures
            r is Ok,
            r matches Ok(w) ==> w.wf() && w.builder == self && w.num_records == 0 && w.body@
                == Seq::<u8>::empty(),
    {
        let w = SeqWriter::new(self, writer);
        Ok(w)
    }
}

/// Streams points to a random-access sink. The header is written once at
/// construction; after every successful push the POINTS field is rewritten
/// in place, so the header always names the number of points pushed so far.
pub struct SeqWriter<T: PcdSerialize> {
    pub writer: MemWriter,
    pub builder: SeqWriterBuilder<T>,
    pub num_records: usize,
    pub points_arg_begin: usize,
    pub points_arg_width: usize,
    pub body: Ghost<Seq<u8>>,
}

impl<T: PcdSerialize> SeqWriter<T> {
    /// The writer's invariant: the sink holds exactly the header, the POINTS
    /// field for the current count, and the body pushed so far, with the
    /// cursor parked at the end for the next append.
    pub open spec fn wf(self) -> bool {
        &&& self.writer.wf()
        &&& self.points_arg_width as int == count_width()
        &&& self.points_arg_begin as int == header_prefix(
            self.builder.record_spec@,
            self.builder.width,
            self.builder.height,
            self.builder.viewpoint,
        ).len()
        &&& self.writer.buf@ == header_prefix(
            self.builder.record_spec@,
            self.builder.width,
            self.builder.height,
            self.builder.viewpoint,
        ) + points_field(self.num_records as int, count_width()) + header_suffix(
            self.builder.data_kind,
        ) + self.body@
        &&& self.writer.pos == self.writer.buf@.len()
    }

    /// Emits the header into a fresh sink and records where the POINTS
    /// digits were reserved.
    fn new(builder: SeqWriterBuilder<T>, mut writer: MemWriter) -> (r: SeqWriter<T>)
        requires
            writer.buf@.len() == 0,
            writer.pos == 0,
        ensures
            r.wf(),
            r.builder == builder,
            r.num_records == 0,
            r.body@ == Seq::<u8>::empty(),
    {
        let (points_arg_begin, points_arg_width) = write_meta(&builder, &mut writer);
        SeqWriter {
            writer,
            builder,
            num_records: 0,
            points_arg_begin,
            points_arg_width,
            body: Ghost(Seq::empty()),
        }
    }

    /// The encoding one record appends under this writer's mode and schema.
    pub open spec fn spec_encoding(self, record: T) -> Seq<u8> {
        match self.builder.data_kind {
            DataKind::Binary => record.spec_chunk(self.builder.record_spec@),
            DataKind::ASCII => record.spec_line(self.builder.record_spec@),
        }
    }

    /// Writes one point: encodes it in the configured mode, appends the
    /// encoding, and patches the POINTS field to the new count. A record
    /// that does not fit the schema fails with a schema mismatch, changes
    /// nothing, and leaves the count as it was.
    #[verifier::rlimit(100)]
    #[verifier::spinoff_prover]
    pub fn push(&mut self, record: &T) -> (r: Result<(), PCDError>)
        requires
            old(self).wf(),
            old(self).num_records < usize::MAX,
        ensures
            final(self).wf(),
            final(self).builder == old(self).builder,
            final(self).points_arg_begin == old(self).points_arg_begin,
            final(self).points_arg_width == old(self).points_arg_width,
            r is Ok <==> record.wf_for(old(self).builder.record_spec@) && old(
                self,
            ).writer.buf@.len() + old(self).spec_encoding(*record).len() <= usize::MAX,
            r is Ok ==> final(self).num_records == old(self).num_records + 1 && final(self).body@
                == old(self).body@ + old(self).spec_encoding(*record),
            r is Err ==> final(self).num_records == old(self).num_records && final(self).body@
                == old(self).body@ && final(self).writer.buf@ == old(self).writer.buf@,
            !record.wf_for(old(self).builder.record_spec@) ==> (r matches Err(e) && e matches
                PCDError::SchemaMismatchError { .. }),
            r is Err && record.wf_for(old(self).builder.record_spec@) ==> (r matches Err(e) && (
            e matches PCDError::IoError { .. })),
    {
        let res: Result<(), PCDError> = match self.builder.data_kind {
            DataKind::Binary => record.write_chunk(&mut self.writer, &self.builder.record_spec),
            DataKind::ASCII => record.write_line(&mut self.writer, &self.builder.record_spec),
        };
        match res {
            Ok(()) => {},
            Err(e) => {
                return Err(e);
            },
        }
        self.num_records = self.num_records + 1;
        let ghost n: int = self.num_records as int;
        let ghost hp: Seq<u8> = header_prefix(
            self.builder.record_spec@,
            self.builder.width,
            self.builder.height,
            self.builder.viewpoint,
        );
        let ghost mid: Seq<u8> = header_suffix(self.builder.data_kind) + old(self).body@ + old(
            self,
        ).spec_encoding(*record);
        proof {
            lemma_dec_nat_len_mono(n, usize::MAX as int);
            lemma_dec_nat_len_mono(n - 1, usize::MAX as int);
            assert(points_field(n - 1, count_width()).len() == count_width());
        }
        let eof: usize = self.writer.position();
        let buf_len: usize = self.writer.bytes().len();
        self.writer.seek_to(self.points_arg_begin);
        let mut cnt: Vec<u8> = dec_u64(self.num_records as u64);
        while cnt.len() < self.points_arg_width
            invariant
                n == self.num_records as int,
                n >= 1,
                dec_nat(n).len() <= self.points_arg_width,
                cnt@.len() >= dec_nat(n).len(),
                cnt@.len() <= self.points_arg_width,
                cnt@ == dec_nat(n) + spaces((cnt@.len() - dec_nat(n).len()) as nat),
            decreases self.points_arg_width - cnt@.len(),
        {
            cnt.push(32);
            proof {
                assert(cnt@ =~= dec_nat(n) + spaces((cnt@.len() - dec_nat(n).len()) as nat));
            }
        }
        proof {
            assert(cnt@.len() == self.points_arg_width);
            assert(cnt@ =~= points_field(n, count_width()));
        }
        let ghost b0: Seq<u8> = self.writer.buf@;
        self.writer.write_bytes(cnt.as_slice());
        proof {
            assert(splice(b0, self.points_arg_begin as int, cnt@) =~= hp + points_field(
                n,
                count_width(),
            ) + mid);
        }
        self.writer.seek_to(eof);
        self.body = Ghost(old(self).body@ + old(self).spec_encoding(*record));
        proof {
            assert(self.writer.buf@ =~= hp + points_field(n, count_width()) + header_suffix(
                self.builder.data_kind,
            ) + self.body@);
        }
        Ok(())
    }
}

/// Appends the UTF-8 bytes of `s` to `out`.
fn push_str_bytes(out: &mut Vec<u8>, s: &str)
    ensures
        final(out)@ == old(out)@ + s.spec_bytes(),
{
    let b: &[u8] = s.as_bytes();
    let mut i: usize = 0;
    while i < b.len()
        invariant
            i <= b@.len(),
            b@ == s.spec_bytes(),
            out@ == old(out)@ + b@.take(i as int),
        decreases b@.len() - i,
    {
        let x: u8 = b[i];
        out.push(x);
        proof {
            assert(out@ =~= old(out)@ + b@.take(i as int + 1));
        }
        i = i + 1;
    }
    proof {
        assert(b@.take(b@.len() as int) =~= b@);
    }
}

/// Appends `toks` to `out`, joined by single spaces.
fn push_tokens(out: &mut Vec<u8>, toks: &Vec<Vec<u8>>)
    ensures
        final(out)@ == old(out)@ + tokens_bytes(views_of(toks@), true),
{
    let ghost ts: Seq<Seq<u8>> = views_of(toks@);
    let mut j: usize = 0;
    proof {
        assert(ts.take(0) =~= Seq::<Seq<u8>>::empty());
    }
    while j < toks.len()
        invariant
            j <= toks@.len(),
            ts == views_of(toks@),
            out@ == old(out)@ + tokens_bytes(ts.take(j as int), true),
        decreases toks@.len() - j,
    {
        proof {
            assert(ts.take(j as int + 1) =~= ts.take(j as int) + seq![ts[j as int]]);
            lemma_tokens_bytes_concat(ts.take(j as int), seq![ts[j as int]], true);
            assert(seq![ts[j as int]].drop_first() =~= Seq::<Seq<u8>>::empty());
            assert(tokens_bytes(Seq::<Seq<u8>>::empty(), false) =~= Seq::<u8>::empty());
            assert(tokens_bytes(seq![ts[j as int]], j == 0) == (if j == 0 {
                Seq::<u8>::empty()
            } else {
                seq![32u8]
            }) + seq![ts[j as int]][0] + tokens_bytes(seq![ts[j as int]].drop_first(), false));
        }
        if j > 0 {
            out.push(32);
        }
        let mut tb: Vec<u8> = Vec::new();
        let tk = &toks[j];
        let mut i: usize = 0;
        while i < tk.len()
            invariant
                i <= tk@.len(),
                tb@ == tk@.take(i as int),
            decreases tk@.len() - i,
        {
            let x: u8 = tk[i];
            tb.push(x);
            proof {
                assert(tb@ =~= tk@.take(i as int + 1));
            }
            i = i + 1;
        }
        proof {
            assert(tk@.take(tk@.len() as int) =~= tk@);
        }
        out.append(&mut tb);
        proof {
            assert(out@ =~= old(out)@ + tokens_bytes(ts.take(j as int + 1), true));
        }
        j = j + 1;
    }
    proof {
        assert(ts.take(toks@.len() as int) =~= ts);
    }
}

/// Appends one header row to `out`: the label, the tokens joined by single
/// spaces, and a line feed.
fn push_row(out: &mut Vec<u8>, label: &str, toks: &Vec<Vec<u8>>)
    ensures
        final(out)@ == old(out)@ + header_row(label.spec_bytes(), views_of(toks@)),
{
    push_str_bytes(out, label);
    push_tokens(out, toks);
    out.push(10);
    proof {
        assert(out@ =~= old(out)@ + header_row(label.spec_bytes(), views_of(toks@)));
    }
}

/// Emits the whole header for `builder` into the fresh sink `writer` and
/// returns where the POINTS digits begin and how wide they are.
#[verifier::rlimit(60)]
fn write_meta<T: PcdSerialize>(builder: &SeqWriterBuilder<T>, writer: &mut MemWriter) -> (r: (
    usize,
    usize,
))
    requires
        old(writer).buf@.len() == 0,
        old(writer).pos == 0,
    ensures
        final(writer).wf(),
        final(writer).buf@ == header_prefix(
            builder.record_spec@,
            builder.width,
            builder.height,
            builder.viewpoint,
        ) + spaces(count_width()) + header_suffix(builder.data_kind),
        final(writer).pos == final(writer).buf@.len(),
        r.0 as int == header_prefix(
            builder.record_spec@,
            builder.width,
            builder.height,
            builder.viewpoint,
        ).len(),
        r.1 as int == count_width(),
{
    let ghost defs: Seq<FieldDef> = builder.record_spec@;
    let mut hdr: Vec<u8> = Vec::new();
    push_str_bytes(&mut hdr, "# .PCD v.7 - Point Cloud Data file format\n");
    push_str_bytes(&mut hdr, "VERSION .7\n");
    let mut names: Vec<Vec<u8>> = Vec::new();
    let mut i: usize = 0;
    while i < builder.record_spec.fields.len()
        invariant
            i <= defs.len(),
            defs == builder.record_spec@,
            names@.len() == i,
            forall|k: int| 0 <= k < i ==> #[trigger] names@[k]@ == name_tokens(defs)[k],
        decreases defs.len() - i,
    {
        let d = &builder.record_spec.fields[i];
        let nb: Vec<u8> = string_bytes(&d.name);
        names.push(nb);
        i = i + 1;
    }
    proof {
        assert(views_of(names@) =~= name_tokens(defs));
    }
    push_row(&mut hdr, "FIELDS ", &names);
    let mut sizes: Vec<Vec<u8>> = Vec::new();
    let mut i2: usize = 0;
    while i2 < builder.record_spec.fields.len()
        invariant
            i2 <= defs.len(),
            defs == builder.record_spec@,
            sizes@.len() == i2,
            forall|k: int| 0 <= k < i2 ==> #[trigger] sizes@[k]@ == size_tokens(defs)[k],
        decreases defs.len() - i2,
    {
        let d = &builder.record_spec.fields[i2];
        let sz: usize = d.kind.size();
        sizes.push(dec_u64(sz as u64));
        i2 = i2 + 1;
    }
    proof {
        assert(views_of(sizes@) =~= size_tokens(defs));
    }
    push_row(&mut hdr, "SIZE ", &sizes);
    let mut types: Vec<Vec<u8>> = Vec::new();
    let mut i3: usize = 0;
    while i3 < builder.record_spec.fields.len()
        invariant
            i3 <= defs.len(),
            defs == builder.record_spec@,
            types@.len() == i3,
            forall|k: int| 0 <= k < i3 ==> #[trigger] types@[k]@ == type_tokens(defs)[k],
        decreases defs.len() - i3,
    {
        let d = &builder.record_spec.fields[i3];
        let mut tb: Vec<u8> = Vec::new();
        tb.push(d.kind.type_byte());
        types.push(tb);
        i3 = i3 + 1;
    }
    proof {
        assert(views_of(types@) =~= type_tokens(defs));
    }
    push_row(&mut hdr, "TYPE ", &types);
    let mut counts: Vec<Vec<u8>> = Vec::new();
    let mut i4: usize = 0;
    while i4 < builder.record_spec.fields.len()
        invariant
            i4 <= defs.len(),
            defs == builder.record_spec@,
            counts@.len() == i4,
            forall|k: int| 0 <= k < i4 ==> #[trigger] counts@[k]@ == count_tokens(defs)[k],
        decreases defs.len() - i4,
    {
        let d = &builder.record_spec.fields[i4];
        counts.push(dec_u64(d.count as u64));
        i4 = i4 + 1;
    }
    proof {
        assert(views_of(counts@) =~= count_tokens(defs));
    }
    push_row(&mut hdr, "COUNT ", &counts);
    push_str_bytes(&mut hdr, "WIDTH ");
    let mut wv: Vec<u8> = dec_u64(builder.width);
    hdr.append(&mut wv);
    hdr.push(10);
    push_str_bytes(&mut hdr, "HEIGHT ");
    let mut hv: Vec<u8> = dec_u64(builder.height);
    hdr.append(&mut hv);
    hdr.push(10);
    let mut vps: Vec<Vec<u8>> = Vec::new();
    vps.push(render_double(builder.viewpoint.tx));
    vps.push(render_double(builder.viewpoint.ty));
    vps.push(render_double(builder.viewpoint.tz));
    vps.push(render_double(builder.viewpoint.qw));
    vps.push(render_double(builder.viewpoint.qx));
    vps.push(render_double(builder.viewpoint.qy));
    vps.push(render_double(builder.viewpoint.qz));
    proof {
        assert(views_of(vps@) =~= viewpoint_tokens(builder.viewpoint));
    }
    push_row(&mut hdr, "VIEWPOINT ", &vps);
    push_str_bytes(&mut hdr, "POINTS ");
    let points_arg_begin: usize = hdr.len();
    proof {
        assert(hdr@ =~= header_prefix(defs, builder.width, builder.height, builder.viewpoint));
    }
    let cw: Vec<u8> = dec_u64(usize::MAX as u64);
    let points_arg_width: usize = cw.len();
    proof {
        assert(usize::MAX as u64 as int == usize::MAX as int);
        assert(points_arg_width as int == count_width());
    }
    let mut p: usize = 0;
    proof {
        assert(hdr@ + spaces(0) =~= hdr@);
    }
    let ghost hp0: Seq<u8> = hdr@;
    while p < points_arg_width
        invariant
            p <= points_arg_width,
            hdr@ =~= hp0 + spaces(p as nat),
        decreases points_arg_width - p,
    {
        hdr.push(32);
        proof {
            assert(hdr@ =~= hp0 + spaces(p as nat + 1));
        }
        p = p + 1;
    }
    hdr.push(10);
    match builder.data_kind {
        DataKind::Binary => push_str_bytes(&mut hdr, "DATA binary\n"),
        DataKind::ASCII => push_str_bytes(&mut hdr, "DATA ascii\n"),
    }
    proof {
        assert(hdr@ =~= header_prefix(defs, builder.width, builder.height, builder.viewpoint)
            + spaces(count_width()) + header_suffix(builder.data_kind));
    }
    let hl: usize = hdr.len();
    let ghost b0: Seq<u8> = writer.buf@;
    writer.write_bytes(hdr.as_slice());
    proof {
        assert(splice(b0, 0, hdr@) =~= hdr@);
    }
    (points_arg_begin, points_arg_width)
}

} // verus!
