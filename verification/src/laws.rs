//! The codec's global laws: a binary chunk determines its record, and the
//! ASCII line of an integer record splits and parses back to exactly the
//! values that were written.

use crate::dec_text::{dec_int, is_ws, lemma_dec_int_no_ws, lemma_parse_dec_int, split_ws, tok_len};
use crate::le_bytes::{
    le_bytes, lemma_le_bytes_len, lemma_le_round_trip, lemma_pow256_values, pow256, wrap,
};
use crate::metas::{total_count_of, FieldDef, ValueKind};
use crate::record::{
    consistent, elem_bytes, field_chunk, field_matches, field_tokens, in_kind_range, kind_mod,
    kind_width, line_of, rec_model, record_chunk, record_tokens, schema_chunk_len, token_of,
    tok_at, token_parses, token_val, tokens_bytes, vals_bytes, Field,
};
use vstd::arithmetic::mul::lemma_mul_is_distributive_add_other_way;
use vstd::prelude::*;

verus! {

pub proof fn lemma_vals_bytes_len(k: ValueKind, vs: Seq<int>)
    ensures
        vals_bytes(k, vs).len() == vs.len() * kind_width(k),
    decreases vs.len(),
{
    if vs.len() == 0 {
        vstd::arithmetic::mul::lemma_mul_basics(kind_width(k));
    } else {
        lemma_vals_bytes_len(k, vs.drop_last());
        lemma_le_bytes_len(wrap(vs.last(), kind_mod(k)), k.spec_size());
        lemma_mul_is_distributive_add_other_way(kind_width(k), vs.len() as int - 1, 1);
    }
}

/// Every element value a field holds lies in its kind's range.
pub proof fn lemma_field_vals_in_range(f: Field)
    ensures
        forall|i: int|
            0 <= i < f.vals().len() ==> in_kind_range(f.spec_kind(), #[trigger] f.vals()[i]),
{
    match f {
        Field::I8(v) => {
            assert forall|i: int| 0 <= i < f.vals().len() implies in_kind_range(
                f.spec_kind(),
                #[trigger] f.vals()[i],
            ) by {
                assert(f.vals()[i] == v@[i] as int);
            }
        },
        Field::I16(v) => {
            assert forall|i: int| 0 <= i < f.vals().len() implies in_kind_range(
                f.spec_kind(),
                #[trigger] f.vals()[i],
            ) by {
                assert(f.vals()[i] == v@[i] as int);
            }
        },
        Field::I32(v) => {
            assert forall|i: int| 0 <= i < f.vals().len() implies in_kind_range(
                f.spec_kind(),
                #[trigger] f.vals()[i],
            ) by {
                assert(f.vals()[i] == v@[i] as int);
            }
        },
        Field::U8(v) => {
            assert forall|i: int| 0 <= i < f.vals().len() implies in_kind_range(
                f.spec_kind(),
                #[trigger] f.vals()[i],
            ) by {
                assert(f.vals()[i] == v@[i] as int);
            }
        },
        Field::U16(v) => {
            assert forall|i: int| 0 <= i < f.vals().len() implies in_kind_range(
                f.spec_kind(),
                #[trigger] f.vals()[i],
            ) by {
                assert(f.vals()[i] == v@[i] as int);
            }
        },
        Field::U32(v) => {
            assert forall|i: int| 0 <= i < f.vals().len() implies in_kind_range(
                f.spec_kind(),
                #[trigger] f.vals()[i],
            ) by {
                assert(f.vals()[i] == v@[i] as int);
            }
        },
        Field::F32(v) => {
            assert forall|i: int| 0 <= i < f.vals().len() implies in_kind_range(
                f.spec_kind(),
                #[trigger] f.vals()[i],
            ) by {
                assert(f.vals()[i] == v@[i] as int);
            }
        },
        Field::F64(v) => {
            assert forall|i: int| 0 <= i < f.vals().len() implies in_kind_range(
                f.spec_kind(),
                #[trigger] f.vals()[i],
            ) by {
                assert(f.vals()[i] == v@[i] as int);
            }
        },
    }
}

/// Two equal concatenations with equally long heads have equal parts.
proof fn lemma_concat_parts(x1: Seq<u8>, y1: Seq<u8>, x2: Seq<u8>, y2: Seq<u8>)
    requires
        x1.len() == x2.len(),
        x1 + y1 == x2 + y2,
    ensures
        x1 == x2,
        y1 == y2,
{
    assert((x1 + y1).len() == (x2 + y2).len());
    assert forall|j: int| 0 <= j < x1.len() implies x1[j] == x2[j] by {
        assert((x1 + y1)[j] == x1[j]);
        assert((x2 + y2)[j] == x2[j]);
        assert((x1 + y1)[j] == (x2 + y2)[j]);
    }
    assert(x1 =~= x2);
    assert((x1 + y1).len() == x1.len() + y1.len());
    assert((x2 + y2).len() == x2.len() + y2.len());
    assert(y1.len() == y2.len());
    assert forall|j: int| 0 <= j < y1.len() implies y1[j] == y2[j] by {
        assert((x1 + y1)[x1.len() + j] == y1[j]);
        assert((x2 + y2)[x2.len() + j] == y2[j]);
        assert((x1 + y1)[x1.len() + j] == (x2 + y2)[x2.len() + j]);
    }
    assert(y1 =~= y2);
}

/// One element's bytes pin its value, within the kind's range.
proof fn lemma_elem_bytes_inj(k: ValueKind, v1: int, v2: int)
    requires
        in_kind_range(k, v1),
        in_kind_range(k, v2),
        elem_bytes(k, v1) == elem_bytes(k, v2),
    ensures
        v1 == v2,
{
    lemma_pow256_values();
    assert(0 <= wrap(v1, kind_mod(k)) < pow256(k.spec_size()));
    assert(0 <= wrap(v2, kind_mod(k)) < pow256(k.spec_size()));
    lemma_le_round_trip(wrap(v1, kind_mod(k)), k.spec_size());
    lemma_le_round_trip(wrap(v2, kind_mod(k)), k.spec_size());
}

/// A value stream's bytes pin every value, within the kind's range.
proof fn lemma_vals_bytes_inj(k: ValueKind, a: Seq<int>, b: Seq<int>)
    requires
        a.len() == b.len(),
        forall|i: int| 0 <= i < a.len() ==> in_kind_range(k, #[trigger] a[i]),
        forall|i: int| 0 <= i < b.len() ==> in_kind_range(k, #[trigger] b[i]),
        vals_bytes(k, a) == vals_bytes(k, b),
    ensures
        a == b,
    decreases a.len(),
{
    if a.len() > 0 {
        lemma_vals_bytes_len(k, a.drop_last());
        lemma_vals_bytes_len(k, b.drop_last());
        lemma_le_bytes_len(wrap(a.last(), kind_mod(k)), k.spec_size());
        lemma_le_bytes_len(wrap(b.last(), kind_mod(k)), k.spec_size());
        assert(vals_bytes(k, a) == vals_bytes(k, a.drop_last()) + elem_bytes(k, a.last()));
        assert(vals_bytes(k, b) == vals_bytes(k, b.drop_last()) + elem_bytes(k, b.last()));
        lemma_concat_parts(
            vals_bytes(k, a.drop_last()),
            elem_bytes(k, a.last()),
            vals_bytes(k, b.drop_last()),
            elem_bytes(k, b.last()),
        );
        lemma_elem_bytes_inj(k, a.last(), b.last());
        lemma_vals_bytes_inj(k, a.drop_last(), b.drop_last());
        assert forall|i: int| 0 <= i < a.len() implies a[i] == b[i] by {
            if i < a.len() - 1 {
                assert(a.drop_last()[i] == b.drop_last()[i]);
            }
        }
        assert(a =~= b);
    } else {
        assert(a =~= b);
    }
}

/// Under a schema, a record's chunk width is the schema's.
pub proof fn lemma_record_chunk_len(fs: Seq<Field>, defs: Seq<FieldDef>)
    requires
        consistent(fs, defs),
    ensures
        record_chunk(fs).len() == schema_chunk_len(defs),
    decreases fs.len(),
{
    if fs.len() > 0 {
        assert(consistent(fs.drop_last(), defs.drop_last()));
        lemma_record_chunk_len(fs.drop_last(), defs.drop_last());
        lemma_vals_bytes_len(fs.last().spec_kind(), fs.last().vals());
        assert(field_matches(fs[fs.len() - 1], defs[fs.len() - 1]));
    }
}

/// Round trip of the binary chunk codec: two schema-consistent records with
/// one and the same chunk hold the same kinds and the same element values,
/// so decoding an encoded record can only give the record back.
pub proof fn lemma_chunk_round_trip(r1: Seq<Field>, r2: Seq<Field>, defs: Seq<FieldDef>)
    requires
        consistent(r1, defs),
        consistent(r2, defs),
        record_chunk(r1) == record_chunk(r2),
    ensures
        rec_model(r1) == rec_model(r2),
    decreases r1.len(),
{
    if r1.len() == 0 {
        assert(rec_model(r1) =~= rec_model(r2));
    } else {
        let n = r1.len() as int;
        let f1 = r1.last();
        let f2 = r2.last();
        assert(field_matches(r1[n - 1], defs[n - 1]));
        assert(field_matches(r2[n - 1], defs[n - 1]));
        assert(consistent(r1.drop_last(), defs.drop_last()));
        assert(consistent(r2.drop_last(), defs.drop_last()));
        lemma_record_chunk_len(r1.drop_last(), defs.drop_last());
        lemma_record_chunk_len(r2.drop_last(), defs.drop_last());
        lemma_vals_bytes_len(f1.spec_kind(), f1.vals());
        lemma_vals_bytes_len(f2.spec_kind(), f2.vals());
        assert(record_chunk(r1) == record_chunk(r1.drop_last()) + field_chunk(f1));
        assert(record_chunk(r2) == record_chunk(r2.drop_last()) + field_chunk(f2));
        lemma_concat_parts(
            record_chunk(r1.drop_last()),
            field_chunk(f1),
            record_chunk(r2.drop_last()),
            field_chunk(f2),
        );
        lemma_field_vals_in_range(f1);
        lemma_field_vals_in_range(f2);
        lemma_vals_bytes_inj(f1.spec_kind(), f1.vals(), f2.vals());
        lemma_chunk_round_trip(r1.drop_last(), r2.drop_last(), defs.drop_last());
        assert forall|i: int| 0 <= i < n implies rec_model(r1)[i] == rec_model(r2)[i] by {
            assert(rec_model(r1)[i] == (r1[i].spec_kind(), r1[i].vals()));
            assert(rec_model(r2)[i] == (r2[i].spec_kind(), r2[i].vals()));
            if i < n - 1 {
                assert(rec_model(r1.drop_last())[i] == rec_model(r2.drop_last())[i]);
                assert(rec_model(r1.drop_last())[i] == (r1.drop_last()[i].spec_kind(),
                r1.drop_last()[i].vals()));
                assert(rec_model(r2.drop_last())[i] == (r2.drop_last()[i].spec_kind(),
                r2.drop_last()[i].vals()));
                assert(r1.drop_last()[i] == r1[i] && r2.drop_last()[i] == r2[i]);
            } else {
                assert(r1[i] == f1 && r2[i] == f2);
                assert(f1.spec_kind() == defs[n - 1].kind && f2.spec_kind() == defs[n - 1].kind);
            }
        }
        assert(rec_model(r1) =~= rec_model(r2));
    }
}

/// Whether a kind is one of the six integer kinds.
pub open spec fn is_integer_kind(k: ValueKind) -> bool {
    !(k == ValueKind::F32 || k == ValueKind::F64)
}

/// Whether every field of a record holds integer elements.
pub open spec fn integer_only(fs: Seq<Field>) -> bool {
    forall|i: int| 0 <= i < fs.len() ==> is_integer_kind((#[trigger] fs[i]).spec_kind())
}

/// Whether every token of a list is non-empty and free of whitespace.
pub open spec fn solid_tokens(ts: Seq<Seq<u8>>) -> bool {
    forall|i: int|
        0 <= i < ts.len() ==> (#[trigger] ts[i]).len() > 0 && forall|j: int|
            0 <= j < ts[i].len() ==> !is_ws(#[trigger] ts[i][j])
}

/// An integer record's tokens are all solid: decimal digits and signs only.
pub proof fn lemma_record_tokens_solid(fs: Seq<Field>)
    requires
        integer_only(fs),
    ensures
        solid_tokens(record_tokens(fs)),
    decreases fs.len(),
{
    if fs.len() > 0 {
        assert(integer_only(fs.drop_last())) by {
            assert(forall|i: int| 0 <= i < fs.len() - 1 ==> fs.drop_last()[i] == fs[i]);
        }
        lemma_record_tokens_solid(fs.drop_last());
        let f = fs.last();
        assert(is_integer_kind(f.spec_kind()));
        assert forall|i: int| 0 <= i < field_tokens(f).len() implies (#[trigger] field_tokens(f)[
            i
        ]).len() > 0 && forall|j: int|
            0 <= j < field_tokens(f)[i].len() ==> !is_ws(#[trigger] field_tokens(f)[i][j]) by {
            assert(field_tokens(f)[i] == token_of(f.spec_kind(), f.vals()[i]));
            assert(token_of(f.spec_kind(), f.vals()[i]) == dec_int(f.vals()[i]));
            lemma_dec_int_no_ws(f.vals()[i]);
        }
        assert forall|i: int| 0 <= i < record_tokens(fs).len() implies (#[trigger] record_tokens(
            fs,
        )[i]).len() > 0 && forall|j: int|
            0 <= j < record_tokens(fs)[i].len() ==> !is_ws(#[trigger] record_tokens(fs)[i][j]) by {
            if i < record_tokens(fs.drop_last()).len() {
                assert(record_tokens(fs)[i] == record_tokens(fs.drop_last())[i]);
            } else {
                assert(record_tokens(fs)[i] == field_tokens(f)[i - record_tokens(
                    fs.drop_last(),
                ).len()]);
            }
        }
    }
}

/// A solid token at the front of a stream ends exactly at its own length,
/// when whitespace or the end of the stream follows it.
proof fn lemma_tok_len_solid(t: Seq<u8>, rest: Seq<u8>)
    requires
        t.len() > 0,
        forall|j: int| 0 <= j < t.len() ==> !is_ws(#[trigger] t[j]),
        rest.len() == 0 || is_ws(rest[0]),
    ensures
        tok_len(t + rest) == t.len(),
    decreases t.len(),
{
    assert((t + rest)[0] == t[0]);
    assert(!is_ws((t + rest)[0]));
    if t.len() == 1 {
        assert((t + rest).drop_first() =~= rest);
        assert(tok_len(t + rest) == 1 + tok_len(rest));
        assert(tok_len(rest) == 0);
    } else {
        assert((t + rest).drop_first() =~= t.drop_first() + rest);
        assert(forall|j: int| 0 <= j < t.drop_first().len() ==> !is_ws(#[trigger] t.drop_first()[j]));
        lemma_tok_len_solid(t.drop_first(), rest);
        assert(tok_len(t + rest) == 1 + tok_len(t.drop_first() + rest));
    }
}

/// Splitting takes a solid leading token off whole.
proof fn lemma_split_solid_token(t: Seq<u8>, rest: Seq<u8>)
    requires
        t.len() > 0,
        forall|j: int| 0 <= j < t.len() ==> !is_ws(#[trigger] t[j]),
        rest.len() == 0 || is_ws(rest[0]),
    ensures
        split_ws(t + rest) == seq![t] + split_ws(rest),
{
    lemma_tok_len_solid(t, rest);
    assert((t + rest).take(t.len() as int) =~= t);
    assert((t + rest).skip(t.len() as int) =~= rest);
    assert(!is_ws((t + rest)[0]));
}

/// Splitting inverts joining for solid tokens: the space-joined,
/// newline-terminated line splits back into exactly the tokens.
pub proof fn lemma_split_join(ts: Seq<Seq<u8>>)
    requires
        solid_tokens(ts),
    ensures
        split_ws(tokens_bytes(ts, true) + seq![10u8]) == ts,
    decreases ts.len(),
{
    if ts.len() == 0 {
        assert(tokens_bytes(ts, true) + seq![10u8] =~= seq![10u8]);
        assert(seq![10u8].drop_first() =~= Seq::<u8>::empty());
        assert(is_ws(seq![10u8][0]));
        assert(split_ws(seq![10u8]) == split_ws(seq![10u8].drop_first()));
        assert(split_ws(Seq::<u8>::empty()) =~= Seq::<Seq<u8>>::empty());
        assert(split_ws(tokens_bytes(ts, true) + seq![10u8]) =~= ts);
    } else {
        let rest = tokens_bytes(ts.drop_first(), false) + seq![10u8];
        assert(tokens_bytes(ts, true) + seq![10u8] =~= ts[0] + rest);
        if ts.drop_first().len() == 0 {
            assert(rest =~= seq![10u8]);
            lemma_split_solid_token(ts[0], rest);
            assert(seq![10u8].drop_first() =~= Seq::<u8>::empty());
            assert(is_ws(seq![10u8][0]));
            assert(split_ws(seq![10u8]) == split_ws(seq![10u8].drop_first()));
            assert(split_ws(Seq::<u8>::empty()) =~= Seq::<Seq<u8>>::empty());
            assert(seq![ts[0]] + Seq::<Seq<u8>>::empty() =~= ts);
            assert(split_ws(tokens_bytes(ts, true) + seq![10u8]) =~= ts);
        } else {
            assert(rest[0] == 32);
            lemma_split_solid_token(ts[0], rest);
            assert(rest.drop_first() =~= tokens_bytes(ts.drop_first(), true) + seq![10u8]) by {
                assert(tokens_bytes(ts.drop_first(), false) =~= seq![32u8] + tokens_bytes(
                    ts.drop_first(),
                    true,
                ));
            }
            assert(solid_tokens(ts.drop_first())) by {
                assert(forall|i: int|
                    0 <= i < ts.len() - 1 ==> #[trigger] ts.drop_first()[i] == ts[i + 1]);
            }
            lemma_split_join(ts.drop_first());
            assert(split_ws(rest) == split_ws(rest.drop_first()));
            assert(seq![ts[0]] + ts.drop_first() =~= ts);
        }
    }
}

/// Round trip of the ASCII line codec, splitting side: the line written for
/// an integer record splits back into exactly the record's tokens.
pub proof fn lemma_line_splits_back(fs: Seq<Field>)
    requires
        integer_only(fs),
    ensures
        split_ws(line_of(fs)) == record_tokens(fs),
{
    lemma_record_tokens_solid(fs);
    lemma_split_join(record_tokens(fs));
}

/// Under a schema, a record's token list is as long as the schema's
/// aggregate element count.
pub proof fn lemma_record_tokens_len(fs: Seq<Field>, defs: Seq<FieldDef>)
    requires
        consistent(fs, defs),
    ensures
        record_tokens(fs).len() == total_count_of(defs),
    decreases fs.len(),
{
    if fs.len() > 0 {
        assert(consistent(fs.drop_last(), defs.drop_last()));
        lemma_record_tokens_len(fs.drop_last(), defs.drop_last());
        assert(field_matches(fs[fs.len() - 1], defs[fs.len() - 1]));
    }
}

/// The flat token list indexes field by field: the token at a field's offset
/// plus `j` is that field's `j`-th token.
pub proof fn lemma_record_tokens_index(fs: Seq<Field>, defs: Seq<FieldDef>, fi: int, j: int)
    requires
        consistent(fs, defs),
        0 <= fi < fs.len(),
        0 <= j < defs[fi].count,
    ensures
        tok_at(record_tokens(fs), total_count_of(defs.take(fi)), j) == field_tokens(fs[fi])[j],
    decreases fs.len(),
{
    let n = fs.len() as int;
    assert(consistent(fs.drop_last(), defs.drop_last()));
    lemma_record_tokens_len(fs.drop_last(), defs.drop_last());
    assert(defs.drop_last() =~= defs.take(n - 1));
    assert(field_matches(fs[n - 1], defs[n - 1]));
    lemma_total_count_nonneg_laws(defs.take(fi));
    if fi == n - 1 {
        assert(record_tokens(fs)[total_count_of(defs.take(fi)) + j] == field_tokens(fs[fi])[j]);
    } else {
        assert(defs.take(fi) =~= defs.drop_last().take(fi));
        crate::record::lemma_total_count_parts(defs.take(n - 1), fi + 1);
        lemma_total_count_nonneg_laws(defs.take(n - 1).skip(fi + 1));
        assert(defs.take(n - 1).take(fi + 1).drop_last() =~= defs.take(fi));
        assert(defs.take(n - 1).take(fi + 1).last() == defs[fi]);
        assert(total_count_of(defs.take(fi)) + j < total_count_of(defs.take(n - 1)));
        lemma_record_tokens_index(fs.drop_last(), defs.drop_last(), fi, j);
        assert(record_tokens(fs)[total_count_of(defs.take(fi)) + j] == record_tokens(
            fs.drop_last(),
        )[total_count_of(defs.take(fi)) + j]);
        assert(fs.drop_last()[fi] == fs[fi]);
    }
}

proof fn lemma_total_count_nonneg_laws(defs: Seq<FieldDef>)
    ensures
        total_count_of(defs) >= 0,
    decreases defs.len(),
{
    if defs.len() > 0 {
        lemma_total_count_nonneg_laws(defs.drop_last());
    }
}

/// Round trip of the ASCII line codec, whole: for a schema-consistent
/// integer record, the written line splits into exactly the schema's token
/// count, every token parses, and the parsed values are exactly the
/// record's element values. With the line decoder's contract, decoding an
/// encoded integer record can only give the record's values back.
pub proof fn lemma_ascii_round_trip(fs: Seq<Field>, defs: Seq<FieldDef>)
    requires
        consistent(fs, defs),
        integer_only(fs),
    ensures
        split_ws(line_of(fs)).len() == total_count_of(defs),
        crate::record::dyn_line_parses(defs, split_ws(line_of(fs))),
        crate::record::dyn_line_decodes(fs, defs, split_ws(line_of(fs))),
{
    lemma_line_splits_back(fs);
    lemma_record_tokens_len(fs, defs);
    lemma_tokens_parse_back(fs);
    let ts = split_ws(line_of(fs));
    assert forall|fi: int, j: int|
        0 <= fi < defs.len() && 0 <= j < defs[fi].count implies token_parses(
        defs[fi].kind,
        #[trigger] tok_at(ts, total_count_of(defs.take(fi)), j),
    ) && fs[fi].vals()[j] == token_val(
        defs[fi].kind,
        tok_at(ts, total_count_of(defs.take(fi)), j),
    ) by {
        lemma_record_tokens_index(fs, defs, fi, j);
        assert(field_matches(fs[fi], defs[fi]));
        assert(token_parses(fs[fi].spec_kind(), field_tokens(fs[fi])[j]));
        assert(token_val(fs[fi].spec_kind(), field_tokens(fs[fi])[j]) == fs[fi].vals()[j]);
    }
}

/// Round trip of the ASCII line codec, parsing side: every token written for
/// an integer record is a well-formed, in-range integer literal, and parses
/// back to exactly the element value it was written from.
pub proof fn lemma_tokens_parse_back(fs: Seq<Field>)
    requires
        integer_only(fs),
    ensures
        forall|fi: int, j: int|
            0 <= fi < fs.len() && 0 <= j < fs[fi].vals().len() ==> token_parses(
                fs[fi].spec_kind(),
                #[trigger] field_tokens(fs[fi])[j],
            ) && token_val(fs[fi].spec_kind(), field_tokens(fs[fi])[j]) == fs[fi].vals()[j],
{
    assert forall|fi: int, j: int|
        0 <= fi < fs.len() && 0 <= j < fs[fi].vals().len() implies token_parses(
        fs[fi].spec_kind(),
        #[trigger] field_tokens(fs[fi])[j],
    ) && token_val(fs[fi].spec_kind(), field_tokens(fs[fi])[j]) == fs[fi].vals()[j] by {
        let f = fs[fi];
        let v = f.vals()[j];
        assert(is_integer_kind(f.spec_kind()));
        assert(field_tokens(f)[j] == token_of(f.spec_kind(), v));
        assert(token_of(f.spec_kind(), v) == dec_int(v));
        lemma_parse_dec_int(v);
        lemma_field_vals_in_range(f);
    }
}

} // verus!
