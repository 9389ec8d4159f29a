//! The failure kinds shared by the whole codec.

use crate::metas::{FieldDef, ValueKind};
use vstd::prelude::*;

verus! {

/// Whether a reported schema entry mirrors a field descriptor: same name
/// text, same kind, same count.
pub open spec fn found_entry_eq(e: (String, ValueKind, usize), d: FieldDef) -> bool {
    e.0@ == d.name@ && e.1 == d.kind && e.2 == d.count
}

/// Whether two read-specification entries agree: same name text, same kind,
/// same count marker.
pub open spec fn named_spec_entry_eq(
    a: (Option<String>, ValueKind, Option<usize>),
    b: (Option<String>, ValueKind, Option<usize>),
) -> bool {
    &&& match (a.0, b.0) {
        (Some(x), Some(y)) => x@ == y@,
        (None, None) => true,
        _ => false,
    }
    &&& a.1 == b.1
    &&& a.2 == b.2
}

/// The error returned from the crate.
#[derive(Debug)]
pub enum PCDError {
    /// A literal failed to parse as the expected numeric kind.
    ParseError { line: usize, desc: String },
    /// A dynamic record's kind/count sequence disagrees with the target
    /// schema.
    SchemaMismatchError {
        expect: Vec<(Option<String>, ValueKind, Option<usize>)>,
        found: Vec<(String, ValueKind, usize)>,
    },
    /// A named field's element count disagrees with its descriptor.
    FieldSizeMismatchError { field_name: String, expect: usize, found: usize },
    /// An ASCII line's token count disagrees with the schema's aggregate
    /// element count.
    TextTokenMismatchError { expect: usize, found: usize },
    /// Caller misuse at construction time.
    InvalidArgumentError { desc: String },
    /// An underlying read failed, most often because the input is truncated.
    IoError { desc: String },
}

impl PCDError {
    pub fn new_parse_error(line: usize, desc: &str) -> (r: PCDError)
        ensures
            r matches PCDError::ParseError { line: l, desc: d } && l == line && d@ == desc@,
    {
        PCDError::ParseError { line, desc: desc.to_owned() }
    }

    pub fn new_schema_mismatch_error(
        record_fields: &[(Option<String>, ValueKind, Option<usize>)],
        file_fields: &[FieldDef],
    ) -> (r: PCDError)
        ensures
            r matches PCDError::SchemaMismatchError { expect, found } && expect@.len()
                == record_fields@.len() && found@.len() == file_fields@.len() && (forall|i: int|
                0 <= i < record_fields@.len() ==> named_spec_entry_eq(
                    #[trigger] expect@[i],
                    record_fields@[i],
                )) && forall|i: int|
                0 <= i < file_fields@.len() ==> found_entry_eq(
                    #[trigger] found@[i],
                    file_fields@[i],
                ),
    {
        let mut expect: Vec<(Option<String>, ValueKind, Option<usize>)> = Vec::new();
        let mut k: usize = 0;
        while k < record_fields.len()
            invariant
                0 <= k <= record_fields@.len(),
                expect@.len() == k,
                forall|j: int|
                    0 <= j < k ==> named_spec_entry_eq(#[trigger] expect@[j], record_fields@[j]),
            decreases record_fields@.len() - k,
        {
            let entry = &record_fields[k];
            let name: Option<String> = match &entry.0 {
                Some(s) => Some(s.clone()),
                None => None,
            };
            expect.push((name, entry.1, entry.2));
            k = k + 1;
        }
        let mut found: Vec<(String, ValueKind, usize)> = Vec::new();
        let mut i: usize = 0;
        while i < file_fields.len()
            invariant
                0 <= i <= file_fields@.len(),
                found@.len() == i,
                forall|j: int|
                    0 <= j < i ==> found_entry_eq(#[trigger] found@[j], file_fields@[j]),
            decreases file_fields@.len() - i,
        {
            let def = &file_fields[i];
            let nm: String = def.name.clone();
            found.push((nm, def.kind, def.count));
            proof {
                assert(found_entry_eq(found@[i as int], file_fields@[i as int]));
            }
            i = i + 1;
        }
        PCDError::SchemaMismatchError { expect, found }
    }

    pub fn new_field_size_mismatch_error(field_name: &str, expect: usize, found: usize) -> (r:
        PCDError)
        ensures
            r matches PCDError::FieldSizeMismatchError { field_name: n, expect: e, found: f } && n@
                == field_name@ && e == expect && f == found,
    {
        PCDError::FieldSizeMismatchError { field_name: field_name.to_owned(), expect, found }
    }

    pub fn new_text_token_mismatch_error(expect: usize, found: usize) -> (r: PCDError)
        ensures
            r matches PCDError::TextTokenMismatchError { expect: e, found: f } && e == expect && f
                == found,
    {
        PCDError::TextTokenMismatchError { expect, found }
    }

    pub fn new_invalid_argument_error(desc: &str) -> (r: PCDError)
        ensures
            r matches PCDError::InvalidArgumentError { desc: d } && d@ == desc@,
    {
        PCDError::InvalidArgumentError { desc: desc.to_owned() }
    }

    pub fn new_io_error(desc: &str) -> (r: PCDError)
        ensures
            r matches PCDError::IoError { desc: d } && d@ == desc@,
    {
        PCDError::IoError { desc: desc.to_owned() }
    }
}

} // verus!
