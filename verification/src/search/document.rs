//! The documents that the index writer queues: their field values, laid
//! out by the schema.

use vstd::prelude::*;
use tantivy::schema::{Field, Value};
use tantivy::TantivyDocument;
use crate::search::schema::RnSchema;

verus! {

#[verifier::external_type_specification]
#[verifier::external_body]
pub struct ExTantivyDocument(TantivyDocument);

/// A value of a document field: a string, a `u64`, an `i64`, or a value
/// of another kind.
pub enum FieldValue {
    Text(Field, Seq<char>),
    U64(Field, u64),
    I64(Field, i64),
    Other(Field),
}

/// The field that a value belongs to.
pub open spec fn value_field(v: FieldValue) -> Field {
    match v {
        FieldValue::Text(f, _) => f,
        FieldValue::U64(f, _) => f,
        FieldValue::I64(f, _) => f,
        FieldValue::Other(f) => f,
    }
}

/// The string that the first value of `field` among `vals` holds, if there
/// is such a value and it is a string.
pub open spec fn first_text(vals: Seq<FieldValue>, field: Field) -> Option<Seq<char>>
    decreases vals.len(),
{
    if vals.len() == 0 {
        None
    } else if value_field(vals[0]) == field {
        match vals[0] {
            FieldValue::Text(_, s) => Some(s),
            _ => None,
        }
    } else {
        first_text(vals.skip(1), field)
    }
}

/// Name for the field values that a document holds, in the order in which
/// they were added.
pub uninterp spec fn document_values(d: TantivyDocument) -> Seq<FieldValue>;

/// `TantivyDocument::default`: a document with no value.
#[verifier::external_body]
fn empty_document() -> (res: TantivyDocument)
    ensures
        document_values(res) == Seq::<FieldValue>::empty(),
{
    TantivyDocument::default()
}

/// `TantivyDocument::add_text`: appends a text value.
#[verifier::external_body]
fn document_add_text(d: &mut TantivyDocument, field: Field, text: &str)
    ensures
        document_values(*final(d)) == document_values(*old(d)).push(FieldValue::Text(field, text@)),
{
    d.add_text(field, text)
}

/// `TantivyDocument::add_u64`: appends a `u64` value.
#[verifier::external_body]
fn document_add_u64(d: &mut TantivyDocument, field: Field, value: u64)
    ensures
        document_values(*final(d)) == document_values(*old(d)).push(FieldValue::U64(field, value)),
{
    d.add_u64(field, value)
}

/// `TantivyDocument::add_i64`: appends an `i64` value.
#[verifier::external_body]
fn document_add_i64(d: &mut TantivyDocument, field: Field, value: i64)
    ensures
        document_values(*final(d)) == document_values(*old(d)).push(FieldValue::I64(field, value)),
{
    d.add_i64(field, value)
}

/// `TantivyDocument::get_first` then `Value::as_str`: the string of the
/// first value of `field`, copied, if that value is a string.
#[verifier::external_body]
fn document_first_text(d: &TantivyDocument, field: Field) -> (res: Option<String>)
    ensures
        match res {
            Some(s) => first_text(document_values(*d), field) == Some(s@),
            None => first_text(document_values(*d), field) is None,
        },
{
    d.get_first(field).and_then(|v| v.as_str()).map(|s| s.to_string())
}

/// The string of the first value of `field` in `d`, or the empty string
/// when that value is missing or not a string.
pub fn stored_text(d: &TantivyDocument, field: Field) -> (res: String)
    ensures
        res@ == match first_text(document_values(*d), field) {
            Some(s) => s,
            None => Seq::<char>::empty(),
        },
{
    match document_first_text(d, field) {
        Some(s) => s,
        None => String::new(),
    }
}

/// The id, path and file name that a stored document of a hit holds.
pub fn hit_fields(d: &TantivyDocument, s: &RnSchema) -> (res: (String, String, String))
    ensures
        res.0@ == stored_text_spec(*d, s.doc_id),
        res.1@ == stored_text_spec(*d, s.path),
        res.2@ == stored_text_spec(*d, s.filename),
{
    (stored_text(d, s.doc_id), stored_text(d, s.path), stored_text(d, s.filename))
}

/// What `stored_text` gives.
pub open spec fn stored_text_spec(d: TantivyDocument, field: Field) -> Seq<char> {
    match first_text(document_values(d), field) {
        Some(s) => s,
        None => Seq::<char>::empty(),
    }
}

/// The values of a document with the given fields.
pub open spec fn document_spec(
    s: RnSchema,
    doc_id: Seq<char>,
    path: Seq<char>,
    filename: Seq<char>,
    extension: Option<Seq<char>>,
    content: Seq<char>,
    size_bytes: u64,
    modified_at: i64,
) -> Seq<FieldValue> {
    let head = seq![
        FieldValue::Text(s.doc_id, doc_id),
        FieldValue::Text(s.path, path),
        FieldValue::Text(s.filename, filename),
    ];
    let with_ext = match extension {
        Some(e) => head.push(FieldValue::Text(s.extension, e)),
        None => head,
    };
    with_ext + seq![
        FieldValue::Text(s.content, content),
        FieldValue::U64(s.size_bytes, size_bytes),
        FieldValue::I64(s.modified_at, modified_at),
    ]
}

/// The document with the given values, as `document_spec` lays it out.
pub fn build_document(
    s: &RnSchema,
    doc_id: &str,
    path: &str,
    filename: &str,
    extension: Option<&str>,
    content: &str,
    size_bytes: u64,
    modified_at: i64,
) -> (res: TantivyDocument)
    ensures
        document_values(res) == document_spec(
            *s,
            doc_id@,
            path@,
            filename@,
            match extension { Some(e) => Some(e@), None => None },
            content@,
            size_bytes,
            modified_at,
        ),
{
    let mut d = empty_document();
    document_add_text(&mut d, s.doc_id, doc_id);
    document_add_text(&mut d, s.path, path);
    document_add_text(&mut d, s.filename, filename);
    match extension {
        Some(e) => document_add_text(&mut d, s.extension, e),
        None => {},
    }
    document_add_text(&mut d, s.content, content);
    document_add_u64(&mut d, s.size_bytes, size_bytes);
    document_add_i64(&mut d, s.modified_at, modified_at);
    assert(document_values(d) =~= document_spec(
        *s,
        doc_id@,
        path@,
        filename@,
        match extension { Some(e) => Some(e@), None => None },
        content@,
        size_bytes,
        modified_at,
    ));
    d
}

} // verus!
