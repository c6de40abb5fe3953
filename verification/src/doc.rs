//! The document codec: converts between wire documents (arbitrary ordered
//! field sets) and the store's native document representation, tolerating
//! missing or extra fields on the read path.
use vstd::prelude::*;
use crate::GatewayError;
use crate::ident::{hex_of, Identifier};

verus! {

/// A schemaless field value: a scalar, or a nested document or array.
pub enum Value {
    Str(String),
    Int(i64),
    Bool(bool),
    Null,
    Obj(Document),
    Arr(Vec<Value>),
}

/// A document: an ordered mapping of field name to value, with no schema.
pub struct Document {
    pub fields: Vec<(String, Value)>,
}

/// The minimal note shape used by the narrow insert path: exactly the two
/// required string fields.
pub struct Note {
    pub title: String,
    pub content: String,
}

/// The mathematical shape of a field value: field names and string values
/// as character sequences, nested structure kept.
pub enum SpecValue {
    Str(Seq<char>),
    Int(i64),
    Bool(bool),
    Null,
    Obj(Seq<(Seq<char>, SpecValue)>),
    Arr(Seq<SpecValue>),
}

/// The mathematical shape of a field value.
pub open spec fn value_model(v: Value) -> SpecValue
    decreases v,
{
    match v {
        Value::Str(s) => SpecValue::Str(s@),
        Value::Int(i) => SpecValue::Int(i),
        Value::Bool(b) => SpecValue::Bool(b),
        Value::Null => SpecValue::Null,
        Value::Obj(d) => SpecValue::Obj(fields_model(d.fields@)),
        Value::Arr(items) => SpecValue::Arr(items_model(items@)),
    }
}

/// The mathematical shape of an ordered field list.
pub open spec fn fields_model(s: Seq<(String, Value)>) -> Seq<(Seq<char>, SpecValue)>
    decreases s,
{
    if s.len() == 0 {
        Seq::empty()
    } else {
        seq![(s[0].0@, value_model(s[0].1))] + fields_model(s.subrange(1, s.len() as int))
    }
}

/// The mathematical shape of an array of values.
pub open spec fn items_model(s: Seq<Value>) -> Seq<SpecValue>
    decreases s,
{
    if s.len() == 0 {
        Seq::empty()
    } else {
        seq![value_model(s[0])] + items_model(s.subrange(1, s.len() as int))
    }
}

/// The mathematical shape of a document.
pub open spec fn doc_model(d: Document) -> Seq<(Seq<char>, SpecValue)> {
    fields_model(d.fields@)
}

/// The field-list shape indexes pointwise.
pub proof fn lemma_fields_model_index(s: Seq<(String, Value)>)
    ensures
        fields_model(s).len() == s.len(),
        forall|i: int|
            0 <= i < s.len() ==> fields_model(s)[i] == (s[i].0@, value_model(s[i].1)),
    decreases s.len(),
{
    if s.len() > 0 {
        lemma_fields_model_index(s.subrange(1, s.len() as int));
    }
}

/// The array shape indexes pointwise.
pub proof fn lemma_items_model_index(s: Seq<Value>)
    ensures
        items_model(s).len() == s.len(),
        forall|i: int| 0 <= i < s.len() ==> items_model(s)[i] == value_model(s[i]),
    decreases s.len(),
{
    if s.len() > 0 {
        lemma_items_model_index(s.subrange(1, s.len() as int));
    }
}

/// The first value bound to a field name, scanning the fields in order.
pub open spec fn first_field(fields: Seq<(String, Value)>, name: Seq<char>) -> Option<Value>
    decreases fields.len(),
{
    if fields.len() == 0 {
        None
    } else if fields[0].0@ == name {
        Some(fields[0].1)
    } else {
        first_field(fields.subrange(1, fields.len() as int), name)
    }
}

/// What the note read path decodes from a native document: both required
/// fields present and string-typed, or nothing (the record is skipped).
pub open spec fn note_of(d: Document) -> Option<Note> {
    match (first_field(d.fields@, "title"@), first_field(d.fields@, "content"@)) {
        (Some(Value::Str(t)), Some(Value::Str(c))) => Some(Note { title: t, content: c }),
        _ => None,
    }
}

/// Scanning past a prefix without a matching name leaves the first match unchanged.
proof fn lemma_first_field_skip(fields: Seq<(String, Value)>, name: Seq<char>, i: int)
    requires
        0 <= i <= fields.len(),
        forall|j: int| 0 <= j < i ==> fields[j].0@ != name,
    ensures
        first_field(fields, name) == first_field(fields.subrange(i, fields.len() as int), name),
    decreases i,
{
    if i == 0 {
        assert(fields.subrange(0, fields.len() as int) =~= fields);
    } else {
        let rest = fields.subrange(1, fields.len() as int);
        lemma_first_field_skip(rest, name, i - 1);
        assert(rest.subrange(i - 1, rest.len() as int) =~= fields.subrange(
            i,
            fields.len() as int,
        ));
    }
}

/// The first field bound to a name, in executable form.
fn find_first<'a>(fields: &'a Vec<(String, Value)>, name: &str) -> (r: Option<&'a Value>)
    ensures
        match r {
            Some(v) => first_field(fields@, name@) == Some(*v),
            None => first_field(fields@, name@) is None,
        },
{
    let key: String = name.to_owned();
    let n = fields.len();
    for i in 0..n
        invariant
            n == fields@.len(),
            key@ == name@,
            forall|j: int| 0 <= j < i ==> fields@[j].0@ != name@,
    {
        if fields[i].0 == key {
            proof {
                lemma_first_field_skip(fields@, name@, i as int);
                assert(fields@.subrange(i as int, fields@.len() as int)[0] == fields@[i as int]);
            }
            return Some(&fields[i].1);
        }
    }
    proof {
        lemma_first_field_skip(fields@, name@, fields@.len() as int);
        assert(fields@.subrange(fields@.len() as int, fields@.len() as int) =~= Seq::<(
            String,
            Value,
        )>::empty());
    }
    None
}

/// Maps a wire payload onto the store's native document representation,
/// preserving every field name and value and injecting no identifier
/// field. Fails exactly when the payload is not a document at the top
/// level — the only shape the store cannot hold.
pub fn to_native(payload: Value) -> (r: Result<Document, GatewayError>)
    ensures
        match r {
            Ok(d) => payload is Obj && d == payload->Obj_0,
            Err(e) => !(payload is Obj) && e == GatewayError::InvalidPayload,
        },
{
    match payload {
        Value::Obj(d) => Ok(d),
        _ => Err(GatewayError::InvalidPayload),
    }
}

/// Encodes a note payload as a native document: the two required string
/// fields, in order, and nothing else — in particular no identifier field.
pub fn note_to_native(note: Note) -> (r: Document)
    ensures
        r.fields@.len() == 2,
        r.fields@[0].0@ == "title"@ && r.fields@[0].1 == Value::Str(note.title),
        r.fields@[1].0@ == "content"@ && r.fields@[1].1 == Value::Str(note.content),
        note_of(r) == Some(note),
{
    let mut fields: Vec<(String, Value)> = Vec::new();
    let title_key: String = "title".to_owned();
    let content_key: String = "content".to_owned();
    fields.push((title_key, Value::Str(note.title)));
    fields.push((content_key, Value::Str(note.content)));
    let d = Document { fields };
    proof {
        reveal_strlit("title");
        reveal_strlit("content");
        assert("title"@.len() == 5 && "content"@.len() == 7);
        let fs = d.fields@;
        assert(fs.subrange(1, 2)[0] == fs[1]);
        assert(fs.subrange(1, 2).subrange(1, 1) =~= Seq::<(String, Value)>::empty());
        assert(first_field(fs, "title"@) == Some(Value::Str(note.title)));
        assert(fs[0].0@ != "content"@);
        assert(first_field(fs.subrange(1, 2), "content"@) == Some(Value::Str(note.content)));
        assert(first_field(fs, "content"@) == Some(Value::Str(note.content)));
    }
    d
}

/// The note read path: decodes a native document whose two required fields
/// are present and string-typed; yields nothing otherwise, so one malformed
/// record is skipped rather than failing a whole listing.
pub fn from_native_note(d: &Document) -> (r: Option<Note>)
    ensures
        r == note_of(*d),
{
    let title: String = match find_first(&d.fields, "title") {
        Some(Value::Str(s)) => s.clone(),
        _ => {
            return None;
        },
    };
    let content: String = match find_first(&d.fields, "content") {
        Some(Value::Str(s)) => s.clone(),
        _ => {
            return None;
        },
    };
    Some(Note { title, content })
}

/// An exact copy of a value, nested documents and arrays included.
fn dup_value(v: &Value) -> (r: Value)
    ensures
        value_model(r) == value_model(*v),
    decreases *v,
{
    match v {
        Value::Str(s) => Value::Str(s.clone()),
        Value::Int(i) => Value::Int(*i),
        Value::Bool(b) => Value::Bool(*b),
        Value::Null => Value::Null,
        Value::Obj(d) => Value::Obj(Document { fields: dup_fields(&d.fields) }),
        Value::Arr(items) => Value::Arr(dup_items(items)),
    }
}

/// An exact copy of an ordered field list.
fn dup_fields(fields: &Vec<(String, Value)>) -> (r: Vec<(String, Value)>)
    ensures
        fields_model(r@) == fields_model(fields@),
    decreases *fields,
{
    let n = fields.len();
    let mut r: Vec<(String, Value)> = Vec::new();
    for i in 0..n
        invariant
            n == fields@.len(),
            r@.len() == i,
            forall|j: int|
                0 <= j < i ==> r@[j].0@ == fields@[j].0@ && value_model(#[trigger] r@[j].1)
                    == value_model(fields@[j].1),
        decreases n - i,
    {
        let name = fields[i].0.clone();
        let value = dup_value(&fields[i].1);
        r.push((name, value));
    }
    proof {
        lemma_fields_model_index(r@);
        lemma_fields_model_index(fields@);
        assert(fields_model(r@) =~= fields_model(fields@));
    }
    r
}

/// An exact copy of an array of values.
fn dup_items(items: &Vec<Value>) -> (r: Vec<Value>)
    ensures
        items_model(r@) == items_model(items@),
    decreases *items,
{
    let n = items.len();
    let mut r: Vec<Value> = Vec::new();
    for i in 0..n
        invariant
            n == items@.len(),
            r@.len() == i,
            forall|j: int|
                0 <= j < i ==> value_model(#[trigger] r@[j]) == value_model(items@[j]),
        decreases n - i,
    {
        let value = dup_value(&items[i]);
        r.push(value);
    }
    proof {
        lemma_items_model_index(r@);
        lemma_items_model_index(items@);
        assert(items_model(r@) =~= items_model(items@));
    }
    r
}

/// The generic raw read path: every native document maps back to a wire
/// document with no field-presence requirement, the server-assigned
/// identifier re-exposed first under its wire name.
pub fn from_native_raw(id: &Identifier, d: &Document) -> (r: Document)
    requires
        id.wf(),
    ensures
        doc_model(r) == seq![("_id"@, SpecValue::Str(hex_of(id@)))] + doc_model(*d),
{
    let mut fields = dup_fields(&d.fields);
    let ghost dup_view = fields@;
    let id_key: String = "_id".to_owned();
    let enc = id.encode();
    fields.insert(0, (id_key, Value::Str(enc)));
    let r = Document { fields };
    proof {
        lemma_fields_model_index(dup_view);
        lemma_fields_model_index(d.fields@);
        lemma_fields_model_index(r.fields@);
        assert(r.fields@ =~= seq![(id_key, Value::Str(enc))] + dup_view);
        assert(doc_model(r) =~= seq![("_id"@, SpecValue::Str(hex_of(id@)))] + doc_model(*d));
    }
    r
}

} // verus!
