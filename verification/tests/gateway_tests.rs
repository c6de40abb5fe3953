use rustvault::doc::{note_to_native, Document, Note, Value};
use rustvault::gateway::{delete_document, insert_document, list_collections, list_documents,
    list_documents_raw, store_outcome};
use rustvault::store::MemStore;
use rustvault::GatewayError;

fn note_payload(title: &str, content: &str) -> Value {
    Value::Obj(note_to_native(Note { title: title.to_owned(), content: content.to_owned() }))
}

fn stored_id(doc: &Document) -> String {
    assert_eq!(doc.fields[0].0, "_id");
    match &doc.fields[0].1 {
        Value::Str(s) => s.clone(),
        _ => panic!("identifier field must be a string"),
    }
}

#[test]
fn insert_then_list() {
    let mut store = MemStore::new();
    insert_document(&mut store, "notes", note_payload("a", "b")).unwrap();
    let notes = list_documents(&store, "notes");
    assert_eq!(notes.len(), 1);
    assert_eq!(notes[0].title, "a");
    assert_eq!(notes[0].content, "b");
}

#[test]
fn listing_tolerance() {
    let mut store = MemStore::new();
    insert_document(&mut store, "notes", note_payload("kept", "whole")).unwrap();
    let missing_content = Value::Obj(Document {
        fields: vec![("title".to_owned(), Value::Str("dropped".to_owned()))],
    });
    insert_document(&mut store, "notes", missing_content).unwrap();
    let notes = list_documents(&store, "notes");
    assert_eq!(notes.len(), 1);
    assert_eq!(notes[0].title, "kept");
    assert_eq!(notes[0].content, "whole");
}

#[test]
fn empty_collection_is_not_an_error() {
    let store = MemStore::new();
    let notes = list_documents(&store, "never-written-collection");
    assert!(notes.is_empty());
    let raw = list_documents_raw(&store, "never-written-collection");
    assert!(raw.is_empty());
}

#[test]
fn collection_isolation() {
    let mut store = MemStore::new();
    insert_document(&mut store, "b", note_payload("kept", "apart")).unwrap();
    insert_document(&mut store, "a", note_payload("x", "y")).unwrap();
    insert_document(&mut store, "a", note_payload("z", "w")).unwrap();
    let b_notes = list_documents(&store, "b");
    assert_eq!(b_notes.len(), 1);
    assert_eq!(b_notes[0].title, "kept");
}

#[test]
fn invalid_identifier_rejection() {
    let mut store = MemStore::new();
    insert_document(&mut store, "notes", note_payload("a", "b")).unwrap();
    let r = delete_document(&mut store, "notes", "not-an-id");
    assert!(matches!(r, Err(GatewayError::InvalidIdentifier)));
    // The store's delete operation was never invoked.
    assert_eq!(store.delete_calls_made(), 0);
    assert_eq!(list_documents(&store, "notes").len(), 1);
}

#[test]
fn idempotent_delete() {
    let mut store = MemStore::new();
    insert_document(&mut store, "notes", note_payload("a", "b")).unwrap();
    let raw = list_documents_raw(&store, "notes");
    let id = stored_id(&raw[0]);
    let first = delete_document(&mut store, "notes", &id);
    assert!(first.is_ok());
    assert!(list_documents(&store, "notes").is_empty());
    let second = delete_document(&mut store, "notes", &id);
    assert!(second.is_ok());
    assert!(list_documents(&store, "notes").is_empty());
    assert_eq!(store.delete_calls_made(), 2);
}

#[test]
fn delete_removes_exactly_the_addressed_document() {
    let mut store = MemStore::new();
    insert_document(&mut store, "notes", note_payload("first", "1")).unwrap();
    insert_document(&mut store, "notes", note_payload("second", "2")).unwrap();
    let raw = list_documents_raw(&store, "notes");
    assert_eq!(raw.len(), 2);
    let first_id = stored_id(&raw[0]);
    delete_document(&mut store, "notes", &first_id).unwrap();
    let notes = list_documents(&store, "notes");
    assert_eq!(notes.len(), 1);
    assert_eq!(notes[0].title, "second");
}

#[test]
fn deleting_a_fresh_identifier_succeeds_with_no_effect() {
    let mut store = MemStore::new();
    insert_document(&mut store, "notes", note_payload("a", "b")).unwrap();
    let r = delete_document(&mut store, "notes", "ffffffffffffffffffffffff");
    assert!(r.is_ok());
    assert_eq!(list_documents(&store, "notes").len(), 1);
}

#[test]
fn invalid_payload_rejected_and_store_untouched() {
    let mut store = MemStore::new();
    let r = insert_document(&mut store, "notes", Value::Null);
    assert!(matches!(r, Err(GatewayError::InvalidPayload)));
    assert!(list_documents(&store, "notes").is_empty());
    assert!(list_collections(&store).is_empty());
}

#[test]
fn collections_are_listed_in_store_order() {
    let mut store = MemStore::new();
    assert!(list_collections(&store).is_empty());
    insert_document(&mut store, "notes", note_payload("a", "b")).unwrap();
    insert_document(&mut store, "journal", note_payload("c", "d")).unwrap();
    insert_document(&mut store, "notes", note_payload("e", "f")).unwrap();
    let names = list_collections(&store);
    assert_eq!(names, vec!["notes".to_owned(), "journal".to_owned()]);
}

#[test]
fn raw_listing_keeps_every_document_and_every_field() {
    let mut store = MemStore::new();
    insert_document(&mut store, "notes", note_payload("a", "b")).unwrap();
    let odd = Value::Obj(Document {
        fields: vec![
            ("rank".to_owned(), Value::Int(7)),
            ("draft".to_owned(), Value::Bool(true)),
            ("tag".to_owned(), Value::Null),
        ],
    });
    insert_document(&mut store, "notes", odd).unwrap();
    let raw = list_documents_raw(&store, "notes");
    assert_eq!(raw.len(), 2);
    assert_eq!(raw[0].fields.len(), 3); // _id, title, content
    assert_eq!(raw[1].fields.len(), 4); // _id, rank, draft, tag
    assert_eq!(raw[1].fields[1].0, "rank");
    assert!(matches!(raw[1].fields[1].1, Value::Int(7)));
    // The two store-assigned identifiers are distinct and decodable.
    assert_ne!(stored_id(&raw[0]), stored_id(&raw[1]));
}

#[test]
fn empty_document_is_stored_and_skipped_by_the_note_path() {
    let mut store = MemStore::new();
    insert_document(&mut store, "notes", Value::Obj(Document { fields: vec![] })).unwrap();
    assert!(list_documents(&store, "notes").is_empty());
    let raw = list_documents_raw(&store, "notes");
    assert_eq!(raw.len(), 1);
    assert_eq!(raw[0].fields.len(), 1); // only the assigned _id
    assert_eq!(raw[0].fields[0].0, "_id");
}

#[test]
fn store_outcome_maps_failures_to_store_unavailable() {
    assert!(store_outcome(true).is_ok());
    assert!(matches!(store_outcome(false), Err(GatewayError::StoreUnavailable)));
}
