//! The document store gateway: list-collections, list-documents,
//! insert-document and delete-document, orchestrating the collection
//! resolver and the two codecs over a document store, with explicit error
//! semantics. The gateway holds no state of its own: the store handle is
//! passed into every call.
use vstd::prelude::*;
use crate::doc::{doc_model, from_native_note, from_native_raw, note_of, to_native, Document, Note,
    SpecValue, Value};
use crate::ident::{hex_of, spec_decode, Identifier};
use crate::store::{contains_id, count_bump, docs_in, model_delete, model_insert,
    remove_first_id, MemStore, StoredDocument};
use crate::GatewayError;

verus! {

/// The note listing a collection decodes to: each document whose two
/// required fields are present and string-typed, in order; malformed
/// records are silently skipped, never an error.
pub open spec fn decoded_notes(docs: Seq<StoredDocument>) -> Seq<Note>
    decreases docs.len(),
{
    if docs.len() == 0 {
        Seq::empty()
    } else {
        let rest = decoded_notes(docs.subrange(1, docs.len() as int));
        match note_of(docs[0].body) {
            Some(n) => seq![n] + rest,
            None => rest,
        }
    }
}

/// The raw wire form of a stored document: the server-assigned identifier
/// re-exposed first under its wire name, then the body's fields.
pub open spec fn raw_doc_model(sd: StoredDocument) -> Seq<(Seq<char>, SpecValue)> {
    seq![("_id"@, SpecValue::Str(hex_of(sd.id@)))] + doc_model(sd.body)
}

/// What a delete reports: success for every well-formed identifier —
/// whether or not a document carried it — and an invalid-identifier error,
/// before any store call, for anything else.
pub open spec fn delete_outcome(raw: Seq<char>) -> Result<(), GatewayError> {
    if spec_decode(raw) is Some {
        Ok(())
    } else {
        Err(GatewayError::InvalidIdentifier)
    }
}

/// Lists every collection name the store knows, in store order.
pub fn list_collections(store: &MemStore) -> (r: Vec<String>)
    ensures
        r@.len() == store.names().len(),
        forall|i: int| 0 <= i < r@.len() ==> (#[trigger] r@[i])@ == store.names()[i],
{
    store.list_collection_names()
}

/// Lists one collection on the note read path: a full scan, each record
/// decoded, the malformed ones dropped. A collection never written yields
/// the empty sequence, not an error.
pub fn list_documents(store: &MemStore, name: &str) -> (r: Vec<Note>)
    ensures
        r@ == decoded_notes(docs_in(store.contents(), name@)),
{
    let mut notes: Vec<Note> = Vec::new();
    let docs = match store.find_all(name) {
        Some(v) => v,
        None => {
            return notes;
        },
    };
    let ghost full = docs@;
    let n = docs.len();
    proof {
        assert(full.subrange(0, n as int) =~= full);
        assert(notes@ + decoded_notes(full) =~= decoded_notes(full));
    }
    for i in 0..n
        invariant
            n == docs@.len(),
            docs@ == full,
            full == docs_in(store.contents(), name@),
            notes@ + decoded_notes(full.subrange(i as int, n as int)) == decoded_notes(full),
    {
        let ghost rest = full.subrange(i as int, n as int);
        proof {
            assert(rest[0] == full[i as int]);
            assert(rest.subrange(1, rest.len() as int) =~= full.subrange(i + 1, n as int));
        }
        match from_native_note(&docs[i].body) {
            Some(nt) => {
                notes.push(nt);
                proof {
                    assert(notes@ + decoded_notes(full.subrange(i + 1, n as int)) =~=
                    decoded_notes(full));
                }
            },
            None => {
                proof {
                    assert(notes@ + decoded_notes(full.subrange(i + 1, n as int)) =~=
                    decoded_notes(full));
                }
            },
        }
    }
    proof {
        assert(full.subrange(n as int, n as int) =~= Seq::<StoredDocument>::empty());
        assert(notes@ =~= decoded_notes(full));
    }
    notes
}

/// Lists one collection on the generic raw read path: every stored document
/// maps back to a wire document, no field-presence requirement, the
/// identifier re-exposed under its wire name.
pub fn list_documents_raw(store: &MemStore, name: &str) -> (r: Vec<Document>)
    requires
        store.wf(),
    ensures
        r@.len() == docs_in(store.contents(), name@).len(),
        forall|i: int|
            0 <= i < r@.len() ==> doc_model(#[trigger] r@[i]) == raw_doc_model(
                docs_in(store.contents(), name@)[i],
            ),
{
    proof {
        store.lemma_stored_ids(name@);
    }
    let mut out: Vec<Document> = Vec::new();
    let docs = match store.find_all(name) {
        Some(v) => v,
        None => {
            return out;
        },
    };
    let n = docs.len();
    for i in 0..n
        invariant
            n == docs@.len(),
            docs@ == docs_in(store.contents(), name@),
            forall|k: int| 0 <= k < n ==> (#[trigger] docs@[k]).id.wf(),
            out@.len() == i,
            forall|k: int|
                0 <= k < i ==> doc_model(#[trigger] out@[k]) == raw_doc_model(docs@[k]),
    {
        let wire = from_native_raw(&docs[i].id, &docs[i].body);
        out.push(wire);
    }
    out
}

/// Inserts one document into a named collection, creating the collection
/// implicitly on first write. The store assigns the new document a fresh
/// identifier, which is not returned. Fails with an invalid-payload error,
/// leaving the store untouched, exactly when the payload is not a document;
/// every other collection is unaffected by the write.
pub fn insert_document(store: &mut MemStore, name: &str, payload: Value) -> (r: Result<
    (),
    GatewayError,
>)
    requires
        old(store).wf(),
        old(store).can_assign(),
    ensures
        final(store).wf(),
        match r {
            Ok(()) => payload is Obj && ({
                let docs0 = docs_in(old(store).contents(), name@);
                let docs1 = docs_in(final(store).contents(), name@);
                &&& docs1.len() == docs0.len() + 1
                &&& docs1 == docs0.push(docs1.last())
                &&& docs1.last().body == payload->Obj_0
                &&& docs1.last().id.wf()
                &&& !contains_id(docs0, docs1.last().id@)
                &&& final(store).contents() == model_insert(
                    old(store).contents(),
                    name@,
                    docs1.last(),
                )
                &&& final(store).names() == if old(store).contents().dom().contains(name@) {
                    old(store).names()
                } else {
                    old(store).names().push(name@)
                }
                &&& final(store).delete_count() == old(store).delete_count()
                &&& final(store).counter() == old(store).counter() + 1
            }),
            Err(e) => e == GatewayError::InvalidPayload && !(payload is Obj) && *final(store)
                == *old(store),
        },
{
    let doc = match to_native(payload) {
        Ok(d) => d,
        Err(e) => {
            return Err(e);
        },
    };
    store.insert_one(name, doc);
    Ok(())
}

/// Deletes one document by its wire identifier. A string that does not
/// decode to an identifier is rejected before the store is invoked, leaving
/// the store exactly as it was. A well-formed identifier always reports
/// success, whether zero or one document matched: delete is idempotent.
pub fn delete_document(store: &mut MemStore, name: &str, raw_id: &str) -> (r: Result<
    (),
    GatewayError,
>)
    requires
        old(store).wf(),
    ensures
        final(store).wf(),
        r == delete_outcome(raw_id@),
        match r {
            Ok(()) => final(store).contents() == model_delete(
                old(store).contents(),
                name@,
                spec_decode(raw_id@).unwrap(),
            ) && final(store).names() == old(store).names() && final(store).delete_count()
                == count_bump(old(store).delete_count()) && final(store).counter() == old(
                store,
            ).counter(),
            Err(e) => e == GatewayError::InvalidIdentifier && *final(store) == *old(store),
        },
{
    let id = match Identifier::decode(raw_id) {
        Ok(id) => id,
        Err(e) => {
            return Err(e);
        },
    };
    store.delete_one(name, &id);
    Ok(())
}

/// Folds a store acknowledgment into the gateway's result: a write or scan
/// the store could not commit is a store-unavailable error, with no store
/// detail leaked to the caller.
pub fn store_outcome(committed: bool) -> (r: Result<(), GatewayError>)
    ensures
        r == if committed {
            Ok::<(), GatewayError>(())
        } else {
            Err::<(), GatewayError>(GatewayError::StoreUnavailable)
        },
{
    if committed {
        Ok(())
    } else {
        Err(GatewayError::StoreUnavailable)
    }
}

/// Decoding distributes over appending one stored document.
proof fn lemma_decoded_notes_push(docs: Seq<StoredDocument>, sd: StoredDocument)
    ensures
        decoded_notes(docs.push(sd)) == decoded_notes(docs) + (match note_of(sd.body) {
            Some(n) => seq![n],
            None => Seq::<Note>::empty(),
        }),
    decreases docs.len(),
{
    let s2 = docs.push(sd);
    assert(decoded_notes(Seq::<StoredDocument>::empty()) == Seq::<Note>::empty());
    if docs.len() == 0 {
        assert(s2[0] == sd);
        assert(s2.subrange(1, 1) =~= Seq::<StoredDocument>::empty());
        match note_of(sd.body) {
            Some(n) => {
                assert(decoded_notes(s2) =~= decoded_notes(docs) + seq![n]);
            },
            None => {
                assert(decoded_notes(s2) =~= decoded_notes(docs) + Seq::<Note>::empty());
            },
        }
    } else {
        assert(s2[0] == docs[0]);
        let rest = docs.subrange(1, docs.len() as int);
        lemma_decoded_notes_push(rest, sd);
        assert(s2.subrange(1, s2.len() as int) =~= rest.push(sd));
        match note_of(sd.body) {
            Some(n) => {
                assert(decoded_notes(s2) =~= decoded_notes(docs) + seq![n]);
            },
            None => {
                assert(decoded_notes(s2) =~= decoded_notes(docs) + Seq::<Note>::empty());
            },
        }
    }
}

/// Insert-then-list: after inserting a note-shaped document into a
/// collection, listing that collection yields the notes it yielded before
/// with that note appended — in particular, it contains the inserted note.
pub proof fn lemma_insert_then_list(
    m: Map<Seq<char>, Seq<StoredDocument>>,
    name: Seq<char>,
    sd: StoredDocument,
    note: Note,
)
    requires
        note_of(sd.body) == Some(note),
    ensures
        decoded_notes(docs_in(model_insert(m, name, sd), name)) == decoded_notes(
            docs_in(m, name),
        ).push(note),
{
    let docs0 = docs_in(m, name);
    assert(docs_in(model_insert(m, name, sd), name) == docs0.push(sd));
    lemma_decoded_notes_push(docs0, sd);
    assert(decoded_notes(docs0) + seq![note] =~= decoded_notes(docs0).push(note));
}

/// Collection isolation: inserting into one collection never affects what
/// any other collection holds or lists.
pub proof fn lemma_collection_isolation(
    m: Map<Seq<char>, Seq<StoredDocument>>,
    a: Seq<char>,
    b: Seq<char>,
    sd: StoredDocument,
)
    requires
        a != b,
    ensures
        docs_in(model_insert(m, a, sd), b) == docs_in(m, b),
        decoded_notes(docs_in(model_insert(m, a, sd), b)) == decoded_notes(docs_in(m, b)),
{
}

/// Empty collection: a collection that was never written lists as the empty
/// sequence, not as an error.
pub proof fn lemma_empty_collection(m: Map<Seq<char>, Seq<StoredDocument>>, name: Seq<char>)
    requires
        !m.dom().contains(name),
    ensures
        docs_in(m, name) == Seq::<StoredDocument>::empty(),
        decoded_notes(docs_in(m, name)) == Seq::<Note>::empty(),
{
}

/// Idempotent delete, reported outcome: what a delete reports depends on
/// the identifier alone, never on the store's state — so deleting the same
/// well-formed identifier twice reports success both times, and the second
/// call never errors.
pub proof fn lemma_delete_idempotent_outcome(raw: Seq<char>)
    requires
        spec_decode(raw) is Some,
    ensures
        delete_outcome(raw) == Ok::<(), GatewayError>(()),
{
}

/// After removing the first document carrying an identifier, none carries
/// it — the store's identifiers being pairwise distinct within a collection.
proof fn lemma_remove_first_clears(docs: Seq<StoredDocument>, id: Seq<u8>)
    requires
        forall|k1: int, k2: int|
            0 <= k1 < k2 < docs.len() ==> (#[trigger] docs[k1]).id@ != (#[trigger] docs[k2]).id@,
    ensures
        !contains_id(remove_first_id(docs, id), id),
    decreases docs.len(),
{
    if docs.len() == 0 {
    } else if docs[0].id@ == id {
        let rest = docs.subrange(1, docs.len() as int);
        assert forall|k: int| 0 <= k < rest.len() implies (#[trigger] rest[k]).id@ != id by {
            assert(docs[k + 1] == rest[k]);
        }
    } else {
        let rest = docs.subrange(1, docs.len() as int);
        assert forall|k1: int, k2: int| 0 <= k1 < k2 < rest.len() implies (
        #[trigger] rest[k1]).id@ != (#[trigger] rest[k2]).id@ by {
            assert(docs[k1 + 1] == rest[k1] && docs[k2 + 1] == rest[k2]);
        }
        lemma_remove_first_clears(rest, id);
        let inner = remove_first_id(rest, id);
        let result = remove_first_id(docs, id);
        assert(result == seq![docs[0]] + inner);
        assert forall|k: int| 0 <= k < result.len() implies (#[trigger] result[k]).id@ != id by {
            if k > 0 {
                assert(result[k] == inner[k - 1]);
            }
        }
    }
}

/// Idempotent delete, store state: deleting the same identifier a second
/// time changes nothing, because the first delete removed every document
/// carrying it — the store's identifiers being pairwise distinct.
pub proof fn lemma_delete_twice(
    m: Map<Seq<char>, Seq<StoredDocument>>,
    name: Seq<char>,
    id: Seq<u8>,
)
    requires
        forall|k1: int, k2: int|
            0 <= k1 < k2 < docs_in(m, name).len() ==> (#[trigger] docs_in(m, name)[k1]).id@ != (
            #[trigger] docs_in(m, name)[k2]).id@,
    ensures
        model_delete(model_delete(m, name, id), name, id) == model_delete(m, name, id),
{
    if m.dom().contains(name) {
        let d0 = m[name];
        let d1 = remove_first_id(d0, id);
        assert(docs_in(m, name) == d0);
        assert forall|k1: int, k2: int| 0 <= k1 < k2 < d0.len() implies (#[trigger] d0[k1]).id@
            != (#[trigger] d0[k2]).id@ by {
            assert(docs_in(m, name)[k1] == d0[k1] && docs_in(m, name)[k2] == d0[k2]);
        }
        lemma_remove_first_clears(d0, id);
        let m1 = model_delete(m, name, id);
        assert(m1[name] == d1);
        assert forall|k: int| 0 <= k < d1.len() implies (#[trigger] d1[k]).id@ != id by {
            assert(contains_id(d1, id) <==> exists|i: int|
                0 <= i < d1.len() && (#[trigger] d1[i]).id@ == id);
        }
        lemma_remove_none(d1, id);
        assert(model_delete(m1, name, id) =~= m1);
    }
}

/// A collection with no document carrying the identifier is unchanged by
/// removing it.
proof fn lemma_remove_none(docs: Seq<StoredDocument>, id: Seq<u8>)
    requires
        forall|k: int| 0 <= k < docs.len() ==> (#[trigger] docs[k]).id@ != id,
    ensures
        remove_first_id(docs, id) == docs,
    decreases docs.len(),
{
    if docs.len() > 0 {
        let rest = docs.subrange(1, docs.len() as int);
        lemma_remove_none(rest, id);
        assert(remove_first_id(docs, id) =~= docs);
    }
}

/// Listing tolerance: a collection holding one well-formed note-shaped
/// document and one malformed document lists exactly the one decoded note;
/// the malformed record is dropped, not an error.
pub proof fn lemma_listing_tolerance(d1: StoredDocument, d2: StoredDocument, n: Note)
    requires
        note_of(d1.body) == Some(n),
        note_of(d2.body) is None,
    ensures
        decoded_notes(seq![d1, d2]) == seq![n],
{
    let s = seq![d1, d2];
    assert(decoded_notes(Seq::<StoredDocument>::empty()) == Seq::<Note>::empty());
    assert(s.subrange(1, 2)[0] == d2);
    assert(s.subrange(1, 2).subrange(1, 1) =~= Seq::<StoredDocument>::empty());
    assert(decoded_notes(s.subrange(1, 2)) == Seq::<Note>::empty());
    assert(decoded_notes(s) =~= seq![n]);
}

} // verus!
