use rustvault::doc::{from_native_note, from_native_raw, note_to_native, to_native, Document, Note,
    Value};
use rustvault::ident::Identifier;
use rustvault::GatewayError;

#[test]
fn identifier_round_trip() {
    let id = Identifier::decode("0123456789abcdef01234567").unwrap();
    assert_eq!(id.encode(), "0123456789abcdef01234567");
    let again = Identifier::decode(&id.encode()).unwrap();
    assert!(id.same(&again));
}

#[test]
fn identifier_uppercase_decodes_to_lowercase_encoding() {
    let id = Identifier::decode("AABBCCDDEEFF001122334455").unwrap();
    assert_eq!(id.encode(), "aabbccddeeff001122334455");
}

#[test]
fn identifier_wrong_length_rejected() {
    assert!(matches!(
        Identifier::decode("0123456789abcdef0123456"),
        Err(GatewayError::InvalidIdentifier)
    ));
    assert!(matches!(
        Identifier::decode("0123456789abcdef012345678"),
        Err(GatewayError::InvalidIdentifier)
    ));
    assert!(matches!(Identifier::decode(""), Err(GatewayError::InvalidIdentifier)));
}

#[test]
fn identifier_non_hex_rejected() {
    assert!(matches!(
        Identifier::decode("0123456789abcdef0123456g"),
        Err(GatewayError::InvalidIdentifier)
    ));
    assert!(matches!(
        Identifier::decode("not-an-id-not-an-id-not-"),
        Err(GatewayError::InvalidIdentifier)
    ));
}

#[test]
fn to_native_accepts_only_documents() {
    let payload = Value::Obj(Document {
        fields: vec![("x".to_owned(), Value::Int(5)), ("y".to_owned(), Value::Bool(true))],
    });
    let doc = to_native(payload).unwrap();
    assert_eq!(doc.fields.len(), 2);
    assert_eq!(doc.fields[0].0, "x");
    assert!(matches!(doc.fields[0].1, Value::Int(5)));
    assert!(matches!(to_native(Value::Null), Err(GatewayError::InvalidPayload)));
    assert!(matches!(
        to_native(Value::Str("whole body".to_owned())),
        Err(GatewayError::InvalidPayload)
    ));
    assert!(matches!(to_native(Value::Arr(vec![])), Err(GatewayError::InvalidPayload)));
}

#[test]
fn note_codec_round_trip() {
    let doc = note_to_native(Note { title: "a".to_owned(), content: "b".to_owned() });
    assert_eq!(doc.fields.len(), 2);
    assert_eq!(doc.fields[0].0, "title");
    assert_eq!(doc.fields[1].0, "content");
    let note = from_native_note(&doc).unwrap();
    assert_eq!(note.title, "a");
    assert_eq!(note.content, "b");
}

#[test]
fn note_decode_skips_missing_or_mistyped_fields() {
    let missing_content = Document {
        fields: vec![("title".to_owned(), Value::Str("only".to_owned()))],
    };
    assert!(from_native_note(&missing_content).is_none());

    let mistyped = Document {
        fields: vec![
            ("title".to_owned(), Value::Int(3)),
            ("content".to_owned(), Value::Str("c".to_owned())),
        ],
    };
    assert!(from_native_note(&mistyped).is_none());

    let extra_fields = Document {
        fields: vec![
            ("rank".to_owned(), Value::Int(1)),
            ("title".to_owned(), Value::Str("t".to_owned())),
            ("content".to_owned(), Value::Str("c".to_owned())),
            ("draft".to_owned(), Value::Bool(false)),
        ],
    };
    let note = from_native_note(&extra_fields).unwrap();
    assert_eq!(note.title, "t");
    assert_eq!(note.content, "c");
}

#[test]
fn raw_wire_form_re_exposes_identifier_first() {
    let id = Identifier::decode("0123456789abcdef01234567").unwrap();
    let body = Document {
        fields: vec![("x".to_owned(), Value::Int(5))],
    };
    let wire = from_native_raw(&id, &body);
    assert_eq!(wire.fields.len(), 2);
    assert_eq!(wire.fields[0].0, "_id");
    match &wire.fields[0].1 {
        Value::Str(s) => assert_eq!(s, "0123456789abcdef01234567"),
        _ => panic!("identifier field must be a string"),
    }
    assert_eq!(wire.fields[1].0, "x");
    assert!(matches!(wire.fields[1].1, Value::Int(5)));
}

#[test]
fn duplicate_field_names_read_first_occurrence() {
    let doc = Document {
        fields: vec![
            ("title".to_owned(), Value::Str("first".to_owned())),
            ("title".to_owned(), Value::Str("second".to_owned())),
            ("content".to_owned(), Value::Str("c".to_owned())),
        ],
    };
    let note = from_native_note(&doc).unwrap();
    assert_eq!(note.title, "first");
}

#[test]
fn error_messages_name_the_failure() {
    assert_eq!(GatewayError::InvalidPayload.message(), "invalid payload");
    assert_eq!(GatewayError::InvalidIdentifier.message(), "invalid identifier");
    assert_eq!(GatewayError::StoreUnavailable.message(), "store unavailable");
}
