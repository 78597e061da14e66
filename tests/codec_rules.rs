use vbank::{decode, encode, Document, KVStoreError, StoreError};

#[test]
fn encode_is_base64_of_json_text() {
    let d = Document::from_json(b"{\"a\":1}".to_vec()).unwrap();
    assert_eq!(encode(&d), "eyJhIjoxfQ==");
}

#[test]
fn decode_gives_the_document_back() {
    let d = decode("WzEsMl0=").unwrap();
    assert_eq!(d.json(), &b"[1,2]".to_vec());
}

#[test]
fn round_trip_with_delimiter_in_text() {
    let d = Document::from_json(b"{\"p\":\"a|b\"}".to_vec()).unwrap();
    let f = encode(&d);
    assert_eq!(f, "eyJwIjoiYXxiIn0=");
    assert_eq!(decode(&f).unwrap().json(), d.json());
}

#[test]
fn decode_rejects_bad_base64() {
    assert_eq!(decode("not base64!").unwrap_err(), StoreError::DecodeError);
}

#[test]
fn decode_rejects_non_json_payload() {
    // "hello" in base64: valid base64, not JSON
    assert_eq!(decode("aGVsbG8=").unwrap_err(), StoreError::DecodeError);
}

#[test]
fn from_json_rejects_invalid_text() {
    assert_eq!(Document::from_json(b"{".to_vec()).unwrap_err(), StoreError::DecodeError);
    assert_eq!(Document::from_json(Vec::new()).unwrap_err(), StoreError::DecodeError);
}

#[test]
fn duplicate_keeps_bytes() {
    let d = Document::from_json(b"[true]".to_vec()).unwrap();
    assert_eq!(d.duplicate().json(), d.json());
}

#[test]
fn error_messages_and_statuses() {
    assert_eq!(StoreError::NotFound.to_kvstore_error().message(), "Key not found");
    assert_eq!(StoreError::AlreadyExists.to_kvstore_error().message(), "Key already exists");
    assert_eq!(StoreError::NoResults.to_kvstore_error().message(), "No documents found");
    assert_eq!(StoreError::NotFound.http_status(), 404);
    assert_eq!(StoreError::NoResults.http_status(), 404);
    assert_eq!(StoreError::AlreadyExists.http_status(), 409);
    assert_eq!(StoreError::CorruptSnapshot.http_status(), 500);
    assert_eq!(StoreError::KeyspaceExhausted.http_status(), 500);
    assert_eq!(StoreError::DecodeError.http_status(), 500);
}

#[test]
fn kvstore_error_keeps_message() {
    let e = KVStoreError::new("Key already exists");
    assert_eq!(e.message(), "Key already exists");
}
