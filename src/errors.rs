use vstd::prelude::*;

verus! {

/// The ways an operation of the store can fail.
#[derive(Debug, Clone, Copy, PartialEq, Eq, Structural)]
pub enum StoreError {
    /// The key is absent.
    NotFound,
    /// A record with the key is already present.
    AlreadyExists,
    /// No free key was found within the retry budget.
    KeyspaceExhausted,
    /// A field is not the encoding of a JSON document.
    DecodeError,
    /// A snapshot line looks complete but its field does not decode.
    CorruptSnapshot,
    /// A listing window holds no record.
    NoResults,
}

impl StoreError {
    /// The HTTP status that a request failing with this error answers with.
    pub fn http_status(&self) -> (r: u16)
        ensures
            *self == StoreError::NotFound || *self == StoreError::NoResults ==> r == 404,
            *self == StoreError::AlreadyExists ==> r == 409,
            *self == StoreError::KeyspaceExhausted || *self == StoreError::DecodeError || *self
                == StoreError::CorruptSnapshot ==> r == 500,
    {
        match self {
            StoreError::NotFound => 404,
            StoreError::NoResults => 404,
            StoreError::AlreadyExists => 409,
            StoreError::KeyspaceExhausted => 500,
            StoreError::DecodeError => 500,
            StoreError::CorruptSnapshot => 500,
        }
    }

    /// The error with a message that names what went wrong.
    pub fn to_kvstore_error(&self) -> (r: KVStoreError)
        ensures
            *self == StoreError::NotFound ==> r.message_view() == "Key not found"@,
            *self == StoreError::AlreadyExists ==> r.message_view() == "Key already exists"@,
            *self == StoreError::KeyspaceExhausted ==> r.message_view() == "No free key found"@,
            *self == StoreError::DecodeError ==> r.message_view() == "Document does not decode"@,
            *self == StoreError::CorruptSnapshot ==> r.message_view() == "Snapshot is corrupt"@,
            *self == StoreError::NoResults ==> r.message_view() == "No documents found"@,
    {
        match self {
            StoreError::NotFound => KVStoreError::new("Key not found"),
            StoreError::AlreadyExists => KVStoreError::new("Key already exists"),
            StoreError::KeyspaceExhausted => KVStoreError::new("No free key found"),
            StoreError::DecodeError => KVStoreError::new("Document does not decode"),
            StoreError::CorruptSnapshot => KVStoreError::new("Snapshot is corrupt"),
            StoreError::NoResults => KVStoreError::new("No documents found"),
        }
    }
}

/// An error carrying a human-readable message.
#[derive(Debug)]
pub struct KVStoreError {
    message: String,
}

impl KVStoreError {
    pub closed spec fn message_view(&self) -> Seq<char> {
        self.message@
    }

    pub fn new(message: &str) -> (r: KVStoreError)
        ensures
            r.message_view() == message@,
    {
        KVStoreError { message: message.to_owned() }
    }

    pub fn message(&self) -> (r: &String)
        ensures
            r@ == self.message_view(),
    {
        &self.message
    }
}

} // verus!
