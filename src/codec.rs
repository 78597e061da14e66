use crate::errors::StoreError;
use vstd::prelude::*;

verus! {

/// What `base64::encode` returns for some bytes (standard alphabet, padded).
pub uninterp spec fn base64_encoding(b: Seq<u8>) -> Seq<char>;

/// What `base64::decode` returns for some text: the bytes, or `None` where it fails.
pub uninterp spec fn base64_decoding(s: Seq<char>) -> Option<Seq<u8>>;

/// Whether `serde_json` accepts some bytes as the text of a JSON value.
pub uninterp spec fn json_valid(b: Seq<u8>) -> bool;

/// The characters of the standard base64 alphabet, with the padding character.
pub open spec fn is_base64_char(c: char) -> bool {
    ('A' <= c && c <= 'Z') || ('a' <= c && c <= 'z') || ('0' <= c && c <= '9') || c == '+' || c
        == '/' || c == '='
}

/// Relies on `base64::encode` (standard configuration): four alphabet characters for each
/// started group of three bytes, and `base64::decode` gives the bytes back.
#[verifier::external_body]
fn base64_encode(b: &[u8]) -> (r: String)
    ensures
        r@ == base64_encoding(b@),
        r@.len() == 4 * ((b@.len() + 2) / 3),
        forall|i: int| 0 <= i < r@.len() ==> is_base64_char(#[trigger] r@[i]),
        base64_decoding(r@) == Some(b@),
{
    base64::encode(b)
}

/// Relies on `base64::decode` (standard configuration) on the UTF-8 bytes of the text.
#[verifier::external_body]
fn base64_decode(s: &str) -> (r: Option<Vec<u8>>)
    ensures
        r is Some <==> base64_decoding(s@) is Some,
        r is Some ==> r->Some_0@ == base64_decoding(s@)->Some_0,
{
    base64::decode(s).ok()
}

/// Relies on `serde_json::from_slice` into a `serde_json::Value`: whether it succeeds;
/// an empty input ends before any value.
#[verifier::external_body]
fn json_parses(b: &[u8]) -> (r: bool)
    ensures
        r == json_valid(b@),
        b@.len() == 0 ==> !r,
{
    serde_json::from_slice::<serde_json::Value>(b).is_ok()
}

/// A JSON document, held as the bytes of its text.
#[derive(Debug)]
pub struct Document {
    json: Vec<u8>,
}

impl View for Document {
    type V = Seq<u8>;

    closed spec fn view(&self) -> Seq<u8> {
        self.json@
    }
}

impl Document {
    #[verifier::type_invariant]
    spec fn inv(&self) -> bool {
        json_valid(self.json@) && self.json@.len() > 0
    }

    /// Accepts the bytes of a JSON text.
    pub fn from_json(json: Vec<u8>) -> (r: Result<Document, StoreError>)
        ensures
            r is Ok <==> json_valid(json@),
            r is Ok ==> r->Ok_0@ == json@,
            r is Err ==> r->Err_0 == StoreError::DecodeError,
    {
        if json_parses(json.as_slice()) {
            Ok(Document { json })
        } else {
            Err(StoreError::DecodeError)
        }
    }

    /// The bytes of the JSON text.
    pub fn json(&self) -> (r: &Vec<u8>)
        ensures
            r@ == self@,
    {
        &self.json
    }

    pub fn duplicate(&self) -> (r: Document)
        ensures
            r@ == self@,
    {
        proof {
            use_type_invariant(self);
        }
        Document { json: self.json.clone() }
    }
}

/// The field that `encode` writes for a document.
pub open spec fn encode_field(d: Seq<u8>) -> Seq<char> {
    base64_encoding(d)
}

/// The document that a field stands for, if any.
pub open spec fn decode_field(f: Seq<char>) -> Option<Seq<u8>> {
    match base64_decoding(f) {
        Some(b) => if json_valid(b) {
            Some(b)
        } else {
            None
        },
        None => None,
    }
}

/// Encodes a document as a field of base64 characters, which `decode` takes back to the
/// same document.
pub fn encode(document: &Document) -> (r: String)
    ensures
        r@ == encode_field(document@),
        decode_field(r@) == Some(document@),
        r@.len() > 0,
        forall|i: int| 0 <= i < r@.len() ==> is_base64_char(#[trigger] r@[i]),
{
    proof {
        use_type_invariant(document);
    }
    let r = base64_encode(document.json().as_slice());
    r
}

/// Decodes a field back to a document; fails where it is not the encoding of JSON text.
pub fn decode(field: &str) -> (r: Result<Document, StoreError>)
    ensures
        decode_field(field@) is Some ==> r is Ok && r->Ok_0@ == decode_field(field@)->Some_0,
        decode_field(field@) is None ==> r == Err::<Document, StoreError>(StoreError::DecodeError),
{
    match base64_decode(field) {
        Some(bytes) => Document::from_json(bytes),
        None => Err(StoreError::DecodeError),
    }
}

} // verus!
