use rand::Rng;
use vstd::prelude::*;

verus! {

/// Length of the keys that the store generates.
pub const KEY_LENGTH: usize = 8;

/// How many keys `create_key` draws before it gives up.
pub const MAX_KEY_ATTEMPTS: u32 = 1000;

pub open spec fn is_alphanumeric(c: char) -> bool {
    ('A' <= c && c <= 'Z') || ('a' <= c && c <= 'z') || ('0' <= c && c <= '9')
}

/// A key of the shape that the store generates: eight characters of `[A-Za-z0-9]`.
pub open spec fn is_generated_key(k: Seq<char>) -> bool {
    &&& k.len() == KEY_LENGTH
    &&& forall|i: int| 0 <= i < k.len() ==> is_alphanumeric(#[trigger] k[i])
}

/// Relies on `rand::thread_rng` sampled with `rand_distr::Alphanumeric`: each character
/// is drawn from `[A-Za-z0-9]`; which ones come out is left open.
#[verifier::external_body]
fn random_alphanumeric(len: usize) -> (r: String)
    ensures
        r@.len() == len,
        forall|i: int| 0 <= i < r@.len() ==> is_alphanumeric(#[trigger] r@[i]),
{
    rand::thread_rng().sample_iter(&rand_distr::Alphanumeric).map(|x| x as char).take(len).collect()
}

/// Draws a fresh candidate key.
pub fn random_key() -> (r: String)
    ensures
        is_generated_key(r@),
{
    random_alphanumeric(KEY_LENGTH)
}

} // verus!
