//! The boundary token: sixteen random letters and digits.

use vstd::prelude::*;
use rand::rngs::ThreadRng;

verus! {

/// The number of characters in a generated boundary token.
pub const BOUNDARY_LEN: usize = 16;

/// An ASCII letter or digit.
pub open spec fn is_alphanumeric(c: char) -> bool {
    ('0' <= c <= '9') || ('A' <= c <= 'Z') || ('a' <= c <= 'z')
}

/// What a generated boundary token looks like: `BOUNDARY_LEN` ASCII letters
/// and digits, so that it needs no quoting in a header.
pub open spec fn is_boundary_token(token: Seq<char>) -> bool {
    &&& token.len() == BOUNDARY_LEN
    &&& forall|i: int| 0 <= i < token.len() ==> is_alphanumeric(#[trigger] token[i])
}

/// `rand::rngs::ThreadRng`, the random number generator of a thread.
#[verifier::external_type_specification]
#[verifier::external_body]
pub struct ExThreadRng(rand::rngs::ThreadRng);

/// `rand::thread_rng` hands out the generator of the calling thread, seeded
/// by the system. Nothing is claimed of it.
pub assume_specification[ rand::thread_rng ]() -> (rng: ThreadRng);

/// `String::push` appends one character, as its documentation says. Not
/// proved.
pub assume_specification[ String::push ](s: &mut String, c: char)
    ensures
        final(s)@ == old(s)@.push(c),
;

/// `Rng::sample` with `rand::distributions::Alphanumeric`: a byte drawn from
/// the ASCII letters and digits. Which one differs from call to call; that it
/// is one of them is taken from the crate's documentation, not proved.
#[verifier::external_body]
fn sample_alphanumeric(rng: &mut ThreadRng) -> (byte: u8)
    ensures
        is_alphanumeric(byte as char),
{
    rand::Rng::sample(rng, rand::distributions::Alphanumeric)
}

/// A fresh boundary token.
pub fn random_boundary() -> (token: String)
    ensures
        is_boundary_token(token@),
{
    let mut rng = rand::thread_rng();
    let mut token = String::new();
    let mut i: usize = 0;
    while i < BOUNDARY_LEN
        invariant
            i <= BOUNDARY_LEN,
            token@.len() == i,
            forall|k: int| 0 <= k < token@.len() ==> is_alphanumeric(#[trigger] token@[k]),
        decreases BOUNDARY_LEN - i,
    {
        let byte: u8 = sample_alphanumeric(&mut rng);
        token.push(byte as char);
        i = i + 1;
    }
    token
}

} // verus!
