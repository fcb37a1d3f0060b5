//! Case-insensitive identity of names.

use vstd::prelude::*;

verus! {

/// The lower-case form of a string, as `str::to_lowercase` computes it.
pub uninterp spec fn lower_of(s: Seq<char>) -> Seq<char>;

/// Relies on `str::to_lowercase`: its result depends on the characters of
/// its argument alone, and an empty string stays empty.
#[verifier::external_body]
fn lowercase(s: &str) -> (r: String)
    ensures
        r@ == lower_of(s@),
        s@.len() == 0 ==> r@.len() == 0,
{
    s.to_lowercase()
}

/// The identity key of a name: its lower-case form.
pub fn identity_key(name: &str) -> (r: String)
    ensures
        r@ == lower_of(name@),
{
    lowercase(name)
}

/// Whether two names denote the same participant.
pub fn same_identity(a: &str, b: &str) -> (r: bool)
    ensures
        r == (lower_of(a@) == lower_of(b@)),
{
    let ka = lowercase(a);
    let kb = lowercase(b);
    ka == kb
}

} // verus!
