//! The calls this library makes into std and outside crates whose results
//! it cannot compute itself: the operating system's random source, the
//! system clock, a slice-to-array conversion and a character's string.
use vstd::prelude::*;

verus! {

/// `getrandom::getrandom` (getrandom 0.2): fills `dest` with bytes from the
/// operating system's random source and returns whether it succeeded (its
/// `Ok`). Nothing is stated of the bytes, nor of when the source fails.
#[verifier::external_body]
pub(crate) fn fill_random(dest: &mut [u8; 16]) -> (ok: bool) {
    getrandom::getrandom(dest).is_ok()
}

/// `SystemTime::now().duration_since(UNIX_EPOCH)` (std), in whole seconds
/// (`Duration::as_secs`), or `None` when the clock reads before 1970 (its
/// `Err`). Nothing is stated of the reading.
#[verifier::external_body]
pub(crate) fn unix_now() -> (t: Option<u64>) {
    match std::time::SystemTime::now().duration_since(std::time::UNIX_EPOCH) {
        Ok(d) => Some(d.as_secs()),
        Err(_) => None,
    }
}

/// `<&[u8; 16]>::try_from(&[u8])` (std): a slice of exactly 16 bytes seen as
/// an array reference with the same bytes.
#[verifier::external_body]
pub(crate) fn as_array16(s: &[u8]) -> (a: &[u8; 16])
    requires
        s@.len() == 16,
    ensures
        a@ == s@,
{
    s.try_into().unwrap()
}

/// `char::to_string` (std): the string of the one character `c`.
#[verifier::external_body]
pub(crate) fn char_string(c: char) -> (s: String)
    ensures
        s@ == seq![c],
{
    c.to_string()
}

} // verus!
