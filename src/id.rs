//! Fresh node identifiers.

use vstd::prelude::*;
use crate::graph::Id;

verus! {

/// Relies on `macroquad::rand::rand` (quad-rand's global generator): a
/// pseudo-random `u32`. Nothing is promised of its value.
#[verifier::external_body]
fn random_word() -> (r: u32) {
    macroquad::rand::rand()
}

/// The 128-bit number whose 32-bit words are, from the most significant,
/// `a`, `b`, `c` and `d`.
pub open spec fn words_value(a: u32, b: u32, c: u32, d: u32) -> int {
    a * 0x1_0000_0000_0000_0000_0000_0000 + b * 0x1_0000_0000_0000_0000 + c * 0x1_0000_0000 + d
}

/// Joins four 32-bit words into an identifier, the first the most significant.
pub fn id_from_words(a: u32, b: u32, c: u32, d: u32) -> (r: Id)
    ensures
        r == words_value(a, b, c, d),
{
    (a as u128) * 0x1_0000_0000_0000_0000_0000_0000 + (b as u128) * 0x1_0000_0000_0000_0000 + (
    c as u128) * 0x1_0000_0000 + (d as u128)
}

/// A fresh identifier made of four pseudo-random words. Identifiers are
/// unique only with high probability: adding a node whose identifier is
/// taken fails with `DuplicateIdentifier`.
pub fn generate_random_id() -> Id {
    let a = random_word();
    let b = random_word();
    let c = random_word();
    let d = random_word();
    id_from_words(a, b, c, d)
}

} // verus!
