//! Content identities: the lower-case hexadecimal SHA-256 digest of bytes.

use vstd::prelude::*;
use crate::sha256::{hex, hex_text, sha256, sha256_spec};
use crate::text::str_eq;

verus! {

/// The text of the identity of `bytes`.
pub open spec fn id_text(bytes: Seq<u8>) -> Seq<char> {
    hex_text(sha256_spec(bytes))
}

/// A SHA-256 content identity, held as 64 lower-case hexadecimal digits.
#[derive(Clone, Debug, PartialEq, Eq, PartialOrd, Ord, Hash)]
pub struct Sha256Id {
    hex: String,
}

impl View for Sha256Id {
    type V = Seq<char>;

    closed spec fn view(&self) -> Seq<char> {
        self.hex@
    }
}

impl Sha256Id {
    /// The identity of `bytes`.
    pub fn digest(bytes: &[u8]) -> (r: Sha256Id)
        ensures
            r@ == id_text(bytes@),
    {
        let d = sha256(bytes);
        Sha256Id { hex: hex(&d) }
    }

    /// The hexadecimal digits.
    pub fn as_str(&self) -> (r: &str)
        ensures
            r@ == self@,
    {
        self.hex.as_str()
    }

    /// The hexadecimal digits, as an owned string.
    pub fn to_string(&self) -> (r: String)
        ensures
            r@ == self@,
    {
        self.hex.clone()
    }

    pub fn copy(&self) -> (r: Sha256Id)
        ensures
            r@ == self@,
    {
        Sha256Id { hex: self.hex.clone() }
    }

    /// Whether the two identities are equal.
    pub fn same(&self, other: &Sha256Id) -> (r: bool)
        ensures
            r == (self@ == other@),
    {
        str_eq(self.hex.as_str(), other.hex.as_str())
    }
}

} // verus!
