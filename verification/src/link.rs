//! Content identifiers over the multihash of a piece.

use crate::multihash::{Multihash, MultihashView, MAX_DIGEST_SIZE};
use vstd::prelude::*;

verus! {

/// The text of the version 1 content identifier with the given codec over
/// the multihash of the given code and digest: its bytes in base 32, lower
/// case, behind the multibase prefix.
pub uninterp spec fn cid_v1_text(codec: u64, code: u64, digest: Seq<u8>) -> Seq<char>;

/// A version 1 content identifier: a codec and a multihash.
#[derive(Debug, Eq, PartialEq)]
pub struct Cid {
    codec: u64,
    hash: Multihash,
}

/// What a content identifier is, as plain values.
pub struct CidView {
    pub codec: u64,
    pub hash: MultihashView,
}

impl View for Cid {
    type V = CidView;

    closed spec fn view(&self) -> CidView {
        CidView { codec: self.codec, hash: self.hash@ }
    }
}

/// Calls `Multihash::wrap` of the multihash crate and `Cid::new_v1` and
/// `to_string` of the cid crate, with room for 64 bytes of digest: a digest
/// longer than that is refused, and of any other the result is the text of
/// the identifier.
#[verifier::external_body]
fn encode_cid_v1(codec: u64, code: u64, digest: &[u8]) -> (text: Option<String>)
    ensures
        text is Some <==> digest@.len() <= MAX_DIGEST_SIZE,
        text is Some ==> text->Some_0@ == cid_v1_text(codec, code, digest@),
{
    match ::multihash::Multihash::<64>::wrap(code, digest) {
        Ok(hash) => Some(::cid::Cid::new_v1(codec, hash).to_string()),
        Err(_) => None,
    }
}

impl Cid {
    /// The multihash fits.
    pub open spec fn wf(&self) -> bool {
        self@.hash.digest.len() <= MAX_DIGEST_SIZE
    }

    /// The version 1 identifier with the given codec over `hash`.
    pub fn new_v1(codec: u64, hash: Multihash) -> (cid: Self)
        requires
            hash.wf(),
        ensures
            cid.wf(),
            cid@ == (CidView { codec, hash: hash@ }),
    {
        Cid { codec, hash }
    }

    /// The codec of what the identifier points at.
    pub fn codec(&self) -> (codec: u64)
        ensures
            codec == self@.codec,
    {
        self.codec
    }

    /// The multihash of what the identifier points at.
    pub fn hash(&self) -> (hash: &Multihash)
        ensures
            hash@ == self@.hash,
    {
        &self.hash
    }

    /// The identifier as text.
    pub fn to_string(&self) -> (text: String)
        requires
            self.wf(),
        ensures
            text@ == cid_v1_text(self@.codec, self@.hash.code, self@.hash.digest),
    {
        encode_cid_v1(self.codec, self.hash.code(), self.hash.digest()).unwrap()
    }
}

} // verus!
