//! Multihashes, and the code table that the piece hasher stands in.

use crate::digest::HasherView;
use crate::hasher::{PieceHasher, CODE, MAX_PAYLOAD_SIZE};
use crate::util::varint;
use vstd::prelude::*;

verus! {

/// The most bytes that the digest of a multihash has.
pub const MAX_DIGEST_SIZE: usize = 64;

/// The hash functions of this table.
#[derive(Clone, Copy, Debug, Eq, PartialEq)]
pub enum Code {
    /// The piece hasher, whose digest carries padding, height and root.
    PieceHasher,
}

/// A digest together with the code of the hash function that made it.
#[derive(Debug, Eq, PartialEq)]
pub struct Multihash {
    code: u64,
    digest: Vec<u8>,
}

/// What a multihash is, as plain values.
pub struct MultihashView {
    pub code: u64,
    pub digest: Seq<u8>,
}

/// The wire form of a multihash: the code as a varint, the length of the
/// digest as a varint, and the digest.
pub open spec fn multihash_bytes_of(code: u64, digest: Seq<u8>) -> Seq<u8> {
    varint(code as nat) + varint(digest.len()) + digest
}

impl View for Multihash {
    type V = MultihashView;

    closed spec fn view(&self) -> MultihashView {
        MultihashView { code: self.code, digest: self.digest@ }
    }
}

/// Calls `Multihash::wrap` and `Multihash::to_bytes` of the multihash
/// crate, with room for 64 bytes of digest: a digest longer than that is
/// refused, and of any other the result is the wire form, which is the
/// code as a varint, the length of the digest as a varint, and the digest.
#[verifier::external_body]
fn encode_multihash(code: u64, digest: &[u8]) -> (bytes: Option<Vec<u8>>)
    ensures
        bytes is Some <==> digest@.len() <= MAX_DIGEST_SIZE,
        bytes is Some ==> bytes->Some_0@ == multihash_bytes_of(code, digest@),
{
    match ::multihash::Multihash::<64>::wrap(code, digest) {
        Ok(hash) => Some(hash.to_bytes()),
        Err(_) => None,
    }
}

impl Multihash {
    /// The digest fits in a multihash.
    pub open spec fn wf(&self) -> bool {
        self@.digest.len() <= MAX_DIGEST_SIZE
    }

    /// The multihash of the given code and digest.
    pub fn wrap(code: u64, input_digest: &[u8]) -> (hash: Self)
        requires
            input_digest@.len() <= MAX_DIGEST_SIZE,
        ensures
            hash.wf(),
            hash@ == (MultihashView { code, digest: input_digest@ }),
    {
        Multihash { code, digest: vstd::slice::slice_to_vec(input_digest) }
    }

    /// The code of the hash function.
    pub fn code(&self) -> (code: u64)
        ensures
            code == self@.code,
    {
        self.code
    }

    /// The number of bytes of the digest.
    pub fn size(&self) -> (size: u8)
        requires
            self.wf(),
        ensures
            size == self@.digest.len(),
    {
        self.digest.len() as u8
    }

    /// The digest.
    pub fn digest(&self) -> (digest: &[u8])
        ensures
            digest@ == self@.digest,
    {
        self.digest.as_slice()
    }

    /// The wire form: the code as a varint, the length of the digest as a
    /// varint, and the digest.
    pub fn to_bytes(&self) -> (bytes: Vec<u8>)
        requires
            self.wf(),
        ensures
            bytes@ == multihash_bytes_of(self@.code, self@.digest),
    {
        encode_multihash(self.code, self.digest.as_slice()).unwrap()
    }
}

impl Code {
    /// The multihash of `input` made with this hash function.
    pub fn digest(&self, input: &[u8]) -> (hash: Multihash)
        requires
            input@.len() <= MAX_PAYLOAD_SIZE,
        ensures
            hash.wf(),
            hash@ == (MultihashView {
                code: CODE,
                digest: (HasherView { seed: None, payload: input@ }).digest(),
            }),
    {
        match self {
            Code::PieceHasher => {
                let mut hasher = PieceHasher::new();
                hasher.update(input);
                hasher.multihash()
            },
        }
    }
}

} // verus!
