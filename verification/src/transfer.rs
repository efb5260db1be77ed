//! Bookkeeping for one transfer: the per-chunk transform strategy chosen
//! once per operation, and the ordered part list of a multipart upload.

use vstd::prelude::*;
use vstd::slice::slice_to_vec;
use crate::crypto::{ChunkCodec, aead_open, aead_seal, MAX_PLAINTEXT_LEN};
use crate::errors::CryptoError;

verus! {

/// The per-chunk transform of one transfer: pass every chunk through
/// unchanged (no password), or seal/open every chunk with one codec.
pub enum ChunkTransform {
    Identity,
    Aead(ChunkCodec),
}

impl ChunkTransform {
    pub open spec fn wf(&self) -> bool {
        match self {
            ChunkTransform::Identity => true,
            ChunkTransform::Aead(codec) => codec.wf(),
        }
    }

    /// What this transform turns an outgoing (upload-side) chunk into.
    pub open spec fn spec_outgoing(&self, chunk: Seq<u8>) -> Seq<u8> {
        match self {
            ChunkTransform::Identity => chunk,
            ChunkTransform::Aead(codec) => aead_seal(codec.key@, codec.nonce@, codec.aad@, chunk),
        }
    }

    /// What this transform makes of an incoming (download-side) chunk:
    /// the chunk itself, or the plaintext its tag verifies for.
    pub open spec fn spec_incoming(&self, chunk: Seq<u8>) -> Option<Seq<u8>> {
        match self {
            ChunkTransform::Identity => Some(chunk),
            ChunkTransform::Aead(codec) => aead_open(codec.key@, codec.nonce@, codec.aad@, chunk),
        }
    }

    /// Applies the outgoing direction to one chunk.  Succeeds on every
    /// chunk the cipher accepts; the identity variant never fails.
    pub fn apply_outgoing(&self, chunk: &[u8]) -> (r: Result<Vec<u8>, CryptoError>)
        requires
            self.wf(),
        ensures
            chunk@.len() <= MAX_PLAINTEXT_LEN ==> (r matches Ok(v) && v@ == self.spec_outgoing(
                chunk@,
            )),
            self is Identity ==> (r matches Ok(v) && v@ == chunk@),
            r is Err ==> r == Err::<Vec<u8>, CryptoError>(CryptoError::SealFailed),
    {
        match self {
            ChunkTransform::Identity => Ok(slice_to_vec(chunk)),
            ChunkTransform::Aead(codec) => codec.seal(chunk),
        }
    }

    /// Applies the incoming direction to one chunk.  Fails with
    /// `AuthenticationFailed` exactly when a sealed chunk does not verify;
    /// the identity variant never fails.
    pub fn apply_incoming(&self, chunk: &[u8]) -> (r: Result<Vec<u8>, CryptoError>)
        requires
            self.wf(),
        ensures
            match r {
                Ok(v) => self.spec_incoming(chunk@) == Some(v@),
                Err(e) => {
                    &&& e == CryptoError::AuthenticationFailed
                    &&& self.spec_incoming(chunk@) is None
                },
            },
    {
        match self {
            ChunkTransform::Identity => Ok(slice_to_vec(chunk)),
            ChunkTransform::Aead(codec) => codec.open(chunk),
        }
    }
}

/// One uploaded part: its 1-based part number and the remote-assigned tag
/// that the finalize call must receive verbatim.
pub struct UploadPart {
    pub part_number: u32,
    pub e_tag: String,
}

/// The ordered part list of one multipart upload.  Parts are recorded in
/// upload order; the list owns them until the upload is finalized.
pub struct PartList {
    pub parts: Vec<UploadPart>,
}

impl PartList {
    /// Part `i` carries number `i + 1`: the numbers run `1..=n`, strictly
    /// increasing, with no gaps.
    pub open spec fn wf(&self) -> bool {
        forall|i: int|
            0 <= i < self.parts@.len() ==> #[trigger] self.parts@[i].part_number == i + 1
    }

    pub fn new() -> (r: Self)
        ensures
            r.wf(),
            r.parts@.len() == 0,
    {
        PartList { parts: Vec::new() }
    }

    /// The number the next uploaded part must carry.
    pub fn next_part_number(&self) -> (r: u32)
        requires
            self.parts@.len() < u32::MAX,
        ensures
            r == self.parts@.len() + 1,
    {
        (self.parts.len() as u32) + 1
    }

    /// Records the remote tag of the part just uploaded, under the next
    /// part number.
    pub fn record(&mut self, e_tag: String)
        requires
            old(self).wf(),
            old(self).parts@.len() < u32::MAX,
        ensures
            final(self).wf(),
            final(self).parts@.len() == old(self).parts@.len() + 1,
            final(self).parts@[old(self).parts@.len() as int].part_number == old(
                self,
            ).parts@.len() + 1,
            final(self).parts@[old(self).parts@.len() as int].e_tag == e_tag,
            forall|i: int|
                0 <= i < old(self).parts@.len() ==> final(self).parts@[i] == old(self).parts@[i],
    {
        let number = (self.parts.len() as u32) + 1;
        self.parts.push(UploadPart { part_number: number, e_tag });
    }

    /// Hands the recorded parts to the finalize call: exactly the parts
    /// that were uploaded, with part numbers `1..=n`, strictly increasing
    /// and without gaps (multipart completeness).
    pub fn finalize(self) -> (r: Vec<UploadPart>)
        requires
            self.wf(),
        ensures
            r@ == self.parts@,
            forall|i: int| 0 <= i < r@.len() ==> #[trigger] r@[i].part_number == i + 1,
            forall|i: int, j: int|
                0 <= i < j < r@.len() ==> r@[i].part_number < r@[j].part_number,
    {
        self.parts
    }
}

/// Multipart completeness, spelled out: a well-formed part list of `n`
/// parts carries the part numbers `1..=n` exactly — the first is 1, each
/// successor is one larger, and they strictly increase with no gaps.
pub proof fn lemma_multipart_completeness(pl: PartList)
    requires
        pl.wf(),
    ensures
        pl.parts@.len() > 0 ==> pl.parts@[0].part_number == 1,
        forall|i: int|
            0 <= i < pl.parts@.len() - 1 ==> #[trigger] pl.parts@[i].part_number + 1
                == pl.parts@[i + 1].part_number,
        forall|i: int, j: int|
            0 <= i < j < pl.parts@.len() ==> pl.parts@[i].part_number < pl.parts@[j].part_number,
{
}

} // verus!
