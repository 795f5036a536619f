//! What is gathered to reconstruct a page.
use vstd::prelude::*;

use bytes::Bytes;

use crate::ids::Lsn;

verus! {

/// `bytes::Bytes`, a buffer that can be shared cheaply.
#[verifier::external_type_specification]
#[verifier::external_body]
pub struct ExBytes(bytes::Bytes);

/// The bytes that a buffer holds.
pub uninterp spec fn contents(buffer: Bytes) -> Seq<u8>;

/// Calls `Bytes::from` on a `Vec<u8>`. The buffer takes the vector over and holds
/// its bytes.
#[verifier::external_body]
fn bytes_from(blob: Vec<u8>) -> (buffer: Bytes)
    ensures
        contents(buffer) == blob@,
{
    Bytes::from(blob)
}

/// The parts of a page version that were found so far.
#[derive(Debug)]
pub struct ValueReconstructState {
    /// The page image, and the position in the log that it is of.
    pub img: Option<(Lsn, Bytes)>,
}

/// Whether a layer held what was looked for.
#[derive(Clone, Copy, Debug, PartialEq, Eq, Structural)]
pub enum ValueReconstructResult {
    /// It did: nothing more is needed.
    Complete,
    /// It did not, and no other layer holds it.
    Missing,
}

impl ValueReconstructState {
    /// Whether the page image that was found is `image`, of position `lsn`.
    pub open spec fn has_image(self, lsn: Lsn, image: Seq<u8>) -> bool {
        match self.img {
            Some((at, buffer)) => at == lsn && contents(buffer) == image,
            None => false,
        }
    }

    /// Notes what a layer at position `lsn` holds for the page.
    pub fn note(&mut self, lsn: Lsn, found: Option<Vec<u8>>) -> (result: ValueReconstructResult)
        ensures
            match found {
                Some(blob) => {
                    &&& result == ValueReconstructResult::Complete
                    &&& final(self).has_image(lsn, blob@)
                },
                None => {
                    &&& result == ValueReconstructResult::Missing
                    &&& *final(self) == *old(self)
                },
            },
    {
        match found {
            Some(blob) => {
                self.img = Some((lsn, bytes_from(blob)));
                ValueReconstructResult::Complete
            },
            None => ValueReconstructResult::Missing,
        }
    }
}

} // verus!
