//! The spectrogram cache: a flat magnitude buffer with its dimensions,
//! persisted in a binary container beside its label file and reloaded
//! verbatim. The artifact holds only the raw `(width, height, buffer)`
//! triple; building any richer spectral object from it is deferred to the
//! point of use.

use vstd::prelude::*;
use crate::error::LibError;

verus! {

/// A cached 2D magnitude buffer: `width * height` samples in row order,
/// each the raw 32-bit pattern of one magnitude value.
#[derive(Clone, Debug)]
pub struct SpectrogramArtifact {
    pub width: u64,
    pub height: u64,
    pub buffer: Vec<u32>,
}

impl SpectrogramArtifact {
    /// The buffer holds exactly one sample per cell.
    pub open spec fn wf(self) -> bool {
        self.buffer@.len() == self.width * self.height
    }
}

/// The little-endian bytes of a 64-bit value, least significant first.
pub open spec fn le_bytes_u64(v: u64) -> Seq<u8> {
    Seq::new(8, |i: int| (v >> ((8 * i) as u64)) as u8)
}

/// The little-endian bytes of a 32-bit value, least significant first.
pub open spec fn le_bytes_u32(v: u32) -> Seq<u8> {
    Seq::new(4, |i: int| (v >> ((8 * i) as u32)) as u8)
}

/// The sample section of the container: each 32-bit sample as four
/// little-endian bytes, in buffer order.
pub open spec fn buffer_bytes(buffer: Seq<u32>) -> Seq<u8>
    decreases buffer.len(),
{
    if buffer.len() == 0 {
        Seq::empty()
    } else {
        le_bytes_u32(buffer.first()) + buffer_bytes(buffer.drop_first())
    }
}

/// The cache container's byte image of a `(width, height, buffer)` triple:
/// fixed-width little-endian integers — eight bytes each for the width, the
/// height and the sample count, then four bytes per sample.
pub open spec fn artifact_encoding(width: u64, height: u64, buffer: Seq<u32>) -> Seq<u8> {
    le_bytes_u64(width) + le_bytes_u64(height) + le_bytes_u64(buffer.len() as u64) + buffer_bytes(
        buffer,
    )
}

/// Relies on `bincode::encode_to_vec` with the standard configuration and
/// fixed integer encoding: it serializes the `(width, height, buffer)`
/// triple as fixed-width little-endian integers, field by field, the
/// buffer prefixed by its length as a 64-bit count. Writing into a byte
/// vector cannot fail — the vector writer only ever extends — so the call
/// always returns the encoding.
#[verifier::external_body]
fn encode_artifact(width: u64, height: u64, buffer: &Vec<u32>) -> (r: Vec<u8>)
    ensures
        r@ == artifact_encoding(width, height, buffer@),
{
    bincode::encode_to_vec(
        (width, height, buffer),
        bincode::config::standard().with_fixed_int_encoding(),
    ).expect("writing into a byte vector cannot fail")
}

/// The container's sample-count field agrees with the input's size: the
/// count at bytes 16..24, read little-endian, is exactly what the byte
/// count past the 24-byte header admits. Every exact encoding satisfies
/// this ([`lemma_encoding_header`]); forged counts do not.
pub open spec fn header_consistent(bytes: Seq<u8>) -> bool {
    &&& bytes.len() >= 24
    &&& (bytes.len() - 24) % 4 == 0
    &&& forall|i: int|
        0 <= i < 8 ==> #[trigger] bytes[16 + i] == ((((bytes.len() - 24) / 4) as u64) >> ((8 * i)
            as u64)) as u8
}

/// Each sample contributes exactly four bytes to the sample section.
pub proof fn lemma_buffer_bytes_len(buffer: Seq<u32>)
    ensures
        buffer_bytes(buffer).len() == 4 * buffer.len(),
    decreases buffer.len(),
{
    if buffer.len() > 0 {
        lemma_buffer_bytes_len(buffer.drop_first());
    }
}

/// An exact encoding always carries a consistent header.
pub proof fn lemma_encoding_header(width: u64, height: u64, buffer: Seq<u32>)
    ensures
        artifact_encoding(width, height, buffer).len() == 24 + 4 * buffer.len(),
        header_consistent(artifact_encoding(width, height, buffer)),
{
    lemma_buffer_bytes_len(buffer);
    let enc = artifact_encoding(width, height, buffer);
    assert((enc.len() - 24) / 4 == buffer.len());
    assert forall|i: int| 0 <= i < 8 implies #[trigger] enc[16 + i] == ((((enc.len() - 24) / 4)
        as u64) >> ((8 * i) as u64)) as u8 by {
        assert(enc[16 + i] == le_bytes_u64(buffer.len() as u64)[i]);
    }
}

/// Relies on `bincode::decode_from_slice` with the same configuration: it
/// inverts `bincode::encode_to_vec`, so bytes that are the encoding of a
/// triple decode to exactly that triple. Of any other bytes nothing is
/// claimed beyond the error's identity. The header must be consistent:
/// this configuration carries no byte limit, so the decoder sizes its
/// buffer straight from the wire's sample count, and only a count that
/// matches the input's size keeps that allocation within the input and
/// the call free of panics.
#[verifier::external_body]
fn decode_artifact(bytes: &Vec<u8>) -> (r: Result<(u64, u64, Vec<u32>), LibError>)
    requires
        header_consistent(bytes@),
    ensures
        forall|w: u64, h: u64, b: Seq<u32>|
            bytes@ == artifact_encoding(w, h, b) ==> (r is Ok && r.unwrap().0 == w && r.unwrap().1
                == h && r.unwrap().2@ == b),
        r is Err ==> r->Err_0 == LibError::Serialization,
{
    match bincode::decode_from_slice::<(u64, u64, Vec<u32>), _>(
        bytes.as_slice(),
        bincode::config::standard().with_fixed_int_encoding(),
    ) {
        Ok((t, _)) => Ok(t),
        Err(_) => Err(LibError::Serialization),
    }
}

/// Serializes a well-formed artifact into its cache container; the bytes
/// are exactly the container encoding of its triple.
pub fn save_spectrogram_bytes(artifact: &SpectrogramArtifact) -> (r: Vec<u8>)
    requires
        artifact.wf(),
    ensures
        r@ == artifact_encoding(artifact.width, artifact.height, artifact.buffer@),
{
    encode_artifact(artifact.width, artifact.height, &artifact.buffer)
}

/// Reads an artifact back from its cache container: bytes written by
/// [`save_spectrogram_bytes`] come back as the exact artifact saved, and
/// anything else fails with `Serialization`. The header is checked before
/// the codec runs, so a corrupted or forged sample count is rejected here
/// rather than handed to the decoder's allocator.
pub fn load_spectrogram_bytes(bytes: &Vec<u8>) -> (r: Result<SpectrogramArtifact, LibError>)
    ensures
        forall|w: u64, h: u64, b: Seq<u32>|
            bytes@ == artifact_encoding(w, h, b) ==> (r is Ok && r.unwrap().width == w
                && r.unwrap().height == h && r.unwrap().buffer@ == b),
        r is Err ==> r->Err_0 == LibError::Serialization,
{
    let n = bytes.len();
    if n < 24 || (n - 24) % 4 != 0 {
        proof {
            assert forall|w: u64, h: u64, b: Seq<u32>| bytes@ != artifact_encoding(w, h, b) by {
                lemma_encoding_header(w, h, b);
            }
        }
        return Err(LibError::Serialization);
    }
    let ns: u64 = ((n - 24) / 4) as u64;
    let mut i: usize = 0;
    while i < 8
        invariant
            n == bytes@.len(),
            n >= 24,
            (n - 24) % 4 == 0,
            ns == ((n - 24) / 4) as u64,
            0 <= i <= 8,
            forall|t: int|
                0 <= t < i ==> #[trigger] bytes@[16 + t] == (ns >> ((8 * t) as u64)) as u8,
        decreases 8 - i,
    {
        let sh: u64 = 8 * (i as u64);
        if bytes[16 + i] != (ns >> sh) as u8 {
            proof {
                assert(!header_consistent(bytes@));
                assert forall|w: u64, h: u64, b: Seq<u32>| bytes@ != artifact_encoding(
                    w,
                    h,
                    b,
                ) by {
                    lemma_encoding_header(w, h, b);
                }
            }
            return Err(LibError::Serialization);
        }
        i = i + 1;
    }
    proof {
        assert(header_consistent(bytes@));
    }
    match decode_artifact(bytes) {
        Ok((width, height, buffer)) => Ok(SpectrogramArtifact { width, height, buffer }),
        Err(_) => Err(LibError::Serialization),
    }
}

/// Law: the cache round-trips bit-exactly. Saving a well-formed artifact
/// and loading the bytes succeeds and gives back the same width, the same
/// height, and a buffer equal sample for sample.
pub fn spectrogram_round_trip(artifact: &SpectrogramArtifact) -> (r: SpectrogramArtifact)
    requires
        artifact.wf(),
    ensures
        r.width == artifact.width,
        r.height == artifact.height,
        r.buffer@ == artifact.buffer@,
{
    let bytes = save_spectrogram_bytes(artifact);
    let loaded = load_spectrogram_bytes(&bytes);
    proof {
        assert(bytes@ == artifact_encoding(artifact.width, artifact.height, artifact.buffer@));
        assert(loaded is Ok);
    }
    loaded.unwrap()
}

} // verus!
