//! Compressed frames, in which documents are stored.
use vstd::prelude::*;

verus! {

/// What Zstandard makes of `data` at a level, with or without a checksum.
pub uninterp spec fn zstd_frame(data: Seq<u8>, level: i32, checksum: bool) -> Seq<u8>;

/// The data in the Zstandard frames `bytes`, where they are whole and sound.
pub uninterp spec fn zstd_content(bytes: Seq<u8>) -> Option<Seq<u8>>;

/// `zstd::stream::write::Encoder` over a vector: the whole of `data` in one
/// frame, whose content is `data` again. It can fail only for want of memory,
/// of which nothing is claimed.
#[verifier::external_body]
fn zstd_encode(data: &[u8], level: i32, checksum: bool) -> (r: Result<Vec<u8>, String>)
    requires
        1 <= level <= 22,
    ensures
        r matches Ok(bytes) ==> bytes@ == zstd_frame(data@, level, checksum) && zstd_content(bytes@)
            == Some(data@),
{
    let encode = || -> std::io::Result<Vec<u8>> {
        let mut encoder = zstd::stream::write::Encoder::new(Vec::new(), level)?;
        encoder.include_checksum(checksum)?;
        std::io::Write::write_all(&mut encoder, data)?;
        encoder.finish()
    };
    encode().map_err(|error| error.to_string())
}

/// `zstd::stream::decode_all`: the content of the frames. Frames that are not
/// sound fail; sound ones can fail only for want of memory.
#[verifier::external_body]
fn zstd_decode(bytes: &[u8]) -> (r: Result<Vec<u8>, String>)
    ensures
        r matches Ok(data) ==> zstd_content(bytes@) == Some(data@),
        zstd_content(bytes@) is None ==> r is Err,
{
    zstd::stream::decode_all(bytes).map_err(|error| error.to_string())
}

/// The compression level of documents.
pub const DOCUMENT_LEVEL: i32 = 3;

/// The bytes under which the JSON text of a document is stored: one frame with
/// its checksum.
pub fn encode_document(json: &[u8]) -> (r: Result<Vec<u8>, String>)
    ensures
        r matches Ok(bytes) ==> bytes@ == zstd_frame(json@, 3, true) && zstd_content(bytes@) == Some(
            json@,
        ),
{
    zstd_encode(json, DOCUMENT_LEVEL, true)
}

/// The JSON text of a stored document.
pub fn decode_document(bytes: &[u8]) -> (r: Result<Vec<u8>, String>)
    ensures
        r matches Ok(json) ==> zstd_content(bytes@) == Some(json@),
        zstd_content(bytes@) is None ==> r is Err,
{
    zstd_decode(bytes)
}

} // verus!
