//! The entropy coder: zstd with a dictionary, seen as two functions on bytes.

use vstd::prelude::*;

verus! {

/// The frame that zstd's streaming encoder writes for `content` at `level` with
/// `dictionary` loaded, or `None` where the encoder turns the dictionary down.
pub uninterp spec fn zstd_frame(dictionary: Seq<u8>, level: int, content: Seq<u8>) -> Option<
    Seq<u8>,
>;

/// What zstd's streaming decoder reads out of `frame` with `dictionary` loaded,
/// or `None` where it reports an error.
pub uninterp spec fn zstd_content(dictionary: Seq<u8>, frame: Seq<u8>) -> Option<Seq<u8>>;

/// The bytes in an optional byte vector.
pub open spec fn bytes_of(bytes: Option<Vec<u8>>) -> Option<Seq<u8>> {
    match bytes {
        Some(b) => Some(b@),
        None => None,
    }
}

/// Whether `content` is what must come out of `frame`: where the encoder wrote
/// `frame` for some content with this dictionary, at whatever level, `content`
/// is that content.
pub open spec fn reads_back(dictionary: Seq<u8>, frame: Seq<u8>, content: Option<Seq<u8>>) -> bool {
    forall|level: int, plain: Seq<u8>|
        #[trigger] zstd_frame(dictionary, level, plain) == Some(frame) ==> content == Some(plain)
}

/// Runs `zstd::stream::write::Encoder` over `content`: `with_dictionary` on an
/// empty `Vec`, one `write_all`, then `finish`.
///
/// Trusted: whether the three calls succeed, and the frame that they hand
/// back, depend on the dictionary, the level and the content alone.
#[verifier::external_body]
pub(crate) fn zstd_encode(dictionary: &Vec<u8>, level: i32, content: &Vec<u8>) -> (frame: Option<
    Vec<u8>,
>)
    ensures
        frame matches Some(bytes) ==> zstd_frame(dictionary@, level as int, content@) == Some(
            bytes@,
        ),
        frame is None ==> zstd_frame(dictionary@, level as int, content@) is None,
{
    let sink: Vec<u8> = Vec::new();
    let mut encoder = zstd::stream::write::Encoder::with_dictionary(sink, level, dictionary).ok()?;
    std::io::Write::write_all(&mut encoder, content).ok()?;
    encoder.finish().ok()
}

/// Runs `zstd::stream::read::Decoder` over `frame`: `with_dictionary`, then
/// `read_to_end`.
///
/// Trusted: whether the calls succeed, and the bytes that they hand back,
/// depend on the dictionary and the frame alone; and zstd is lossless, so a
/// frame that the encoder wrote with the same dictionary, at any level, is
/// read back as the content it was written for.
#[verifier::external_body]
pub(crate) fn zstd_decode(dictionary: &Vec<u8>, frame: &[u8]) -> (content: Option<Vec<u8>>)
    ensures
        content matches Some(bytes) ==> zstd_content(dictionary@, frame@) == Some(bytes@),
        content is None ==> zstd_content(dictionary@, frame@) is None,
        reads_back(dictionary@, frame@, bytes_of(content)),
{
    let mut decoder = zstd::stream::read::Decoder::with_dictionary(frame, dictionary).ok()?;
    let mut content: Vec<u8> = Vec::new();
    std::io::Read::read_to_end(&mut decoder, &mut content).ok()?;
    Some(content)
}

} // verus!
