//! The calls into flate2 that the codec makes, with what the codec relies on
//! from each of them.

use vstd::prelude::*;
use flate2::write::GzEncoder;

verus! {

#[verifier::external_type_specification]
#[verifier::external_body]
pub struct ExIoError(std::io::Error);

/// A gzip encoder writing one part into memory. Verus refuses a declaration
/// of flate2's generic encoder (its parameter is bound by `std::io::Write`), so
/// it is held here, opaque.
#[verifier::external_body]
pub struct PartWriter {
    inner: GzEncoder<Vec<u8>>,
}

/// The uncompressed bytes accepted so far by a gzip encoder.
pub uninterp spec fn gz_input(e: PartWriter) -> Seq<u8>;

/// The compressed bytes a gzip encoder has emitted into its buffer so far.
pub uninterp spec fn gz_output(e: PartWriter) -> Seq<u8>;

/// What a gzip decoder reads from a whole part: the decompressed bytes, or
/// `None` if decoding fails. Decoding depends on the part's bytes alone.
pub uninterp spec fn gunzip(part: Seq<u8>) -> Option<Seq<u8>>;

/// Relies on flate2::write::GzEncoder::new and flate2::Compression::new: a
/// fresh encoder at the given level, writing into an empty buffer. The
/// backend asserts that the level is at most 10.
#[verifier::external_body]
pub(crate) fn gz_encoder(level: u32) -> (r: PartWriter)
    requires
        level <= 9,
    ensures
        gz_input(r) == Seq::<u8>::empty(),
        gz_output(r) == Seq::<u8>::empty(),
{
    PartWriter { inner: GzEncoder::new(Vec::new(), flate2::Compression::new(level)) }
}

/// Relies on Write::write_all for flate2::write::GzEncoder: every byte of
/// `buf` is accepted as input, after what was accepted before, and compressed
/// bytes are only appended to the buffer. The encoder passes on only the
/// errors of its sink, and a `Vec` sink never fails.
#[verifier::external_body]
pub(crate) fn gz_write_all(e: &mut PartWriter, buf: &[u8]) -> (r: Result<(), std::io::Error>)
    ensures
        r is Ok,
        gz_input(*final(e)) == gz_input(*old(e)) + buf@,
        gz_output(*old(e)).is_prefix_of(gz_output(*final(e))),
{
    std::io::Write::write_all(&mut e.inner, buf)
}

/// Relies on flate2::write::GzEncoder::get_ref: the buffer the compressed
/// bytes are written into.
#[verifier::external_body]
pub(crate) fn gz_output_len(e: &PartWriter) -> (r: usize)
    ensures
        r == gz_output(*e).len(),
{
    e.inner.get_ref().len()
}

/// Relies on flate2::write::GzEncoder::finish: the buffer completed into one
/// gzip member, which a gzip decoder reads back as exactly the input. As for
/// writing, only the errors of the `Vec` sink are passed on, and it has none.
/// The member ends in the 8-byte trailer, which the decoder reads after the
/// compressed data; cut by its last byte, the member fails to decode with
/// `UnexpectedEof`.
#[verifier::external_body]
pub(crate) fn gz_finish(e: PartWriter) -> (r: Result<Vec<u8>, std::io::Error>)
    ensures
        r is Ok,
        r is Ok ==> gunzip(r->Ok_0@.drop_last()) is None,
        r is Ok ==> gunzip(r->Ok_0@) == Some(gz_input(e)),
        r is Ok ==> gz_output(e).is_prefix_of(r->Ok_0@),
{
    e.inner.finish()
}

/// Relies on flate2::read::GzDecoder with Read::read_to_end: the whole part
/// decompressed, or the decoder's error.
#[verifier::external_body]
pub(crate) fn gz_decompress(part: &[u8]) -> (r: Result<Vec<u8>, std::io::Error>)
    ensures
        r is Ok <==> gunzip(part@) is Some,
        r is Ok ==> gunzip(part@) == Some(r->Ok_0@),
{
    let mut out = Vec::new();
    match std::io::Read::read_to_end(&mut flate2::read::GzDecoder::new(part), &mut out) {
        Ok(_) => Ok(out),
        Err(e) => Err(e),
    }
}

} // verus!
