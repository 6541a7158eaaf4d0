//! Per-file content encoding: one linked-block LZ4 compression context and
//! two running content digests, created fresh at file start, fed identical
//! uncompressed bytes, finalized and discarded at file end.
//!
//! The compression context and the hashers live in outside crates and are
//! held behind trusted wrappers.  Their observable behaviour is named by
//! uninterpreted functions of the bytes fed alone: `lz4_frame`, `md5_of` and
//! `sha3_256_of` are deterministic functions of the content, and the
//! wrappers' contracts track what each value has been fed and what it has
//! produced.

use vstd::prelude::*;
use sha3::Digest;
use std::io::Write;

verus! {

/// The LZ4 frame that compressing a byte sequence in this library produces:
/// linked blocks of a pinned 64 KiB maximum size.  With the block size
/// pinned, block boundaries fall at fixed multiples of the block size, so the
/// frame bytes are a function of the content alone, independent of how the
/// content was split across write calls.
pub uninterp spec fn lz4_frame(content: Seq<u8>) -> Seq<u8>;

/// The byte sequence an LZ4 frame decompresses to.
pub uninterp spec fn lz4_unframe(frame: Seq<u8>) -> Seq<u8>;

/// Whether a byte sequence is one complete LZ4 frame, accepted and consumed
/// whole by the decompressor.
pub uninterp spec fn is_lz4_frame(bytes: Seq<u8>) -> bool;

/// The MD5 digest (16 bytes) of a byte sequence.
pub uninterp spec fn md5_of(content: Seq<u8>) -> Seq<u8>;

/// The SHA3-256 digest (32 bytes) of a byte sequence.
pub uninterp spec fn sha3_256_of(content: Seq<u8>) -> Seq<u8>;

/// A streaming LZ4 frame compressor from the lz4_flex crate, writing into an
/// owned buffer; opaque to verification, tracked through `lz4_fed` (the bytes
/// written to it) and `lz4_drained` (the compressed bytes already taken out).
#[verifier::external_body]
pub struct Lz4Encoder {
    inner: lz4_flex::frame::FrameEncoder<Vec<u8>>,
}

/// The uncompressed bytes an encoder has been fed so far.
pub uninterp spec fn lz4_fed(e: Lz4Encoder) -> Seq<u8>;

/// The compressed bytes already taken out of an encoder.
pub uninterp spec fn lz4_drained(e: Lz4Encoder) -> Seq<u8>;

/// Relies on lz4_flex's `FrameEncoder::with_frame_info` with linked block
/// mode and the block size pinned to 64 KiB: a fresh encoder has been fed
/// nothing and has produced nothing.  The pinned block size keeps the frame a
/// function of the content alone; left at its automatic default it would also
/// depend on the size of the first write call.
#[verifier::external_body]
fn lz4_encoder_new() -> (e: Lz4Encoder)
    ensures
        lz4_fed(e) == Seq::<u8>::empty(),
        lz4_drained(e) == Seq::<u8>::empty(),
{
    let mut info = lz4_flex::frame::FrameInfo::new();
    info.block_mode = lz4_flex::frame::BlockMode::Linked;
    info.block_size = lz4_flex::frame::BlockSize::Max64KB;
    Lz4Encoder { inner: lz4_flex::frame::FrameEncoder::with_frame_info(info, Vec::new()) }
}

/// Relies on lz4_flex's `FrameEncoder` as an `io::Write` sink: `write_all`
/// absorbs the chunk; writing into an owned buffer does not fail.
#[verifier::external_body]
fn lz4_write(e: &mut Lz4Encoder, chunk: &Vec<u8>)
    ensures
        lz4_fed(*final(e)) == lz4_fed(*old(e)) + chunk@,
        lz4_drained(*final(e)) == lz4_drained(*old(e)),
{
    e.inner.write_all(chunk).unwrap();
}

/// Relies on lz4_flex's `FrameEncoder::get_mut`: the underlying buffer holds
/// the compressed bytes produced since the last drain, in order.
#[verifier::external_body]
fn lz4_drain(e: &mut Lz4Encoder) -> (out: Vec<u8>)
    ensures
        lz4_fed(*final(e)) == lz4_fed(*old(e)),
        lz4_drained(*final(e)) == lz4_drained(*old(e)) + out@,
{
    std::mem::take(e.inner.get_mut())
}

/// Relies on lz4_flex's `FrameEncoder::finish`: ends the frame and returns
/// the buffer with the residual compressed bytes.  All compressed output of
/// one encoder, in order, is the LZ4 frame of exactly the bytes fed to it —
/// one complete frame, which decompresses back to those bytes; finishing a
/// frame written into an owned buffer does not fail.
#[verifier::external_body]
fn lz4_finish(e: Lz4Encoder) -> (out: Vec<u8>)
    ensures
        lz4_drained(e) + out@ == lz4_frame(lz4_fed(e)),
        lz4_unframe(lz4_drained(e) + out@) == lz4_fed(e),
        is_lz4_frame(lz4_drained(e) + out@),
{
    e.inner.finish().unwrap()
}

/// Relies on lz4_flex's `FrameDecoder`: reading it to the end succeeds
/// exactly on one complete LZ4 frame and yields the bytes it compresses.
#[verifier::external_body]
fn lz4_decompress(frame: &Vec<u8>) -> (r: Option<Vec<u8>>)
    ensures
        r is Some <==> is_lz4_frame(frame@),
        r matches Some(v) ==> v@ == lz4_unframe(frame@),
{
    let mut out = Vec::new();
    let mut dec = lz4_flex::frame::FrameDecoder::new(frame.as_slice());
    match std::io::Read::read_to_end(&mut dec, &mut out) {
        Ok(_) => Some(out),
        Err(_) => None,
    }
}

/// Decompresses one complete LZ4 frame: the linked-block-aware inverse of
/// the compression the pipeline applies to one file's content, for consumers
/// that recover a file from its concatenated `FileBody` payloads.
pub fn decompress_frame(frame: &Vec<u8>) -> (r: Option<Vec<u8>>)
    ensures
        r is Some <==> is_lz4_frame(frame@),
        r matches Some(v) ==> v@ == lz4_unframe(frame@),
{
    lz4_decompress(frame)
}

/// A running MD5 hasher from the md-5 crate; opaque to verification, tracked
/// through `md5_fed`, the bytes it has been fed.
#[verifier::external_body]
pub struct Md5Hasher {
    inner: md5::Md5,
}

/// The bytes a running MD5 hasher has been fed so far.
pub uninterp spec fn md5_fed(h: Md5Hasher) -> Seq<u8>;

/// Relies on the md-5 crate's `Md5::new`: a fresh hasher has been fed
/// nothing.
#[verifier::external_body]
fn md5_new() -> (h: Md5Hasher)
    ensures
        md5_fed(h) == Seq::<u8>::empty(),
{
    Md5Hasher { inner: md5::Md5::new() }
}

/// Relies on the md-5 crate's `Digest::update`: absorbs the chunk.
#[verifier::external_body]
fn md5_update(h: &mut Md5Hasher, chunk: &Vec<u8>)
    ensures
        md5_fed(*final(h)) == md5_fed(*old(h)) + chunk@,
{
    h.inner.update(chunk);
}

/// Relies on the md-5 crate's `Digest::finalize`: the 16-byte MD5 digest of
/// everything fed, a function of those bytes alone.
#[verifier::external_body]
fn md5_finalize(h: Md5Hasher) -> (r: Vec<u8>)
    ensures
        r@ == md5_of(md5_fed(h)),
        r@.len() == 16,
{
    h.inner.finalize().to_vec()
}

/// A running SHA3-256 hasher from the sha3 crate; opaque to verification,
/// tracked through `sha3_fed`, the bytes it has been fed.
#[verifier::external_body]
pub struct Sha3Hasher {
    inner: sha3::Sha3_256,
}

/// The bytes a running SHA3-256 hasher has been fed so far.
pub uninterp spec fn sha3_fed(h: Sha3Hasher) -> Seq<u8>;

/// Relies on the sha3 crate's `Sha3_256::new`: a fresh hasher has been fed
/// nothing.
#[verifier::external_body]
fn sha3_new() -> (h: Sha3Hasher)
    ensures
        sha3_fed(h) == Seq::<u8>::empty(),
{
    Sha3Hasher { inner: sha3::Sha3_256::new() }
}

/// Relies on the sha3 crate's `Digest::update`: absorbs the chunk.
#[verifier::external_body]
fn sha3_update(h: &mut Sha3Hasher, chunk: &Vec<u8>)
    ensures
        sha3_fed(*final(h)) == sha3_fed(*old(h)) + chunk@,
{
    h.inner.update(chunk);
}

/// Relies on the sha3 crate's `Digest::finalize`: the 32-byte SHA3-256 digest
/// of everything fed, a function of those bytes alone.
#[verifier::external_body]
fn sha3_finalize(h: Sha3Hasher) -> (r: Vec<u8>)
    ensures
        r@ == sha3_256_of(sha3_fed(h)),
        r@.len() == 32,
{
    h.inner.finalize().to_vec()
}

/// The per-file encoder state: one compression context and two hash
/// accumulators, fed identical uncompressed bytes, never shared across files.
pub struct FileEncoder {
    lz4: Lz4Encoder,
    md5: Md5Hasher,
    sha: Sha3Hasher,
}

impl FileEncoder {
    /// The uncompressed content this encoder has absorbed.
    pub closed spec fn content(&self) -> Seq<u8> {
        lz4_fed(self.lz4)
    }

    /// The compressed bytes this encoder has handed out so far.
    pub closed spec fn emitted(&self) -> Seq<u8> {
        lz4_drained(self.lz4)
    }

    /// Both hashers have been fed exactly the compressor's input.
    pub closed spec fn wf(&self) -> bool {
        md5_fed(self.md5) == self.content() && sha3_fed(self.sha) == self.content()
    }

    /// A fresh per-file encoder: nothing absorbed, nothing emitted.
    pub fn new() -> (e: Self)
        ensures
            e.wf(),
            e.content() == Seq::<u8>::empty(),
            e.emitted() == Seq::<u8>::empty(),
    {
        FileEncoder { lz4: lz4_encoder_new(), md5: md5_new(), sha: sha3_new() }
    }

    /// Absorbs one uncompressed chunk into the compressor and both hashers,
    /// then drains whatever compressed output is buffered (possibly empty).
    pub fn absorb(&mut self, chunk: &Vec<u8>) -> (data: Vec<u8>)
        requires
            old(self).wf(),
        ensures
            final(self).wf(),
            final(self).content() == old(self).content() + chunk@,
            final(self).emitted() == old(self).emitted() + data@,
    {
        lz4_write(&mut self.lz4, chunk);
        md5_update(&mut self.md5, chunk);
        sha3_update(&mut self.sha, chunk);
        lz4_drain(&mut self.lz4)
    }

    /// Finalizes the file: ends the compression frame and returns the
    /// residual compressed bytes together with the two digests of the whole
    /// uncompressed content.  Everything this encoder emitted, in order,
    /// forms the LZ4 frame of the content, and that frame decompresses back
    /// to the content.
    pub fn finish(self) -> (r: (Vec<u8>, Vec<u8>, Vec<u8>))
        requires
            self.wf(),
        ensures
            self.emitted() + r.0@ == lz4_frame(self.content()),
            lz4_unframe(lz4_frame(self.content())) == self.content(),
            is_lz4_frame(lz4_frame(self.content())),
            r.1@ == sha3_256_of(self.content()),
            r.1@.len() == 32,
            r.2@ == md5_of(self.content()),
            r.2@.len() == 16,
    {
        let FileEncoder { lz4, md5, sha } = self;
        let residual = lz4_finish(lz4);
        let sha_digest = sha3_finalize(sha);
        let md5_digest = md5_finalize(md5);
        (residual, sha_digest, md5_digest)
    }
}

} // verus!
