use vstd::prelude::*;

verus! {

/// The bytes that zstd produces when it compresses `data` at `level`.
pub uninterp spec fn zstd_compressed(data: Seq<u8>, level: i32) -> Seq<u8>;

/// What zstd makes of `frame` when it decompresses it: the recovered bytes,
/// or `None` when it refuses the input.
pub uninterp spec fn zstd_decompressed(frame: Seq<u8>) -> Option<Seq<u8>>;

/// The 16-byte MD5 digest of `data`.
pub uninterp spec fn md5_of(data: Seq<u8>) -> Seq<u8>;

/// Relies on `zstd::stream::encode_all`: compresses the whole input at the
/// given level into one zstd frame. zstd clamps the level into its range
/// rather than rejecting it, and the frame goes to a `Vec`, which a write
/// cannot fail on, so the call succeeds.
#[verifier::external_body]
pub(crate) fn zstd_encode(data: &[u8], level: i32) -> (r: Option<Vec<u8>>)
    ensures
        r is Some,
        r matches Some(v) ==> v@ == zstd_compressed(data@, level),
{
    zstd::stream::encode_all(data, level).ok()
}

/// Relies on `zstd::stream::decode_all`: decompresses the whole input;
/// whether it accepts the input, and what it recovers, depend on the input
/// alone; a frame that `encode_all` produced decodes to the bytes it was
/// made from.
#[verifier::external_body]
pub(crate) fn zstd_decode(frame: &[u8]) -> (r: Option<Vec<u8>>)
    ensures
        r is Some <==> zstd_decompressed(frame@) is Some,
        r matches Some(v) ==> zstd_decompressed(frame@) == Some(v@),
        r is None ==> forall|src: (Seq<u8>, i32)| #[trigger] zstd_compressed(src.0, src.1) != frame@,
        r matches Some(v) ==> forall|src: (Seq<u8>, i32)|
            #[trigger] zstd_compressed(src.0, src.1) == frame@ ==> v@ == src.0,
{
    zstd::stream::decode_all(frame).ok()
}

/// Relies on `md5::compute`: the 16-byte MD5 digest of the input.
#[verifier::external_body]
pub(crate) fn md5_digest(data: &[u8]) -> (r: Vec<u8>)
    ensures
        r@ == md5_of(data@),
        r@.len() == 16,
{
    md5::compute(data).0.to_vec()
}

/// Appends `src` to `dst`, one byte at a time.
pub fn append_bytes(dst: &mut Vec<u8>, src: &[u8])
    ensures
        final(dst)@ == old(dst)@ + src@,
{
    let ghost start = dst@;
    let mut i: usize = 0;
    while i < src.len()
        invariant
            0 <= i <= src@.len(),
            dst@ == start + src@.subrange(0, i as int),
        decreases src@.len() - i,
    {
        dst.push(src[i]);
        i = i + 1;
        assert(src@.subrange(0, i as int) =~= src@.subrange(0, i - 1) + seq![src@[i - 1]]);
    }
    assert(src@.subrange(0, i as int) =~= src@);
}

/// The size of the chunks in which `buf_copy` moves bytes.
pub const COPY_CHUNK: usize = 8192;

/// Copies all of `reader` to the end of `writer`, in chunks of at most
/// `COPY_CHUNK` bytes.
pub fn buf_copy(reader: &[u8], writer: &mut Vec<u8>)
    ensures
        final(writer)@ == old(writer)@ + reader@,
{
    let ghost start = writer@;
    let mut pos: usize = 0;
    loop
        invariant
            0 <= pos <= reader@.len(),
            writer@ == start + reader@.subrange(0, pos as int),
        ensures
            pos == reader@.len(),
            writer@ == start + reader@.subrange(0, pos as int),
        decreases reader@.len() - pos,
    {
        let remaining = reader.len() - pos;
        let bytes_read = if remaining < COPY_CHUNK {
            remaining
        } else {
            COPY_CHUNK
        };
        if bytes_read == 0 {
            break;
        }
        let chunk = vstd::slice::slice_subrange(reader, pos, pos + bytes_read);
        append_bytes(writer, chunk);
        assert(reader@.subrange(0, (pos + bytes_read) as int) =~= reader@.subrange(0, pos as int)
            + chunk@);
        pos = pos + bytes_read;
    }
    assert(reader@.subrange(0, pos as int) =~= reader@);
}

/// A sink that keeps every byte written to it and counts them.
pub struct CompressWriter {
    inner: Vec<u8>,
    count: usize,
}

impl CompressWriter {
    /// What the sink holds.
    pub closed spec fn contents(&self) -> Seq<u8> {
        self.inner@
    }

    /// How many bytes have been written since the writer was made.
    pub closed spec fn written(&self) -> nat {
        self.count as nat
    }

    /// A writer around `inner`, with nothing counted yet.
    pub fn new(inner: Vec<u8>) -> (r: CompressWriter)
        ensures
            r.contents() == inner@,
            r.written() == 0,
    {
        CompressWriter { inner, count: 0 }
    }

    /// Writes all of `buf` and returns how many bytes were written.
    pub fn write(&mut self, buf: &[u8]) -> (r: usize)
        requires
            old(self).written() + buf@.len() <= usize::MAX,
        ensures
            r == buf@.len(),
            final(self).contents() == old(self).contents() + buf@,
            final(self).written() == old(self).written() + buf@.len(),
    {
        append_bytes(&mut self.inner, buf);
        self.count = self.count + buf.len();
        buf.len()
    }

    /// Nothing is held back, so there is nothing to flush.
    pub fn flush(&mut self)
        ensures
            *final(self) == *old(self),
    {
    }

    /// The number of bytes written through this writer.
    pub fn count(&self) -> (r: usize)
        ensures
            r == self.written(),
    {
        self.count
    }

    /// Gives back the sink with everything written to it.
    pub fn into_inner(self) -> (r: Vec<u8>)
        ensures
            r@ == self.contents(),
    {
        self.inner
    }
}

} // verus!
