use vstd::bytes::{
    lemma_auto_spec_u64_to_from_le_bytes, spec_u64_from_le_bytes, spec_u64_to_le_bytes,
    u64_from_le_bytes, u64_to_le_bytes,
};
use vstd::prelude::*;
use vstd::slice::slice_subrange;

verus! {

/// The fixed 40-byte header that opens a container: the identifier, then the
/// lengths of the four sections that follow it, each a little-endian `u64`.
pub struct Header {
    pub paths_len: u64,
    pub sizes_len: u64,
    pub hashes_len: u64,
    pub compressed_data_len: u64,
}

/// Why a byte image could not be read as a container.
#[derive(Debug, PartialEq, Eq, Structural)]
pub enum FormatError {
    /// Fewer bytes than a fixed-size field or a declared section needs.
    Truncated,
    /// The eight bytes at the header position are not the identifier.
    InvalidIdentifier,
    /// The header's lengths, the manifest and the tables do not agree with
    /// each other or with the footer.
    InconsistentLengths,
    /// Bytes follow the manifest's last newline.
    MalformedManifest,
}

/// The identifier, as a number; its little-endian bytes open every header.
pub const IDENTIFIER_VALUE: u64 = 0xA0B0C0D0A1B1C1D1;

impl Header {
    pub const HEADER_LEN: u64 = 40;

    pub open spec fn identifier_spec() -> Seq<u8> {
        spec_u64_to_le_bytes(IDENTIFIER_VALUE)
    }

    /// The identifier's eight bytes.
    pub fn identifier() -> (r: Vec<u8>)
        ensures
            r@ == Self::identifier_spec(),
            r@.len() == 8,
    {
        proof {
            lemma_auto_spec_u64_to_from_le_bytes();
        }
        u64_to_le_bytes(IDENTIFIER_VALUE)
    }

    /// The sum of the header's length and the four section lengths.
    pub open spec fn total_len(&self) -> int {
        Self::HEADER_LEN + self.paths_len + self.sizes_len + self.hashes_len
            + self.compressed_data_len
    }

    /// The header's 40 bytes: identifier, then the four lengths in order.
    pub open spec fn bytes_spec(&self) -> Seq<u8> {
        Self::identifier_spec() + spec_u64_to_le_bytes(self.paths_len) + spec_u64_to_le_bytes(
            self.sizes_len,
        ) + spec_u64_to_le_bytes(self.hashes_len) + spec_u64_to_le_bytes(
            self.compressed_data_len,
        )
    }

    /// The value that a 40-byte image with the right identifier encodes.
    pub open spec fn from_bytes_spec(b: Seq<u8>) -> Header {
        Header {
            paths_len: spec_u64_from_le_bytes(b.subrange(8, 16)),
            sizes_len: spec_u64_from_le_bytes(b.subrange(16, 24)),
            hashes_len: spec_u64_from_le_bytes(b.subrange(24, 32)),
            compressed_data_len: spec_u64_from_le_bytes(b.subrange(32, 40)),
        }
    }

    /// Reads a header from the first 40 bytes of `bytes`. The identifier is
    /// checked first: wrong leading bytes are an invalid identifier however
    /// short the input.
    pub fn parse_stream(bytes: &[u8]) -> (r: Result<Header, FormatError>)
        ensures
            bytes@.len() < 8 ==> r == Err::<Header, FormatError>(FormatError::Truncated),
            bytes@.len() >= 8 && bytes@.subrange(0, 8) != Self::identifier_spec() ==> r == Err::<
                Header,
                FormatError,
            >(FormatError::InvalidIdentifier),
            8 <= bytes@.len() < 40 && bytes@.subrange(0, 8) == Self::identifier_spec() ==> r
                == Err::<Header, FormatError>(FormatError::Truncated),
            bytes@.len() >= 40 && bytes@.subrange(0, 8) == Self::identifier_spec() ==> r == Ok::<
                Header,
                FormatError,
            >(Self::from_bytes_spec(bytes@)),
    {
        if bytes.len() < 8 {
            return Err(FormatError::Truncated);
        }
        let id = Self::identifier();
        let mut i: usize = 0;
        while i < 8
            invariant
                0 <= i <= 8,
                bytes@.len() >= 8,
                id@ == Self::identifier_spec(),
                id@.len() == 8,
                forall|k: int| 0 <= k < i ==> bytes@[k] == id@[k],
            decreases 8 - i,
        {
            if bytes[i] != id[i] {
                assert(bytes@.subrange(0, 8)[i as int] != id@[i as int]);
                return Err(FormatError::InvalidIdentifier);
            }
            i = i + 1;
        }
        assert(bytes@.subrange(0, 8) =~= id@);
        if bytes.len() < 40 {
            return Err(FormatError::Truncated);
        }
        let paths_len = u64_from_le_bytes(slice_subrange(bytes, 8, 16));
        let sizes_len = u64_from_le_bytes(slice_subrange(bytes, 16, 24));
        let hashes_len = u64_from_le_bytes(slice_subrange(bytes, 24, 32));
        let compressed_data_len = u64_from_le_bytes(slice_subrange(bytes, 32, 40));
        Ok(Header { paths_len, sizes_len, hashes_len, compressed_data_len })
    }

    /// The header's 40-byte encoding.
    pub fn to_bytes(&self) -> (r: Vec<u8>)
        ensures
            r@ == self.bytes_spec(),
            r@.len() == 40,
    {
        proof {
            lemma_auto_spec_u64_to_from_le_bytes();
        }
        let mut buf = Self::identifier();
        let mut f = u64_to_le_bytes(self.paths_len);
        buf.append(&mut f);
        let mut f = u64_to_le_bytes(self.sizes_len);
        buf.append(&mut f);
        let mut f = u64_to_le_bytes(self.hashes_len);
        buf.append(&mut f);
        let mut f = u64_to_le_bytes(self.compressed_data_len);
        buf.append(&mut f);
        buf
    }

    /// The length of the header and the four sections together: the value
    /// that the footer holds.
    pub fn header_and_data_len(&self) -> (r: u64)
        requires
            self.total_len() <= u64::MAX,
        ensures
            r == self.total_len(),
    {
        Self::HEADER_LEN + self.paths_len + self.sizes_len + self.hashes_len
            + self.compressed_data_len
    }
}

/// Encoding a header and reading it back gives the same header.
pub proof fn lemma_header_round_trip(h: Header)
    ensures
        h.bytes_spec().len() == 40,
        h.bytes_spec().subrange(0, 8) == Header::identifier_spec(),
        Header::from_bytes_spec(h.bytes_spec()) == h,
{
    lemma_auto_spec_u64_to_from_le_bytes();
    let b = h.bytes_spec();
    assert(b.subrange(0, 8) =~= Header::identifier_spec());
    assert(b.subrange(8, 16) =~= spec_u64_to_le_bytes(h.paths_len));
    assert(b.subrange(16, 24) =~= spec_u64_to_le_bytes(h.sizes_len));
    assert(b.subrange(24, 32) =~= spec_u64_to_le_bytes(h.hashes_len));
    assert(b.subrange(32, 40) =~= spec_u64_to_le_bytes(h.compressed_data_len));
}

} // verus!
