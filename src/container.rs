use crate::codec::{
    append_bytes, buf_copy, md5_digest, md5_of, zstd_compressed, zstd_decode, zstd_decompressed,
    zstd_encode, CompressWriter,
};
use crate::header::{lemma_header_round_trip, FormatError, Header};
use vstd::bytes::{
    lemma_auto_spec_u64_to_from_le_bytes, spec_u64_from_le_bytes, spec_u64_to_le_bytes,
    u64_from_le_bytes, u64_to_le_bytes,
};
use vstd::prelude::*;
use vstd::slice::{slice_subrange, slice_to_vec};

verus! {

/// The byte that ends each line of the manifest.
pub const NEWLINE: u8 = 10;

/// Length of one entry's pair in the size table.
pub const SIZE_PAIR_LEN: u64 = 16;

/// Length of one entry's digest in the hash table.
pub const DIGEST_LEN: u64 = 16;

/// What an entry is, as the container records it.
pub struct Record {
    pub path: Seq<u8>,
    pub original_size: u64,
    pub compressed_size: u64,
    pub hash: Seq<u8>,
    pub data: Seq<u8>,
}

/// One packed file: its archive-relative path (as bytes), its original and
/// compressed lengths, the MD5 digest of its original bytes, and its
/// compressed bytes.
pub struct CompressContext {
    pub file: Vec<u8>,
    pub path_str: Vec<u8>,
    pub original_size: u64,
    pub compressed_size: u64,
    pub hash: Vec<u8>,
}

impl View for CompressContext {
    type V = Record;

    open spec fn view(&self) -> Record {
        Record {
            path: self.path_str@,
            original_size: self.original_size,
            compressed_size: self.compressed_size,
            hash: self.hash@,
            data: self.file@,
        }
    }
}

pub open spec fn no_newline(s: Seq<u8>) -> bool {
    forall|k: int| 0 <= k < s.len() ==> s[k] != NEWLINE
}

/// A record that the container can hold: a path that fits on one manifest
/// line, a 16-byte digest, and a compressed size that matches its bytes.
pub open spec fn record_wf(r: Record) -> bool {
    &&& no_newline(r.path)
    &&& r.hash.len() == DIGEST_LEN
    &&& r.data.len() == r.compressed_size
}

pub open spec fn records_wf(rs: Seq<Record>) -> bool {
    forall|i: int| 0 <= i < rs.len() ==> record_wf(#[trigger] rs[i])
}

pub open spec fn views(es: Seq<CompressContext>) -> Seq<Record> {
    es.map_values(|e: CompressContext| e@)
}

/// Lines, each followed by a newline.
pub open spec fn join_lines(ls: Seq<Seq<u8>>) -> Seq<u8>
    decreases ls.len(),
{
    if ls.len() == 0 {
        Seq::empty()
    } else {
        join_lines(ls.drop_last()) + ls.last() + seq![NEWLINE]
    }
}

pub open spec fn paths_of(rs: Seq<Record>) -> Seq<Seq<u8>> {
    rs.map_values(|r: Record| r.path)
}

/// The bytes of each record, as `part` gives them, one after another.
pub open spec fn concat_map(rs: Seq<Record>, part: spec_fn(Record) -> Seq<u8>) -> Seq<u8>
    decreases rs.len(),
{
    if rs.len() == 0 {
        Seq::empty()
    } else {
        concat_map(rs.drop_last(), part) + part(rs.last())
    }
}

pub open spec fn size_pair(r: Record) -> Seq<u8> {
    spec_u64_to_le_bytes(r.original_size) + spec_u64_to_le_bytes(r.compressed_size)
}

pub open spec fn hash_part(r: Record) -> Seq<u8> {
    r.hash
}

pub open spec fn data_part(r: Record) -> Seq<u8> {
    r.data
}

pub open spec fn manifest_spec(rs: Seq<Record>) -> Seq<u8> {
    join_lines(paths_of(rs))
}

pub open spec fn size_fn() -> spec_fn(Record) -> Seq<u8> {
    |r: Record| size_pair(r)
}

pub open spec fn hash_fn() -> spec_fn(Record) -> Seq<u8> {
    |r: Record| hash_part(r)
}

pub open spec fn data_fn() -> spec_fn(Record) -> Seq<u8> {
    |r: Record| data_part(r)
}

pub open spec fn sizes_spec(rs: Seq<Record>) -> Seq<u8> {
    concat_map(rs, size_fn())
}

pub open spec fn hashes_spec(rs: Seq<Record>) -> Seq<u8> {
    concat_map(rs, hash_fn())
}

pub open spec fn data_spec(rs: Seq<Record>) -> Seq<u8> {
    concat_map(rs, data_fn())
}

/// The header that describes the sections of `rs`.
pub open spec fn header_of(rs: Seq<Record>) -> Header {
    Header {
        paths_len: manifest_spec(rs).len() as u64,
        sizes_len: (SIZE_PAIR_LEN * rs.len()) as u64,
        hashes_len: (DIGEST_LEN * rs.len()) as u64,
        compressed_data_len: data_spec(rs).len() as u64,
    }
}

/// The container's lengths, footer included, fit in a `u64`.
pub open spec fn container_fits(rs: Seq<Record>) -> bool {
    48 + manifest_spec(rs).len() + 32 * rs.len() + data_spec(rs).len() <= u64::MAX
}

/// The container of `rs`: header, manifest, size table, hash table,
/// compressed data, and the footer that holds the length of all but itself.
pub open spec fn container_spec(rs: Seq<Record>) -> Seq<u8> {
    header_of(rs).bytes_spec() + manifest_spec(rs) + sizes_spec(rs) + hashes_spec(rs) + data_spec(
        rs,
    ) + spec_u64_to_le_bytes(header_of(rs).total_len() as u64)
}

pub proof fn lemma_concat_map_len(rs: Seq<Record>, part: spec_fn(Record) -> Seq<u8>, w: nat)
    requires
        forall|i: int| 0 <= i < rs.len() ==> (#[trigger] part(rs[i])).len() == w,
    ensures
        concat_map(rs, part).len() == w * rs.len(),
    decreases rs.len(),
{
    if rs.len() > 0 {
        assert forall|i: int| 0 <= i < rs.drop_last().len() implies (#[trigger] part(
            rs.drop_last()[i],
        )).len() == w by {
            assert(rs.drop_last()[i] == rs[i]);
        }
        lemma_concat_map_len(rs.drop_last(), part, w);
        assert(part(rs[rs.len() - 1]).len() == w);
        assert(w * rs.len() == w * (rs.len() - 1) + w) by (nonlinear_arith);
    }
}

/// Taking one more record adds that record's part at the end.
pub proof fn lemma_concat_map_step(rs: Seq<Record>, part: spec_fn(Record) -> Seq<u8>, i: int)
    requires
        0 <= i < rs.len(),
    ensures
        concat_map(rs.take(i + 1), part) == concat_map(rs.take(i), part) + part(rs[i]),
{
    assert(rs.take(i + 1).drop_last() =~= rs.take(i));
}

/// The parts of the first `j` records open the parts of all of them.
pub proof fn lemma_concat_map_prefix(rs: Seq<Record>, part: spec_fn(Record) -> Seq<u8>, j: int)
    requires
        0 <= j <= rs.len(),
    ensures
        concat_map(rs.take(j), part).len() <= concat_map(rs, part).len(),
        concat_map(rs, part).subrange(0, concat_map(rs.take(j), part).len() as int) == concat_map(
            rs.take(j),
            part,
        ),
    decreases rs.len(),
{
    if j == rs.len() {
        assert(rs.take(j) =~= rs);
    } else {
        let d = rs.drop_last();
        assert(d.take(j) =~= rs.take(j));
        lemma_concat_map_prefix(d, part, j);
        let a = concat_map(d, part);
        let b = concat_map(rs.take(j), part);
        assert(concat_map(rs, part) == a + part(rs.last()));
        assert((a + part(rs.last())).subrange(0, b.len() as int) =~= a.subrange(0, b.len() as int));
    }
}

/// Packs one file whose bytes are `data`: compresses them at `level`
/// through a counting writer into a holding buffer and takes their digest.
pub fn compress_to_temp(path_str: Vec<u8>, data: &[u8], level: i32) -> (r: CompressContext)
    ensures
        r@ == (Record {
            path: path_str@,
            original_size: data@.len() as u64,
            compressed_size: zstd_compressed(data@, level).len() as u64,
            hash: md5_of(data@),
            data: zstd_compressed(data@, level),
        }),
        no_newline(path_str@) ==> record_wf(r@),
{
    let compressed = zstd_encode(data, level).unwrap();
    let ghost n = compressed.len();
    let mut tmp_writer = CompressWriter::new(Vec::new());
    tmp_writer.write(compressed.as_slice());
    tmp_writer.flush();
    let compressed_size = tmp_writer.count() as u64;
    let hash = md5_digest(data);
    let file = tmp_writer.into_inner();
    assert(file@ =~= compressed@);
    CompressContext { file, path_str, original_size: data.len() as u64, compressed_size, hash }
}

pub proof fn lemma_manifest_step(rs: Seq<Record>, i: int)
    requires
        0 <= i < rs.len(),
    ensures
        manifest_spec(rs.take(i + 1)) == manifest_spec(rs.take(i)) + rs[i].path + seq![NEWLINE],
{
    assert(paths_of(rs.take(i + 1)).drop_last() =~= paths_of(rs.take(i)));
}

/// The header for `entries`, or `None` when the container would not fit in
/// a `u64` length.
pub fn build_header(entries: &Vec<CompressContext>) -> (r: Option<Header>)
    requires
        records_wf(views(entries@)),
    ensures
        r is Some <==> container_fits(views(entries@)),
        r matches Some(h) ==> h == header_of(views(entries@)),
{
    let ghost rs = views(entries@);
    let mut total: u64 = 48;
    let mut paths_len: u64 = 0;
    let mut data_len: u64 = 0;
    let mut i: usize = 0;
    while i < entries.len()
        invariant
            0 <= i <= entries@.len(),
            rs == views(entries@),
            records_wf(rs),
            paths_len == manifest_spec(rs.take(i as int)).len(),
            data_len == data_spec(rs.take(i as int)).len(),
            total == 48 + paths_len + 32 * i + data_len,
        decreases entries@.len() - i,
    {
        let e = &entries[i];
        proof {
            lemma_manifest_step(rs, i as int);
            lemma_concat_map_step(rs, data_fn(), i as int);
            assert(record_wf(rs[i as int]));
            assert(rs[i as int] == e@);
        }
        let step = e.path_str.len() as u64;
        let room = u64::MAX - total;
        if room < 33 || step > room - 33 || e.compressed_size > room - 33 - step {
            proof {
                lemma_fits_monotone(rs, i as int + 1);
            }
            return None;
        }
        total = total + 33 + step + e.compressed_size;
        paths_len = paths_len + step + 1;
        data_len = data_len + e.compressed_size;
        i = i + 1;
    }
    proof {
        assert(rs.take(i as int) =~= rs);
    }
    Some(
        Header {
            paths_len,
            sizes_len: SIZE_PAIR_LEN * (i as u64),
            hashes_len: DIGEST_LEN * (i as u64),
            compressed_data_len: data_len,
        },
    )
}

/// The lengths only grow as records are added.
pub proof fn lemma_fits_monotone(rs: Seq<Record>, j: int)
    requires
        0 <= j <= rs.len(),
    ensures
        manifest_spec(rs.take(j)).len() + 32 * j + data_spec(rs.take(j)).len() <= manifest_spec(
            rs,
        ).len() + 32 * rs.len() + data_spec(rs).len(),
    decreases rs.len() - j,
{
    if j < rs.len() {
        lemma_manifest_step(rs, j);
        lemma_concat_map_step(rs, data_fn(), j);
        lemma_fits_monotone(rs, j + 1);
    } else {
        assert(rs.take(j) =~= rs);
    }
}

/// Serializes `entries`, in their order, into a container to append to an
/// executable image; `None` when its lengths would not fit in a `u64`.
pub fn write_container(entries: &Vec<CompressContext>) -> (r: Option<Vec<u8>>)
    requires
        records_wf(views(entries@)),
    ensures
        r is Some <==> container_fits(views(entries@)),
        r matches Some(v) ==> v@ == container_spec(views(entries@)),
{
    let ghost rs = views(entries@);
    let header = match build_header(entries) {
        Some(h) => h,
        None => return None,
    };
    let mut out = header.to_bytes();
    let ghost head = out@;
    // the manifest: one line per entry
    let mut i: usize = 0;
    while i < entries.len()
        invariant
            0 <= i <= entries@.len(),
            rs == views(entries@),
            out@ == head + manifest_spec(rs.take(i as int)),
        decreases entries@.len() - i,
    {
        proof {
            lemma_manifest_step(rs, i as int);
            assert(rs[i as int] == entries@[i as int]@);
        }
        append_bytes(&mut out, entries[i].path_str.as_slice());
        out.push(NEWLINE);
        i = i + 1;
    }
    assert(rs.take(i as int) =~= rs);
    let ghost with_paths = out@;
    // the size table
    let mut i: usize = 0;
    while i < entries.len()
        invariant
            0 <= i <= entries@.len(),
            rs == views(entries@),
            out@ == with_paths + sizes_spec(rs.take(i as int)),
        decreases entries@.len() - i,
    {
        proof {
            lemma_concat_map_step(rs, size_fn(), i as int);
            assert(rs[i as int] == entries@[i as int]@);
        }
        let original = u64_to_le_bytes(entries[i].original_size);
        let compressed = u64_to_le_bytes(entries[i].compressed_size);
        append_bytes(&mut out, original.as_slice());
        append_bytes(&mut out, compressed.as_slice());
        i = i + 1;
    }
    assert(rs.take(i as int) =~= rs);
    let ghost with_sizes = out@;
    // the hash table
    let mut i: usize = 0;
    while i < entries.len()
        invariant
            0 <= i <= entries@.len(),
            rs == views(entries@),
            out@ == with_sizes + hashes_spec(rs.take(i as int)),
        decreases entries@.len() - i,
    {
        proof {
            lemma_concat_map_step(rs, hash_fn(), i as int);
            assert(rs[i as int] == entries@[i as int]@);
        }
        append_bytes(&mut out, entries[i].hash.as_slice());
        i = i + 1;
    }
    assert(rs.take(i as int) =~= rs);
    let ghost with_hashes = out@;
    // the compressed data
    let mut i: usize = 0;
    while i < entries.len()
        invariant
            0 <= i <= entries@.len(),
            rs == views(entries@),
            out@ == with_hashes + data_spec(rs.take(i as int)),
        decreases entries@.len() - i,
    {
        proof {
            lemma_concat_map_step(rs, data_fn(), i as int);
            assert(rs[i as int] == entries@[i as int]@);
        }
        buf_copy(entries[i].file.as_slice(), &mut out);
        i = i + 1;
    }
    assert(rs.take(i as int) =~= rs);
    let footer = u64_to_le_bytes(header.header_and_data_len());
    append_bytes(&mut out, footer.as_slice());
    Some(out)
}

/// In every container that the writer produces, the footer holds 40 plus
/// the four section lengths that the header declares, and each declared
/// length is that of its section.
pub proof fn lemma_footer_matches_header(rs: Seq<Record>)
    requires
        records_wf(rs),
        container_fits(rs),
    ensures
        ({
            let c = container_spec(rs);
            let h = Header::from_bytes_spec(c.subrange(0, 40));
            &&& c.subrange(0, 8) == Header::identifier_spec()
            &&& h.paths_len == manifest_spec(rs).len()
            &&& h.sizes_len == sizes_spec(rs).len()
            &&& h.hashes_len == hashes_spec(rs).len()
            &&& h.compressed_data_len == data_spec(rs).len()
            &&& c.len() == 48 + h.paths_len + h.sizes_len + h.hashes_len + h.compressed_data_len
            &&& spec_u64_from_le_bytes(c.subrange(c.len() - 8, c.len() as int)) == 40
                + h.paths_len + h.sizes_len + h.hashes_len + h.compressed_data_len
        }),
{
    lemma_auto_spec_u64_to_from_le_bytes();
    lemma_sections_len(rs);
    let h = header_of(rs);
    lemma_header_round_trip(h);
    let c = container_spec(rs);
    let hb = h.bytes_spec();
    assert(c.subrange(0, 40) =~= hb);
    assert(c.subrange(0, 8) =~= hb.subrange(0, 8));
    assert(c.subrange(c.len() - 8, c.len() as int) =~= spec_u64_to_le_bytes(h.total_len() as u64));
}

pub proof fn lemma_sections_len(rs: Seq<Record>)
    requires
        records_wf(rs),
    ensures
        sizes_spec(rs).len() == SIZE_PAIR_LEN * rs.len(),
        hashes_spec(rs).len() == DIGEST_LEN * rs.len(),
{
    lemma_auto_spec_u64_to_from_le_bytes();
    assert forall|i: int| 0 <= i < rs.len() implies (#[trigger] size_fn()(rs[i])).len() == 16 by {
        assert(spec_u64_to_le_bytes(rs[i].original_size).len() == 8);
        assert(spec_u64_to_le_bytes(rs[i].compressed_size).len() == 8);
    }
    assert forall|i: int| 0 <= i < rs.len() implies (#[trigger] hash_fn()(rs[i])).len() == 16 by {
        assert(record_wf(rs[i]));
    }
    lemma_concat_map_len(rs, size_fn(), 16);
    lemma_concat_map_len(rs, hash_fn(), 16);
}

pub open spec fn line_views(ls: Seq<Vec<u8>>) -> Seq<Seq<u8>> {
    ls.map_values(|l: Vec<u8>| l@)
}

pub open spec fn lines_wf(ls: Seq<Seq<u8>>) -> bool {
    forall|i: int| 0 <= i < ls.len() ==> no_newline(#[trigger] ls[i])
}

/// Two lists of lines without newlines that join to the same bytes are the
/// same list.
pub proof fn lemma_join_lines_injective(a: Seq<Seq<u8>>, b: Seq<Seq<u8>>)
    requires
        lines_wf(a),
        lines_wf(b),
        join_lines(a) == join_lines(b),
    ensures
        a == b,
    decreases a.len() + b.len(),
{
    if a.len() == 0 || b.len() == 0 {
        if a.len() != 0 || b.len() != 0 {
            assert(join_lines(a).len() != join_lines(b).len());
        }
        assert(a =~= b);
    } else {
        let j = join_lines(a);
        let x = a.last();
        let y = b.last();
        let ja = join_lines(a.drop_last());
        let jb = join_lines(b.drop_last());
        assert(no_newline(x) && no_newline(y)) by {
            assert(no_newline(a[a.len() - 1]));
            assert(no_newline(b[b.len() - 1]));
        }
        assert(lines_wf(a.drop_last())) by {
            assert forall|i: int| 0 <= i < a.drop_last().len() implies no_newline(
                #[trigger] a.drop_last()[i],
            ) by {
                assert(a.drop_last()[i] == a[i]);
            }
        }
        assert(lines_wf(b.drop_last())) by {
            assert forall|i: int| 0 <= i < b.drop_last().len() implies no_newline(
                #[trigger] b.drop_last()[i],
            ) by {
                assert(b.drop_last()[i] == b[i]);
            }
        }
        lemma_last_line_len(a.drop_last(), b.drop_last(), x, y);
        lemma_last_line_len(b.drop_last(), a.drop_last(), y, x);
        assert(x =~= j.subrange(ja.len() as int, j.len() - 1));
        assert(y =~= j.subrange(jb.len() as int, j.len() - 1));
        assert(ja =~= j.subrange(0, ja.len() as int));
        assert(jb =~= j.subrange(0, jb.len() as int));
        lemma_join_lines_injective(a.drop_last(), b.drop_last());
        assert(a =~= a.drop_last().push(x));
        assert(b =~= b.drop_last().push(y));
    }
}

/// The last lines of two equal joins cannot differ in length.
proof fn lemma_last_line_len(a: Seq<Seq<u8>>, b: Seq<Seq<u8>>, x: Seq<u8>, y: Seq<u8>)
    requires
        no_newline(y),
        join_lines(a) + x + seq![NEWLINE] == join_lines(b) + y + seq![NEWLINE],
    ensures
        x.len() >= y.len(),
{
    let j = join_lines(a) + x + seq![NEWLINE];
    let ja = join_lines(a);
    let jb = join_lines(b);
    assert(j.len() == ja.len() + x.len() + 1);
    assert(j.len() == jb.len() + y.len() + 1);
    if x.len() < y.len() {
        if a.len() == 0 {
            assert(j.len() == x.len() + 1);
        } else {
            assert(ja[ja.len() - 1] == NEWLINE);
            assert(j[ja.len() - 1] == NEWLINE);
            let k = ja.len() - 1 - jb.len();
            assert(0 <= k < y.len());
            assert(j[ja.len() - 1] == (jb + y + seq![NEWLINE])[ja.len() - 1]);
            assert(j[ja.len() - 1] == y[k]);
        }
    }
}

/// Splits a manifest into its newline-terminated lines; `None` when bytes
/// follow the last newline.
pub fn split_manifest(m: &[u8]) -> (r: Option<Vec<Vec<u8>>>)
    ensures
        r is Some <==> (m@.len() == 0 || m@.last() == NEWLINE),
        r matches Some(ls) ==> lines_wf(line_views(ls@)) && join_lines(line_views(ls@)) == m@,
{
    let mut lines: Vec<Vec<u8>> = Vec::new();
    let mut start: usize = 0;
    let mut i: usize = 0;
    while i < m.len()
        invariant
            0 <= start <= i <= m@.len(),
            lines_wf(line_views(lines@)),
            join_lines(line_views(lines@)) == m@.subrange(0, start as int),
            no_newline(m@.subrange(start as int, i as int)),
            start > 0 ==> m@[start - 1] == NEWLINE,
        decreases m@.len() - i,
    {
        if m[i] == NEWLINE {
            let line = slice_to_vec(slice_subrange(m, start, i));
            let ghost old_lines = line_views(lines@);
            lines.push(line);
            proof {
                assert(line_views(lines@).drop_last() =~= old_lines);
                assert(line_views(lines@).last() == line@);
                assert(m@.subrange(0, i + 1) =~= m@.subrange(0, start as int) + line@ + seq![
                    NEWLINE,
                ]);
                assert forall|k: int| 0 <= k < line_views(lines@).len() implies no_newline(
                    #[trigger] line_views(lines@)[k],
                ) by {
                    if k < old_lines.len() {
                        assert(line_views(lines@)[k] == old_lines[k]);
                    }
                }
            }
            start = i + 1;
        } else {
            proof {
                assert forall|k: int| 0 <= k < m@.subrange(start as int, i + 1).len() implies #[trigger] m@.subrange(
                    start as int,
                    i + 1,
                )[k] != NEWLINE by {
                    if k < i - start {
                        assert(m@.subrange(start as int, i + 1)[k] == m@.subrange(start as int, i as int)[k]);
                    }
                }
            }
        }
        i = i + 1;
    }
    if start < m.len() {
        proof {
            assert(m@.subrange(start as int, i as int)[m@.len() - 1 - start] == m@.last());
        }
        return None;
    }
    proof {
        assert(m@.subrange(0, start as int) =~= m@);
    }
    Some(lines)
}

/// The value that the last eight bytes of `image` hold.
pub open spec fn footer_value(image: Seq<u8>) -> u64 {
    spec_u64_from_le_bytes(image.subrange(image.len() - 8, image.len() as int))
}

/// `image` ends with the container of the well-formed records `rs`.
#[verifier::opaque]
pub open spec fn ends_with_container(image: Seq<u8>, rs: Seq<Record>) -> bool {
    &&& records_wf(rs)
    &&& container_fits(rs)
    &&& container_spec(rs).len() <= image.len()
    &&& image.subrange(image.len() - container_spec(rs).len(), image.len() as int)
        == container_spec(rs)
}

/// Finds where the header starts, from the footer at the end of `image`.
pub fn locate_header(image: &[u8]) -> (r: Result<usize, FormatError>)
    ensures
        image@.len() < 8 ==> r == Err::<usize, FormatError>(FormatError::Truncated),
        image@.len() >= 8 && footer_value(image@) > image@.len() - 8 ==> r == Err::<
            usize,
            FormatError,
        >(FormatError::Truncated),
        image@.len() >= 8 && footer_value(image@) <= image@.len() - 8 ==> r == Ok::<
            usize,
            FormatError,
        >((image@.len() - 8 - footer_value(image@)) as usize),
{
    let len = image.len();
    if len < 8 {
        return Err(FormatError::Truncated);
    }
    let data_length = u64_from_le_bytes(slice_subrange(image, len - 8, len));
    if data_length > (len - 8) as u64 {
        return Err(FormatError::Truncated);
    }
    Ok(len - 8 - data_length as usize)
}

/// Where each section of the container of `rs` lies at the end of `image`.
#[verifier::opaque]
pub open spec fn container_layout(image: Seq<u8>, rs: Seq<Record>) -> bool {
    ({
        let c = container_spec(rs);
        let h = header_of(rs);
        let body = image.subrange(image.len() - c.len(), image.len() - 8);
        let p = h.paths_len as int;
        let s = h.sizes_len as int;
        let q = h.hashes_len as int;
        &&& image.len() >= 8
        &&& c.len() >= 48
        &&& c.len() <= image.len()
        &&& records_wf(rs)
        &&& footer_value(image) == c.len() - 8
        &&& c.len() - 8 == h.total_len()
        &&& h.paths_len == manifest_spec(rs).len()
        &&& h.sizes_len == SIZE_PAIR_LEN * rs.len()
        &&& h.hashes_len == DIGEST_LEN * rs.len()
        &&& h.compressed_data_len == data_spec(rs).len()
        &&& body.subrange(0, 8) == Header::identifier_spec()
        &&& Header::from_bytes_spec(body) == h
        &&& body.subrange(40, 40 + p) == manifest_spec(rs)
        &&& (manifest_spec(rs).len() == 0 || manifest_spec(rs).last() == NEWLINE)
        &&& lines_wf(paths_of(rs))
        &&& body.subrange(40 + p, 40 + p + s) == sizes_spec(rs)
        &&& body.subrange(40 + p + s, 40 + p + s + q) == hashes_spec(rs)
        &&& body.subrange(40 + p + s + q, body.len() as int) == data_spec(rs)
    })
}

/// Where each section of a container lies, for the records it holds.
pub proof fn lemma_container_layout(image: Seq<u8>, rs: Seq<Record>)
    requires
        ends_with_container(image, rs),
    ensures
        container_layout(image, rs),
{
    reveal(ends_with_container);
    lemma_footer_matches_header(rs);
    lemma_sections_len(rs);
    let c = container_spec(rs);
    let h = header_of(rs);
    lemma_header_round_trip(h);
    let hb = h.bytes_spec();
    let body = image.subrange(image.len() - c.len(), image.len() - 8);
    let p = h.paths_len as int;
    let s = h.sizes_len as int;
    let q = h.hashes_len as int;
    let inner = hb + manifest_spec(rs) + sizes_spec(rs) + hashes_spec(rs) + data_spec(rs);
    assert(body =~= c.subrange(0, c.len() - 8));
    assert(c.subrange(0, c.len() - 8) =~= inner);
    assert(image.subrange(image.len() - 8, image.len() as int) =~= c.subrange(
        c.len() - 8,
        c.len() as int,
    ));
    assert(body.subrange(0, 40) =~= hb);
    assert(body.subrange(0, 8) =~= hb.subrange(0, 8));
    assert(body.subrange(8, 16) =~= hb.subrange(8, 16));
    assert(body.subrange(16, 24) =~= hb.subrange(16, 24));
    assert(body.subrange(24, 32) =~= hb.subrange(24, 32));
    assert(body.subrange(32, 40) =~= hb.subrange(32, 40));
    assert(body.subrange(40, 40 + p) =~= manifest_spec(rs));
    assert forall|i: int| 0 <= i < paths_of(rs).len() implies no_newline(
        #[trigger] paths_of(rs)[i],
    ) by {
        assert(record_wf(rs[i]));
    }
    assert(body.subrange(40 + p, 40 + p + s) =~= sizes_spec(rs));
    assert(body.subrange(40 + p + s, 40 + p + s + q) =~= hashes_spec(rs));
    assert(body.subrange(40 + p + s + q, body.len() as int) =~= data_spec(rs));
    reveal(container_layout);
}

/// The bytes that the `i`-th record takes in each table.
pub proof fn lemma_record_at(rs: Seq<Record>, i: int)
    requires
        records_wf(rs),
        0 <= i < rs.len(),
    ensures
        sizes_spec(rs).len() == SIZE_PAIR_LEN * rs.len(),
        sizes_spec(rs).subrange(16 * i, 16 * i + 8) == spec_u64_to_le_bytes(rs[i].original_size),
        sizes_spec(rs).subrange(16 * i + 8, 16 * i + 16) == spec_u64_to_le_bytes(
            rs[i].compressed_size,
        ),
        hashes_spec(rs).subrange(16 * i, 16 * i + 16) == rs[i].hash,
        data_spec(rs.take(i)).len() + rs[i].data.len() <= data_spec(rs).len(),
        data_spec(rs).subrange(
            data_spec(rs.take(i)).len() as int,
            (data_spec(rs.take(i)).len() + rs[i].data.len()) as int,
        ) == rs[i].data,
{
    lemma_auto_spec_u64_to_from_le_bytes();
    lemma_sections_len(rs);
    assert(records_wf(rs.take(i))) by {
        assert forall|k: int| 0 <= k < rs.take(i).len() implies record_wf(#[trigger] rs.take(i)[k]) by {
            assert(rs.take(i)[k] == rs[k]);
        }
    }
    lemma_sections_len(rs.take(i));
    lemma_concat_map_step(rs, size_fn(), i);
    lemma_concat_map_step(rs, hash_fn(), i);
    lemma_concat_map_step(rs, data_fn(), i);
    lemma_concat_map_prefix(rs, size_fn(), i + 1);
    lemma_concat_map_prefix(rs, hash_fn(), i + 1);
    lemma_concat_map_prefix(rs, data_fn(), i + 1);
    assert(record_wf(rs[i]));
    let sa = sizes_spec(rs.take(i));
    let sb = sizes_spec(rs.take(i + 1));
    assert(sizes_spec(rs).subrange(16 * i, 16 * i + 8) =~= sb.subrange(16 * i, 16 * i + 8));
    assert(sizes_spec(rs).subrange(16 * i + 8, 16 * i + 16) =~= sb.subrange(16 * i + 8, 16 * i + 16));
    let ha = hashes_spec(rs.take(i));
    let hb = hashes_spec(rs.take(i + 1));
    assert(hashes_spec(rs).subrange(16 * i, 16 * i + 16) =~= hb.subrange(16 * i, 16 * i + 16));
    let da = data_spec(rs.take(i));
    let db = data_spec(rs.take(i + 1));
    assert(data_spec(rs).subrange(da.len() as int, (da.len() + rs[i].data.len()) as int) =~= db.subrange(
        da.len() as int,
        db.len() as int,
    ));
}

/// `rs` is the list of records whose paths, size table, hash table and
/// compressed data are the given ones.
pub open spec fn tables_hold(
    rs: Seq<Record>,
    paths: Seq<Seq<u8>>,
    sizes: Seq<u8>,
    hashes: Seq<u8>,
    data: Seq<u8>,
) -> bool {
    &&& records_wf(rs)
    &&& paths_of(rs) == paths
    &&& sizes_spec(rs) == sizes
    &&& hashes_spec(rs) == hashes
    &&& data_spec(rs) == data
}

/// Walks the manifest lines and the three tables in lockstep, building one
/// entry per line; `None` when the compressed sizes do not add up to the
/// data section.
pub fn read_entries(lines: &Vec<Vec<u8>>, sizes: &[u8], hashes: &[u8], data: &[u8]) -> (r: Option<
    Vec<CompressContext>,
>)
    requires
        lines_wf(line_views(lines@)),
        sizes@.len() == SIZE_PAIR_LEN * lines@.len(),
        hashes@.len() == DIGEST_LEN * lines@.len(),
    ensures
        r matches Some(es) ==> tables_hold(views(es@), line_views(lines@), sizes@, hashes@, data@),
        forall|rs: Seq<Record>| #[trigger]
            tables_hold(rs, line_views(lines@), sizes@, hashes@, data@) ==> (r matches Some(es)
                && views(es@) == rs),
{
    let n = lines.len();
    let slen = sizes.len();
    let mut es: Vec<CompressContext> = Vec::new();
    let mut off: usize = 0;
    let mut i: usize = 0;
    while i < n
        invariant
            slen == sizes@.len(),
            n == lines@.len(),
            sizes@.len() == 16 * n,
            hashes@.len() == 16 * n,
            0 <= off <= data@.len(),
            0 <= i <= n,
            es@.len() == i,
            lines_wf(line_views(lines@)),
            records_wf(views(es@)),
            paths_of(views(es@)) == line_views(lines@).take(i as int),
            sizes_spec(views(es@)) == sizes@.subrange(0, 16 * i),
            hashes_spec(views(es@)) == hashes@.subrange(0, 16 * i),
            data_spec(views(es@)) == data@.subrange(0, off as int),
            forall|rs: Seq<Record>| #[trigger]
                tables_hold(rs, line_views(lines@), sizes@, hashes@, data@) ==> views(es@)
                    == rs.take(i as int),
        decreases n - i,
    {
        assert(16 * i + 16 <= 16 * n) by (nonlinear_arith)
            requires
                i < n,
        ;
        let osz = slice_subrange(sizes, 16 * i, 16 * i + 8);
        let csz = slice_subrange(sizes, 16 * i + 8, 16 * i + 16);
        let original_size = u64_from_le_bytes(osz);
        let compressed_size = u64_from_le_bytes(csz);
        let hash = slice_to_vec(slice_subrange(hashes, 16 * i, 16 * i + 16));
        proof {
            lemma_auto_spec_u64_to_from_le_bytes();
            assert forall|rs: Seq<Record>| #[trigger]
                tables_hold(rs, line_views(lines@), sizes@, hashes@, data@) implies ({
                &&& original_size == rs[i as int].original_size
                &&& compressed_size == rs[i as int].compressed_size
                &&& hash@ == rs[i as int].hash
                &&& lines@[i as int]@ == rs[i as int].path
                &&& off + rs[i as int].data.len() <= data@.len()
                &&& data@.subrange(off as int, off + rs[i as int].data.len()) == rs[i as int].data
                &&& record_wf(rs[i as int])
            }) by {
                assert(paths_of(rs).len() == rs.len());
                lemma_record_at(rs, i as int);
                assert(data_spec(rs.take(i as int)).len() == off);
                assert(line_views(lines@)[i as int] == paths_of(rs)[i as int]);
                assert(record_wf(rs[i as int]));
            }
        }
        if compressed_size > (data.len() - off) as u64 {
            return None;
        }
        let end = off + compressed_size as usize;
        let file = slice_to_vec(slice_subrange(data, off, end));
        let path_str = slice_to_vec(lines[i].as_slice());
        let e = CompressContext { file, path_str, original_size, compressed_size, hash };
        let ghost old_es = es@;
        es.push(e);
        proof {
            lemma_auto_spec_u64_to_from_le_bytes();
            assert(views(es@) =~= views(old_es).push(e@));
            assert(views(es@).drop_last() =~= views(old_es));
            assert(line_views(lines@)[i as int] == lines@[i as int]@);
            assert(no_newline(line_views(lines@)[i as int]));
            assert(paths_of(views(es@)) =~= line_views(lines@).take(i + 1));
            assert(spec_u64_to_le_bytes(original_size) == osz@);
            assert(spec_u64_to_le_bytes(compressed_size) == csz@);
            assert(sizes@.subrange(0, 16 * (i + 1)) =~= sizes@.subrange(0, 16 * i) + osz@ + csz@);
            assert(hashes@.subrange(0, 16 * (i + 1)) =~= hashes@.subrange(0, 16 * i) + hash@);
            assert(data@.subrange(0, end as int) =~= data@.subrange(0, off as int) + file@);
            assert forall|k: int| 0 <= k < views(es@).len() implies record_wf(
                #[trigger] views(es@)[k],
            ) by {
                if k < i {
                    assert(views(es@)[k] == views(old_es)[k]);
                }
            }
            assert forall|rs: Seq<Record>| #[trigger]
                tables_hold(rs, line_views(lines@), sizes@, hashes@, data@) implies views(es@)
                == rs.take(i + 1) by {
                assert(rs.take(i + 1) =~= rs.take(i as int).push(rs[i as int]));
            }
        }
        off = end;
        i = i + 1;
    }
    proof {
        assert forall|rs: Seq<Record>| #[trigger]
            tables_hold(rs, line_views(lines@), sizes@, hashes@, data@) implies views(es@) == rs by {
            assert(paths_of(rs).len() == rs.len());
            assert(rs.take(i as int) =~= rs);
        }
    }
    if off != data.len() {
        return None;
    }
    proof {
        assert(line_views(lines@).take(i as int) =~= line_views(lines@));
        assert(sizes@.subrange(0, 16 * i) =~= sizes@);
        assert(hashes@.subrange(0, 16 * i) =~= hashes@);
        assert(data@.subrange(0, off as int) =~= data@);
    }
    Some(es)
}

/// Sections read from the body that precedes the footer put together the
/// container of the records they describe.
proof fn lemma_container_from_sections(
    image: Seq<u8>,
    body: Seq<u8>,
    header: Header,
    rs: Seq<Record>,
)
    requires
        image.len() >= 8,
        image.len() <= u64::MAX,
        footer_value(image) <= image.len() - 8,
        body == image.subrange(image.len() - 8 - footer_value(image), image.len() - 8),
        footer_value(image) == body.len(),
        body.len() >= 40,
        body.subrange(0, 8) == Header::identifier_spec(),
        header == Header::from_bytes_spec(body),
        header.total_len() == body.len(),
        records_wf(rs),
        manifest_spec(rs) == body.subrange(40, 40 + header.paths_len),
        sizes_spec(rs) == body.subrange(
            40 + header.paths_len,
            40 + header.paths_len + header.sizes_len,
        ),
        hashes_spec(rs) == body.subrange(
            40 + header.paths_len + header.sizes_len,
            40 + header.paths_len + header.sizes_len + header.hashes_len,
        ),
        data_spec(rs) == body.subrange(
            40 + header.paths_len + header.sizes_len + header.hashes_len,
            body.len() as int,
        ),
        header.sizes_len == SIZE_PAIR_LEN * rs.len(),
        header.hashes_len == DIGEST_LEN * rs.len(),
    ensures
        ends_with_container(image, rs),
{
    lemma_auto_spec_u64_to_from_le_bytes();
    assert(header_of(rs) == header);
    let hb = header.bytes_spec();
    assert(body.subrange(0, 40) =~= hb) by {
        assert(body.subrange(0, 40) =~= body.subrange(0, 8) + body.subrange(8, 16) + body.subrange(
            16,
            24,
        ) + body.subrange(24, 32) + body.subrange(32, 40));
    }
    let c = container_spec(rs);
    let foot = image.subrange(image.len() - 8, image.len() as int);
    assert(spec_u64_to_le_bytes(footer_value(image)) == foot);
    assert(c =~= body + foot);
    assert(c.len() == body.len() + 8);
    reveal(ends_with_container);
    assert(image.subrange(image.len() - c.len(), image.len() as int) =~= c);
}

/// Reads the container at the end of `image`: every entry, in manifest
/// order, with its sizes, digest and compressed bytes.
#[verifier::rlimit(60)]
pub fn parse_container(image: &[u8]) -> (r: Result<Vec<CompressContext>, FormatError>)
    ensures
        image@.len() < 8 ==> r == Err::<Vec<CompressContext>, FormatError>(FormatError::Truncated),
        image@.len() >= 8 && footer_value(image@) <= image@.len() - 8 && footer_value(image@) >= 8
            && image@.subrange(
            image@.len() - 8 - footer_value(image@),
            image@.len() - footer_value(image@),
        ) != Header::identifier_spec() ==> r == Err::<Vec<CompressContext>, FormatError>(
            FormatError::InvalidIdentifier,
        ),
        r matches Ok(es) ==> ends_with_container(image@, views(es@)),
        forall|rs: Seq<Record>| #[trigger]
            ends_with_container(image@, rs) ==> (r matches Ok(es) && views(es@) == rs),
{
    let len = image.len();
    let header_pos = match locate_header(image) {
        Ok(p) => p,
        Err(e) => {
            proof {
                assert forall|rs: Seq<Record>| #[trigger]
                    ends_with_container(image@, rs) implies false by {
                    lemma_container_layout(image@, rs);
                    reveal(container_layout);
                }
            }
            return Err(e);
        },
    };
    let body = slice_subrange(image, header_pos, len - 8);
    let blen = body.len() as u64;
    proof {
        if body@.len() >= 8 {
            assert(body@.subrange(0, 8) =~= image@.subrange(header_pos as int, header_pos + 8));
        }
    }
    let header = match Header::parse_stream(body) {
        Ok(h) => h,
        Err(e) => {
            proof {
                assert forall|rs: Seq<Record>| #[trigger]
                    ends_with_container(image@, rs) implies false by {
                    lemma_container_layout(image@, rs);
                    reveal(container_layout);
                }
            }
            return Err(e);
        },
    };
    if header.paths_len > blen - 40 || header.sizes_len > blen - 40 - header.paths_len
        || header.hashes_len > blen - 40 - header.paths_len - header.sizes_len
        || header.compressed_data_len != blen - 40 - header.paths_len - header.sizes_len
        - header.hashes_len {
        proof {
            assert forall|rs: Seq<Record>| #[trigger]
                ends_with_container(image@, rs) implies false by {
                lemma_container_layout(image@, rs);
                reveal(container_layout);
            }
        }
        return Err(FormatError::InconsistentLengths);
    }
    let a = 40 + header.paths_len;
    let b = a + header.sizes_len;
    let cc = b + header.hashes_len;
    let manifest = slice_subrange(body, 40, a as usize);
    let sizes = slice_subrange(body, a as usize, b as usize);
    let hashes = slice_subrange(body, b as usize, cc as usize);
    let data = slice_subrange(body, cc as usize, body.len());
    let lines = match split_manifest(manifest) {
        Some(ls) => ls,
        None => {
            proof {
                assert forall|rs: Seq<Record>| #[trigger]
                    ends_with_container(image@, rs) implies false by {
                    lemma_container_layout(image@, rs);
                    reveal(container_layout);
                }
            }
            return Err(FormatError::MalformedManifest);
        },
    };
    let n = lines.len();
    if header.sizes_len % 16 != 0 || header.sizes_len / 16 != n as u64 || header.hashes_len % 16
        != 0 || header.hashes_len / 16 != n as u64 {
        proof {
            assert forall|rs: Seq<Record>| #[trigger]
                ends_with_container(image@, rs) implies false by {
                lemma_container_layout(image@, rs);
                reveal(container_layout);
                lemma_join_lines_injective(line_views(lines@), paths_of(rs));
                assert(line_views(lines@).len() == lines@.len());
            }
        }
        return Err(FormatError::InconsistentLengths);
    }
    proof {
        assert forall|rs: Seq<Record>| #[trigger] ends_with_container(image@, rs) implies tables_hold(
            rs,
            line_views(lines@),
            sizes@,
            hashes@,
            data@,
        ) by {
            lemma_container_layout(image@, rs);
            reveal(container_layout);
            lemma_join_lines_injective(line_views(lines@), paths_of(rs));
        }
    }
    let es = match read_entries(&lines, sizes, hashes, data) {
        Some(es) => es,
        None => return Err(FormatError::InconsistentLengths),
    };
    proof {
        let rs = views(es@);
        assert(manifest_spec(rs) == manifest@) by {
            assert(paths_of(rs) == line_views(lines@));
        }
        assert(paths_of(rs).len() == rs.len());
        assert(line_views(lines@).len() == lines@.len());
        lemma_container_from_sections(image@, body@, header, rs);
    }
    Ok(es)
}

/// The bytes that the writer produces, appended to any image, end it with
/// the container of exactly the records they were made from.
pub proof fn lemma_written_container_is_found(prefix: Seq<u8>, rs: Seq<Record>)
    requires
        records_wf(rs),
        container_fits(rs),
    ensures
        ends_with_container(prefix + container_spec(rs), rs),
{
    let image = prefix + container_spec(rs);
    assert(image.subrange(prefix.len() as int, image.len() as int) =~= container_spec(rs));
    reveal(ends_with_container);
}

/// Whether a digest computed on extraction equals the stored one.
pub fn check_digest(computed: &[u8], expected: &[u8]) -> (r: bool)
    ensures
        r == (computed@ == expected@),
{
    if computed.len() != expected.len() {
        return false;
    }
    let mut i: usize = 0;
    while i < computed.len()
        invariant
            0 <= i <= computed@.len(),
            computed@.len() == expected@.len(),
            forall|k: int| 0 <= k < i ==> computed@[k] == expected@[k],
        decreases computed@.len() - i,
    {
        if computed[i] != expected[i] {
            return false;
        }
        i = i + 1;
    }
    assert(computed@ =~= expected@);
    true
}

/// One extracted file: its decompressed bytes, and whether their digest is
/// the one the container stored.
pub struct Extracted {
    pub data: Vec<u8>,
    pub intact: bool,
}

/// Decompresses one entry and checks its digest; `None` when its bytes are
/// not a zstd frame the decoder accepts.
pub fn unpack_entry(entry: &CompressContext) -> (r: Option<Extracted>)
    ensures
        r is Some <==> zstd_decompressed(entry.file@) is Some,
        r matches Some(x) ==> zstd_decompressed(entry.file@) == Some(x.data@),
        r matches Some(x) ==> x.intact == (md5_of(x.data@) == entry.hash@),
        forall|src: (Seq<u8>, i32)| #[trigger]
            zstd_compressed(src.0, src.1) == entry.file@ ==> (r matches Some(x) && x.data@
                == src.0 && (entry.hash@ == md5_of(src.0) ==> x.intact)),
{
    let data = match zstd_decode(entry.file.as_slice()) {
        Some(d) => d,
        None => return None,
    };
    let written_hash = md5_digest(data.as_slice());
    let intact = check_digest(written_hash.as_slice(), entry.hash.as_slice());
    Some(Extracted { data, intact })
}

/// What extraction gave for one entry: its path and, unless its bytes
/// could not be decompressed, its contents and integrity.
pub struct ExtractedEntry {
    pub path: Vec<u8>,
    pub outcome: Option<Extracted>,
}

/// What extracting `r` owes: its path; an outcome exactly when its bytes
/// decode; and then the decoded bytes and whether their digest is the
/// stored one.
pub open spec fn extracted_from(x: ExtractedEntry, r: Record) -> bool {
    &&& x.path@ == r.path
    &&& (x.outcome is Some <==> zstd_decompressed(r.data) is Some)
    &&& (x.outcome matches Some(o) ==> zstd_decompressed(r.data) == Some(o.data@) && o.intact == (
    md5_of(o.data@) == r.hash))
    &&& forall|src: (Seq<u8>, i32)| #[trigger]
        zstd_compressed(src.0, src.1) == r.data ==> (x.outcome matches Some(o) && o.data@ == src.0
            && (r.hash == md5_of(src.0) ==> o.intact))
}

/// Extracts every entry of the container at the end of `image`, in
/// manifest order. A structural error stops everything; an entry whose
/// bytes do not decode or whose digest differs is reported and the others
/// go on.
pub fn extract_container(image: &[u8]) -> (r: Result<Vec<ExtractedEntry>, FormatError>)
    ensures
        image@.len() < 8 ==> r == Err::<Vec<ExtractedEntry>, FormatError>(FormatError::Truncated),
        image@.len() >= 8 && footer_value(image@) <= image@.len() - 8 && footer_value(image@) >= 8
            && image@.subrange(
            image@.len() - 8 - footer_value(image@),
            image@.len() - footer_value(image@),
        ) != Header::identifier_spec() ==> r == Err::<Vec<ExtractedEntry>, FormatError>(
            FormatError::InvalidIdentifier,
        ),
        r matches Ok(xs) ==> exists|rs: Seq<Record>| #[trigger]
            ends_with_container(image@, rs) && xs@.len() == rs.len() && forall|i: int|
                0 <= i < rs.len() ==> extracted_from(#[trigger] xs@[i], rs[i]),
        forall|rs: Seq<Record>| #[trigger]
            ends_with_container(image@, rs) ==> (r matches Ok(xs) && xs@.len() == rs.len()
                && forall|i: int| 0 <= i < rs.len() ==> extracted_from(#[trigger] xs@[i], rs[i])),
{
    let entries = match parse_container(image) {
        Ok(es) => es,
        Err(e) => return Err(e),
    };
    let ghost rs = views(entries@);
    let mut xs: Vec<ExtractedEntry> = Vec::new();
    let mut i: usize = 0;
    while i < entries.len()
        invariant
            0 <= i <= entries@.len(),
            rs == views(entries@),
            xs@.len() == i,
            forall|k: int| 0 <= k < i ==> extracted_from(#[trigger] xs@[k], rs[k]),
        decreases entries@.len() - i,
    {
        let outcome = unpack_entry(&entries[i]);
        let path = slice_to_vec(entries[i].path_str.as_slice());
        let x = ExtractedEntry { path, outcome };
        proof {
            assert(rs[i as int] == entries@[i as int]@);
        }
        xs.push(x);
        i = i + 1;
    }
    Ok(xs)
}

/// Records whose parts agree one by one have the same concatenation.
pub proof fn lemma_concat_map_pointwise(
    a: Seq<Record>,
    b: Seq<Record>,
    part: spec_fn(Record) -> Seq<u8>,
)
    requires
        a.len() == b.len(),
        forall|k: int| 0 <= k < a.len() ==> part(#[trigger] a[k]) == part(b[k]),
    ensures
        concat_map(a, part) == concat_map(b, part),
    decreases a.len(),
{
    if a.len() > 0 {
        assert forall|k: int| 0 <= k < a.drop_last().len() implies part(
            #[trigger] a.drop_last()[k],
        ) == part(b.drop_last()[k]) by {
            assert(a.drop_last()[k] == a[k]);
            assert(b.drop_last()[k] == b[k]);
        }
        lemma_concat_map_pointwise(a.drop_last(), b.drop_last(), part);
        assert(part(a[a.len() - 1]) == part(b[b.len() - 1]));
    }
}

/// The concatenation splits around the `i`-th record.
pub proof fn lemma_concat_map_split(rs: Seq<Record>, part: spec_fn(Record) -> Seq<u8>, i: int)
    requires
        0 <= i < rs.len(),
    ensures
        concat_map(rs, part) == concat_map(rs.take(i), part) + part(rs[i]) + concat_map(
            rs.skip(i + 1),
            part,
        ),
    decreases rs.len(),
{
    if i == rs.len() - 1 {
        assert(rs.drop_last() =~= rs.take(i));
        assert(rs.skip(i + 1) =~= Seq::<Record>::empty());
        assert(concat_map(rs, part) =~= concat_map(rs.take(i), part) + part(rs[i]) + Seq::empty());
    } else {
        let d = rs.drop_last();
        lemma_concat_map_split(d, part, i);
        assert(d.take(i) =~= rs.take(i));
        assert(d[i] == rs[i]);
        assert(rs.skip(i + 1).drop_last() =~= d.skip(i + 1));
        assert(rs.skip(i + 1).last() == rs.last());
        assert(concat_map(rs, part) =~= concat_map(rs.take(i), part) + part(rs[i]) + concat_map(
            rs.skip(i + 1),
            part,
        ));
    }
}

/// Where the `i`-th record's compressed bytes start in the container.
pub open spec fn data_offset(rs: Seq<Record>, i: int) -> int {
    (40 + manifest_spec(rs).len() + sizes_spec(rs).len() + hashes_spec(rs).len() + data_spec(
        rs.take(i),
    ).len()) as int
}

/// Changing bytes inside one entry's compressed data, keeping its length,
/// gives the container of the same records with only that entry's data
/// changed: every other entry is described, and so read, as before.
pub proof fn lemma_change_in_one_entry(rs: Seq<Record>, i: int, new_data: Seq<u8>)
    requires
        records_wf(rs),
        container_fits(rs),
        0 <= i < rs.len(),
        new_data.len() == rs[i].data.len(),
    ensures
        ({
            let r2 = Record { data: new_data, ..rs[i] };
            let rs2 = rs.update(i, r2);
            let c = container_spec(rs);
            let start = data_offset(rs, i);
            &&& records_wf(rs2)
            &&& container_fits(rs2)
            &&& forall|k: int| 0 <= k < rs.len() && k != i ==> #[trigger] rs2[k] == rs[k]
            &&& 0 <= start
            &&& start + new_data.len() <= c.len()
            &&& container_spec(rs2) == c.subrange(0, start) + new_data + c.subrange(
                start + new_data.len(),
                c.len() as int,
            )
        }),
{
    let r2 = Record { data: new_data, ..rs[i] };
    let rs2 = rs.update(i, r2);
    assert(records_wf(rs2)) by {
        assert forall|k: int| 0 <= k < rs2.len() implies record_wf(#[trigger] rs2[k]) by {
            assert(record_wf(rs[k]));
        }
    }
    assert(paths_of(rs2) =~= paths_of(rs));
    lemma_concat_map_pointwise(rs2, rs, size_fn());
    lemma_concat_map_pointwise(rs2, rs, hash_fn());
    lemma_concat_map_split(rs, data_fn(), i);
    lemma_concat_map_split(rs2, data_fn(), i);
    assert(rs2.take(i) =~= rs.take(i));
    assert(rs2.skip(i + 1) =~= rs.skip(i + 1));
    let pre = data_spec(rs.take(i));
    let post = data_spec(rs.skip(i + 1));
    assert(data_spec(rs2) == pre + new_data + post);
    assert(data_spec(rs) == pre + rs[i].data + post);
    assert(header_of(rs2) == header_of(rs));
    let c = container_spec(rs);
    let hb = header_of(rs).bytes_spec();
    lemma_header_round_trip(header_of(rs));
    lemma_footer_matches_header(rs);
    let m = manifest_spec(rs);
    let sz = sizes_spec(rs);
    let hs = hashes_spec(rs);
    let foot = spec_u64_to_le_bytes(header_of(rs).total_len() as u64);
    let start = data_offset(rs, i);
    assert(c == hb + m + sz + hs + (pre + rs[i].data + post) + foot);
    assert(c.subrange(0, start) =~= hb + m + sz + hs + pre);
    assert(c.subrange(start + new_data.len(), c.len() as int) =~= post + foot);
    assert(container_spec(rs2) =~= c.subrange(0, start) + new_data + c.subrange(
        start + new_data.len(),
        c.len() as int,
    ));
}

/// In a container, the `i`-th manifest line, the `i`-th size pair, the
/// `i`-th digest and the `i`-th compressed range all belong to the `i`-th
/// record.
pub proof fn lemma_order_consistency(rs: Seq<Record>, i: int)
    requires
        records_wf(rs),
        container_fits(rs),
        0 <= i < rs.len(),
    ensures
        ({
            let c = container_spec(rs);
            let m = manifest_spec(rs).len() as int;
            let s0 = 40 + m;
            let h0 = s0 + SIZE_PAIR_LEN * rs.len();
            let d = data_offset(rs, i);
            &&& d + rs[i].compressed_size <= c.len()
            &&& spec_u64_from_le_bytes(c.subrange(s0 + 16 * i, s0 + 16 * i + 8))
                == rs[i].original_size
            &&& spec_u64_from_le_bytes(c.subrange(s0 + 16 * i + 8, s0 + 16 * i + 16))
                == rs[i].compressed_size
            &&& c.subrange(h0 + 16 * i, h0 + 16 * i + 16) == rs[i].hash
            &&& c.subrange(d, d + rs[i].compressed_size) == rs[i].data
            &&& forall|ls: Seq<Seq<u8>>|
                lines_wf(ls) && #[trigger] join_lines(ls) == c.subrange(40, s0) ==> ls.len()
                    == rs.len() && ls[i] == rs[i].path
        }),
{
    lemma_auto_spec_u64_to_from_le_bytes();
    lemma_record_at(rs, i);
    lemma_sections_len(rs);
    lemma_header_round_trip(header_of(rs));
    let c = container_spec(rs);
    let hb = header_of(rs).bytes_spec();
    let mf = manifest_spec(rs);
    let sz = sizes_spec(rs);
    let hs = hashes_spec(rs);
    let dt = data_spec(rs);
    let foot = spec_u64_to_le_bytes(header_of(rs).total_len() as u64);
    let m = mf.len() as int;
    let s0 = 40 + m;
    let h0 = s0 + sz.len();
    let d0 = h0 + hs.len();
    let d = data_offset(rs, i);
    let da = data_spec(rs.take(i)).len() as int;
    let len = rs[i].data.len() as int;
    assert(c == hb + mf + sz + hs + dt + foot);
    assert(c.subrange(40, s0) =~= mf);
    assert(c.subrange(s0 + 16 * i, s0 + 16 * i + 8) =~= sz.subrange(16 * i, 16 * i + 8));
    assert(c.subrange(s0 + 16 * i + 8, s0 + 16 * i + 16) =~= sz.subrange(16 * i + 8, 16 * i + 16));
    assert(c.subrange(h0 + 16 * i, h0 + 16 * i + 16) =~= hs.subrange(16 * i, 16 * i + 16));
    assert(d == d0 + da);
    assert(c.subrange(d, d + len) =~= dt.subrange(da, da + len));
    assert(lines_wf(paths_of(rs))) by {
        assert forall|k: int| 0 <= k < paths_of(rs).len() implies no_newline(
            #[trigger] paths_of(rs)[k],
        ) by {
            assert(record_wf(rs[k]));
        }
    }
    assert forall|ls: Seq<Seq<u8>>|
        lines_wf(ls) && #[trigger] join_lines(ls) == c.subrange(40, s0) implies ls.len()
        == rs.len() && ls[i] == rs[i].path by {
        lemma_join_lines_injective(ls, paths_of(rs));
    }
}

} // verus!
