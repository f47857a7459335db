//! PNG text chunks: reading `tEXt`, `zTXt` and `iTXt` metadata straight from
//! the chunk stream, with zlib decompression bounded in size.
use vstd::prelude::*;
use vstd::utf8::{decode_utf8, decode_utf8_encode_utf8, encode_scalar, encode_utf8, valid_utf8};
use crate::model::{entries_view, MetadataEntry};
use crate::text::{
    find_from, lemma_find_first, lemma_find_from, lossy_text, matches_at, string_from_utf8,
    string_from_utf8_lossy,
};

verus! {

/// The eight-byte signature that opens every PNG file.
pub const PNG_MAGIC: [u8; 8] = [137, 80, 78, 71, 13, 10, 26, 10];

/// Metadata chunks longer than this are skipped unread.
pub const MAX_METADATA_CHUNK_SIZE: u64 = 16 * 1024 * 1024;

/// Decompressed text longer than this is refused.
pub const MAX_DECOMPRESSED_SIZE: usize = 32 * 1024 * 1024;

/// The PNG signature as bytes.
pub open spec fn png_magic() -> Seq<u8> {
    seq![137u8, 80, 78, 71, 13, 10, 26, 10]
}

/// Chunk type `IEND`.
pub open spec fn iend_tag() -> Seq<u8> {
    seq![73u8, 69, 78, 68]
}

/// Chunk type `tEXt`.
pub open spec fn text_tag() -> Seq<u8> {
    seq![116u8, 69, 88, 116]
}

/// Chunk type `zTXt`.
pub open spec fn ztxt_tag() -> Seq<u8> {
    seq![122u8, 84, 88, 116]
}

/// Chunk type `iTXt`.
pub open spec fn itxt_tag() -> Seq<u8> {
    seq![105u8, 84, 88, 116]
}

/// Whether a chunk type is one of the three text chunk types.
pub open spec fn is_text_chunk(kind: Seq<u8>) -> bool {
    kind == text_tag() || kind == ztxt_tag() || kind == itxt_tag()
}

/// The big-endian 32-bit number at `p`.
pub open spec fn be_u32(b: Seq<u8>, p: int) -> nat {
    (b[p] as nat) * 16777216 + (b[p + 1] as nat) * 65536 + (b[p + 2] as nat) * 256 + (
    b[p + 3] as nat)
}

/// What zlib decompression of `input` gives when the output may not exceed
/// `limit` bytes: `None` for a corrupt or truncated stream or a longer output.
pub uninterp spec fn zlib_inflate(input: Seq<u8>, limit: usize) -> Option<Seq<u8>>;

/// Decompresses a zlib stream into at most `limit` bytes
/// (`miniz_oxide::inflate::decompress_to_vec_zlib_with_limit`). The result is
/// named `zlib_inflate`; what is stated of it is only that it respects the
/// limit. Which streams decode, and to what, is left to the name.
#[verifier::external_body]
fn inflate_zlib(input: &[u8], limit: usize) -> (r: Option<Vec<u8>>)
    ensures
        match r {
            Some(v) => zlib_inflate(input@, limit) == Some(v@),
            None => zlib_inflate(input@, limit) is None,
        },
        r matches Some(v) ==> v@.len() <= limit,
{
    miniz_oxide::inflate::decompress_to_vec_zlib_with_limit(input, limit).ok()
}

/// The text that a decompression output holds: its bytes as UTF-8 text, or
/// `None` when there is no output or it is not UTF-8.
pub open spec fn output_text(out: Option<Seq<u8>>) -> Option<Seq<char>> {
    match out {
        Some(b) => if valid_utf8(b) {
            Some(decode_utf8(b))
        } else {
            None
        },
        None => None,
    }
}

/// The UTF-8 text that a zlib stream decompresses to within
/// `MAX_DECOMPRESSED_SIZE` bytes; `None` for an empty, corrupt or oversized
/// stream, or one whose output is not UTF-8.
pub open spec fn inflated_text(compressed: Seq<u8>) -> Option<Seq<char>> {
    if compressed.len() == 0 {
        None
    } else {
        output_text(zlib_inflate(compressed, MAX_DECOMPRESSED_SIZE))
    }
}

/// The text of an optional string.
pub open spec fn opt_string_text(o: Option<String>) -> Option<Seq<char>> {
    match o {
        Some(s) => Some(s@),
        None => None,
    }
}

/// Decompressed text is refused only past 32 MiB of output: a non-empty
/// stream reads as whatever zlib makes of it within 32 MiB, as UTF-8 text.
pub proof fn lemma_decompression_cap(c: Seq<u8>)
    requires
        c.len() > 0,
    ensures
        MAX_DECOMPRESSED_SIZE == 33554432,
        inflated_text(c) == output_text(zlib_inflate(c, 33554432)),
        (zlib_inflate(c, 33554432) matches Some(b) && valid_utf8(b)) ==> inflated_text(c) == Some(
            decode_utf8(zlib_inflate(c, 33554432)->Some_0),
        ),
{
}

/// The bytes of an optional byte vector.
pub open spec fn opt_bytes(o: Option<Vec<u8>>) -> Option<Seq<u8>> {
    match o {
        Some(v) => Some(v@),
        None => None,
    }
}

/// Turns a decompression output into text: `None` when there is no output or
/// it is not UTF-8; otherwise the text, whose UTF-8 encoding is the output.
pub fn text_of_output(out: Option<Vec<u8>>) -> (r: Option<String>)
    ensures
        r matches Some(s) ==> output_text(opt_bytes(out)) == Some(s@) && opt_bytes(out) == Some(
            encode_utf8(s@),
        ),
        r is None ==> output_text(opt_bytes(out)) is None,
{
    match out {
        Some(bytes) => {
            let ghost b = bytes@;
            let r = string_from_utf8(bytes);
            proof {
                if valid_utf8(b) {
                    decode_utf8_encode_utf8(b);
                }
            }
            r
        },
        None => None,
    }
}

/// UTF-8 takes at least one byte per character.
proof fn lemma_encoding_not_shorter(chars: Seq<char>)
    ensures
        encode_utf8(chars).len() >= chars.len(),
    decreases chars.len(),
{
    if chars.len() > 0 {
        assert(encode_scalar(chars[0] as u32).len() >= 1);
        lemma_encoding_not_shorter(chars.drop_first());
    }
}

/// Decompresses a zlib stream that holds UTF-8 text, refusing output beyond
/// `MAX_DECOMPRESSED_SIZE` bytes.
pub fn decompress_zlib(compressed: &[u8]) -> (r: Option<String>)
    ensures
        r matches Some(s) ==> inflated_text(compressed@) == Some(s@),
        r is None ==> inflated_text(compressed@) is None,
        compressed@.len() > 0 ==> opt_string_text(r) == output_text(zlib_inflate(compressed@, 33554432)),
        compressed@.len() == 0 ==> r is None,
        r matches Some(s) ==> encode_utf8(s@).len() <= MAX_DECOMPRESSED_SIZE,
        r matches Some(s) ==> s@.len() <= MAX_DECOMPRESSED_SIZE,
{
    if compressed.len() == 0 {
        return None;
    }
    let out = inflate_zlib(compressed, MAX_DECOMPRESSED_SIZE);
    let r = text_of_output(out);
    proof {
        if r is Some {
            lemma_encoding_not_shorter(r->Some_0@);
        }
    }
    r
}

/// The entry that the data of a text chunk of the given type holds: the
/// keyword before the first NUL, and the text after it (decompressed for
/// `zTXt`, and for `iTXt` when its compression flag is 1, after skipping the
/// language tag and translated keyword). `None` when the data is malformed or
/// its text does not decompress.
pub open spec fn chunk_entry(kind: Seq<u8>, data: Seq<u8>) -> Option<(Seq<char>, Seq<char>)> {
    match find_from(data, seq![0u8], 0) {
        None => None,
        Some(pos) => {
            let key = lossy_text(data.take(pos));
            if kind == text_tag() {
                Some((key, lossy_text(data.skip(pos + 1))))
            } else if kind == ztxt_tag() {
                if pos + 2 <= data.len() {
                    match inflated_text(data.skip(pos + 2)) {
                        Some(v) => Some((key, v)),
                        None => None,
                    }
                } else {
                    None
                }
            } else {
                let rest = data.skip(pos + 1);
                if rest.len() >= 2 {
                    let flag = rest[0];
                    let sl = rest.skip(2);
                    match find_from(sl, seq![0u8], 0) {
                        None => None,
                        Some(p1) => {
                            let sl2 = sl.skip(p1 + 1);
                            match find_from(sl2, seq![0u8], 0) {
                                None => None,
                                Some(p2) => {
                                    let payload = sl2.skip(p2 + 1);
                                    if flag == 1 {
                                        match inflated_text(payload) {
                                            Some(v) => Some((key, v)),
                                            None => None,
                                        }
                                    } else {
                                        Some((key, lossy_text(payload)))
                                    }
                                },
                            }
                        },
                    }
                } else {
                    None
                }
            }
        },
    }
}

/// The entries of the chunks from position `p` on, or `Err` when a text
/// chunk's data runs past the end. The reading stops at `IEND` or where no
/// full chunk header is left; oversized chunks and other chunk types are
/// skipped.
pub open spec fn png_scan(b: Seq<u8>, p: int) -> Result<Seq<(Seq<char>, Seq<char>)>, ()>
    decreases if p <= b.len() {
        b.len() - p + 1
    } else {
        0
    },
{
    if p < 0 || p + 8 > b.len() {
        Ok(Seq::empty())
    } else {
        let length = be_u32(b, p);
        let kind = b.subrange(p + 4, p + 8);
        let q = p + 8;
        if length > MAX_METADATA_CHUNK_SIZE {
            png_scan(b, q + length + 4)
        } else if kind == iend_tag() {
            Ok(Seq::empty())
        } else if is_text_chunk(kind) {
            if q + length > b.len() {
                Err(())
            } else {
                match png_scan(b, q + length + 4) {
                    Ok(r) => Ok(
                        match chunk_entry(kind, b.subrange(q, q + length)) {
                            Some(e) => seq![e] + r,
                            None => r,
                        },
                    ),
                    Err(_) => Err(()),
                }
            }
        } else {
            png_scan(b, q + length + 4)
        }
    }
}

/// The metadata entries of a PNG file's bytes: none when the signature is
/// missing, else those of its chunks.
pub open spec fn png_entries(b: Seq<u8>) -> Result<Seq<(Seq<char>, Seq<char>)>, ()> {
    if b.len() < 8 || b.take(8) != png_magic() {
        Ok(Seq::empty())
    } else {
        png_scan(b, 8)
    }
}


/// A chunk over `MAX_METADATA_CHUNK_SIZE` bytes is passed over unread,
/// whatever its type: it yields no entry and no error.
pub proof fn lemma_oversized_chunk_skipped(b: Seq<u8>, p: int)
    requires
        0 <= p,
        p + 8 <= b.len(),
        be_u32(b, p) > MAX_METADATA_CHUNK_SIZE,
    ensures
        png_scan(b, p) == png_scan(b, p + 12 + be_u32(b, p)),
{
}

/// Why the metadata of a PNG file could not be read.
#[derive(Debug, Clone, Copy, PartialEq, Eq)]
pub enum PngError {
    /// A text chunk announces more data than the file holds.
    TruncatedChunk,
}

/// The position of the first NUL byte at or after `from`.
fn find_zero(d: &[u8], from: usize) -> (r: Option<usize>)
    requires
        from <= d@.len(),
    ensures
        r matches Some(k) ==> find_from(d@, seq![0u8], from as int) == Some(k as int),
        r is None ==> find_from(d@, seq![0u8], from as int) is None,
{
    let n = d.len();
    let mut i = from;
    while i < n
        invariant
            from <= i <= n == d@.len(),
            find_from(d@, seq![0u8], from as int) == find_from(d@, seq![0u8], i as int),
        decreases n - i,
    {
        assert(d@.subrange(i as int, i + 1)[0] == d@[i as int]);
        if d[i] == 0 {
            assert(d@.subrange(i as int, i + 1) =~= seq![0u8]);
            return Some(i);
        }
        i += 1;
    }
    None
}

/// The bytes of `d` from `from` on.
fn tail(d: &[u8], from: usize) -> (r: Vec<u8>)
    requires
        from <= d@.len(),
    ensures
        r@ == d@.skip(from as int),
{
    let r = crate::text::copy_byte_range(d, from, d.len());
    assert(r@ =~= d@.skip(from as int));
    r
}

fn same_tag(b: &[u8], p: usize, tag: [u8; 4]) -> (r: bool)
    requires
        p + 4 <= b@.len(),
    ensures
        r == (b@.subrange(p as int, p + 4) == tag@),
{
    let r = b[p] == tag[0] && b[p + 1] == tag[1] && b[p + 2] == tag[2] && b[p + 3] == tag[3];
    if r {
        assert(b@.subrange(p as int, p + 4) =~= tag@);
    } else {
        assert(exists|k: int| 0 <= k < 4 && b@.subrange(p as int, p + 4)[k] != tag@[k]);
    }
    r
}

/// Reads the entry that the data of a text chunk holds.
fn read_chunk_entry(kind_is_text: bool, kind_is_ztxt: bool, kind: Ghost<Seq<u8>>, data: &[u8]) -> (r: Option<MetadataEntry>)
    requires
        is_text_chunk(kind@),
        kind_is_text == (kind@ == text_tag()),
        kind_is_ztxt == (kind@ == ztxt_tag()),
    ensures
        r matches Some(e) ==> chunk_entry(kind@, data@) == Some((e.key@, e.value@)),
        r is None ==> chunk_entry(kind@, data@) is None,
{
    let n = data.len();
    let pos = match find_zero(data, 0) {
        None => {
            return None;
        },
        Some(p) => p,
    };
    proof {
        lemma_find_from(data@, seq![0u8], 0);
    }
    let head = crate::text::copy_byte_range(data, 0, pos);
    assert(head@ =~= data@.take(pos as int));
    let key = string_from_utf8_lossy(&head);
    if kind_is_text {
        let v = tail(data, pos + 1);
        let value = string_from_utf8_lossy(&v);
        Some(MetadataEntry { key, value })
    } else if kind_is_ztxt {
        if n - pos >= 2 {
            let z = tail(data, pos + 2);
            match decompress_zlib(&z) {
                Some(value) => Some(MetadataEntry { key, value }),
                None => None,
            }
        } else {
            None
        }
    } else {
        let rest = tail(data, pos + 1);
        if rest.len() >= 2 {
            let flag = rest[0];
            let sl = tail(&rest, 2);
            let p1 = match find_zero(&sl, 0) {
                None => {
                    return None;
                },
                Some(p1) => p1,
            };
            proof {
                lemma_find_from(sl@, seq![0u8], 0);
            }
            let sl2 = tail(&sl, p1 + 1);
            let p2 = match find_zero(&sl2, 0) {
                None => {
                    return None;
                },
                Some(p2) => p2,
            };
            proof {
                lemma_find_from(sl2@, seq![0u8], 0);
            }
            let payload = tail(&sl2, p2 + 1);
            if flag == 1 {
                match decompress_zlib(&payload) {
                    Some(value) => Some(MetadataEntry { key, value }),
                    None => None,
                }
            } else {
                let value = string_from_utf8_lossy(&payload);
                Some(MetadataEntry { key, value })
            }
        } else {
            None
        }
    }
}

/// Reads the text metadata of a PNG file from its bytes.
///
/// A file without the PNG signature has no metadata. Chunks are read in
/// order up to `IEND` (or until no full chunk header is left); `tEXt`,
/// `zTXt` and `iTXt` chunks give entries, chunks over
/// `MAX_METADATA_CHUNK_SIZE` bytes and all other chunks are skipped. A text
/// chunk whose data runs past the end of the file is an error.
pub fn extract_png_metadata(data: &[u8]) -> (r: Result<Vec<MetadataEntry>, PngError>)
    ensures
        r matches Ok(v) ==> png_entries(data@) == Ok::<_, ()>(entries_view(v@)),
        r is Err ==> png_entries(data@) is Err,
{
    let n = data.len();
    let mut entries: Vec<MetadataEntry> = Vec::new();
    assert(entries_view(entries@) =~= Seq::<(Seq<char>, Seq<char>)>::empty());
    if n < 8 {
        return Ok(entries);
    }
    let mut k: usize = 0;
    while k < 8
        invariant
            k <= 8 <= n == data@.len(),
            data@.take(k as int) == png_magic().take(k as int),
            entries_view(entries@) == Seq::<(Seq<char>, Seq<char>)>::empty(),
        decreases 8 - k,
    {
        if data[k] != PNG_MAGIC[k] {
            assert(data@.take(8)[k as int] != png_magic()[k as int]);
            return Ok(entries);
        }
        assert(data@.take(k + 1) =~= data@.take(k as int).push(data@[k as int]));
        assert(png_magic().take(k + 1) =~= png_magic().take(k as int).push(png_magic()[k as int]));
        k += 1;
    }
    assert(png_magic().take(8) =~= png_magic());
    assert(data@.take(8) == png_magic());
    assert(png_entries(data@) == png_scan(data@, 8));
    proof {
        match png_scan(data@, 8) {
            Ok(r) => {
                assert(entries_view(entries@) + r =~= r);
                assert(png_entries(data@) == Ok::<_, ()>(entries_view(entries@) + r));
            },
            Err(e) => {
                assert(e == ());
                assert(png_entries(data@) == Err::<Seq<(Seq<char>, Seq<char>)>, ()>(()));
            },
        }
        assert(png_entries(data@) == match png_scan(data@, 8) {
            Ok(r) => Ok::<_, ()>(entries_view(entries@) + r),
            Err(_) => Err(()),
        });
    }
    let iend: [u8; 4] = [73, 69, 78, 68];
    let text: [u8; 4] = [116, 69, 88, 116];
    let ztxt: [u8; 4] = [122, 84, 88, 116];
    let itxt: [u8; 4] = [105, 84, 88, 116];
    assert(iend@ =~= iend_tag());
    assert(text@ =~= text_tag());
    assert(ztxt@ =~= ztxt_tag());
    assert(itxt@ =~= itxt_tag());
    let mut p: usize = 8;
    loop
        invariant
            8 <= p <= n == data@.len(),
            iend@ == iend_tag(),
            text@ == text_tag(),
            ztxt@ == ztxt_tag(),
            itxt@ == itxt_tag(),
            png_entries(data@) == match png_scan(data@, p as int) {
                Ok(r) => Ok::<_, ()>(entries_view(entries@) + r),
                Err(_) => Err(()),
            },
        decreases n - p,
    {
        let ghost acc = entries_view(entries@);
        if n - p < 8 {
            assert(acc + Seq::<(Seq<char>, Seq<char>)>::empty() =~= acc);
            return Ok(entries);
        }
        let length: u64 = (data[p] as u64) * 16777216 + (data[p + 1] as u64) * 65536 + (data[p
            + 2] as u64) * 256 + (data[p + 3] as u64);
        assert(length == be_u32(data@, p as int));
        let q = p + 8;
        let is_iend = same_tag(data, p + 4, iend);
        let is_text = same_tag(data, p + 4, text);
        let is_ztxt = same_tag(data, p + 4, ztxt);
        let is_itxt = same_tag(data, p + 4, itxt);
        let ghost kind = data@.subrange(p + 4, p + 8);
        let rem = (n - q) as u64;
        if length > MAX_METADATA_CHUNK_SIZE || !(is_iend || is_text || is_ztxt || is_itxt) {
            if length + 4 > rem {
                assert(png_scan(data@, q + length + 4) == Ok::<_, ()>(Seq::<(Seq<char>, Seq<char>)>::empty()));
                assert(acc + Seq::<(Seq<char>, Seq<char>)>::empty() =~= acc);
                return Ok(entries);
            }
            p = q + (length as usize) + 4;
        } else if is_iend {
            assert(acc + Seq::<(Seq<char>, Seq<char>)>::empty() =~= acc);
            return Ok(entries);
        } else {
            if length > rem {
                return Err(PngError::TruncatedChunk);
            }
            let len = length as usize;
            let chunk = crate::text::copy_byte_range(data, q, q + len);
            let found = read_chunk_entry(is_text, is_ztxt, Ghost(kind), &chunk);
            let ghost item = chunk_entry(kind, chunk@);
            match found {
                Some(e) => {
                    entries.push(e);
                    proof {
                        assert(entries_view(entries@) =~= acc.push(item.unwrap()));
                        match png_scan(data@, q + length + 4) {
                            Ok(r) => {
                                assert(acc + (seq![item.unwrap()] + r) =~= acc.push(item.unwrap()) + r);
                            },
                            Err(_) => {},
                        }
                    }
                },
                None => {},
            }
            if length + 4 > rem {
                assert(png_scan(data@, q + length + 4) == Ok::<_, ()>(Seq::<(Seq<char>, Seq<char>)>::empty()));
                assert(entries_view(entries@) + Seq::<(Seq<char>, Seq<char>)>::empty() =~= entries_view(entries@));
                return Ok(entries);
            }
            p = q + len + 4;
        }
    }
}

// ---------------------------------------------------------------------------
// Reading chunk by chunk
// ---------------------------------------------------------------------------

/// What a reader does with a chunk, from its header alone.
#[derive(Debug, Clone, Copy, PartialEq, Eq)]
pub enum ChunkStep {
    /// Read the chunk's data and its entry.
    Read,
    /// Skip its data and CRC unread.
    Skip,
    /// Stop: the chunk ends the image.
    Stop,
}

/// The step for a chunk of the given length and type, as the chunk walk
/// takes it: oversized chunks are skipped whatever their type; `IEND`
/// stops; text chunks are read; all others are skipped.
pub open spec fn chunk_step(length: nat, kind: Seq<u8>) -> ChunkStep {
    if length > MAX_METADATA_CHUNK_SIZE {
        ChunkStep::Skip
    } else if kind == iend_tag() {
        ChunkStep::Stop
    } else if is_text_chunk(kind) {
        ChunkStep::Read
    } else {
        ChunkStep::Skip
    }
}

/// Decides, from a chunk's eight header bytes (big-endian length, then
/// type), whether a reader reads the chunk's data, skips it unread, or
/// stops, so that a file can be read chunk by chunk without loading what
/// is skipped.
pub fn png_chunk_step(header: &[u8]) -> (r: ChunkStep)
    requires
        header@.len() >= 8,
    ensures
        r == chunk_step(be_u32(header@, 0), header@.subrange(4, 8)),
{
    let length: u64 = (header[0] as u64) * 16777216 + (header[1] as u64) * 65536 + (header[2]
        as u64) * 256 + (header[3] as u64);
    if length > MAX_METADATA_CHUNK_SIZE {
        return ChunkStep::Skip;
    }
    let iend: [u8; 4] = [73, 69, 78, 68];
    let text: [u8; 4] = [116, 69, 88, 116];
    let ztxt: [u8; 4] = [122, 84, 88, 116];
    let itxt: [u8; 4] = [105, 84, 88, 116];
    assert(iend@ =~= iend_tag());
    assert(text@ =~= text_tag());
    assert(ztxt@ =~= ztxt_tag());
    assert(itxt@ =~= itxt_tag());
    if same_tag(header, 4, iend) {
        ChunkStep::Stop
    } else if same_tag(header, 4, text) || same_tag(header, 4, ztxt) || same_tag(header, 4, itxt) {
        ChunkStep::Read
    } else {
        ChunkStep::Skip
    }
}

/// The entry that the data of a text chunk of the given type holds (see
/// `chunk_entry`); `None` for malformed data or text that does not
/// decompress.
pub fn png_chunk_entry(kind: &[u8], data: &[u8]) -> (r: Option<MetadataEntry>)
    requires
        kind@.len() == 4,
        is_text_chunk(kind@),
    ensures
        r matches Some(e) ==> chunk_entry(kind@, data@) == Some((e.key@, e.value@)),
        r is None ==> chunk_entry(kind@, data@) is None,
{
    let text: [u8; 4] = [116, 69, 88, 116];
    let ztxt: [u8; 4] = [122, 84, 88, 116];
    assert(text@ =~= text_tag());
    assert(ztxt@ =~= ztxt_tag());
    assert(kind@.subrange(0, 4) =~= kind@);
    let is_text = same_tag(kind, 0, text);
    let is_ztxt = same_tag(kind, 0, ztxt);
    read_chunk_entry(is_text, is_ztxt, Ghost(kind@), data)
}

/// Reading a file chunk by chunk, as `png_chunk_step` directs, gives what
/// the chunk walk gives: a skipped chunk contributes nothing and the walk
/// goes on after its CRC, `IEND` ends it, and a read chunk contributes its
/// entry (if any) before the rest, unless its data runs past the end.
pub proof fn lemma_scan_by_steps(b: Seq<u8>, p: int)
    requires
        0 <= p,
        p + 8 <= b.len(),
    ensures
        ({
            let length = be_u32(b, p);
            let kind = b.subrange(p + 4, p + 8);
            let next = p + 8 + length + 4;
            match chunk_step(length, kind) {
                ChunkStep::Skip => png_scan(b, p) == png_scan(b, next),
                ChunkStep::Stop => png_scan(b, p) == Ok::<_, ()>(Seq::<(Seq<char>, Seq<char>)>::empty()),
                ChunkStep::Read => png_scan(b, p) == if p + 8 + length > b.len() {
                    Err(())
                } else {
                    match png_scan(b, next) {
                        Ok(r) => Ok(
                            match chunk_entry(kind, b.subrange(p + 8, p + 8 + length)) {
                                Some(e) => seq![e] + r,
                                None => r,
                            },
                        ),
                        Err(_) => Err(()),
                    }
                },
            }
        }),
{
}

/// A `zTXt` chunk (keyword, NUL, compression method, zlib stream) reads as
/// its keyword and the text its stream inflates to, for every stream whose
/// output is UTF-8 text of at most 32 MiB.
pub proof fn lemma_ztxt_reads_inflated_text(key: Seq<u8>, method: u8, stream: Seq<u8>, text: Seq<u8>)
    requires
        forall|k: int| 0 <= k < key.len() ==> key[k] != 0u8,
        stream.len() > 0,
        zlib_inflate(stream, 33554432) == Some(text),
        valid_utf8(text),
    ensures
        chunk_entry(ztxt_tag(), key + seq![0u8, method] + stream) == Some((lossy_text(key), decode_utf8(text))),
{
    let d = key + seq![0u8, method] + stream;
    let n = key.len() as int;
    assert(d.subrange(n, n + 1) =~= seq![0u8]);
    assert forall|k: int| 0 <= k < n implies !#[trigger] matches_at(d, seq![0u8], k) by {
        if matches_at(d, seq![0u8], k) {
            assert(d.subrange(k, k + 1)[0] == d[k]);
        }
    }
    lemma_find_first(d, seq![0u8], 0, n);
    assert(d.take(n) =~= key);
    assert(d.skip(n + 2) =~= stream);
}

} // verus!
