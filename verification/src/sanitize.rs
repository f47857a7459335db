//! Stripping embedded metadata from figures: PNG chunk filtering with a
//! provenance marker, SVG `<metadata>` replacement, in-place PDF Info
//! dictionary overwriting, and the naming of sanitized copies.
use vstd::prelude::*;
use crate::model::MetadataEntry;
use crate::paths::{
    ext_dot, file_name_of, file_stem_and_extension, is_normal_component, lemma_file_name_plain,
    opt_text, path_components, path_extension, path_stem, path_with_file_name, with_file_name,
};
use crate::png::{
    be_u32, chunk_entry, iend_tag, is_text_chunk, itxt_tag, png_entries, png_magic, png_scan,
    text_tag, ztxt_tag, MAX_METADATA_CHUNK_SIZE, PNG_MAGIC,
};
use crate::svg::{
    capitalized, element_entries, json_members, json_object, leaf_entries, lemma_end_tag_skipped,
    lemma_no_cdata, lemma_open_tag_read, lemma_scan_plain, lemma_tag_name, lemma_unescape_plain,
    local_name, metadata_area, prefixed, skip_sep, svg_metadata, svg_scan, xml_unescaped,
};
use crate::text::{
    append_bytes, append_chars, ascii_lower_seq, chars_equal, chars_of, copy_byte_range,
    copy_range, ends_with, ends_with_chars, eq_ignore_ascii_case, eq_ignore_case, find_chars,
    contains, find_from, lemma_find_by_head, lemma_find_char, lemma_find_first, lemma_find_from,
    lemma_find_no_char, lemma_lacks_head, lemma_rfind_at, lemma_rfind_last, lossy_text,
    matches_at, rfind, rfind_chars, string_from_utf8, string_of, to_ascii_lowercase, trim, ws_end,
    ws_start,
};
use vstd::utf8::{
    decode_utf8, encode_utf8, encode_utf8_decode_utf8, encode_utf8_valid_utf8, is_ascii_chars,
    is_ascii_chars_encode_utf8, valid_utf8,
};

verus! {

// ---------------------------------------------------------------------------
// CRC-32
// ---------------------------------------------------------------------------

/// The reflected IEEE 802.3 polynomial.
pub open spec fn crc_poly() -> u32 {
    0xEDB8_8320
}

/// One bit step of the reflected CRC-32 register.
pub open spec fn crc_step(c: u32) -> u32 {
    if c & 1 != 0 {
        (c >> 1) ^ crc_poly()
    } else {
        c >> 1
    }
}

/// `k` bit steps of the register.
pub open spec fn crc_steps(c: u32, k: nat) -> u32
    decreases k,
{
    if k == 0 {
        c
    } else {
        crc_steps(crc_step(c), (k - 1) as nat)
    }
}

/// The register after feeding `data` into it.
pub open spec fn crc_update(c: u32, data: Seq<u8>) -> u32
    decreases data.len(),
{
    if data.len() == 0 {
        c
    } else {
        crc_steps(crc_update(c, data.drop_last()) ^ (data.last() as u32), 8)
    }
}

/// The IEEE 802.3 CRC-32 of `data` (initial register all ones, final
/// complement), as PNG chunks carry it.
pub open spec fn crc32_of(data: Seq<u8>) -> u32 {
    !crc_update(0xFFFF_FFFF, data)
}

/// The IEEE 802.3 CRC-32 of the bytes, as PNG chunks carry it.
pub fn crc32(data: &[u8]) -> (r: u32)
    ensures
        r == crc32_of(data@),
{
    let mut crc: u32 = 0xFFFF_FFFF;
    let mut i: usize = 0;
    while i < data.len()
        invariant
            i <= data@.len(),
            crc == crc_update(0xFFFF_FFFF, data@.take(i as int)),
        decreases data.len() - i,
    {
        let ghost start = crc ^ (data@[i as int] as u32);
        crc = crc ^ (data[i] as u32);
        let mut k: usize = 0;
        while k < 8
            invariant
                k <= 8,
                crc_steps(start, 8) == crc_steps(crc, (8 - k) as nat),
            decreases 8 - k,
        {
            if crc & 1 != 0 {
                crc = (crc >> 1) ^ 0xEDB8_8320;
            } else {
                crc = crc >> 1;
            }
            k += 1;
        }
        assert(data@.take(i + 1).drop_last() =~= data@.take(i as int));
        i += 1;
    }
    assert(data@.take(i as int) =~= data@);
    !crc
}

// ---------------------------------------------------------------------------
// Provenance and naming
// ---------------------------------------------------------------------------

/// Whether a key names the sanitizer's provenance stamp.
pub open spec fn is_marker_key(k: Seq<char>) -> bool {
    ||| eq_ignore_case(k, "SanitizedBy"@)
    ||| eq_ignore_case(k, "Keywords/sanitized_by"@)
    ||| eq_ignore_case(k, "Description/sanitized_by"@)
    ||| ends_with(k, "/sanitized_by"@)
}

/// Whether an entry is the sanitizer's provenance stamp.
pub open spec fn is_marker_entry(k: Seq<char>, v: Seq<char>) -> bool {
    is_marker_key(k) && eq_ignore_case(v, "pnggrep"@)
}

/// Whether a figure's metadata carries the stamp that the sanitizer leaves:
/// a `SanitizedBy` (or `.../sanitized_by`) entry whose value is `pnggrep`,
/// ignoring ASCII case.
pub fn is_sanitized_file(entries: &[MetadataEntry]) -> (r: bool)
    ensures
        r == exists|i: int|
            0 <= i < entries@.len() && is_marker_entry(
                #[trigger] entries@[i].key@,
                entries@[i].value@,
            ),
{
    let k1 = chars_of("SanitizedBy");
    let k2 = chars_of("Keywords/sanitized_by");
    let k3 = chars_of("Description/sanitized_by");
    let k4 = chars_of("/sanitized_by");
    let tool = chars_of("pnggrep");
    let mut i: usize = 0;
    while i < entries.len()
        invariant
            i <= entries@.len(),
            k1@ == "SanitizedBy"@,
            k2@ == "Keywords/sanitized_by"@,
            k3@ == "Description/sanitized_by"@,
            k4@ == "/sanitized_by"@,
            tool@ == "pnggrep"@,
            forall|j: int|
                0 <= j < i ==> !is_marker_entry(#[trigger] entries@[j].key@, entries@[j].value@),
        decreases entries.len() - i,
    {
        let k = chars_of(entries[i].key.as_str());
        let v = chars_of(entries[i].value.as_str());
        if (eq_ignore_ascii_case(&k, &k1) || eq_ignore_ascii_case(&k, &k2) || eq_ignore_ascii_case(
            &k,
            &k3,
        ) || ends_with_chars(&k, &k4)) && eq_ignore_ascii_case(&v, &tool) {
            return true;
        }
        i += 1;
    }
    false
}

/// Whether a list of entries holds the sanitizer's stamp.
pub open spec fn carries_stamp(entries: Seq<MetadataEntry>) -> bool {
    exists|i: int| 0 <= i < entries.len() && is_marker_entry(#[trigger] entries[i].key@, entries[i].value@)
}

/// What may be done with the file a sanitized copy is to be written to.
#[derive(Clone, Copy, Debug, PartialEq, Eq)]
pub enum TargetAction {
    /// Nothing is there yet: write it.
    Create,
    /// A copy sanitized earlier is there: overwrite it.
    Overwrite,
    /// Something else is there: leave it alone.
    Refuse,
}

/// Decides what to do with the target of a sanitized copy: create it when it
/// does not exist; overwrite it only when its metadata could be read and
/// carries the sanitizer's stamp; refuse otherwise, so that no file the
/// sanitizer did not write is ever overwritten.
pub fn target_action(target_exists: bool, target_entries: Option<&[MetadataEntry]>) -> (r: TargetAction)
    ensures
        !target_exists ==> r == TargetAction::Create,
        target_exists ==> (r == TargetAction::Overwrite <==> (target_entries matches Some(es)
            && carries_stamp(es@))),
        target_exists ==> (r == TargetAction::Refuse <==> !(target_entries matches Some(es)
            && carries_stamp(es@))),
{
    if !target_exists {
        return TargetAction::Create;
    }
    match target_entries {
        Some(es) => if is_sanitized_file(es) {
            TargetAction::Overwrite
        } else {
            TargetAction::Refuse
        },
        None => TargetAction::Refuse,
    }
}

/// The file name of the sanitized copy of a file with the given stem and
/// extension: `<stem>_sanitized.<ext>`, or none for a stem that already ends
/// in `_sanitized`.
pub open spec fn sanitized_name(stem: Seq<char>, ext: Seq<char>) -> Option<Seq<char>> {
    if ends_with(stem, "_sanitized"@) {
        None
    } else {
        Some(stem + "_sanitized."@ + ext)
    }
}

/// The sanitized file name `<stem>_sanitized.<ext>`.
fn sanitized_file_name(file_stem: &str, ext: &str) -> (r: String)
    ensures
        r@ == file_stem@ + "_sanitized."@ + ext@,
{
    let mut name = chars_of(file_stem);
    let mid = chars_of("_sanitized.");
    append_chars(&mut name, &mid);
    let e = chars_of(ext);
    append_chars(&mut name, &e);
    string_of(&name)
}

/// The path of the sanitized copy of a file: the file name replaced by
/// `<stem>_sanitized.<ext>` (`Path::with_file_name`), or none for a file
/// without a stem or an extension, or whose stem already ends in `_sanitized`.
pub open spec fn sanitized_path(p: Seq<char>) -> Option<Seq<char>> {
    match (path_stem(p), path_extension(p)) {
        (Some(stem), Some(ext)) => match sanitized_name(stem, ext) {
            Some(n) => Some(path_with_file_name(p, n)),
            None => None,
        },
        _ => None,
    }
}

/// The renamed path's file name splits into the new stem and the old
/// extension, and the renamed path is no longer sanitized again.
proof fn lemma_renamed_path(p: Seq<char>, t: Seq<char>, stem: Seq<char>, ext: Seq<char>)
    requires
        path_stem(p) == Some(stem),
        path_extension(p) == Some(ext),
        !ends_with(stem, "_sanitized"@),
        path_components(t) == path_components(p).drop_last().push(stem + "_sanitized."@ + ext),
    ensures
        path_stem(t) == Some(stem + "_sanitized"@),
        path_extension(t) == Some(ext),
        sanitized_path(t) is None,
        t != p,
{
    reveal_strlit("_sanitized.");
    reveal_strlit("_sanitized");
    let n = file_name_of(p)->Some_0;
    let i = ext_dot(n)->Some_0;
    lemma_rfind_at(n, seq!['.'], n.len() - 1);
    assert(n.subrange(i, i + 1)[0] == n[i]);
    let name = stem + "_sanitized."@ + ext;
    let d: int = stem.len() as int + 10;
    assert(name.len() == n.len() + 10);
    assert(name[d] == '.');
    assert(name.subrange(d, d + 1) =~= seq!['.']);
    assert forall|k: int| d < k <= name.len() - 1 implies !#[trigger] matches_at(name, seq!['.'], k) by {
        assert(name[k] == n[k - 10]);
        if matches_at(name, seq!['.'], k) {
            assert(name.subrange(k, k + 1)[0] == name[k]);
            assert(n.subrange(k - 10, k - 9) =~= seq!['.']);
            assert(matches_at(n, seq!['.'], k - 10));
        }
    }
    lemma_rfind_last(name, seq!['.'], name.len() - 1, d);
    let c = path_components(t);
    assert(c.last() == name);
    assert(is_normal_component(name)) by {
        if name == seq!['/'] || name == seq!['.'] || name == seq!['.', '.'] {
            assert(name.len() <= 2);
        }
    }
    assert(file_name_of(t) == Some(name));
    assert(name.take(d) =~= stem + "_sanitized"@);
    assert(name.skip(d + 1) =~= ext);
    let s2 = stem + "_sanitized"@;
    assert(s2.skip(s2.len() - 10) =~= "_sanitized"@);
    if t == p {
        assert(path_components(p).last() == name);
    }
}

/// Names the sanitized copy of a file: the path with its file name replaced
/// by `<stem>_sanitized.<ext>`; `None` for a file without a stem or an
/// extension, and for a file that is itself a sanitized copy, so that copies
/// do not compound. The copy lies in the same directory, keeps the
/// extension, and would not be renamed again.
pub fn compute_sanitized_path(path: &str) -> (r: Option<String>)
    ensures
        opt_text(r) == sanitized_path(path@),
        r matches Some(t) ==> {
            &&& path_components(t@).drop_last() == path_components(path@).drop_last()
            &&& path_stem(t@) == Some(path_stem(path@)->Some_0 + "_sanitized"@)
            &&& path_extension(t@) == path_extension(path@)
            &&& sanitized_path(t@) is None
            &&& t@ != path@
        },
{
    let (stem, ext) = file_stem_and_extension(path);
    let (stem, ext) = match (stem, ext) {
        (Some(s), Some(e)) => (s, e),
        _ => return None,
    };
    let sc = chars_of(stem.as_str());
    let suffix = chars_of("_sanitized");
    if ends_with_chars(&sc, &suffix) {
        return None;
    }
    let name = sanitized_file_name(stem.as_str(), ext.as_str());
    proof {
        lemma_file_name_plain(path@);
        let n = file_name_of(path@)->Some_0;
        let i = ext_dot(n)->Some_0;
        lemma_rfind_at(n, seq!['.'], n.len() - 1);
        assert(n.subrange(i, i + 1)[0] == n[i]);
        reveal_strlit("_sanitized.");
        assert(name@.len() > 1);
        assert(!contains(name@, seq!['/'])) by {
            assert forall|k: int| !#[trigger] matches_at(name@, seq!['/'], k) by {
                if matches_at(name@, seq!['/'], k) {
                    assert(name@.subrange(k, k + 1)[0] == name@[k]);
                    if k < stem@.len() {
                        assert(n[k] == '/');
                        assert(n.subrange(k, k + 1) =~= seq!['/']);
                        assert(matches_at(n, seq!['/'], k));
                    } else if k >= stem@.len() + 11 {
                        assert(n[k - 10] == '/');
                        assert(n.subrange(k - 10, k - 9) =~= seq!['/']);
                        assert(matches_at(n, seq!['/'], k - 10));
                    }
                }
            }
        }
        assert(name@ != seq!['.', '.']) by {
            if name@ == seq!['.', '.'] {
                assert(name@.len() >= 11);
            }
        }
    }
    let t = with_file_name(path, name.as_str());
    proof {
        lemma_renamed_path(path@, t@, stem@, ext@);
    }
    Some(t)
}

// ---------------------------------------------------------------------------
// PNG
// ---------------------------------------------------------------------------

/// The data of the stamp chunk: `SanitizedBy`, NUL, `pnggrep`.
pub open spec fn marker_data() -> Seq<u8> {
    seq![83u8, 97, 110, 105, 116, 105, 122, 101, 100, 66, 121, 0, 112, 110, 103, 103, 114, 101, 112]
}

/// The four big-endian bytes of a 32-bit number.
pub open spec fn be_bytes(x: u32) -> Seq<u8> {
    seq![(x >> 24) as u8, ((x >> 16) & 0xff) as u8, ((x >> 8) & 0xff) as u8, (x & 0xff) as u8]
}

/// The complete stamp chunk: length, `tEXt`, the stamp and its CRC.
pub open spec fn marker_chunk() -> Seq<u8> {
    be_bytes(19) + text_tag() + marker_data() + be_bytes(crc32_of(text_tag() + marker_data()))
}

/// The sanitized rest of a PNG chunk stream from position `c`: text chunks
/// dropped, other chunks copied, and the stamp chunk placed before `IEND`,
/// after which nothing is read; `Err` for a chunk that runs past the end.
/// Fewer than eight trailing bytes are dropped.
pub open spec fn sanitize_from(inp: Seq<u8>, c: int) -> Result<Seq<u8>, ()>
    decreases inp.len() - c,
{
    if c < 0 || c + 8 > inp.len() {
        Ok(Seq::empty())
    } else {
        let total = 12 + be_u32(inp, c);
        if c + total > inp.len() {
            Err(())
        } else {
            let kind = inp.subrange(c + 4, c + 8);
            let chunk = inp.subrange(c, c + total);
            if kind == iend_tag() {
                Ok(marker_chunk() + chunk)
            } else if is_text_chunk(kind) {
                sanitize_from(inp, c + total)
            } else {
                match sanitize_from(inp, c + total) {
                    Ok(r) => Ok(chunk + r),
                    Err(_) => Err(()),
                }
            }
        }
    }
}

/// What `sanitize_png` makes of a file's bytes.
pub open spec fn png_sanitized(inp: Seq<u8>) -> Result<Seq<u8>, Seq<char>> {
    if inp.len() < 8 || inp.take(8) != png_magic() {
        Err("Not a valid PNG file"@)
    } else {
        match sanitize_from(inp, 8) {
            Ok(r) => Ok(png_magic() + r),
            Err(_) => Err("Corrupt PNG chunk structure"@),
        }
    }
}

fn marker_chunk_exec() -> (r: Vec<u8>)
    ensures
        r@ == marker_chunk(),
{
    let data: Vec<u8> = vec![83u8, 97, 110, 105, 116, 105, 122, 101, 100, 66, 121, 0, 112, 110, 103, 103, 114, 101, 112];
    assert(data@ =~= marker_data());
    let len: u32 = 19;
    let mut out: Vec<u8> = vec![(len >> 24) as u8, ((len >> 16) & 0xff) as u8, ((len >> 8) & 0xff) as u8, (len & 0xff) as u8];
    assert(out@ =~= be_bytes(19));
    let tag: Vec<u8> = vec![116u8, 69, 88, 116];
    assert(tag@ =~= text_tag());
    append_bytes(&mut out, &tag);
    append_bytes(&mut out, &data);
    let mut payload: Vec<u8> = Vec::new();
    append_bytes(&mut payload, &tag);
    append_bytes(&mut payload, &data);
    let crc = crc32(&payload);
    let tail: Vec<u8> = vec![(crc >> 24) as u8, ((crc >> 16) & 0xff) as u8, ((crc >> 8) & 0xff) as u8, (crc & 0xff) as u8];
    assert(tail@ =~= be_bytes(crc));
    append_bytes(&mut out, &tail);
    assert(out@ =~= marker_chunk());
    out
}

fn is_tag(b: &[u8], p: usize, tag: [u8; 4]) -> (r: bool)
    requires
        p + 4 <= b@.len(),
    ensures
        r == (b@.subrange(p as int, p + 4) == tag@),
{
    let r = b[p] == tag[0] && b[p + 1] == tag[1] && b[p + 2] == tag[2] && b[p + 3] == tag[3];
    if r {
        assert(b@.subrange(p as int, p + 4) =~= tag@);
    } else {
        assert(exists|k: int| 0 <= k < 4 && b@.subrange(p as int, p + 4)[k] != tag@[k]);
    }
    r
}

/// Strips the text chunks (`tEXt`, `zTXt`, `iTXt`) from a PNG file and
/// stamps it with a `SanitizedBy`/`pnggrep` text chunk just before `IEND`.
///
/// Every other chunk is copied unchanged; nothing after `IEND` is kept. A file
/// without the PNG signature, or with a chunk that runs past the end, is
/// refused.
pub fn sanitize_png(input: &[u8]) -> (r: Result<Vec<u8>, String>)
    ensures
        match r {
            Ok(v) => png_sanitized(input@) == Ok::<_, Seq<char>>(v@),
            Err(m) => png_sanitized(input@) == Err::<Seq<u8>, _>(m@),
        },
{
    let n = input.len();
    if n < 8 {
        return Err("Not a valid PNG file".to_owned());
    }
    let mut k: usize = 0;
    while k < 8
        invariant
            k <= 8 <= n == input@.len(),
            input@.take(k as int) == png_magic().take(k as int),
        decreases 8 - k,
    {
        if input[k] != PNG_MAGIC[k] {
            assert(input@.take(8)[k as int] != png_magic()[k as int]);
            return Err("Not a valid PNG file".to_owned());
        }
        assert(input@.take(k + 1) =~= input@.take(k as int).push(input@[k as int]));
        assert(png_magic().take(k + 1) =~= png_magic().take(k as int).push(png_magic()[k as int]));
        k += 1;
    }
    assert(png_magic().take(8) =~= png_magic());
    assert(input@.take(8) == png_magic());
    let iend: [u8; 4] = [73, 69, 78, 68];
    let text: [u8; 4] = [116, 69, 88, 116];
    let ztxt: [u8; 4] = [122, 84, 88, 116];
    let itxt: [u8; 4] = [105, 84, 88, 116];
    assert(iend@ =~= iend_tag());
    assert(text@ =~= text_tag());
    assert(ztxt@ =~= ztxt_tag());
    assert(itxt@ =~= itxt_tag());
    let mut out: Vec<u8> = Vec::new();
    append_bytes(&mut out, &PNG_MAGIC);
    assert(out@ =~= png_magic());
    let mut cursor: usize = 8;
    loop
        invariant
            8 <= cursor <= n == input@.len(),
            input@.take(8) == png_magic(),
            iend@ == iend_tag(),
            text@ == text_tag(),
            ztxt@ == ztxt_tag(),
            itxt@ == itxt_tag(),
            match sanitize_from(input@, 8) {
                Ok(whole) => sanitize_from(input@, cursor as int) matches Ok(rest) && png_magic()
                    + whole == out@ + rest,
                Err(_) => sanitize_from(input@, cursor as int) is Err,
            },
        decreases n - cursor,
    {
        if n - cursor < 8 {
            assert(out@ + Seq::<u8>::empty() =~= out@);
            return Ok(out);
        }
        let length: u64 = (input[cursor] as u64) * 16777216 + (input[cursor + 1] as u64) * 65536
            + (input[cursor + 2] as u64) * 256 + (input[cursor + 3] as u64);
        assert(length == be_u32(input@, cursor as int));
        if 12 + length > (n - cursor) as u64 {
            return Err("Corrupt PNG chunk structure".to_owned());
        }
        let total = 12 + length as usize;
        let is_iend = is_tag(input, cursor + 4, iend);
        let is_meta = is_tag(input, cursor + 4, text) || is_tag(input, cursor + 4, ztxt) || is_tag(
            input,
            cursor + 4,
            itxt,
        );
        let ghost before = out@;
        if is_iend {
            let marker = marker_chunk_exec();
            append_bytes(&mut out, &marker);
            let chunk = copy_byte_range(input, cursor, cursor + total);
            append_bytes(&mut out, &chunk);
            assert(before + (marker_chunk() + chunk@) =~= out@);
            return Ok(out);
        } else if !is_meta {
            let chunk = copy_byte_range(input, cursor, cursor + total);
            append_bytes(&mut out, &chunk);
            proof {
                match sanitize_from(input@, cursor + total) {
                    Ok(rest) => {
                        assert(before + (chunk@ + rest) =~= out@ + rest);
                    },
                    Err(_) => {},
                }
            }
        }
        cursor = cursor + total;
    }
}


// ---------------------------------------------------------------------------
// What a sanitized PNG holds
// ---------------------------------------------------------------------------

/// Whether the sanitizer's walk over the chunks from `c` reaches `IEND`.
pub open spec fn walk_reaches_iend(inp: Seq<u8>, c: int) -> bool
    decreases inp.len() - c,
{
    if c < 0 || c + 8 > inp.len() {
        false
    } else {
        let total = 12 + be_u32(inp, c);
        if c + total > inp.len() {
            false
        } else if inp.subrange(c + 4, c + 8) == iend_tag() {
            true
        } else {
            walk_reaches_iend(inp, c + total)
        }
    }
}

/// Whether the walk over the chunks from `c`, before any `IEND`, meets a
/// chunk header whose declared length runs past the end of the input.
pub open spec fn walk_hits_truncated(inp: Seq<u8>, c: int) -> bool
    decreases inp.len() - c,
{
    if c < 0 || c + 8 > inp.len() {
        false
    } else {
        let total = 12 + be_u32(inp, c);
        if c + total > inp.len() {
            true
        } else if inp.subrange(c + 4, c + 8) == iend_tag() {
            false
        } else {
            walk_hits_truncated(inp, c + total)
        }
    }
}

proof fn lemma_sanitize_from_err(inp: Seq<u8>, c: int)
    ensures
        sanitize_from(inp, c) is Err <==> walk_hits_truncated(inp, c),
    decreases inp.len() - c,
{
    if 0 <= c && c + 8 <= inp.len() {
        let total = 12 + be_u32(inp, c);
        if c + total <= inp.len() && inp.subrange(c + 4, c + 8) != iend_tag() {
            lemma_sanitize_from_err(inp, c + total);
        }
    }
}

/// A PNG whose chunk walk, before `IEND`, meets a chunk that declares more
/// data than the file holds is refused as corrupt; one whose walk meets none
/// is sanitized.
pub proof fn lemma_sanitize_png_refuses_truncated_chunks(inp: Seq<u8>)
    requires
        inp.len() >= 8,
        inp.take(8) == png_magic(),
    ensures
        png_sanitized(inp) == Err::<Seq<u8>, _>("Corrupt PNG chunk structure"@) <==> walk_hits_truncated(inp, 8),
        png_sanitized(inp) is Ok <==> !walk_hits_truncated(inp, 8),
{
    lemma_sanitize_from_err(inp, 8);
    reveal_strlit("Corrupt PNG chunk structure");
    reveal_strlit("Not a valid PNG file");
}

/// A chunk as its type, data and CRC bytes.
pub type ChunkParts = (Seq<u8>, Seq<u8>, Seq<u8>);

/// Whether a chunk has a four-byte type and CRC and a data length that fits
/// its 32-bit length field.
pub open spec fn chunk_ok(ch: ChunkParts) -> bool {
    ch.0.len() == 4 && ch.2.len() == 4 && ch.1.len() <= u32::MAX
}

/// The bytes of a chunk: its big-endian data length, type, data and CRC.
pub open spec fn chunk_bytes(ch: ChunkParts) -> Seq<u8> {
    be_bytes(ch.1.len() as u32) + ch.0 + ch.1 + ch.2
}

/// The bytes of a list of chunks, one after the other.
pub open spec fn chunks_bytes(cs: Seq<ChunkParts>) -> Seq<u8>
    decreases cs.len(),
{
    if cs.len() == 0 {
        Seq::empty()
    } else {
        chunk_bytes(cs[0]) + chunks_bytes(cs.drop_first())
    }
}

/// The bytes of the chunks of a list that are not text chunks, in order.
pub open spec fn kept_chunks_bytes(cs: Seq<ChunkParts>) -> Seq<u8>
    decreases cs.len(),
{
    if cs.len() == 0 {
        Seq::empty()
    } else {
        (if is_text_chunk(cs[0].0) {
            Seq::empty()
        } else {
            chunk_bytes(cs[0])
        }) + kept_chunks_bytes(cs.drop_first())
    }
}

proof fn lemma_be_u32_of_bytes(pre: Seq<u8>, x: u32, rest: Seq<u8>)
    ensures
        be_u32(pre + be_bytes(x) + rest, pre.len() as int) == x,
{
    let b = pre + be_bytes(x) + rest;
    let l = pre.len() as int;
    assert(b[l] == (x >> 24) as u8);
    assert(b[l + 1] == ((x >> 16) & 0xff) as u8);
    assert(b[l + 2] == ((x >> 8) & 0xff) as u8);
    assert(b[l + 3] == (x & 0xff) as u8);
    let (b0, b1, b2, b3) = ((x >> 24) as u8, ((x >> 16) & 0xff) as u8, ((x >> 8) & 0xff) as u8, (x & 0xff) as u8);
    assert(b0 as u32 * 16777216 + b1 as u32 * 65536 + b2 as u32 * 256 + b3 as u32 == x) by (bit_vector)
        requires
            b0 == (x >> 24) as u8,
            b1 == ((x >> 16) & 0xff) as u8,
            b2 == ((x >> 8) & 0xff) as u8,
            b3 == (x & 0xff) as u8,
    ;
}

proof fn lemma_sanitize_chunks(pre: Seq<u8>, cs: Seq<ChunkParts>, rest: Seq<u8>)
    requires
        cs.len() >= 1,
        forall|i: int| 0 <= i < cs.len() ==> chunk_ok(#[trigger] cs[i]),
        cs.last().0 == iend_tag(),
        forall|i: int| 0 <= i < cs.len() - 1 ==> (#[trigger] cs[i]).0 != iend_tag(),
    ensures
        sanitize_from(pre + chunks_bytes(cs) + rest, pre.len() as int) == Ok::<_, ()>(
            kept_chunks_bytes(cs.drop_last()) + marker_chunk() + chunk_bytes(cs.last()),
        ),
    decreases cs.len(),
{
    let inp = pre + chunks_bytes(cs) + rest;
    let c = pre.len() as int;
    let ch = cs[0];
    assert(chunk_ok(ch));
    let cb = chunk_bytes(ch);
    let n = ch.1.len() as u32;
    assert(inp =~= pre + be_bytes(n) + (ch.0 + ch.1 + ch.2 + chunks_bytes(cs.drop_first()) + rest));
    lemma_be_u32_of_bytes(pre, n, ch.0 + ch.1 + ch.2 + chunks_bytes(cs.drop_first()) + rest);
    assert(cb.len() == 12 + ch.1.len());
    assert(inp.subrange(c, c + cb.len()) =~= cb);
    assert(inp.subrange(c + 4, c + 8) =~= ch.0);
    if cs.len() == 1 {
        assert(cs.drop_last() =~= Seq::<ChunkParts>::empty());
        assert(kept_chunks_bytes(cs.drop_last()) =~= Seq::<u8>::empty());
        assert(sanitize_from(inp, c) == Ok::<_, ()>(marker_chunk() + cb));
        assert(marker_chunk() + cb =~= Seq::<u8>::empty() + marker_chunk() + cb);
    } else {
        assert(ch.0 != iend_tag());
        let tl = cs.drop_first();
        let pre2 = pre + cb;
        assert(pre + chunks_bytes(cs) + rest =~= pre2 + chunks_bytes(tl) + rest);
        assert forall|i: int| 0 <= i < tl.len() implies chunk_ok(#[trigger] tl[i]) by {
            assert(tl[i] == cs[i + 1]);
        }
        assert forall|i: int| 0 <= i < tl.len() - 1 implies (#[trigger] tl[i]).0 != iend_tag() by {
            assert(tl[i] == cs[i + 1]);
        }
        lemma_sanitize_chunks(pre2, tl, rest);
        assert(cs.drop_last().drop_first() =~= tl.drop_last());
        assert(cs.drop_last()[0] == ch);
        let k = if is_text_chunk(ch.0) { Seq::<u8>::empty() } else { cb };
        assert(kept_chunks_bytes(cs.drop_last()) == k + kept_chunks_bytes(tl.drop_last()));
        assert(tl.last() == cs.last());
        let r = kept_chunks_bytes(tl.drop_last()) + marker_chunk() + chunk_bytes(cs.last());
        assert(k + r =~= kept_chunks_bytes(cs.drop_last()) + marker_chunk() + chunk_bytes(cs.last()));
        assert(Seq::<u8>::empty() + r =~= r);
    }
}

/// Sanitizing a PNG made of chunks up to the first `IEND` (and anything
/// after it) keeps the signature and the chunks that are not text chunks,
/// in order, adds the stamp chunk, and ends with that `IEND` chunk; what
/// follows `IEND` is dropped.
pub proof fn lemma_sanitize_png_chunks(cs: Seq<ChunkParts>, rest: Seq<u8>)
    requires
        cs.len() >= 1,
        forall|i: int| 0 <= i < cs.len() ==> chunk_ok(#[trigger] cs[i]),
        cs.last().0 == iend_tag(),
        forall|i: int| 0 <= i < cs.len() - 1 ==> (#[trigger] cs[i]).0 != iend_tag(),
    ensures
        png_sanitized(png_magic() + chunks_bytes(cs) + rest) == Ok::<_, Seq<char>>(
            png_magic() + kept_chunks_bytes(cs.drop_last()) + marker_chunk() + chunk_bytes(
                cs.last(),
            ),
        ),
{
    let inp = png_magic() + chunks_bytes(cs) + rest;
    assert(inp.take(8) =~= png_magic());
    lemma_sanitize_chunks(png_magic(), cs, rest);
    assert(png_magic() + (kept_chunks_bytes(cs.drop_last()) + marker_chunk() + chunk_bytes(cs.last()))
        =~= png_magic() + kept_chunks_bytes(cs.drop_last()) + marker_chunk() + chunk_bytes(cs.last()));
}

/// The key of the stamp entry.
pub open spec fn stamp_key() -> Seq<char> {
    seq!['S', 'a', 'n', 'i', 't', 'i', 'z', 'e', 'd', 'B', 'y']
}

/// The value of the stamp entry.
pub open spec fn stamp_value() -> Seq<char> {
    seq!['p', 'n', 'g', 'g', 'r', 'e', 'p']
}

/// ASCII text encodes to one byte per character, and decodes back.
proof fn lemma_ascii_text(chars: Seq<char>, bytes: Seq<u8>)
    requires
        is_ascii_chars(chars),
        chars.len() == bytes.len(),
        forall|i: int| 0 <= i < chars.len() ==> chars[i] as u8 == #[trigger] bytes[i],
    ensures
        lossy_text(bytes) == chars,
{
    is_ascii_chars_encode_utf8(chars);
    assert(encode_utf8(chars) =~= bytes);
    encode_utf8_valid_utf8(chars);
    encode_utf8_decode_utf8(chars);
}

/// The stamp chunk's data reads as the entry `SanitizedBy` = `pnggrep`.
proof fn lemma_stamp_entry()
    ensures
        chunk_entry(text_tag(), marker_data()) == Some((stamp_key(), stamp_value())),
{
    let d = marker_data();
    let z = seq![0u8];
    assert(d.subrange(11, 12) =~= z);
    assert forall|k: int| 0 <= k < 11 implies !#[trigger] matches_at(d, z, k) by {
        assert(d.subrange(k, k + 1)[0] == d[k]);
    }
    lemma_find_first(d, z, 0, 11);
    lemma_ascii_text(stamp_key(), d.take(11));
    lemma_ascii_text(stamp_value(), d.skip(12));
}

/// Reading back the output of the sanitizer's walk from `c`, placed after
/// any `pre`, finds the stamp alone when the walk reached `IEND`, and
/// nothing otherwise.
proof fn lemma_sanitize_rescan(inp: Seq<u8>, c: int, pre: Seq<u8>)
    requires
        0 <= c,
        sanitize_from(inp, c) is Ok,
    ensures
        png_scan(pre + sanitize_from(inp, c)->Ok_0, pre.len() as int) == Ok::<_, ()>(
            if walk_reaches_iend(inp, c) {
                seq![(stamp_key(), stamp_value())]
            } else {
                Seq::empty()
            },
        ),
    decreases inp.len() - c,
{
    let r = sanitize_from(inp, c)->Ok_0;
    let b = pre + r;
    let p = pre.len() as int;
    if c + 8 > inp.len() {
        assert(b =~= pre);
    } else {
        let length = be_u32(inp, c);
        let total = 12 + length;
        let kind = inp.subrange(c + 4, c + 8);
        let chunk = inp.subrange(c, c + total);
        if kind == iend_tag() {
            let m = marker_chunk();
            assert(r == m + chunk);
            assert(b.subrange(p, p + 31) =~= m);
            let p2 = p + 31;
            assert(b.subrange(p2, b.len() as int) =~= chunk);
            assert(b.subrange(p2, p2 + 4) =~= chunk.subrange(0, 4));
            assert(be_u32(b, p2) == be_u32(inp, c));
            assert(b.subrange(p2 + 4, p2 + 8) =~= kind);
            lemma_rescan_iend(b, p2);
            lemma_rescan_marker(b, p);
        } else if is_text_chunk(kind) {
            lemma_sanitize_rescan(inp, c + total, pre);
        } else {
            let r2 = sanitize_from(inp, c + total)->Ok_0;
            assert(r == chunk + r2);
            let pre2 = pre + chunk;
            lemma_sanitize_rescan(inp, c + total, pre2);
            assert(b =~= pre2 + r2);
            assert(b.subrange(p, p + 4) =~= chunk.subrange(0, 4));
            assert(b.subrange(p + 4, p + 8) =~= kind);
            lemma_rescan_copied(b, p, length);
        }
    }
}

/// An `IEND` chunk that ends the bytes reads as nothing.
proof fn lemma_rescan_iend(b: Seq<u8>, p: int)
    requires
        0 <= p,
        p + 12 + be_u32(b, p) == b.len(),
        b.subrange(p + 4, p + 8) == iend_tag(),
    ensures
        png_scan(b, p) == Ok::<_, ()>(Seq::<(Seq<char>, Seq<char>)>::empty()),
{
    let length = be_u32(b, p);
    if length > MAX_METADATA_CHUNK_SIZE {
        assert(png_scan(b, p + 8 + length + 4) == Ok::<_, ()>(Seq::<(Seq<char>, Seq<char>)>::empty()));
    }
}

/// The stamp chunk reads as the stamp entry, followed by what comes after it.
proof fn lemma_rescan_marker(b: Seq<u8>, p: int)
    requires
        0 <= p,
        p + 31 <= b.len(),
        b.subrange(p, p + 31) == marker_chunk(),
        png_scan(b, p + 31) == Ok::<_, ()>(Seq::<(Seq<char>, Seq<char>)>::empty()),
    ensures
        png_scan(b, p) == Ok::<_, ()>(seq![(stamp_key(), stamp_value())]),
{
    let m = marker_chunk();
    assert(((19u32 >> 24) as u8) == 0u8 && (((19u32 >> 16) & 0xff) as u8) == 0u8 && (((19u32 >> 8)
        & 0xff) as u8) == 0u8 && ((19u32 & 0xff) as u8) == 19u8) by (bit_vector);
    assert(b.subrange(p, p + 31)[0] == b[p]);
    assert(b.subrange(p, p + 31)[1] == b[p + 1]);
    assert(b.subrange(p, p + 31)[2] == b[p + 2]);
    assert(b.subrange(p, p + 31)[3] == b[p + 3]);
    assert(m[0] == 0 && m[1] == 0 && m[2] == 0 && m[3] == 19);
    assert(be_u32(b, p) == 19);
    let w = b.subrange(p, p + 31);
    let a = be_bytes(19) + text_tag();
    let a2 = a + marker_data();
    assert(m == a2 + be_bytes(crc32_of(text_tag() + marker_data())));
    assert(a2.subrange(4, 8) =~= text_tag());
    assert(m.subrange(4, 8) =~= a2.subrange(4, 8));
    assert(a2.subrange(8, 27) =~= marker_data());
    assert(m.subrange(8, 27) =~= a2.subrange(8, 27));
    assert(b.subrange(p + 4, p + 8) =~= w.subrange(4, 8));
    assert(b.subrange(p + 8, p + 27) =~= w.subrange(8, 27));
    assert(b.subrange(p + 4, p + 8) =~= text_tag());
    assert(b.subrange(p + 8, p + 27) =~= marker_data());
    lemma_stamp_entry();
    assert(seq![(stamp_key(), stamp_value())] + Seq::<(Seq<char>, Seq<char>)>::empty()
        =~= seq![(stamp_key(), stamp_value())]);
}

/// A chunk that is neither `IEND` nor a text chunk is passed over.
proof fn lemma_rescan_copied(b: Seq<u8>, p: int, length: nat)
    requires
        0 <= p,
        be_u32(b, p) == length,
        p + 12 + length <= b.len(),
        b.subrange(p + 4, p + 8) != iend_tag(),
        !is_text_chunk(b.subrange(p + 4, p + 8)),
    ensures
        png_scan(b, p) == png_scan(b, p + 12 + length),
{
}

/// A PNG that the sanitizer accepts reads back with no metadata but its
/// stamp: the single entry `SanitizedBy` = `pnggrep` when its chunks reach
/// `IEND`, and no entry otherwise. Every text chunk of the input is gone,
/// and the stamped file is recognised as sanitized.
pub proof fn lemma_sanitized_png_holds_only_the_stamp(inp: Seq<u8>)
    requires
        png_sanitized(inp) is Ok,
    ensures
        png_entries(png_sanitized(inp)->Ok_0) == Ok::<_, ()>(
            if walk_reaches_iend(inp, 8) {
                seq![(stamp_key(), stamp_value())]
            } else {
                Seq::empty()
            },
        ),
        is_marker_entry(stamp_key(), stamp_value()),
{
    let out = png_sanitized(inp)->Ok_0;
    lemma_sanitize_rescan(inp, 8, png_magic());
    assert(out.take(8) =~= png_magic());
    reveal_strlit("SanitizedBy");
    reveal_strlit("pnggrep");
    assert(eq_ignore_case(stamp_key(), "SanitizedBy"@));
    assert(eq_ignore_case(stamp_value(), "pnggrep"@));
}

/// A sanitized copy is never sanitized again: the stem of
/// `<stem>_sanitized.<ext>` gets no further name.
pub proof fn lemma_sanitized_names_do_not_compound(stem: Seq<char>, ext: Seq<char>, ext2: Seq<char>)
    ensures
        sanitized_name(stem, ext) matches Some(name) ==> name == stem + "_sanitized"@ + "."@ + ext,
        sanitized_name(stem + "_sanitized"@, ext2) is None,
{
    reveal_strlit("_sanitized");
    reveal_strlit("_sanitized.");
    reveal_strlit(".");
    let s = stem + "_sanitized"@;
    assert(s.skip(s.len() - "_sanitized"@.len()) =~= "_sanitized"@);
    assert("_sanitized."@ =~= "_sanitized"@ + "."@);
    assert(stem + "_sanitized."@ + ext =~= stem + "_sanitized"@ + "."@ + ext);
}

// ---------------------------------------------------------------------------
// SVG
// ---------------------------------------------------------------------------

/// The metadata block that replaces an SVG's own.
pub open spec fn svg_marker_block() -> Seq<char> {
    "<metadata>\n    <rdf:RDF xmlns:dc=\"http://purl.org/dc/elements/1.1/\">\n      <dc:description>{\"sanitized_by\": \"pnggrep\"}</dc:description>\n    </rdf:RDF>\n  </metadata>"@
}

/// What `sanitize_svg` makes of a document: the first `<metadata` ...
/// `</metadata>` span replaced by the stamp block; failing that, the stamp
/// block and a newline put in place of the last `</svg>` (which is kept);
/// failing that, the document unchanged.
pub open spec fn svg_sanitized(s: Seq<char>) -> Seq<char> {
    let open = "<metadata"@;
    let close = "</metadata>"@;
    let end_svg = "</svg>"@;
    let replaced = match find_from(s, open, 0) {
        Some(start) => match find_from(s, close, start) {
            Some(e) => Some(s.take(start) + svg_marker_block() + s.skip(e + close.len())),
            None => None,
        },
        None => None,
    };
    match replaced {
        Some(t) => t,
        None => match rfind(s, end_svg) {
            Some(pos) => s.take(pos) + svg_marker_block() + "\n</svg>"@,
            None => s,
        },
    }
}

/// Replaces an SVG document's `<metadata>` element with a stamp block that
/// holds only `{"sanitized_by": "pnggrep"}`; a document without one gets the
/// block inserted before its last `</svg>`. Never fails.
pub fn sanitize_svg(input: &str) -> (r: Result<String, String>)
    ensures
        r matches Ok(s) && s@ == svg_sanitized(input@),
{
    let s = chars_of(input);
    let n = s.len();
    let block = chars_of(
        "<metadata>\n    <rdf:RDF xmlns:dc=\"http://purl.org/dc/elements/1.1/\">\n      <dc:description>{\"sanitized_by\": \"pnggrep\"}</dc:description>\n    </rdf:RDF>\n  </metadata>",
    );
    let open = chars_of("<metadata");
    let close = chars_of("</metadata>");
    if let Some(start) = find_chars(&s, &open, 0) {
        if let Some(e) = find_chars(&s, &close, start) {
            proof {
                lemma_find_from(s@, close@, start as int);
            }
            let mut out = copy_range(&s, 0, start);
            append_chars(&mut out, &block);
            let rest = copy_range(&s, e + close.len(), n);
            append_chars(&mut out, &rest);
            assert(out@ =~= s@.take(start as int) + svg_marker_block() + s@.skip(e + close@.len()));
            return Ok(string_of(&out));
        }
    }
    let end_svg = chars_of("</svg>");
    if let Some(pos) = rfind_chars(&s, &end_svg) {
        proof {
            lemma_rfind_at(s@, end_svg@, s@.len() - end_svg@.len());
        }
        let mut out = copy_range(&s, 0, pos);
        append_chars(&mut out, &block);
        let tail = chars_of("\n</svg>");
        append_chars(&mut out, &tail);
        assert(out@ =~= s@.take(pos as int) + svg_marker_block() + "\n</svg>"@);
        return Ok(string_of(&out));
    }
    Ok(string_of(&s))
}


/// The stamp block's `<dc:description>` element gives the stamp entry.
#[verifier::spinoff_prover]
#[verifier::rlimit(50)]
proof fn lemma_stamp_leaf()
    ensures
        element_entries(svg_marker_block(), 90, svg_marker_block().subrange(76, 90)) == seq![
            ("Description/sanitized_by"@, "pnggrep"@),
        ],
{
    let b = svg_marker_block();
    reveal_strlit("<metadata>\n    <rdf:RDF xmlns:dc=\"http://purl.org/dc/elements/1.1/\">\n      <dc:description>{\"sanitized_by\": \"pnggrep\"}</dc:description>\n    </rdf:RDF>\n  </metadata>");
    reveal_strlit("Description/sanitized_by");
    reveal_strlit("pnggrep");
    assert(b.len() == 164);
    let name = b.subrange(76, 90);
    let close = seq!['<', '/'] + name + seq!['>'];
    assert(b.subrange(118, 135) =~= close);
    lemma_find_by_head(b, close, 91, 118);
    let j = b.subrange(91, 118);
    lemma_lacks_head(j, seq!['<']);
    // the local name follows the last `:`
    assert(name.subrange(2, 3) =~= seq![':']);
    assert forall|k: int| 2 < k <= 13 implies !#[trigger] matches_at(name, seq![':'], k) by {
        if matches_at(name, seq![':'], k) {
            assert(name.subrange(k, k + 1)[0] == name[k]);
        }
    }
    lemma_rfind_last(name, seq![':'], 13, 2);
    assert(local_name(name) =~= name.skip(3));
    // the text is a JSON object with one string member
    assert(ws_start(j, 0) == 0);
    assert(ws_end(j, 27) == 27);
    assert(trim(j) =~= j);
    lemma_unescape_plain(j, 0);
    assert(xml_unescaped(trim(j)) =~= j);
    assert(j.take(1) =~= seq!['{']);
    assert(j.skip(26) =~= seq!['}']);
    lemma_scan_plain(j, 2, 14);
    lemma_scan_plain(j, 18, 25);
    assert(skip_sep(j, 26) == 26);
    assert(json_members(j, 26, 0) == Some(Seq::<(Seq<char>, Seq<char>)>::empty()));
    assert(skip_sep(j, 1) == 1);
    assert(ws_start(j, 15) == 15);
    assert(ws_start(j, 17) == 17);
    assert(ws_start(j, 16) == 17);
    let pair = (j.subrange(2, 14), j.subrange(18, 25));
    assert(json_members(j, 1, 0) == Some(seq![pair] + Seq::<(Seq<char>, Seq<char>)>::empty()));
    assert(json_object(j, 0) == Some(seq![pair] + Seq::<(Seq<char>, Seq<char>)>::empty()));
    let key = capitalized(local_name(name));
    assert(element_entries(b, 90, name) == leaf_entries(key, j));
    assert(prefixed(key, seq![pair]) =~= seq![(key + seq!['/'] + pair.0, pair.1)]);
    assert(key + seq!['/'] + pair.0 =~= "Description/sanitized_by"@);
    assert(pair.1 =~= "pnggrep"@);
}

/// Scanning the stamp block yields the stamp entry alone.
#[verifier::spinoff_prover]
#[verifier::rlimit(50)]
proof fn lemma_stamp_block_scan()
    ensures
        svg_scan(svg_marker_block(), 0) == Some(seq![("Description/sanitized_by"@, "pnggrep"@)]),
{
    let b = svg_marker_block();
    reveal_strlit("<metadata>\n    <rdf:RDF xmlns:dc=\"http://purl.org/dc/elements/1.1/\">\n      <dc:description>{\"sanitized_by\": \"pnggrep\"}</dc:description>\n    </rdf:RDF>\n  </metadata>");
    assert(b.len() == 164);
    // the three end tags at the end are skipped
    lemma_find_no_char(b, '<', 154);
    assert(svg_scan(b, 154) == Some(Seq::<(Seq<char>, Seq<char>)>::empty()));
    lemma_find_char(b, '<', 141, 153);
    lemma_end_tag_skipped(b, 153);
    assert(svg_scan(b, 141) == svg_scan(b, 154));
    lemma_find_char(b, '<', 119, 140);
    lemma_end_tag_skipped(b, 140);
    assert(svg_scan(b, 119) == svg_scan(b, 141));
    lemma_find_char(b, '<', 76, 118);
    lemma_end_tag_skipped(b, 118);
    assert(svg_scan(b, 76) == svg_scan(b, 119));
    // `<dc:description>` is a leaf
    lemma_find_char(b, '<', 16, 75);
    lemma_open_tag_read(b, 75);
    lemma_find_char(b, '>', 75, 90);
    let h2 = b.subrange(76, 90);
    lemma_tag_name(h2, 14);
    assert(h2.take(14) =~= h2);
    lemma_stamp_leaf();
    assert(svg_scan(b, 16) == Some(
        element_entries(b, 90, h2) + Seq::<(Seq<char>, Seq<char>)>::empty(),
    ));
    // `<rdf:RDF ...>` holds a child element, so gives nothing of its own
    lemma_find_char(b, '<', 1, 15);
    lemma_open_tag_read(b, 15);
    lemma_find_char(b, '>', 15, 67);
    let h1 = b.subrange(16, 67);
    lemma_tag_name(h1, 7);
    let n1 = h1.take(7);
    let close1 = seq!['<', '/'] + n1 + seq!['>'];
    assert(b.subrange(140, 150) =~= close1);
    lemma_find_by_head(b, close1, 68, 140);
    let inner1 = b.subrange(68, 140);
    assert(inner1.subrange(7, 8) =~= seq!['<']);
    assert(matches_at(inner1, seq!['<'], 7));
    lemma_no_cdata(inner1);
    assert(element_entries(b, 67, n1) =~= Seq::empty());
    assert(svg_scan(b, 1) == svg_scan(b, 16));
    // and so does `<metadata>`
    lemma_find_char(b, '<', 0, 0);
    lemma_open_tag_read(b, 0);
    lemma_find_char(b, '>', 0, 9);
    let h0 = b.subrange(1, 9);
    lemma_tag_name(h0, 8);
    assert(h0.take(8) =~= h0);
    let close0 = seq!['<', '/'] + h0 + seq!['>'];
    assert(b.subrange(153, 164) =~= close0);
    lemma_find_by_head(b, close0, 10, 153);
    let inner0 = b.subrange(10, 153);
    assert(inner0.subrange(5, 6) =~= seq!['<']);
    assert(matches_at(inner0, seq!['<'], 5));
    lemma_no_cdata(inner0);
    assert(element_entries(b, 9, h0) =~= Seq::empty());
    assert(svg_scan(b, 0) == svg_scan(b, 1));
}

/// Where the stamp block follows text with no `<metadata` of its own, the
/// metadata area of the whole is the stamp block.
proof fn lemma_stamp_area(p: Seq<char>, rest: Seq<char>)
    requires
        forall|k: int| 0 <= k && k + 9 <= p.len() ==> !#[trigger] matches_at(p, "<metadata"@, k),
    ensures
        find_from(p + svg_marker_block() + rest, "<metadata"@, 0) == Some(p.len() as int),
        find_from(p + svg_marker_block() + rest, "</metadata>"@, p.len() as int) == Some(
            p.len() as int + 153,
        ),
        metadata_area(p + svg_marker_block() + rest) == svg_marker_block(),
{
    let b = svg_marker_block();
    reveal_strlit("<metadata>\n    <rdf:RDF xmlns:dc=\"http://purl.org/dc/elements/1.1/\">\n      <dc:description>{\"sanitized_by\": \"pnggrep\"}</dc:description>\n    </rdf:RDF>\n  </metadata>");
    reveal_strlit("<metadata");
    reveal_strlit("</metadata>");
    let open = "<metadata"@;
    let close = "</metadata>"@;
    let out = p + b + rest;
    let l = p.len() as int;
    assert(b.len() == 164);
    assert forall|k: int| 0 <= k < l implies !#[trigger] matches_at(out, open, k) by {
        if matches_at(out, open, k) {
            if k + 9 <= l {
                assert(out.subrange(k, k + 9) =~= p.subrange(k, k + 9));
                assert(matches_at(p, open, k));
            } else {
                // the block's `<` would stand inside `<metadata`
                let w = out.subrange(k, k + 9);
                assert(w[l - k] == out[l]);
                assert(out[l] == b[0]);
                assert(w[l - k] == open[l - k]);
            }
        }
    }
    assert(out.subrange(l, l + 9) =~= open);
    lemma_find_first(out, open, 0, l);
    assert(out.subrange(l + 153, l + 164) =~= close);
    lemma_find_by_head(out, close, l, l + 153);
    assert(out.subrange(l, l + 164) =~= b);
}

/// A sanitized SVG reads back as holding the stamp entry and nothing else,
/// and that entry is recognised as the stamp. This holds of every document
/// with a `<metadata` ... `</metadata>` span, and of every document with no
/// `<metadata` but a `</svg>`.
pub proof fn lemma_sanitized_svg_holds_only_the_stamp(s: Seq<char>)
    requires
        (find_from(s, "<metadata"@, 0) matches Some(st) && find_from(s, "</metadata>"@, st) is Some)
            || (find_from(s, "<metadata"@, 0) is None && rfind(s, "</svg>"@) is Some),
    ensures
        svg_metadata(svg_sanitized(s)) == Some(seq![("Description/sanitized_by"@, "pnggrep"@)]),
        is_marker_entry("Description/sanitized_by"@, "pnggrep"@),
{
    let open = "<metadata"@;
    let close = "</metadata>"@;
    reveal_strlit("<metadata");
    lemma_find_from(s, open, 0);
    let pos = match find_from(s, open, 0) {
        Some(st) => st,
        None => {
            lemma_rfind_at(s, "</svg>"@, s.len() - "</svg>"@.len());
            rfind(s, "</svg>"@)->Some_0
        },
    };
    let p = s.take(pos);
    assert forall|k: int| 0 <= k && k + 9 <= p.len() implies !#[trigger] matches_at(p, open, k) by {
        if matches_at(p, open, k) {
            assert(p.subrange(k, k + 9) =~= s.subrange(k, k + 9));
            assert(matches_at(s, open, k));
        }
    }
    match find_from(s, open, 0) {
        Some(st) => {
            let e = find_from(s, close, st)->Some_0;
            lemma_stamp_area(p, s.skip(e + close.len()));
        },
        None => {
            lemma_stamp_area(p, "\n</svg>"@);
        },
    }
    lemma_stamp_block_scan();
}

/// Sanitizing an SVG with a metadata element changes only that element:
/// when the first `<metadata` is at `start` and the first `</metadata>`
/// from there is at `e`, the text before `start` and the text after the
/// `</metadata>` are kept exactly, and the stamp block stands between them.
pub proof fn lemma_sanitize_svg_replaces_only_metadata(s: Seq<char>, start: int, e: int)
    requires
        matches_at(s, "<metadata"@, start),
        forall|k: int| 0 <= k < start ==> !#[trigger] matches_at(s, "<metadata"@, k),
        start <= e,
        matches_at(s, "</metadata>"@, e),
        forall|k: int| start <= k < e ==> !#[trigger] matches_at(s, "</metadata>"@, k),
    ensures
        svg_sanitized(s) == s.take(start) + svg_marker_block() + s.skip(e + 11),
        svg_sanitized(s).take(start) == s.take(start),
        svg_sanitized(s).skip(start + 164) == s.skip(e + 11),
{
    reveal_strlit("</metadata>");
    let b = svg_marker_block();
    reveal_strlit("<metadata>\n    <rdf:RDF xmlns:dc=\"http://purl.org/dc/elements/1.1/\">\n      <dc:description>{\"sanitized_by\": \"pnggrep\"}</dc:description>\n    </rdf:RDF>\n  </metadata>");
    assert(b.len() == 164);
    lemma_find_first(s, "<metadata"@, 0, start);
    lemma_find_first(s, "</metadata>"@, start, e);
    let out = s.take(start) + b + s.skip(e + 11);
    assert(out.take(start) =~= s.take(start));
    assert(out.skip(start + 164) =~= s.skip(e + 11));
}

/// Sanitizing an SVG without a metadata element but with a `</svg>` puts the
/// stamp block and a line break before its last `</svg>`, keeping all the
/// text before it.
pub proof fn lemma_sanitize_svg_inserts_before_end(s: Seq<char>, pos: int)
    requires
        forall|k: int| 0 <= k ==> !#[trigger] matches_at(s, "<metadata"@, k),
        matches_at(s, "</svg>"@, pos),
        forall|k: int| pos < k ==> !#[trigger] matches_at(s, "</svg>"@, k),
    ensures
        svg_sanitized(s) == s.take(pos) + svg_marker_block() + "\n</svg>"@,
{
    lemma_find_from(s, "<metadata"@, 0);
    reveal_strlit("</svg>");
    assert forall|k: int| pos < k <= s.len() - 6 implies !#[trigger] matches_at(s, "</svg>"@, k) by {}
    lemma_rfind_last(s, "</svg>"@, s.len() - 6, pos);
}

/// Sanitizing an SVG a second time changes nothing, for every document with
/// a `<metadata` ... `</metadata>` span and every document with no
/// `<metadata`.
pub proof fn lemma_sanitize_svg_idempotent(s: Seq<char>)
    requires
        (find_from(s, "<metadata"@, 0) matches Some(st) && find_from(s, "</metadata>"@, st) is Some)
            || find_from(s, "<metadata"@, 0) is None,
    ensures
        svg_sanitized(svg_sanitized(s)) == svg_sanitized(s),
{
    let open = "<metadata"@;
    let close = "</metadata>"@;
    reveal_strlit("<metadata");
    reveal_strlit("</metadata>");
    let b = svg_marker_block();
    reveal_strlit("<metadata>\n    <rdf:RDF xmlns:dc=\"http://purl.org/dc/elements/1.1/\">\n      <dc:description>{\"sanitized_by\": \"pnggrep\"}</dc:description>\n    </rdf:RDF>\n  </metadata>");
    assert(b.len() == 164);
    lemma_find_from(s, open, 0);
    let (pos, rest) = match find_from(s, open, 0) {
        Some(st) => {
            let e = find_from(s, close, st)->Some_0;
            (st, s.skip(e + close.len()))
        },
        None => {
            if rfind(s, "</svg>"@) is None {
                return;
            }
            lemma_rfind_at(s, "</svg>"@, s.len() - "</svg>"@.len());
            (rfind(s, "</svg>"@)->Some_0, "\n</svg>"@)
        },
    };
    let p = s.take(pos);
    assert forall|k: int| 0 <= k && k + 9 <= p.len() implies !#[trigger] matches_at(p, open, k) by {
        if matches_at(p, open, k) {
            assert(p.subrange(k, k + 9) =~= s.subrange(k, k + 9));
            assert(matches_at(s, open, k));
        }
    }
    lemma_stamp_area(p, rest);
    let out = p + b + rest;
    assert(svg_sanitized(s) == out);
    assert(out.take(p.len() as int) =~= p);
    assert(out.skip(p.len() as int + 164) =~= rest);
}

// ---------------------------------------------------------------------------
// PDF
// ---------------------------------------------------------------------------

/// The Info dictionary text that replaces a PDF's own, before its padding.
pub open spec fn pdf_info_body() -> Seq<u8> {
    seq![60u8, 60, 32, 47, 80, 114, 111, 100, 117, 99, 101, 114, 32, 40, 109, 97, 116, 112, 108, 111, 116, 108, 105, 98, 41, 32, 47, 75, 101, 121, 119, 111, 114, 100, 115, 32, 40, 123, 34, 115, 97, 110, 105, 116, 105, 122, 101, 100, 95, 98, 121, 34, 58, 32, 34, 112, 110, 103, 103, 114, 101, 112, 34, 125, 41]
}

/// The replacement Info dictionary for a span of `len` bytes: the stamp
/// text, spaces, and `>>`.
pub open spec fn pdf_info_dict(len: nat) -> Seq<u8> {
    pdf_info_body() + Seq::new((len - 67) as nat, |i: int| 32u8) + seq![62u8, 62]
}

/// What `sanitize_pdf` makes of a PDF whose Info dictionary spans
/// `start..start + len` (when it was found): the dictionary overwritten in
/// place by the stamp, so that every byte offset stays valid.
pub open spec fn pdf_sanitized(content: Seq<u8>, recognized: bool, info: Option<(usize, usize)>) -> Result<Seq<u8>, Seq<char>> {
    if !recognized {
        Err("File is not a recognized Matplotlib or smart_savefig PDF"@)
    } else {
        match info {
            None => Err("Could not locate PDF Info dictionary"@),
            Some((start, len)) => if len < 67 {
                Err("PDF Info dictionary is too small to safely overwrite in-place"@)
            } else {
                Ok(content.take(start as int) + pdf_info_dict(len as nat) + content.skip(start + len))
            },
        }
    }
}


/// Sanitizing a PDF keeps every byte offset: the output has the input's
/// length, and only the Info dictionary's span changes.
pub proof fn lemma_pdf_sanitize_keeps_offsets(content: Seq<u8>, recognized: bool, start: usize, len: usize)
    requires
        start + len <= content.len(),
    ensures
        pdf_sanitized(content, recognized, Some((start, len))) matches Ok(out) ==> {
            &&& out.len() == content.len()
            &&& forall|k: int|
                0 <= k < content.len() && !(start <= k < start + len) ==> #[trigger] out[k]
                    == content[k]
        },
{
    if let Ok(out) = pdf_sanitized(content, recognized, Some((start, len))) {
        let d = pdf_info_dict(len as nat);
        assert(d.len() == len);
        assert forall|k: int|
            0 <= k < content.len() && !(start <= k < start + len) implies #[trigger] out[k]
            == content[k] by {
            if k >= start + len {
                assert(out[k] == content.skip(start + len)[k - start - len]);
            }
        }
    }
}

/// Overwrites the Info dictionary of a Matplotlib PDF in place with one that
/// holds only `/Producer (matplotlib)` and a `sanitized_by` stamp, padded with
/// spaces to the same length so that the cross-reference table stays valid.
///
/// `recognized` tells whether the file is a Matplotlib PDF, and `info_dict`
/// where its Info dictionary lies (offset and length), if it was found.
pub fn sanitize_pdf(content: &[u8], recognized: bool, info_dict: Option<(usize, usize)>) -> (r: Result<Vec<u8>, String>)
    requires
        info_dict matches Some((start, len)) ==> start + len <= content@.len(),
    ensures
        match r {
            Ok(v) => pdf_sanitized(content@, recognized, info_dict) == Ok::<_, Seq<char>>(v@),
            Err(m) => pdf_sanitized(content@, recognized, info_dict) == Err::<Seq<u8>, _>(m@),
        },
{
    let n = content.len();
    if !recognized {
        return Err("File is not a recognized Matplotlib or smart_savefig PDF".to_owned());
    }
    let (start, len) = match info_dict {
        Some(d) => d,
        None => {
            return Err("Could not locate PDF Info dictionary".to_owned());
        },
    };
    let body: Vec<u8> = vec![60u8, 60, 32, 47, 80, 114, 111, 100, 117, 99, 101, 114, 32, 40, 109, 97, 116, 112, 108, 111, 116, 108, 105, 98, 41, 32, 47, 75, 101, 121, 119, 111, 114, 100, 115, 32, 40, 123, 34, 115, 97, 110, 105, 116, 105, 122, 101, 100, 95, 98, 121, 34, 58, 32, 34, 112, 110, 103, 103, 114, 101, 112, 34, 125, 41];
    assert(body@ =~= pdf_info_body());
    if len < body.len() + 2 {
        return Err("PDF Info dictionary is too small to safely overwrite in-place".to_owned());
    }
    let padding = len - (body.len() + 2);
    let mut padded: Vec<u8> = Vec::new();
    append_bytes(&mut padded, &body);
    let mut k: usize = 0;
    while k < padding
        invariant
            k <= padding,
            padded@ == pdf_info_body() + Seq::new(k as nat, |i: int| 32u8),
        decreases padding - k,
    {
        padded.push(32u8);
        k += 1;
        assert(padded@ =~= pdf_info_body() + Seq::new(k as nat, |i: int| 32u8));
    }
    padded.push(62u8);
    padded.push(62u8);
    assert(padded@ =~= pdf_info_dict(len as nat));
    let mut out = copy_byte_range(content, 0, start);
    append_bytes(&mut out, &padded);
    let rest = copy_byte_range(content, start + len, content.len());
    append_bytes(&mut out, &rest);
    assert(out@ =~= content@.take(start as int) + pdf_info_dict(len as nat) + content@.skip(start + len));
    Ok(out)
}

// ---------------------------------------------------------------------------
// Dispatch by format
// ---------------------------------------------------------------------------

/// What sanitizing a file's content gives, by the file's extension with ASCII
/// case folded: a PNG is filtered; an SVG, which must be UTF-8 text, has its
/// metadata replaced; a PDF has its Info dictionary overwritten (with what is
/// known of the file as for `pdf_sanitized`); any other format is refused.
pub open spec fn content_sanitized(
    ext: Seq<char>,
    content: Seq<u8>,
    pdf_recognized: bool,
    pdf_info_dict: Option<(usize, usize)>,
) -> Result<Seq<u8>, Seq<char>> {
    let e = ascii_lower_seq(ext);
    if e == "png"@ {
        png_sanitized(content)
    } else if e == "svg"@ {
        if valid_utf8(content) {
            Ok(encode_utf8(svg_sanitized(decode_utf8(content))))
        } else {
            Err("stream did not contain valid UTF-8"@)
        }
    } else if e == "pdf"@ {
        pdf_sanitized(content, pdf_recognized, pdf_info_dict)
    } else {
        Err("Unsupported format: "@ + e)
    }
}

/// Sanitizes a file's content according to its extension (see
/// `content_sanitized`); the PDF facts are those `sanitize_pdf` takes.
pub fn sanitize_content(
    ext: &str,
    content: Vec<u8>,
    pdf_recognized: bool,
    pdf_info_dict: Option<(usize, usize)>,
) -> (r: Result<Vec<u8>, String>)
    requires
        pdf_info_dict matches Some((start, len)) ==> start + len <= content@.len(),
    ensures
        match r {
            Ok(v) => content_sanitized(ext@, content@, pdf_recognized, pdf_info_dict) == Ok::<
                _,
                Seq<char>,
            >(v@),
            Err(m) => content_sanitized(ext@, content@, pdf_recognized, pdf_info_dict) == Err::<
                Seq<u8>,
                _,
            >(m@),
        },
{
    let e = to_ascii_lowercase(&chars_of(ext));
    if chars_equal(&e, &chars_of("png")) {
        sanitize_png(&content)
    } else if chars_equal(&e, &chars_of("svg")) {
        match string_from_utf8(content) {
            Some(text) => match sanitize_svg(&text) {
                Ok(out) => Ok(out.as_str().as_bytes_vec()),
                Err(m) => Err(m),
            },
            None => Err("stream did not contain valid UTF-8".to_owned()),
        }
    } else if chars_equal(&e, &chars_of("pdf")) {
        sanitize_pdf(&content, pdf_recognized, pdf_info_dict)
    } else {
        let mut msg = chars_of("Unsupported format: ");
        append_chars(&mut msg, &e);
        Err(string_of(&msg))
    }
}

} // verus!
