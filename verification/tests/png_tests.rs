use pnggrep::png::{
    decompress_zlib, extract_png_metadata, png_chunk_entry, png_chunk_step, text_of_output, ChunkStep,
    PngError, PNG_MAGIC,
};

fn create_png_chunk(chunk_type: &[u8; 4], data: &[u8]) -> Vec<u8> {
    let mut chunk = Vec::new();
    chunk.extend_from_slice(&(data.len() as u32).to_be_bytes());
    chunk.extend_from_slice(chunk_type);
    chunk.extend_from_slice(data);
    chunk.extend_from_slice(&[0, 0, 0, 0]);
    chunk
}

fn compress_data(data: &[u8]) -> Vec<u8> {
    miniz_oxide::deflate::compress_to_vec_zlib(data, 6)
}

#[test]
fn test_png_text_chunk() {
    let mut png = PNG_MAGIC.to_vec();
    let mut payload = b"Author\0".to_vec();
    payload.extend_from_slice(b"Scientific Researcher");
    png.extend_from_slice(&create_png_chunk(b"tEXt", &payload));
    png.extend_from_slice(&create_png_chunk(b"IEND", &[]));

    let entries = extract_png_metadata(&png).unwrap();

    assert_eq!(entries.len(), 1);
    assert_eq!(entries[0].key, "Author");
    assert_eq!(entries[0].value, "Scientific Researcher");
}

#[test]
fn test_png_ztxt_compressed_chunk() {
    let mut png = PNG_MAGIC.to_vec();
    let uncompressed_code = b"import matplotlib.pyplot as plt\ndef plot(): pass\n";
    let compressed = compress_data(uncompressed_code);

    let mut payload = b"SourceCode\0\0".to_vec();
    payload.extend_from_slice(&compressed);

    png.extend_from_slice(&create_png_chunk(b"zTXt", &payload));
    png.extend_from_slice(&create_png_chunk(b"IEND", &[]));

    let entries = extract_png_metadata(&png).unwrap();

    assert_eq!(entries.len(), 1);
    assert_eq!(entries[0].key, "SourceCode");
    assert_eq!(entries[0].value, "import matplotlib.pyplot as plt\ndef plot(): pass\n");
}

#[test]
fn test_png_invalid_header_rejection() {
    let not_a_png = b"GIF89a\x01\x00\x01\x00...not a png";
    let entries = extract_png_metadata(not_a_png).unwrap();
    assert!(entries.is_empty());
}

#[test]
fn test_png_oversized_chunk_protection() {
    let mut png = PNG_MAGIC.to_vec();
    let fake_len = 32 * 1024 * 1024u32;
    png.extend_from_slice(&fake_len.to_be_bytes());
    png.extend_from_slice(b"tEXt");
    png.extend_from_slice(&create_png_chunk(b"IEND", &[]));

    let entries = extract_png_metadata(&png).unwrap();
    assert!(entries.is_empty());
}

#[test]
fn png_itxt_plain_and_compressed() {
    let mut png = PNG_MAGIC.to_vec();
    let mut plain = b"Title\0\0\0en\0Titel\0".to_vec();
    plain.extend_from_slice("Grüße".as_bytes());
    png.extend_from_slice(&create_png_chunk(b"iTXt", &plain));
    let mut packed = b"Code\0\x01\0\0\0".to_vec();
    packed.extend_from_slice(&compress_data(b"x = 1\n"));
    png.extend_from_slice(&create_png_chunk(b"iTXt", &packed));
    png.extend_from_slice(&create_png_chunk(b"IEND", &[]));
    let entries = extract_png_metadata(&png).unwrap();
    assert_eq!(entries.len(), 2);
    assert_eq!(entries[0].key, "Title");
    assert_eq!(entries[0].value, "Grüße");
    assert_eq!(entries[1].key, "Code");
    assert_eq!(entries[1].value, "x = 1\n");
}

#[test]
fn png_stops_at_iend_and_skips_other_chunks() {
    let mut png = PNG_MAGIC.to_vec();
    png.extend_from_slice(&create_png_chunk(b"IHDR", &[0; 13]));
    png.extend_from_slice(&create_png_chunk(b"tEXt", b"A\0one"));
    png.extend_from_slice(&create_png_chunk(b"tEXt", b"no separator"));
    png.extend_from_slice(&create_png_chunk(b"IEND", &[]));
    png.extend_from_slice(&create_png_chunk(b"tEXt", b"B\0after end"));
    let entries = extract_png_metadata(&png).unwrap();
    assert_eq!(entries.len(), 1);
    assert_eq!(entries[0].key, "A");
    assert_eq!(entries[0].value, "one");
}

#[test]
fn png_truncated_text_chunk_is_an_error() {
    let mut png = PNG_MAGIC.to_vec();
    png.extend_from_slice(&100u32.to_be_bytes());
    png.extend_from_slice(b"tEXt");
    png.extend_from_slice(b"Key\0short");
    assert_eq!(extract_png_metadata(&png), Err(PngError::TruncatedChunk));
}

#[test]
fn png_invalid_utf8_is_replaced() {
    let mut png = PNG_MAGIC.to_vec();
    png.extend_from_slice(&create_png_chunk(b"tEXt", b"K\0a\xffb"));
    let entries = extract_png_metadata(&png).unwrap();
    assert_eq!(entries[0].value, "a\u{FFFD}b");
}

#[test]
fn decompress_zlib_cases() {
    assert_eq!(decompress_zlib(&[]), None);
    assert_eq!(decompress_zlib(b"not zlib"), None);
    assert_eq!(decompress_zlib(&compress_data(b"hello")), Some("hello".to_string()));
    assert_eq!(decompress_zlib(&compress_data(b"\xff\xfe")), None);
}

#[test]
fn decompression_output_becomes_text_only_when_utf8() {
    assert_eq!(text_of_output(None), None);
    assert_eq!(text_of_output(Some(vec![0x68, 0x69])), Some("hi".to_string()));
    assert_eq!(text_of_output(Some(vec![0xff, 0x68])), None);
}

#[test]
fn chunk_steps_follow_the_chunk_walk() {
    let head = |len: u32, kind: &[u8; 4]| {
        let mut h = len.to_be_bytes().to_vec();
        h.extend_from_slice(kind);
        h
    };
    assert_eq!(png_chunk_step(&head(10, b"tEXt")), ChunkStep::Read);
    assert_eq!(png_chunk_step(&head(10, b"iTXt")), ChunkStep::Read);
    assert_eq!(png_chunk_step(&head(0, b"IEND")), ChunkStep::Stop);
    assert_eq!(png_chunk_step(&head(10, b"IDAT")), ChunkStep::Skip);
    assert_eq!(png_chunk_step(&head(16 * 1024 * 1024 + 1, b"tEXt")), ChunkStep::Skip);
    assert_eq!(png_chunk_step(&head(16 * 1024 * 1024 + 1, b"IEND")), ChunkStep::Skip);
    let e = png_chunk_entry(b"tEXt", b"Author\0Ada").unwrap();
    assert_eq!((e.key.as_str(), e.value.as_str()), ("Author", "Ada"));
    assert!(png_chunk_entry(b"tEXt", b"no separator").is_none());
}
