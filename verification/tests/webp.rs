use exif_rm::{MetadataRemover, RemovalOptions, WebpRemover};
fn create_webp_with_chunks(chunks: &[(&[u8], &[u8])]) -> Vec<u8> {
    let mut payload = Vec::new();
    payload.extend_from_slice(b"WEBP");
    for &(fourcc, data) in chunks {
        payload.extend_from_slice(fourcc);
        let size = data.len() as u32;
        payload.extend_from_slice(&size.to_le_bytes());
        payload.extend_from_slice(data);
        if data.len() % 2 != 0 {
            payload.push(0);
        }
    }
    let mut webp = Vec::new();
    webp.extend_from_slice(b"RIFF");
    webp.extend_from_slice(&(payload.len() as u32).to_le_bytes());
    webp.extend_from_slice(&payload);
    webp
}

fn minimal_vp8_payload() -> &'static [u8] {
    &[0x9D, 0x01, 0x2A, 0x00, 0x01, 0x00, 0x01, 0x00, 0x02, 0x00, 0x02,
      0x00, 0x00, 0x00, 0x00, 0x00, 0x00, 0x00, 0x00]
}

#[test]
fn test_strip_removes_exif_and_xmp() {
    let input = create_webp_with_chunks(&[
        (b"VP8 ", minimal_vp8_payload()),
        (b"EXIF", b"fake exif data"),
        (b"XMP ", b"fake xmp data"),
        (b"ICCP", b"fake icc data"),
    ]);
    let remover = WebpRemover;
    let output = remover.remove_metadata(&input, &RemovalOptions::default()).unwrap();
    assert!(!window_contains(&output, b"EXIF"));
    assert!(!window_contains(&output, b"XMP "));
    assert!(window_contains(&output, b"ICCP"));
    assert!(window_contains(&output, b"VP8 "));
    assert!(output.starts_with(b"RIFF"));
    assert!(&output[8..12] == b"WEBP");
}

#[test]
fn test_strip_icc_when_option_set() {
    let input = create_webp_with_chunks(&[
        (b"VP8 ", minimal_vp8_payload()),
        (b"ICCP", b"fake icc data"),
    ]);
    let options = RemovalOptions { icc_profile: true, ..RemovalOptions::default() };
    let remover = WebpRemover;
    let output = remover.remove_metadata(&input, &options).unwrap();
    assert!(!window_contains(&output, b"ICCP"));
}

#[test]
fn test_no_metadata_output_identical_except_size() {
    let input = create_webp_with_chunks(&[
        (b"VP8 ", minimal_vp8_payload()),
    ]);
    let remover = WebpRemover;
    let output = remover.remove_metadata(&input, &RemovalOptions::default()).unwrap();
    assert!(output.starts_with(b"RIFF"));
    assert!(&output[8..12] == b"WEBP");
    assert!(window_contains(&output, b"VP8 "));
}

#[test]
fn test_missing_vp8_returns_error() {
    let input = create_webp_with_chunks(&[
        (b"EXIF", b"fake exif data"),
    ]);
    let remover = WebpRemover;
    let result = remover.remove_metadata(&input, &RemovalOptions::default());
    assert!(result.is_err());
}

#[test]
fn test_riff_size_mismatch_returns_error() {
    let mut webp = Vec::new();
    webp.extend_from_slice(b"RIFF");
    webp.extend_from_slice(&99u32.to_le_bytes());
    webp.extend_from_slice(b"WEBP");
    webp.extend_from_slice(b"VP8 ");
    webp.extend_from_slice(&50u32.to_le_bytes());
    let remover = WebpRemover;
    let result = remover.remove_metadata(&webp, &RemovalOptions::default());
    assert!(result.is_err());
}

#[test]
fn test_truncated_chunk_returns_error() {
    let vp8_payload: &[u8] = &[0x9D, 0x01, 0x2A, 0x00, 0x01, 0x00, 0x01];
    let mut payload = Vec::new();
    payload.extend_from_slice(b"WEBP");
    payload.extend_from_slice(b"VP8 ");
    payload.extend_from_slice(&100u32.to_le_bytes());
    payload.extend_from_slice(vp8_payload);
    let mut webp = Vec::new();
    webp.extend_from_slice(b"RIFF");
    webp.extend_from_slice(&(payload.len() as u32).to_le_bytes());
    webp.extend_from_slice(&payload);
    let remover = WebpRemover;
    let result = remover.remove_metadata(&webp, &RemovalOptions::default());
    assert!(result.is_err());
}

fn window_contains(haystack: &[u8], needle: &[u8]) -> bool {
    haystack.windows(needle.len()).any(|w| w == needle)
}
