use exif_rm::{detect_format, Error, FileFormat, GifRemover, MetadataRemover, RemovalOptions};

fn screen(gct: bool) -> Vec<u8> {
    let mut gif = Vec::new();
    gif.extend_from_slice(b"GIF89a");
    gif.extend_from_slice(&[0x01, 0x00, 0x01, 0x00]); // width=1, height=1
    gif.push(if gct { 0x80 } else { 0x00 }); // packed
    gif.push(0x00); // bg color
    gif.push(0x00); // aspect ratio
    if gct {
        gif.extend_from_slice(&[0xFF, 0x00, 0x00]);
        gif.extend_from_slice(&[0x00, 0xFF, 0x00]);
    }
    gif
}

fn image() -> Vec<u8> {
    let mut gif = vec![0x2C];
    gif.extend_from_slice(&[0x00, 0x00, 0x00, 0x00]); // left, top
    gif.extend_from_slice(&[0x01, 0x00, 0x01, 0x00]); // width=1, height=1
    gif.push(0x00); // packed: no LCT
    gif.push(0x02); // LZW min code size
    gif.push(0x02); // sub-block size
    gif.extend_from_slice(&[0x4C, 0x01]);
    gif.push(0x00); // sub-block terminator
    gif
}

fn create_minimal_gif() -> Vec<u8> {
    let mut gif = screen(false);
    gif.extend(image());
    gif.push(0x3B);
    gif
}

fn comment(text: &[u8]) -> Vec<u8> {
    let mut v = vec![0x21, 0xFE, text.len() as u8];
    v.extend_from_slice(text);
    v.push(0x00);
    v
}

fn app_extension(id: &[u8; 11], data: &[u8]) -> Vec<u8> {
    let mut v = vec![0x21, 0xFF];
    v.extend_from_slice(id);
    v.push(data.len() as u8);
    v.extend_from_slice(data);
    v.push(0x00);
    v
}

fn gce() -> Vec<u8> {
    vec![0x21, 0xF9, 0x04, 0x00, 0x0A, 0x00, 0x00, 0x00]
}

fn strip(input: &[u8]) -> Result<Vec<u8>, Error> {
    GifRemover.remove_metadata(input, &RemovalOptions::default())
}

#[test]
fn test_gif_format_detection() {
    assert_eq!(detect_format(&create_minimal_gif()).unwrap(), FileFormat::Gif);
}

#[test]
fn test_gif87a_format_detection() {
    let mut gif = create_minimal_gif();
    gif[0..6].copy_from_slice(b"GIF87a");
    assert_eq!(detect_format(&gif).unwrap(), FileFormat::Gif);
}

#[test]
fn test_minimal_gif_passthrough() {
    let input = create_minimal_gif();
    assert_eq!(strip(&input).unwrap(), input);
}

#[test]
fn test_strip_comment() {
    let mut input = screen(false);
    input.extend(comment(b"Test Comment"));
    input.extend(image());
    input.push(0x3B);
    let output = strip(&input).unwrap();
    assert_eq!(output, create_minimal_gif());
}

#[test]
fn test_preserve_netscape() {
    let mut input = screen(false);
    input.extend(app_extension(b"NETSCAPE2.0", &[0x01, 0x00, 0x00]));
    input.extend(image());
    input.push(0x3B);
    assert_eq!(strip(&input).unwrap(), input);
}

#[test]
fn test_animexts_preserved() {
    let mut input = screen(false);
    input.extend(app_extension(b"ANIMEXTS1.0", &[0x01, 0x00, 0x00]));
    input.extend(image());
    input.push(0x3B);
    assert_eq!(strip(&input).unwrap(), input);
}

#[test]
fn test_strip_xmp() {
    let mut input = screen(false);
    input.extend(app_extension(b"XMP DataXMP", b"<x:xmpmeta>fake</x:xmpmeta>"));
    input.extend(image());
    input.push(0x3B);
    let output = strip(&input).unwrap();
    assert_eq!(output, create_minimal_gif());
    assert!(!output.windows(3).any(|w| w == b"XMP"));
}

#[test]
fn test_strip_plain_text() {
    let mut input = screen(false);
    input.extend_from_slice(&[0x21, 0x01, 0x03, b'a', b'b', b'c', 0x00]);
    input.extend(image());
    input.push(0x3B);
    assert_eq!(strip(&input).unwrap(), create_minimal_gif());
}

#[test]
fn test_preserve_gce() {
    let mut input = screen(false);
    input.extend(gce());
    input.extend(image());
    input.push(0x3B);
    assert_eq!(strip(&input).unwrap(), input);
}

#[test]
fn test_preserve_gct() {
    let mut input = screen(true);
    input.extend(comment(b"Hello"));
    input.extend(image());
    input.push(0x3B);
    let mut expected = screen(true);
    expected.extend(image());
    expected.push(0x3B);
    assert_eq!(strip(&input).unwrap(), expected);
}

#[test]
fn test_unknown_extension_preserved() {
    let mut input = screen(false);
    input.extend_from_slice(&[0x21, 0x42, 0x01, 0x07, 0x00]);
    input.extend(image());
    input.push(0x3B);
    assert_eq!(strip(&input).unwrap(), input);
}

#[test]
fn test_animated_frames_kept_comments_dropped() {
    let mut input = screen(true);
    input.extend(app_extension(b"NETSCAPE2.0", &[0x01, 0x00, 0x00]));
    let mut expected = input.clone();
    for _ in 0..3 {
        input.extend(gce());
        input.extend(comment(b"frame"));
        input.extend(image());
        expected.extend(gce());
        expected.extend(image());
    }
    input.push(0x3B);
    expected.push(0x3B);
    let output = strip(&input).unwrap();
    assert_eq!(output, expected);
    // a second pass has nothing left to remove
    assert_eq!(strip(&output).unwrap(), output);
}

#[test]
fn test_bytes_after_trailer_dropped() {
    let mut input = create_minimal_gif();
    input.extend_from_slice(b"trailing");
    assert_eq!(strip(&input).unwrap(), create_minimal_gif());
}

#[test]
fn test_local_color_table_copied() {
    let mut input = screen(false);
    input.push(0x2C);
    input.extend_from_slice(&[0x00, 0x00, 0x00, 0x00, 0x01, 0x00, 0x01, 0x00]);
    input.push(0x81); // LCT of 4 colours
    input.extend_from_slice(&[1, 2, 3, 4, 5, 6, 7, 8, 9, 10, 11, 12]);
    input.extend_from_slice(&[0x02, 0x02, 0x4C, 0x01, 0x00]);
    input.push(0x3B);
    assert_eq!(strip(&input).unwrap(), input);
}

#[test]
fn test_invalid_header() {
    let result = strip(b"NOTAGIF1234567");
    assert!(matches!(result, Err(Error::FormatDetectionFailed)));
}

#[test]
fn test_truncated_lsd() {
    let mut input = Vec::new();
    input.extend_from_slice(b"GIF89a");
    input.extend_from_slice(&[0x01, 0x00]);
    assert!(matches!(strip(&input), Err(Error::InvalidData(_))));
    assert!(matches!(strip(b"GIF8"), Err(Error::FormatDetectionFailed)));
}

#[test]
fn test_gif87a() {
    let mut gif = create_minimal_gif();
    gif[0..6].copy_from_slice(b"GIF87a");
    let output = strip(&gif).unwrap();
    assert!(output.starts_with(b"GIF87a"));
    assert_eq!(output, gif);
}

#[test]
fn test_truncated_gct_is_invalid() {
    let mut input = screen(false);
    input[10] = 0x87; // announces 768 bytes of colour table
    input.push(0x3B);
    assert!(matches!(strip(&input), Err(Error::InvalidData(_))));
}

#[test]
fn test_missing_trailer_is_invalid() {
    let mut input = screen(false);
    input.extend(image());
    assert!(matches!(strip(&input), Err(Error::InvalidData(_))));
}

#[test]
fn test_unexpected_introducer_is_invalid() {
    let mut input = screen(false);
    input.push(0x99);
    input.push(0x3B);
    assert!(matches!(strip(&input), Err(Error::InvalidData(_))));
}

#[test]
fn test_truncated_sub_block_is_invalid() {
    let mut input = screen(false);
    input.extend_from_slice(&[0x21, 0xFE, 0x20, b'x']);
    assert!(matches!(strip(&input), Err(Error::InvalidData(_))));
}

#[test]
fn test_gif_options_not_read() {
    let mut input = screen(false);
    input.extend(comment(b"c"));
    input.extend(image());
    input.push(0x3B);
    let none = RemovalOptions {
        exif: false,
        xmp: false,
        iptc: false,
        icc_profile: false,
        document_properties: false,
        comments: false,
        timestamps: false,
    };
    assert_eq!(GifRemover.remove_metadata(&input, &none).unwrap(), create_minimal_gif());
    assert_eq!(GifRemover.format(), FileFormat::Gif);
}
