use exif_rm::remove::mp3::decode_syncsafe;
use exif_rm::{MetadataRemover, Mp3Remover, RemovalOptions};
#[test]
fn test_decode_syncsafe() {
    assert_eq!(decode_syncsafe(&[0x00, 0x00, 0x00, 0x00]), 0);
    assert_eq!(decode_syncsafe(&[0x00, 0x00, 0x00, 0x01]), 1);
    assert_eq!(decode_syncsafe(&[0x00, 0x00, 0x01, 0x00]), 128);
    assert_eq!(decode_syncsafe(&[0x7F, 0x7F, 0x7F, 0x7F]), 268435455);
}

#[test]
fn test_strip_id3v2_only() {
    let body = b"TIT2\x00\x00\x00\x04\x00\x00\x00Test";
    let mut input = Vec::new();
    input.extend_from_slice(b"ID3");
    input.extend_from_slice(&[0x03, 0x00, 0x00]); // version + flags
    // syncsafe size = 15 bytes
    input.extend_from_slice(&[0x00, 0x00, 0x00, 0x0F]);
    input.extend_from_slice(body);
    input.extend_from_slice(&[0xFF, 0xFB, 0x90, 0x00]); // fake frame
    let output = Mp3Remover.remove_metadata(&input, &RemovalOptions::default()).unwrap();
    assert!(!output.starts_with(b"ID3"));
    assert!(output.starts_with(&[0xFF, 0xFB]));
}

#[test]
fn test_strip_id3v1_only() {
    let mut input = vec![0xFF, 0xFB, 0x90, 0x00]; // fake frame
    input.extend_from_slice(b"TAG");
    input.extend_from_slice(&[0u8; 125]);
    let output = Mp3Remover.remove_metadata(&input, &RemovalOptions::default()).unwrap();
    assert!(!output.windows(3).any(|w| w == b"TAG"));
}

#[test]
fn test_truncated_id3v2_header() {
    let input = b"ID3\x03\x00".as_slice(); // only 5 bytes
    let result = Mp3Remover.remove_metadata(input, &RemovalOptions::default());
    assert!(result.is_err());
}

#[test]
fn test_no_audio_data() {
    let mut input = Vec::new();
    input.extend_from_slice(b"ID3");
    input.extend_from_slice(&[0x03, 0x00, 0x00]);
    input.extend_from_slice(&[0x00, 0x00, 0x00, 0x00]); // size = 0
    let result = Mp3Remover.remove_metadata(&input, &RemovalOptions::default());
    assert!(result.is_err());
}
