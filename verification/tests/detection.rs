use exif_rm::format::office_format_from_entries;
use exif_rm::{detect_format, Error, FileFormat};
use std::io::{Cursor, Write};

fn padded(prefix: &[u8]) -> Vec<u8> {
    let mut v = prefix.to_vec();
    v.resize(16, 0x11);
    v
}

#[test]
fn detects_by_signature() {
    assert_eq!(detect_format(&padded(&[0xFF, 0xD8, 0xFF])).unwrap(), FileFormat::Jpeg);
    assert_eq!(detect_format(&padded(&[0x89, 0x50, 0x4E, 0x47, 0x0D, 0x0A, 0x1A, 0x0A])).unwrap(), FileFormat::Png);
    assert_eq!(detect_format(&padded(b"GIF87a")).unwrap(), FileFormat::Gif);
    assert_eq!(detect_format(&padded(b"GIF89a")).unwrap(), FileFormat::Gif);
    assert_eq!(detect_format(&padded(b"%PDF-1.7")).unwrap(), FileFormat::Pdf);
    assert_eq!(detect_format(&padded(b"ID3\x03\x00")).unwrap(), FileFormat::Mp3);
    assert_eq!(detect_format(&padded(&[0xFF, 0xFB, 0x90])).unwrap(), FileFormat::Mp3);
}

#[test]
fn detects_heic_and_mp4() {
    let mut heic = vec![0, 0, 0, 16];
    heic.extend_from_slice(b"ftypheic\0\0\0\0");
    assert_eq!(detect_format(&heic).unwrap(), FileFormat::Heic);
    let mut compat = vec![0, 0, 0, 24];
    compat.extend_from_slice(b"ftypmif1\0\0\0\0mif1heic");
    assert_eq!(detect_format(&compat).unwrap(), FileFormat::Heic);
    let mut mp4 = vec![0, 0, 0, 20];
    mp4.extend_from_slice(b"ftypisom\0\0\0\0isom");
    assert_eq!(detect_format(&mp4).unwrap(), FileFormat::Mp4);
    // An ftyp box longer than the data is not inspected for brands.
    let mut long = vec![0, 0, 0, 64];
    long.extend_from_slice(b"ftypheic\0\0\0\0");
    assert_eq!(detect_format(&long).unwrap(), FileFormat::Mp4);
}

#[test]
fn detects_webp_and_trailer() {
    let mut webp = b"RIFF".to_vec();
    webp.extend_from_slice(&4u32.to_le_bytes());
    webp.extend_from_slice(b"WEBP");
    assert_eq!(detect_format(&webp).unwrap(), FileFormat::Webp);
    let mut tagged = vec![0x01; 200];
    tagged[72] = b'T';
    tagged[73] = b'A';
    tagged[74] = b'G';
    assert_eq!(detect_format(&tagged).unwrap(), FileFormat::Mp3);
}

#[test]
fn refuses_short_and_unknown() {
    assert!(matches!(detect_format(b"GIF89a"), Err(Error::FormatDetectionFailed)));
    assert!(matches!(detect_format(&[0x01; 32]), Err(Error::UnsupportedFormat)));
}

fn zip_with(names: &[&str]) -> Vec<u8> {
    let mut writer = zip::ZipWriter::new(Cursor::new(Vec::new()));
    for name in names {
        let options = zip::write::SimpleFileOptions::default().compression_method(zip::CompressionMethod::Stored);
        writer.start_file(*name, options).unwrap();
        writer.write_all(b"<xml/>").unwrap();
    }
    writer.finish().unwrap().into_inner()
}

#[test]
fn detects_office_formats_from_zip_entries() {
    assert_eq!(detect_format(&zip_with(&["[Content_Types].xml", "word/document.xml"])).unwrap(), FileFormat::Docx);
    assert_eq!(detect_format(&zip_with(&["xl/workbook.xml"])).unwrap(), FileFormat::Xlsx);
    assert_eq!(detect_format(&zip_with(&["docProps/app.xml", "ppt/presentation.xml"])).unwrap(), FileFormat::Pptx);
    assert!(matches!(detect_format(&zip_with(&["readme.txt"])), Err(Error::InvalidData(_))));
}

#[test]
fn broken_zip_is_invalid_data() {
    let mut bytes = vec![0x50, 0x4B, 0x03, 0x04];
    bytes.extend_from_slice(&[0u8; 40]);
    assert!(matches!(detect_format(&bytes), Err(Error::InvalidData(_))));
}

#[test]
fn office_format_from_entry_names() {
    let names = vec![Some(b"docProps/core.xml".to_vec()), Some(b"xl/styles.xml".to_vec())];
    assert_eq!(office_format_from_entries(&names).unwrap(), FileFormat::Xlsx);
    let unreadable_first = vec![None, Some(b"word/document.xml".to_vec())];
    assert!(matches!(office_format_from_entries(&unreadable_first), Err(Error::InvalidData(_))));
    let unreadable_after = vec![Some(b"ppt/slides/slide1.xml".to_vec()), None];
    assert_eq!(office_format_from_entries(&unreadable_after).unwrap(), FileFormat::Pptx);
    assert!(matches!(office_format_from_entries(&vec![]), Err(Error::InvalidData(_))));
}

#[test]
fn short_ftyp_without_heic_brand_is_mp4() {
    let mut bytes = vec![0, 0, 0, 12];
    bytes.extend_from_slice(b"ftypisom");
    assert_eq!(detect_format(&bytes).unwrap(), FileFormat::Mp4);
    let mut bytes = vec![0, 0, 0, 14];
    bytes.extend_from_slice(b"ftypisom\0\0");
    assert_eq!(detect_format(&bytes).unwrap(), FileFormat::Mp4);
}
