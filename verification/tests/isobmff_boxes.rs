use exif_rm::remove::isobmff::{read_box_header, read_fullbox_header, write_box, write_fullbox};
use std::io::Cursor;

#[test]
fn written_box_reads_back() {
    let mut out = vec![0xAA, 0xBB];
    write_box(&mut out, b"free", &[1, 2, 3]).unwrap();
    assert_eq!(out, vec![0xAA, 0xBB, 0, 0, 0, 11, b'f', b'r', b'e', b'e', 1, 2, 3]);
    let mut cursor = Cursor::new(out.as_slice());
    cursor.set_position(2);
    let header = read_box_header(&mut cursor).unwrap();
    assert_eq!(header, (11, 8, *b"free"));
    assert_eq!(cursor.position(), 10);
}

#[test]
fn written_fullbox_reads_back() {
    let mut out = Vec::new();
    write_fullbox(&mut out, b"iinf", 1, 0xFF00_0203, &[9, 9]).unwrap();
    assert_eq!(out, vec![0, 0, 0, 14, b'i', b'i', b'n', b'f', 1, 0x00, 0x02, 0x03, 9, 9]);
    let mut cursor = Cursor::new(out.as_slice());
    let header = read_fullbox_header(&mut cursor).unwrap();
    assert_eq!(header, (14, 12, *b"iinf", 1, 0x0203));
    assert_eq!(cursor.position(), 12);
}

#[test]
fn extended_size_box_header() {
    let mut data = vec![0, 0, 0, 1];
    data.extend_from_slice(b"mdat");
    data.extend_from_slice(&40u64.to_be_bytes());
    data.extend_from_slice(&[0u8; 24]);
    let mut cursor = Cursor::new(data.as_slice());
    assert_eq!(read_box_header(&mut cursor), Some((40, 16, *b"mdat")));
    assert_eq!(cursor.position(), 16);
}

#[test]
fn size_zero_box_runs_to_end() {
    let mut data = vec![0xEE; 3];
    data.extend_from_slice(&[0, 0, 0, 0]);
    data.extend_from_slice(b"mdat");
    data.extend_from_slice(&[1, 2, 3, 4, 5]);
    let mut cursor = Cursor::new(data.as_slice());
    cursor.set_position(3);
    assert_eq!(read_box_header(&mut cursor), Some((13, 8, *b"mdat")));
    assert_eq!(cursor.position(), 11);
}

#[test]
fn short_header_reads_nothing() {
    let data = [0u8, 0, 0, 12, b'f', b't', b'y'];
    let mut cursor = Cursor::new(&data[..]);
    assert_eq!(read_box_header(&mut cursor), None);
    assert_eq!(cursor.position(), 0);
    let mut data = vec![0, 0, 0, 1];
    data.extend_from_slice(b"mdat");
    data.extend_from_slice(&[0, 0, 0]);
    let mut cursor = Cursor::new(data.as_slice());
    assert_eq!(read_box_header(&mut cursor), None);
    let fb = [0u8, 0, 0, 12, b'm', b'e', b't', b'a', 0, 0, 0];
    let mut cursor = Cursor::new(&fb[..]);
    assert_eq!(read_fullbox_header(&mut cursor), None);
    assert_eq!(cursor.position(), 0);
}

#[test]
fn fullbox_extended_and_to_end() {
    let mut data = vec![0, 0, 0, 1];
    data.extend_from_slice(b"meta");
    data.extend_from_slice(&100u64.to_be_bytes());
    data.extend_from_slice(&[2, 0, 0, 7]);
    let mut cursor = Cursor::new(data.as_slice());
    assert_eq!(read_fullbox_header(&mut cursor), Some((100, 20, *b"meta", 2, 7)));
    assert_eq!(cursor.position(), 20);
    let mut data = vec![0, 0, 0, 0];
    data.extend_from_slice(b"meta");
    data.extend_from_slice(&[0, 0, 0, 1, 0xAB]);
    let mut cursor = Cursor::new(data.as_slice());
    assert_eq!(read_fullbox_header(&mut cursor), Some((13, 12, *b"meta", 0, 1)));
}
