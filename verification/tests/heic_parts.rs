use exif_rm::remove::heic_items::{
    adjust_iloc_offsets, adjust_offset_field, find_metadata_item_ids, is_infe_removed, rebuild_iinf, rebuild_iloc,
    rebuild_iref,
};
use exif_rm::remove::heic_props::{find_colr_index, process_iprp, rebuild_ipco, rebuild_ipma};
use exif_rm::remove::isobmff::read_box_header;
use exif_rm::{Error, HeicRemover, MetadataRemover, RemovalOptions};
use std::collections::HashSet;

fn bx(box_type: &[u8; 4], content: &[u8]) -> Vec<u8> {
    let mut v = ((8 + content.len()) as u32).to_be_bytes().to_vec();
    v.extend_from_slice(box_type);
    v.extend_from_slice(content);
    v
}

fn infe(id: u16, item_type: &[u8; 4]) -> Vec<u8> {
    let mut c = vec![2, 0, 0, 0];
    c.extend_from_slice(&id.to_be_bytes());
    c.extend_from_slice(&[0, 0]);
    c.extend_from_slice(item_type);
    c.push(0);
    bx(b"infe", &c)
}

fn iinf_v0(entries: &[Vec<u8>]) -> Vec<u8> {
    let mut v = vec![0, 0, 0, 0];
    v.extend_from_slice(&(entries.len() as u16).to_be_bytes());
    for e in entries {
        v.extend_from_slice(e);
    }
    v
}

fn ids(v: &[u16]) -> HashSet<u16> {
    v.iter().copied().collect()
}

#[test]
fn metadata_items_found_by_type() {
    let iinf = iinf_v0(&[infe(1, b"hvc1"), infe(2, b"Exif"), infe(3, b"mime")]);
    assert_eq!(find_metadata_item_ids(&iinf, &RemovalOptions::default()), ids(&[2, 3]));
    let exif_only = RemovalOptions { xmp: false, ..RemovalOptions::default() };
    assert_eq!(find_metadata_item_ids(&iinf, &exif_only), ids(&[2]));
    let none = RemovalOptions { exif: false, xmp: false, ..RemovalOptions::default() };
    assert!(find_metadata_item_ids(&iinf, &none).is_empty());
    assert!(find_metadata_item_ids(&[0, 0, 0], &RemovalOptions::default()).is_empty());
}

fn infe_with_content_type(id: u16, name: &[u8], content_type: &[u8]) -> Vec<u8> {
    let mut c = vec![2, 0, 0, 0];
    c.extend_from_slice(&id.to_be_bytes());
    c.extend_from_slice(&[0, 0]);
    c.extend_from_slice(b"mime");
    c.extend_from_slice(name);
    c.push(0);
    c.extend_from_slice(content_type);
    c.push(0);
    bx(b"infe", &c)
}

#[test]
fn mime_items_removed_only_when_xmp() {
    let iinf = iinf_v0(&[
        infe_with_content_type(1, b"text", b"text/plain"),
        infe_with_content_type(2, b"XMP", b"application/rdf+xml"),
        infe_with_content_type(3, b"", b"application/rdf+xml"),
        infe(4, b"mime"),
    ]);
    assert_eq!(find_metadata_item_ids(&iinf, &RemovalOptions::default()), ids(&[2, 3, 4]));
    let only_plain = iinf_v0(&[infe_with_content_type(1, b"", b"text/plain")]);
    assert!(find_metadata_item_ids(&only_plain, &RemovalOptions::default()).is_empty());
}

#[test]
fn short_iinf_of_version_one_is_invalid() {
    assert!(matches!(rebuild_iinf(&[1, 0, 0, 0, 0, 0], &ids(&[])), Err(Error::InvalidData(_))));
    assert!(matches!(rebuild_iinf(&[1, 0, 0, 0, 0, 0, 0], &ids(&[])), Err(Error::InvalidData(_))));
    assert_eq!(rebuild_iinf(&[1, 0, 0, 0, 0, 0, 0, 0], &ids(&[])).unwrap(), vec![1, 0, 0, 0, 0, 0, 0, 0]);
}

#[test]
fn iinf_rebuilt_without_removed_items() {
    let iinf = iinf_v0(&[infe(1, b"hvc1"), infe(2, b"Exif")]);
    let out = rebuild_iinf(&iinf, &ids(&[2])).unwrap();
    assert_eq!(out, iinf_v0(&[infe(1, b"hvc1")]));
    assert_eq!(rebuild_iinf(&iinf, &ids(&[])).unwrap(), iinf);
    assert!(matches!(rebuild_iinf(&[0, 0, 0, 0, 0], &ids(&[])), Err(Error::InvalidData(_))));
}

#[test]
fn infe_removed_by_id() {
    let e = infe(7, b"Exif");
    assert!(is_infe_removed(&e, &ids(&[7]), 2));
    assert!(!is_infe_removed(&e, &ids(&[8]), 2));
    assert!(!is_infe_removed(&e[..12], &ids(&[7]), 2));
}

fn iloc_item(id: u16, offset: u32, length: u32) -> Vec<u8> {
    let mut v = id.to_be_bytes().to_vec();
    v.extend_from_slice(&[0, 0]); // data_reference_index
    v.extend_from_slice(&[0, 1]); // extent_count
    v.extend_from_slice(&offset.to_be_bytes());
    v.extend_from_slice(&length.to_be_bytes());
    v
}

fn iloc_v0(items: &[Vec<u8>]) -> Vec<u8> {
    let mut v = vec![0, 0, 0, 0, 0x44, 0x00];
    v.extend_from_slice(&(items.len() as u16).to_be_bytes());
    for i in items {
        v.extend_from_slice(i);
    }
    v
}

#[test]
fn iloc_rebuilt_without_removed_items() {
    let iloc = iloc_v0(&[iloc_item(1, 100, 10), iloc_item(2, 110, 5)]);
    assert_eq!(rebuild_iloc(&iloc, &ids(&[2])).unwrap(), iloc_v0(&[iloc_item(1, 100, 10)]));
    assert_eq!(rebuild_iloc(&iloc, &ids(&[1, 2])).unwrap(), iloc_v0(&[]));
    assert_eq!(rebuild_iloc(&iloc, &ids(&[])).unwrap(), iloc);
}

#[test]
fn iloc_errors() {
    assert!(matches!(rebuild_iloc(&[0; 7], &ids(&[])), Err(Error::InvalidData(_))));
    let mut v2 = iloc_v0(&[]);
    v2[0] = 2;
    assert!(matches!(rebuild_iloc(&v2, &ids(&[])), Err(Error::InvalidData(_))));
}

fn iref_entry(from: u16, to: u16) -> Vec<u8> {
    let mut c = from.to_be_bytes().to_vec();
    c.extend_from_slice(&[0, 1]);
    c.extend_from_slice(&to.to_be_bytes());
    bx(b"cdsc", &c)
}

#[test]
fn iref_rebuilt_without_removed_sources() {
    let mut iref = vec![0, 0, 0, 0];
    iref.extend(iref_entry(2, 1));
    iref.extend(iref_entry(1, 3));
    let mut expected = vec![0, 0, 0, 0];
    expected.extend(iref_entry(1, 3));
    assert_eq!(rebuild_iref(&iref, &ids(&[2])).unwrap(), expected);
    assert!(rebuild_iref(&iref, &ids(&[1, 2])).unwrap().is_empty());
    assert_eq!(rebuild_iref(&iref, &ids(&[])).unwrap(), iref);
    assert!(rebuild_iref(&[0, 0, 0, 0], &ids(&[])).unwrap().is_empty());
    assert!(matches!(rebuild_iref(&[0, 0, 0], &ids(&[])), Err(Error::InvalidData(_))));
}

#[test]
fn ipma_drops_colr_associations() {
    // version 0, one entry for item 1 with associations 1 (essential) and 2
    let ipma = vec![0, 0, 0, 0, 0, 0, 0, 1, 0, 1, 2, 0x81, 0x82];
    let out = rebuild_ipma(&ipma, 2).unwrap();
    assert_eq!(out, vec![0, 0, 0, 0, 0, 0, 0, 1, 0, 1, 1, 0x81]);
    assert_eq!(rebuild_ipma(&[1, 2, 3], 2).unwrap(), vec![1, 2, 3]);
}

#[test]
fn ipma_renumbers_later_properties() {
    // version 0: item 1 -> properties 1, 2 (colr), 3 (essential), 4
    let ipma = vec![0, 0, 0, 0, 0, 0, 0, 1, 0, 1, 4, 0x01, 0x02, 0x83, 0x04];
    assert_eq!(rebuild_ipma(&ipma, 2).unwrap(), vec![0, 0, 0, 0, 0, 0, 0, 1, 0, 1, 3, 0x01, 0x82, 0x03]);
    // version 1: two-byte associations
    let ipma1 = vec![1, 0, 0, 0, 0, 0, 0, 1, 0, 0, 0, 7, 3, 0x80, 0x01, 0x00, 0x02, 0x80, 0x03];
    assert_eq!(
        rebuild_ipma(&ipma1, 2).unwrap(),
        vec![1, 0, 0, 0, 0, 0, 0, 1, 0, 0, 0, 7, 2, 0x80, 0x01, 0x80, 0x02]
    );
}

#[test]
fn ipco_drops_the_colr_property() {
    let ispe = bx(b"ispe", &[0; 12]);
    let colr = bx(b"colr", b"prof");
    let pixi = bx(b"pixi", &[0, 0, 0, 0, 1, 8]);
    let ipco = [ispe.clone(), colr, pixi.clone()].concat();
    assert_eq!(find_colr_index(&ipco), Some(2));
    assert_eq!(rebuild_ipco(&ipco, 2).unwrap(), [ispe, pixi].concat());
    assert_eq!(find_colr_index(&bx(b"ispe", &[0; 12])), None);
}

#[test]
fn iprp_rebuilt_without_colr() {
    let ispe = bx(b"ispe", &[0; 12]);
    let colr = bx(b"colr", b"prof");
    let ipco = bx(b"ipco", &[ispe.clone(), colr].concat());
    let ipma_content = vec![0, 0, 0, 0, 0, 0, 0, 1, 0, 1, 2, 0x81, 0x02];
    let ipma = bx(b"ipma", &ipma_content);
    let iprp = [ipco, ipma].concat();
    let out = process_iprp(&iprp).unwrap();
    let expected = [bx(b"ipco", &ispe), bx(b"ipma", &rebuild_ipma(&ipma_content, 2).unwrap())].concat();
    assert_eq!(out, expected);
    let plain = bx(b"ipco", &ispe);
    assert_eq!(process_iprp(&plain).unwrap(), plain);
}

#[test]
fn offset_field_adjusted() {
    let mut buf = vec![0, 0, 0, 100];
    adjust_offset_field(&mut buf, 0, 4, 10, true).unwrap();
    assert_eq!(buf, vec![0, 0, 0, 90]);
    adjust_offset_field(&mut buf, 0, 4, 10, false).unwrap();
    assert_eq!(buf, vec![0, 0, 0, 90]);
    adjust_offset_field(&mut buf, 0, 2, 10, true).unwrap();
    assert_eq!(buf, vec![0, 0, 0, 90]);
    adjust_offset_field(&mut buf, 0, 4, -6, true).unwrap();
    assert_eq!(buf, vec![0, 0, 0, 96]);
    assert!(matches!(adjust_offset_field(&mut buf, 0, 4, 200, true), Err(Error::InvalidData(_))));
    assert_eq!(buf, vec![0, 0, 0, 96]);
    let mut wide = vec![0, 0, 0, 1, 0, 0, 0, 0];
    adjust_offset_field(&mut wide, 0, 8, 1, true).unwrap();
    assert_eq!(wide, vec![0, 0, 0, 0, 0xFF, 0xFF, 0xFF, 0xFF]);
    let mut short = vec![1, 2, 3];
    adjust_offset_field(&mut short, 0, 4, 1, true).unwrap();
    assert_eq!(short, vec![1, 2, 3]);
}

#[test]
fn iloc_offsets_shifted() {
    let content = iloc_v0(&[iloc_item(1, 100, 10), iloc_item(2, 110, 5)]);
    let mut iloc = bx(b"iloc", &content);
    adjust_iloc_offsets(&mut iloc, 20).unwrap();
    assert_eq!(iloc, bx(b"iloc", &iloc_v0(&[iloc_item(1, 80, 10), iloc_item(2, 90, 5)])));
    let mut too_far = bx(b"iloc", &content);
    assert!(matches!(adjust_iloc_offsets(&mut too_far, 101), Err(Error::InvalidData(_))));
}

fn iloc_based_item(id: u16, base: u32, offset: u32, length: u32) -> Vec<u8> {
    let mut v = id.to_be_bytes().to_vec();
    v.extend_from_slice(&[0, 0]); // data_reference_index
    v.extend_from_slice(&base.to_be_bytes());
    v.extend_from_slice(&[0, 1]); // extent_count
    v.extend_from_slice(&offset.to_be_bytes());
    v.extend_from_slice(&length.to_be_bytes());
    v
}

fn iloc_v0_based(items: &[Vec<u8>]) -> Vec<u8> {
    let mut v = vec![0, 0, 0, 0, 0x44, 0x40];
    v.extend_from_slice(&(items.len() as u16).to_be_bytes());
    for i in items {
        v.extend_from_slice(i);
    }
    v
}

#[test]
fn iloc_positions_shifted_once_with_base_offsets() {
    // base 100 + extent 0: the base offset takes the whole delta
    let mut iloc = bx(b"iloc", &iloc_v0_based(&[iloc_based_item(1, 100, 0, 10)]));
    adjust_iloc_offsets(&mut iloc, 20).unwrap();
    assert_eq!(iloc, bx(b"iloc", &iloc_v0_based(&[iloc_based_item(1, 80, 0, 10)])));
    // base 5 + extent 50: the base offset goes to 0, the extent takes the rest
    let mut iloc = bx(b"iloc", &iloc_v0_based(&[iloc_based_item(1, 5, 50, 10)]));
    adjust_iloc_offsets(&mut iloc, 20).unwrap();
    assert_eq!(iloc, bx(b"iloc", &iloc_v0_based(&[iloc_based_item(1, 0, 35, 10)])));
    // position 15 cannot move back by 20
    let mut iloc = bx(b"iloc", &iloc_v0_based(&[iloc_based_item(1, 5, 10, 10)]));
    assert!(matches!(adjust_iloc_offsets(&mut iloc, 20), Err(Error::InvalidData(_))));
    // a larger meta box moves positions forward through the base offset
    let mut iloc = bx(b"iloc", &iloc_v0_based(&[iloc_based_item(1, 5, 10, 10)]));
    adjust_iloc_offsets(&mut iloc, -4).unwrap();
    assert_eq!(iloc, bx(b"iloc", &iloc_v0_based(&[iloc_based_item(1, 9, 10, 10)])));
}

#[test]
fn meta_with_extended_size_is_rewritten_with_its_true_size() {
    let ftyp = bx(b"ftyp", b"heic\0\0\0\0mif1");
    let mut meta = vec![0, 0, 0, 1];
    meta.extend_from_slice(b"meta");
    meta.extend_from_slice(&20u64.to_be_bytes());
    meta.extend_from_slice(&[0, 0, 0, 0]);
    let mdat = bx(b"mdat", &[1, 2, 3]);
    let input = [ftyp.clone(), meta, mdat.clone()].concat();
    let out = HeicRemover.remove_metadata(&input, &RemovalOptions::default()).unwrap();
    assert_eq!(out, [ftyp, bx(b"meta", &[0, 0, 0, 0]), mdat].concat());
    let mut cursor = std::io::Cursor::new(out.as_slice());
    let mut types = Vec::new();
    while let Some((total, header, ty)) = read_box_header(&mut cursor) {
        let start = cursor.position() as usize - header;
        assert!(start + total <= out.len());
        types.push(ty);
        cursor.set_position((start + total) as u64);
    }
    assert_eq!(types, vec![*b"ftyp", *b"meta", *b"mdat"]);
}
