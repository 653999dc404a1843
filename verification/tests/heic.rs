use exif_rm::remove::isobmff::read_box_header;
use exif_rm::{HeicRemover, MetadataRemover, RemovalOptions};
use std::io::Cursor;
fn make_box(box_type: &[u8], content: &[u8]) -> Vec<u8> {
    let size = (8 + content.len()) as u32;
    let mut buf = size.to_be_bytes().to_vec();
    buf.extend_from_slice(box_type);
    buf.extend_from_slice(content);
    buf
}

fn make_fullbox(box_type: &[u8], version: u8, flags: u32, content: &[u8]) -> Vec<u8> {
    let vf = ((version as u32) << 24) | flags;
    let mut full_content = vf.to_be_bytes().to_vec();
    full_content.extend_from_slice(content);
    make_box(box_type, &full_content)
}

fn create_minimal_heic() -> Vec<u8> {
    let mut heic = Vec::new();
    let mut ftyp_content = b"heic".to_vec();
    ftyp_content.extend_from_slice(&0u32.to_be_bytes());
    heic.extend_from_slice(&make_box(b"ftyp", &ftyp_content));

    let mut hdlr_content = Vec::new();
    hdlr_content.extend_from_slice(&0u32.to_be_bytes());
    hdlr_content.extend_from_slice(b"pict");
    hdlr_content.extend_from_slice(&[0u8; 12]);
    hdlr_content.push(0);
    let hdlr = make_fullbox(b"hdlr", 0, 0, &hdlr_content);
    let meta = make_fullbox(b"meta", 0, 0, &hdlr);
    heic.extend_from_slice(&meta);

    heic.extend_from_slice(&make_box(b"mdat", b"fake image data"));
    heic
}

/// Create a minimal HEIC with an EXIF item (id=1) and an hvc1 item (id=2)
fn create_heic_with_exif() -> Vec<u8> {
    let mut heic = Vec::new();

    // ftyp box
    let mut ftyp_content = b"heic".to_vec();
    ftyp_content.extend_from_slice(&0u32.to_be_bytes());
    heic.extend_from_slice(&make_box(b"ftyp", &ftyp_content));

    // Build meta box contents
    let mut meta_inner = Vec::new();

    // hdlr box
    let mut hdlr_content = Vec::new();
    hdlr_content.extend_from_slice(&0u32.to_be_bytes()); // pre_defined
    hdlr_content.extend_from_slice(b"pict");
    hdlr_content.extend_from_slice(&[0u8; 12]); // reserved
    hdlr_content.push(0); // name null terminator
    meta_inner.extend_from_slice(&make_fullbox(b"hdlr", 0, 0, &hdlr_content));

    // iinf box with 2 items: Exif (id=1) and hvc1 (id=2)
    let mut iinf_entries = Vec::new();

    // infe for Exif item (id=1)
    let mut infe1_content = Vec::new();
    infe1_content.extend_from_slice(&1u16.to_be_bytes()); // item_id
    infe1_content.extend_from_slice(&0u16.to_be_bytes()); // item_protection_index
    infe1_content.extend_from_slice(b"Exif"); // item_type
    infe1_content.push(0); // item_name null terminator
    iinf_entries.extend_from_slice(&make_fullbox(b"infe", 0, 0, &infe1_content));

    // infe for hvc1 item (id=2)
    let mut infe2_content = Vec::new();
    infe2_content.extend_from_slice(&2u16.to_be_bytes()); // item_id
    infe2_content.extend_from_slice(&0u16.to_be_bytes()); // item_protection_index
    infe2_content.extend_from_slice(b"hvc1"); // item_type
    infe2_content.push(0); // item_name null terminator
    iinf_entries.extend_from_slice(&make_fullbox(b"infe", 0, 0, &infe2_content));

    // iinf fullbox: version=0, flags=0, entry_count=2
    let mut iinf_content = (2u16).to_be_bytes().to_vec();
    iinf_content.extend_from_slice(&iinf_entries);
    meta_inner.extend_from_slice(&make_fullbox(b"iinf", 0, 0, &iinf_content));

    // iloc box with 2 items
    // version=0, offset_size=0, length_size=0, base_offset_size=0
    let mut iloc_content = Vec::new();
    iloc_content.push(0x00); // offset_size=0, length_size=0
    iloc_content.push(0x00); // base_offset_size=0
    iloc_content.extend_from_slice(&2u16.to_be_bytes()); // item_count=2

    // item 1 (Exif): item_id=1, data_reference_index=0, extent_count=0
    iloc_content.extend_from_slice(&1u16.to_be_bytes()); // item_id
    iloc_content.extend_from_slice(&0u16.to_be_bytes()); // data_reference_index
    iloc_content.extend_from_slice(&0u16.to_be_bytes()); // extent_count

    // item 2 (hvc1): item_id=2, data_reference_index=0, extent_count=1
    iloc_content.extend_from_slice(&2u16.to_be_bytes()); // item_id
    iloc_content.extend_from_slice(&0u16.to_be_bytes()); // data_reference_index
    iloc_content.extend_from_slice(&1u16.to_be_bytes()); // extent_count
    // extent: offset(0) + length(4) - but offset_size=0, length_size=0, so no extent data
    // Actually with offset_size=0 and length_size=0, extents have 0 bytes per extent
    // That's fine for testing

    meta_inner.extend_from_slice(&make_fullbox(b"iloc", 0, 0, &iloc_content));

    // meta fullbox
    heic.extend_from_slice(&make_fullbox(b"meta", 0, 0, &meta_inner));

    // mdat box
    heic.extend_from_slice(&make_box(b"mdat", b"fake image data"));

    heic
}

/// Create a minimal HEIC with an XMP/mime item (id=1) and an hvc1 item (id=2)
fn create_heic_with_xmp() -> Vec<u8> {
    let mut heic = Vec::new();

    // ftyp box
    let mut ftyp_content = b"heic".to_vec();
    ftyp_content.extend_from_slice(&0u32.to_be_bytes());
    heic.extend_from_slice(&make_box(b"ftyp", &ftyp_content));

    // Build meta box contents
    let mut meta_inner = Vec::new();

    // hdlr box
    let mut hdlr_content = Vec::new();
    hdlr_content.extend_from_slice(&0u32.to_be_bytes());
    hdlr_content.extend_from_slice(b"pict");
    hdlr_content.extend_from_slice(&[0u8; 12]);
    hdlr_content.push(0);
    meta_inner.extend_from_slice(&make_fullbox(b"hdlr", 0, 0, &hdlr_content));

    // iinf box with 2 items: mime/XMP (id=1) and hvc1 (id=2)
    let mut iinf_entries = Vec::new();

    // infe for XMP item (id=1, type="mime")
    let mut infe1_content = Vec::new();
    infe1_content.extend_from_slice(&1u16.to_be_bytes()); // item_id
    infe1_content.extend_from_slice(&0u16.to_be_bytes()); // item_protection_index
    infe1_content.extend_from_slice(b"mime"); // item_type
    infe1_content.push(0); // item_name null terminator
    iinf_entries.extend_from_slice(&make_fullbox(b"infe", 0, 0, &infe1_content));

    // infe for hvc1 item (id=2)
    let mut infe2_content = Vec::new();
    infe2_content.extend_from_slice(&2u16.to_be_bytes()); // item_id
    infe2_content.extend_from_slice(&0u16.to_be_bytes()); // item_protection_index
    infe2_content.extend_from_slice(b"hvc1"); // item_type
    infe2_content.push(0); // item_name null terminator
    iinf_entries.extend_from_slice(&make_fullbox(b"infe", 0, 0, &infe2_content));

    // iinf fullbox: version=0, flags=0, entry_count=2
    let mut iinf_content = (2u16).to_be_bytes().to_vec();
    iinf_content.extend_from_slice(&iinf_entries);
    meta_inner.extend_from_slice(&make_fullbox(b"iinf", 0, 0, &iinf_content));

    // iloc box with 2 items
    let mut iloc_content = Vec::new();
    iloc_content.push(0x00); // offset_size=0, length_size=0
    iloc_content.push(0x00); // base_offset_size=0
    iloc_content.extend_from_slice(&2u16.to_be_bytes()); // item_count=2

    // item 1 (XMP): item_id=1, data_reference_index=0, extent_count=0
    iloc_content.extend_from_slice(&1u16.to_be_bytes());
    iloc_content.extend_from_slice(&0u16.to_be_bytes());
    iloc_content.extend_from_slice(&0u16.to_be_bytes());

    // item 2 (hvc1): item_id=2, data_reference_index=0, extent_count=0
    iloc_content.extend_from_slice(&2u16.to_be_bytes());
    iloc_content.extend_from_slice(&0u16.to_be_bytes());
    iloc_content.extend_from_slice(&0u16.to_be_bytes());

    meta_inner.extend_from_slice(&make_fullbox(b"iloc", 0, 0, &iloc_content));

    // meta fullbox
    heic.extend_from_slice(&make_fullbox(b"meta", 0, 0, &meta_inner));

    // mdat box
    heic.extend_from_slice(&make_box(b"mdat", b"fake image data"));

    heic
}

#[test]
fn test_heic_passthrough_no_metadata() {
    let input = create_minimal_heic();
    let output = HeicRemover.remove_metadata(&input, &RemovalOptions::default()).unwrap();
    assert_eq!(input, output, "HEIC with no metadata should pass through unchanged");
}

#[test]
fn test_heic_strip_exif() {
    let input = create_heic_with_exif();
    let output = HeicRemover.remove_metadata(&input, &RemovalOptions::default()).unwrap();

    // Output should be smaller (EXIF item removed)
    assert!(output.len() < input.len(), "Output should be smaller after EXIF removal");

    // ftyp should be preserved
    assert_eq!(&output[4..8], b"ftyp");
    assert_eq!(&output[8..12], b"heic");

    // mdat should be preserved
    let mdat_pos = output.windows(4).position(|w| w == b"mdat").unwrap();
    assert_eq!(&output[mdat_pos..mdat_pos + 4], b"mdat");
}

#[test]
fn test_heic_strip_xmp() {
    let input = create_heic_with_xmp();
    let output = HeicRemover.remove_metadata(&input, &RemovalOptions::default()).unwrap();

    // Output should be smaller (XMP item removed)
    assert!(output.len() < input.len(), "Output should be smaller after XMP removal");

    // ftyp should be preserved
    assert_eq!(&output[4..8], b"ftyp");
    assert_eq!(&output[8..12], b"heic");

    // mdat should be preserved
    let mdat_pos = output.windows(4).position(|w| w == b"mdat").unwrap();
    assert_eq!(&output[mdat_pos..mdat_pos + 4], b"mdat");
}

fn create_heic_with_icc() -> Vec<u8> {
    let mut heic = Vec::new();
    let mut ftyp_content = b"heic".to_vec();
    ftyp_content.extend_from_slice(&0u32.to_be_bytes());
    heic.extend_from_slice(&make_box(b"ftyp", &ftyp_content));

    let mut hdlr_content = Vec::new();
    hdlr_content.extend_from_slice(&0u32.to_be_bytes());
    hdlr_content.extend_from_slice(b"pict");
    hdlr_content.extend_from_slice(&[0u8; 12]);
    hdlr_content.push(0);
    let hdlr = make_fullbox(b"hdlr", 0, 0, &hdlr_content);

    let mut iinf_entries = Vec::new();
    let mut infe1 = Vec::new();
    infe1.extend_from_slice(&1u16.to_be_bytes());
    infe1.extend_from_slice(&0u16.to_be_bytes());
    infe1.extend_from_slice(b"hvc1");
    infe1.push(0);
    iinf_entries.extend_from_slice(&make_fullbox(b"infe", 0, 0, &infe1));

    let mut iinf_content = Vec::new();
    iinf_content.extend_from_slice(&1u16.to_be_bytes());
    iinf_content.extend_from_slice(&iinf_entries);
    let iinf = make_fullbox(b"iinf", 0, 0, &iinf_content);

    let mut iloc_content = Vec::new();
    iloc_content.push(0x44);
    iloc_content.push(0x00);
    iloc_content.extend_from_slice(&1u16.to_be_bytes());
    iloc_content.extend_from_slice(&1u16.to_be_bytes());
    iloc_content.extend_from_slice(&0u16.to_be_bytes());
    iloc_content.extend_from_slice(&1u16.to_be_bytes());
    iloc_content.extend_from_slice(&100u32.to_be_bytes());
    iloc_content.extend_from_slice(&20u32.to_be_bytes());
    let iloc = make_fullbox(b"iloc", 0, 0, &iloc_content);

    // iprp with ipco (ispe + colr) and ipma
    let ispe = make_box(b"ispe", &[0x00, 0x00, 0x00, 0x01, 0x00, 0x00, 0x00, 0x01]);
    let colr = make_box(b"colr", b"nclx\x01\x01\x01\x00");
    let mut ipco_content = Vec::new();
    ipco_content.extend_from_slice(&ispe);
    ipco_content.extend_from_slice(&colr);
    let ipco = make_box(b"ipco", &ipco_content);

    // ipma (v0): 1 entry, item_id=1, 2 associations [ispe(1), colr(2)]
    let mut ipma_content = Vec::new();
    ipma_content.extend_from_slice(&0u32.to_be_bytes()); // version=0, flags=0
    ipma_content.extend_from_slice(&1u32.to_be_bytes()); // entry_count
    ipma_content.extend_from_slice(&1u16.to_be_bytes()); // item_id
    ipma_content.push(2u8); // association_count
    ipma_content.push(0x81); // essential=1, property_index=1 (ispe)
    ipma_content.push(0x82); // essential=1, property_index=2 (colr)
    let ipma = make_box(b"ipma", &ipma_content);

    let mut iprp_content = Vec::new();
    iprp_content.extend_from_slice(&ipco);
    iprp_content.extend_from_slice(&ipma);
    let iprp = make_box(b"iprp", &iprp_content);

    let mut meta_inner = Vec::new();
    meta_inner.extend_from_slice(&hdlr);
    meta_inner.extend_from_slice(&iinf);
    meta_inner.extend_from_slice(&iloc);
    meta_inner.extend_from_slice(&iprp);
    let meta = make_fullbox(b"meta", 0, 0, &meta_inner);
    heic.extend_from_slice(&meta);

    heic.extend_from_slice(&make_box(b"mdat", b"fake image data"));
    heic
}

#[test]
fn test_heic_strip_icc() {
    let input = create_heic_with_icc();
    let options = RemovalOptions { icc_profile: true, ..RemovalOptions::default() };
    let output = HeicRemover.remove_metadata(&input, &options).unwrap();
    assert!(!output.windows(4).any(|w| w == b"colr"), "colr should be removed when icc_profile option is set");
    assert!(output.windows(4).any(|w| w == b"ispe"), "ispe should be preserved");
    assert_eq!(&output[4..8], b"ftyp");
    assert!(output.windows(4).any(|w| w == b"mdat"));
}

#[test]
fn test_heic_keep_icc_by_default() {
    let input = create_heic_with_icc();
    let output = HeicRemover.remove_metadata(&input, &RemovalOptions::default()).unwrap();
    assert!(output.windows(4).any(|w| w == b"colr"), "colr should be preserved by default");
}

#[test]
fn test_heic_invalid_header() {
    let input = b"not a heic file at all".to_vec();
    let result = HeicRemover.remove_metadata(&input, &RemovalOptions::default());
    assert!(result.is_err());
}

#[test]
fn test_heic_missing_meta_box() {
    let mut heic = Vec::new();
    let mut ftyp_content = b"heic".to_vec();
    ftyp_content.extend_from_slice(&0u32.to_be_bytes());
    heic.extend_from_slice(&make_box(b"ftyp", &ftyp_content));
    heic.extend_from_slice(&make_box(b"mdat", b"fake image data"));
    let result = HeicRemover.remove_metadata(&heic, &RemovalOptions::default());
    assert!(result.is_err(), "HEIC without meta box should error");
}

#[test]
fn test_heic_truncated_data() {
    let mut heic = Vec::new();
    let mut ftyp_content = b"heic".to_vec();
    ftyp_content.extend_from_slice(&0u32.to_be_bytes());
    heic.extend_from_slice(&make_box(b"ftyp", &ftyp_content));
    heic.extend_from_slice(&50u32.to_be_bytes());
    heic.extend_from_slice(b"meta");
    let result = HeicRemover.remove_metadata(&heic, &RemovalOptions::default());
    assert!(result.is_err(), "truncated HEIC should error");
}

#[test]
fn test_heic_strip_iref_orphaned_references() {
    // Build a HEIC with Exif item (id=1), hvc1 item (id=2), and an iref with
    // cdsc from Exif(1)->hvc1(2). After stripping, the cdsc reference should be removed.
    let mut heic = Vec::new();

    // ftyp
    let mut ftyp_content = b"heic".to_vec();
    ftyp_content.extend_from_slice(&0u32.to_be_bytes());
    heic.extend_from_slice(&make_box(b"ftyp", &ftyp_content));

    let mut meta_inner = Vec::new();

    // hdlr
    let mut hdlr_content = Vec::new();
    hdlr_content.extend_from_slice(&0u32.to_be_bytes());
    hdlr_content.extend_from_slice(b"pict");
    hdlr_content.extend_from_slice(&[0u8; 12]);
    hdlr_content.push(0);
    meta_inner.extend_from_slice(&make_fullbox(b"hdlr", 0, 0, &hdlr_content));

    // iinf: Exif(id=1) + hvc1(id=2)
    let mut iinf_entries = Vec::new();
    let mut infe1_content = Vec::new();
    infe1_content.extend_from_slice(&1u16.to_be_bytes());
    infe1_content.extend_from_slice(&0u16.to_be_bytes());
    infe1_content.extend_from_slice(b"Exif");
    infe1_content.push(0);
    iinf_entries.extend_from_slice(&make_fullbox(b"infe", 0, 0, &infe1_content));

    let mut infe2_content = Vec::new();
    infe2_content.extend_from_slice(&2u16.to_be_bytes());
    infe2_content.extend_from_slice(&0u16.to_be_bytes());
    infe2_content.extend_from_slice(b"hvc1");
    infe2_content.push(0);
    iinf_entries.extend_from_slice(&make_fullbox(b"infe", 0, 0, &infe2_content));

    let mut iinf_content = (2u16).to_be_bytes().to_vec();
    iinf_content.extend_from_slice(&iinf_entries);
    meta_inner.extend_from_slice(&make_fullbox(b"iinf", 0, 0, &iinf_content));

    // iloc
    let mut iloc_content = Vec::new();
    iloc_content.push(0x00);
    iloc_content.push(0x00);
    iloc_content.extend_from_slice(&2u16.to_be_bytes());
    iloc_content.extend_from_slice(&1u16.to_be_bytes());
    iloc_content.extend_from_slice(&0u16.to_be_bytes());
    iloc_content.extend_from_slice(&0u16.to_be_bytes());
    iloc_content.extend_from_slice(&2u16.to_be_bytes());
    iloc_content.extend_from_slice(&0u16.to_be_bytes());
    iloc_content.extend_from_slice(&0u16.to_be_bytes());
    meta_inner.extend_from_slice(&make_fullbox(b"iloc", 0, 0, &iloc_content));

    // iref: cdsc from Exif(1) -> hvc1(2)
    let mut iref_entry = Vec::new();
    iref_entry.extend_from_slice(b"cdsc"); // reference_type
    iref_entry.extend_from_slice(&1u16.to_be_bytes()); // from_item_id
    iref_entry.extend_from_slice(&1u16.to_be_bytes()); // reference_count
    iref_entry.extend_from_slice(&2u16.to_be_bytes()); // to_item_id
    let iref_entry_size = (8 + iref_entry.len()) as u32;
    let mut iref_entry_box = iref_entry_size.to_be_bytes().to_vec();
    iref_entry_box.extend_from_slice(&iref_entry);
    meta_inner.extend_from_slice(&make_fullbox(b"iref", 0, 0, &iref_entry_box));

    heic.extend_from_slice(&make_fullbox(b"meta", 0, 0, &meta_inner));
    heic.extend_from_slice(&make_box(b"mdat", b"fake image data"));

    let output = HeicRemover.remove_metadata(&heic, &RemovalOptions::default()).unwrap();

    // The iref box should be completely absent (all references were from removed items)
    // or have no cdsc entries. Check that "cdsc" doesn't appear in output.
    assert!(!output.windows(4).any(|w| w == b"cdsc"),
        "cdsc reference from removed Exif item should be gone");
    // The hvc1 item should still be present
    assert!(output.windows(4).any(|w| w == b"hvc1"),
        "hvc1 item should still be present");
}

/// Create a HEIC with iloc v1, construction_method=0, real offset/length sizes (4/4).
/// Contains: hvc1 (id=1) + Exif (id=2) + hvc1 (id=3).
/// The iloc offsets point into an mdat box that follows the meta box.
fn create_heic_with_iloc_v1_offsets() -> Vec<u8> {
    let mut heic = Vec::new();

    // ftyp box (36 bytes: 8 header + 28 content)
    let mut ftyp_content = b"heic".to_vec();
    ftyp_content.extend_from_slice(&0u32.to_be_bytes());
    ftyp_content.extend_from_slice(b"mif1");
    heic.extend_from_slice(&make_box(b"ftyp", &ftyp_content));

    // Build meta inner boxes
    let mut meta_inner = Vec::new();

    // hdlr
    let mut hdlr_content = Vec::new();
    hdlr_content.extend_from_slice(&0u32.to_be_bytes());
    hdlr_content.extend_from_slice(b"pict");
    hdlr_content.extend_from_slice(&[0u8; 12]);
    hdlr_content.push(0);
    meta_inner.extend_from_slice(&make_fullbox(b"hdlr", 0, 0, &hdlr_content));

    // iinf with 3 items: hvc1(1), Exif(2), hvc1(3)
    let mut iinf_entries = Vec::new();
    // infe for hvc1 id=1
    let mut infe1 = Vec::new();
    infe1.extend_from_slice(&1u16.to_be_bytes());
    infe1.extend_from_slice(&0u16.to_be_bytes());
    infe1.extend_from_slice(b"hvc1");
    infe1.push(0);
    iinf_entries.extend_from_slice(&make_fullbox(b"infe", 0, 0, &infe1));
    // infe for Exif id=2
    let mut infe2 = Vec::new();
    infe2.extend_from_slice(&2u16.to_be_bytes());
    infe2.extend_from_slice(&0u16.to_be_bytes());
    infe2.extend_from_slice(b"Exif");
    infe2.push(0);
    iinf_entries.extend_from_slice(&make_fullbox(b"infe", 0, 0, &infe2));
    // infe for hvc1 id=3
    let mut infe3 = Vec::new();
    infe3.extend_from_slice(&3u16.to_be_bytes());
    infe3.extend_from_slice(&0u16.to_be_bytes());
    infe3.extend_from_slice(b"hvc1");
    infe3.push(0);
    iinf_entries.extend_from_slice(&make_fullbox(b"infe", 0, 0, &infe3));

    let mut iinf_content = (3u16).to_be_bytes().to_vec();
    iinf_content.extend_from_slice(&iinf_entries);
    meta_inner.extend_from_slice(&make_fullbox(b"iinf", 0, 0, &iinf_content));

    // iloc v1 with offset_size=4, length_size=4, base_offset_size=0, index_size=0
    // 3 items, all construction_method=0 (file offsets)
    // We'll use placeholder offsets; the test will verify they're adjusted correctly.
    let mut iloc_content = Vec::new();
    iloc_content.push(0x44); // offset_size=4, length_size=4
    iloc_content.push(0x00); // base_offset_size=0, index_size=0
    iloc_content.extend_from_slice(&3u16.to_be_bytes()); // item_count=3

    // item 1 (hvc1): item_id=1, construction_method=0, data_ref=0, 1 extent
    iloc_content.extend_from_slice(&1u16.to_be_bytes()); // item_id
    iloc_content.extend_from_slice(&0u16.to_be_bytes()); // construction_method=0
    iloc_content.extend_from_slice(&0u16.to_be_bytes()); // data_reference_index
    iloc_content.extend_from_slice(&1u16.to_be_bytes()); // extent_count=1
    iloc_content.extend_from_slice(&999u32.to_be_bytes()); // extent_offset (placeholder)
    iloc_content.extend_from_slice(&100u32.to_be_bytes()); // extent_length

    // item 2 (Exif): item_id=2, construction_method=0, data_ref=0, 1 extent
    iloc_content.extend_from_slice(&2u16.to_be_bytes()); // item_id
    iloc_content.extend_from_slice(&0u16.to_be_bytes()); // construction_method=0
    iloc_content.extend_from_slice(&0u16.to_be_bytes()); // data_reference_index
    iloc_content.extend_from_slice(&1u16.to_be_bytes()); // extent_count=1
    iloc_content.extend_from_slice(&1200u32.to_be_bytes()); // extent_offset (placeholder)
    iloc_content.extend_from_slice(&50u32.to_be_bytes()); // extent_length

    // item 3 (hvc1): item_id=3, construction_method=0, data_ref=0, 1 extent
    iloc_content.extend_from_slice(&3u16.to_be_bytes()); // item_id
    iloc_content.extend_from_slice(&0u16.to_be_bytes()); // construction_method=0
    iloc_content.extend_from_slice(&0u16.to_be_bytes()); // data_reference_index
    iloc_content.extend_from_slice(&1u16.to_be_bytes()); // extent_count=1
    iloc_content.extend_from_slice(&1300u32.to_be_bytes()); // extent_offset (placeholder)
    iloc_content.extend_from_slice(&200u32.to_be_bytes()); // extent_length

    meta_inner.extend_from_slice(&make_fullbox(b"iloc", 1, 0, &iloc_content));

    // meta fullbox
    heic.extend_from_slice(&make_fullbox(b"meta", 0, 0, &meta_inner));

    // mdat box
    heic.extend_from_slice(&make_box(b"mdat", b"fake image data that is long enough"));

    heic
}

/// Extract extent offsets from an iloc v1 box in the output.
/// Returns vec of (item_id, construction_method, vec of (extent_offset, extent_length))
fn parse_iloc_offsets(data: &[u8]) -> Vec<(u16, u16, Vec<(u32, u32)>)> {
    // Find iloc box
    let pos = data.windows(4).position(|w| w == b"iloc").expect("iloc not found");
    let iloc_start = pos - 4;
    let iloc_size = u32::from_be_bytes(data[iloc_start..iloc_start + 4].try_into().unwrap()) as usize;
    let _iloc_end = iloc_start + iloc_size;

    // Skip box header (8) + fullbox header (4)
    let version = data[iloc_start + 8];
    let offset_size = (data[iloc_start + 12] >> 4) as usize;
    let length_size = (data[iloc_start + 12] & 0x0F) as usize;
    let base_offset_size = (data[iloc_start + 13] >> 4) as usize;
    let index_size = if version >= 1 { (data[iloc_start + 13] & 0x0F) as usize } else { 0 };

    let item_count_off = iloc_start + 14;
    let item_count = u16::from_be_bytes(data[item_count_off..item_count_off + 2].try_into().unwrap()) as usize;

    let mut pos = item_count_off + 2;
    let mut items = Vec::new();

    for _ in 0..item_count {
        let item_id = u16::from_be_bytes(data[pos..pos + 2].try_into().unwrap());
        pos += 2;
        let construction_method = if version >= 1 {
            let cm = u16::from_be_bytes(data[pos..pos + 2].try_into().unwrap()) & 0xF;
            pos += 2;
            cm
        } else {
            0
        };
        pos += 2; // data_reference_index
        pos += base_offset_size; // base_offset
        let extent_count = u16::from_be_bytes(data[pos..pos + 2].try_into().unwrap()) as usize;
        pos += 2;
        let mut extents = Vec::new();
        for _ in 0..extent_count {
            pos += index_size;
            let ext_offset = if offset_size == 4 {
                let v = u32::from_be_bytes(data[pos..pos + 4].try_into().unwrap());
                pos += 4;
                v
            } else {
                pos += offset_size;
                0
            };
            let ext_length = if length_size == 4 {
                let v = u32::from_be_bytes(data[pos..pos + 4].try_into().unwrap());
                pos += 4;
                v
            } else {
                pos += length_size;
                0
            };
            extents.push((ext_offset, ext_length));
        }
        items.push((item_id, construction_method, extents));
    }
    items
}

#[test]
fn test_heic_iloc_v1_offset_adjustment() {
    let input = create_heic_with_iloc_v1_offsets();

    // Parse original offsets
    let orig_items = parse_iloc_offsets(&input);
    let orig_item1_offset = orig_items.iter().find(|(id, _, _)| *id == 1).unwrap().2[0].0;
    let orig_item3_offset = orig_items.iter().find(|(id, _, _)| *id == 3).unwrap().2[0].0;

    // Strip EXIF (item 2 will be removed, meta box shrinks)
    let output = HeicRemover.remove_metadata(&input, &RemovalOptions::default()).unwrap();

    // Parse stripped offsets
    let strip_items = parse_iloc_offsets(&output);

    // Item 2 (Exif) should be gone
    assert!(strip_items.iter().all(|(id, _, _)| *id != 2), "Exif item should be removed");

    // Items 1 and 3 should still be present
    let strip_item1 = strip_items.iter().find(|(id, _, _)| *id == 1).unwrap();
    let strip_item3 = strip_items.iter().find(|(id, _, _)| *id == 3).unwrap();

    // Both should be construction_method=0
    assert_eq!(strip_item1.1, 0);
    assert_eq!(strip_item3.1, 0);

    // Offsets should be adjusted by exactly the meta box shrinkage
    // Find original and stripped meta box sizes
    let orig_meta_pos = input.windows(4).position(|w| w == b"meta").unwrap() - 4;
    let orig_meta_size = u32::from_be_bytes(input[orig_meta_pos..orig_meta_pos + 4].try_into().unwrap()) as usize;
    let strip_meta_pos = output.windows(4).position(|w| w == b"meta").unwrap() - 4;
    let strip_meta_size = u32::from_be_bytes(output[strip_meta_pos..strip_meta_pos + 4].try_into().unwrap()) as usize;

    let expected_delta = orig_meta_size - strip_meta_size;
    assert!(expected_delta > 0, "meta should have shrunk");

    let strip_item1_offset = strip_item1.2[0].0;
    let strip_item3_offset = strip_item3.2[0].0;

    assert_eq!(strip_item1_offset, orig_item1_offset - expected_delta as u32,
        "item 1 offset should be adjusted by meta shrinkage");
    assert_eq!(strip_item3_offset, orig_item3_offset - expected_delta as u32,
        "item 3 offset should be adjusted by meta shrinkage");

    // Lengths should be unchanged
    let orig_item1_length = orig_items.iter().find(|(id, _, _)| *id == 1).unwrap().2[0].1;
    let orig_item3_length = orig_items.iter().find(|(id, _, _)| *id == 3).unwrap().2[0].1;
    assert_eq!(strip_item1.2[0].1, orig_item1_length, "item 1 length should be unchanged");
    assert_eq!(strip_item3.2[0].1, orig_item3_length, "item 3 length should be unchanged");
}

/// Create a HEIC with iloc v1 containing both construction_method=0 (file offset)
/// and construction_method=1 (idat offset) items.
/// Items: hvc1 id=1 (cm=0), Exif id=2 (cm=0), hvc1 id=3 (cm=1).
fn create_heic_with_mixed_construction_methods() -> Vec<u8> {
    let mut heic = Vec::new();

    // ftyp
    let mut ftyp_content = b"heic".to_vec();
    ftyp_content.extend_from_slice(&0u32.to_be_bytes());
    ftyp_content.extend_from_slice(b"mif1");
    heic.extend_from_slice(&make_box(b"ftyp", &ftyp_content));

    let mut meta_inner = Vec::new();

    // hdlr
    let mut hdlr_content = Vec::new();
    hdlr_content.extend_from_slice(&0u32.to_be_bytes());
    hdlr_content.extend_from_slice(b"pict");
    hdlr_content.extend_from_slice(&[0u8; 12]);
    hdlr_content.push(0);
    meta_inner.extend_from_slice(&make_fullbox(b"hdlr", 0, 0, &hdlr_content));

    // iinf: hvc1(1), Exif(2), hvc1(3)
    let mut iinf_entries = Vec::new();
    for (id, item_type) in [(1u16, b"hvc1"), (2u16, b"Exif"), (3u16, b"hvc1")] {
        let mut infe = Vec::new();
        infe.extend_from_slice(&id.to_be_bytes());
        infe.extend_from_slice(&0u16.to_be_bytes());
        infe.extend_from_slice(item_type);
        infe.push(0);
        iinf_entries.extend_from_slice(&make_fullbox(b"infe", 0, 0, &infe));
    }
    let mut iinf_content = (3u16).to_be_bytes().to_vec();
    iinf_content.extend_from_slice(&iinf_entries);
    meta_inner.extend_from_slice(&make_fullbox(b"iinf", 0, 0, &iinf_content));

    // iloc v1: offset_size=4, length_size=4, base_offset_size=0, index_size=0
    let mut iloc_content = Vec::new();
    iloc_content.push(0x44); // offset_size=4, length_size=4
    iloc_content.push(0x00); // base_offset_size=0, index_size=0
    iloc_content.extend_from_slice(&3u16.to_be_bytes()); // item_count

    // item 1: hvc1, cm=0 (file offset)
    iloc_content.extend_from_slice(&1u16.to_be_bytes()); // item_id
    iloc_content.extend_from_slice(&0u16.to_be_bytes()); // construction_method=0
    iloc_content.extend_from_slice(&0u16.to_be_bytes()); // data_reference_index
    iloc_content.extend_from_slice(&1u16.to_be_bytes()); // extent_count
    iloc_content.extend_from_slice(&500u32.to_be_bytes()); // extent_offset (file offset)
    iloc_content.extend_from_slice(&100u32.to_be_bytes()); // extent_length

    // item 2: Exif, cm=0 (file offset) — will be removed
    iloc_content.extend_from_slice(&2u16.to_be_bytes()); // item_id
    iloc_content.extend_from_slice(&0u16.to_be_bytes()); // construction_method=0
    iloc_content.extend_from_slice(&0u16.to_be_bytes()); // data_reference_index
    iloc_content.extend_from_slice(&1u16.to_be_bytes()); // extent_count
    iloc_content.extend_from_slice(&700u32.to_be_bytes()); // extent_offset
    iloc_content.extend_from_slice(&50u32.to_be_bytes()); // extent_length

    // item 3: hvc1, cm=1 (idat offset) — should NOT be adjusted
    iloc_content.extend_from_slice(&3u16.to_be_bytes()); // item_id
    iloc_content.extend_from_slice(&1u16.to_be_bytes()); // construction_method=1
    iloc_content.extend_from_slice(&0u16.to_be_bytes()); // data_reference_index
    iloc_content.extend_from_slice(&1u16.to_be_bytes()); // extent_count
    iloc_content.extend_from_slice(&42u32.to_be_bytes()); // extent_offset (idat-relative)
    iloc_content.extend_from_slice(&200u32.to_be_bytes()); // extent_length

    meta_inner.extend_from_slice(&make_fullbox(b"iloc", 1, 0, &iloc_content));

    // idat box (for construction_method=1 items)
    let idat_content = vec![0xAAu8; 200];
    meta_inner.extend_from_slice(&make_box(b"idat", &idat_content));

    heic.extend_from_slice(&make_fullbox(b"meta", 0, 0, &meta_inner));
    heic.extend_from_slice(&make_box(b"mdat", b"fake image data"));
    heic
}

#[test]
fn test_heic_iloc_cm0_adjusted_cm1_unchanged() {
    let input = create_heic_with_mixed_construction_methods();
    let orig_items = parse_iloc_offsets(&input);

    let orig_item1_offset = orig_items.iter().find(|(id, _, _)| *id == 1).unwrap().2[0].0;
    let orig_item3_offset = orig_items.iter().find(|(id, _, _)| *id == 3).unwrap().2[0].0;

    let output = HeicRemover.remove_metadata(&input, &RemovalOptions::default()).unwrap();
    let strip_items = parse_iloc_offsets(&output);

    // Item 2 (Exif) removed
    assert!(strip_items.iter().all(|(id, _, _)| *id != 2));

    let strip_item1 = strip_items.iter().find(|(id, _, _)| *id == 1).unwrap();
    let strip_item3 = strip_items.iter().find(|(id, _, _)| *id == 3).unwrap();

    // Item 1 (cm=0) offset should be adjusted
    assert_eq!(strip_item1.1, 0);
    let orig_meta_pos = input.windows(4).position(|w| w == b"meta").unwrap() - 4;
    let orig_meta_size = u32::from_be_bytes(input[orig_meta_pos..orig_meta_pos + 4].try_into().unwrap()) as usize;
    let strip_meta_pos = output.windows(4).position(|w| w == b"meta").unwrap() - 4;
    let strip_meta_size = u32::from_be_bytes(output[strip_meta_pos..strip_meta_pos + 4].try_into().unwrap()) as usize;
    let expected_delta = orig_meta_size - strip_meta_size;

    assert!(expected_delta > 0);
    assert_eq!(strip_item1.2[0].0, orig_item1_offset - expected_delta as u32,
        "cm=0 item offset should be adjusted by meta shrinkage");

    // Item 3 (cm=1) offset should NOT be adjusted (idat-relative)
    assert_eq!(strip_item3.1, 1);
    assert_eq!(strip_item3.2[0].0, orig_item3_offset,
        "cm=1 item offset should be unchanged (idat-relative)");
}

/// Verify that all box sizes in the output are internally consistent.
/// This catches the bug where rebuilt boxes keep stale size headers.
fn verify_box_sizes(data: &[u8]) {
    let mut cursor = Cursor::new(data);
    while let Some((total_size, header_size, box_type)) = read_box_header(&mut cursor) {
        let declared_end = cursor.position() as usize - header_size + total_size;
        assert!(declared_end <= data.len(),
            "box {:?} declares size {} but data is only {} bytes",
            std::str::from_utf8(&box_type).unwrap_or("????"),
            declared_end, data.len());
        cursor.set_position((cursor.position() as usize - header_size + total_size) as u64);
    }
}

#[test]
fn test_heic_strip_exif_box_sizes_consistent() {
    let input = create_heic_with_exif();
    let output = HeicRemover.remove_metadata(&input, &RemovalOptions::default()).unwrap();
    verify_box_sizes(&output);
}

#[test]
fn test_heic_strip_xmp_box_sizes_consistent() {
    let input = create_heic_with_xmp();
    let output = HeicRemover.remove_metadata(&input, &RemovalOptions::default()).unwrap();
    verify_box_sizes(&output);
}

#[test]
fn test_heic_strip_icc_box_sizes_consistent() {
    let input = create_heic_with_icc();
    let options = RemovalOptions { icc_profile: true, ..RemovalOptions::default() };
    let output = HeicRemover.remove_metadata(&input, &options).unwrap();
    verify_box_sizes(&output);
}
