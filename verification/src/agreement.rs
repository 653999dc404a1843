use crate::bytes::{be32, has_tag, starts_with};
use crate::archive::zip_listing;
use crate::format::{detect_spec, has_image_magic, jpeg_magic, office_format_from, pdf_magic, png_magic};
use crate::remove::gif::{gif87a, gif89a, has_gif_signature};
use crate::remove::heic::is_heic_ftyp;
use crate::remove::isobmff::tag_ftyp;
use crate::remove::mp3::id3_magic;
use crate::remove::webp::{fourcc_riff, webp_remove_spec};
use crate::types::{FileFormat, RemovalOptions};
use vstd::prelude::*;

verus! {

/// The format found among the entries of a ZIP archive is an Office format.
pub proof fn lemma_office_formats(entries: Seq<Option<Seq<u8>>>, i: int)
    ensures
        office_format_from(entries, i) matches Some(f) ==> (f == FileFormat::Docx || f == FileFormat::Xlsx || f
            == FileFormat::Pptx),
    decreases entries.len() - i,
{
    if 0 <= i < entries.len() {
        lemma_office_formats(entries, i + 1);
    }
}

/// A file of at least 8 bytes is detected as GIF exactly when it opens with
/// one of the two GIF signatures, the ones that the GIF remover asks for.
pub proof fn lemma_gif_detection_agrees(d: Seq<u8>)
    requires
        d.len() >= 8,
    ensures
        detect_spec(d) == Ok::<FileFormat, crate::types::ErrorKind>(FileFormat::Gif) <==> has_gif_signature(d),
{
    match crate::archive::zip_listing(d) {
        Some(entries) => lemma_office_formats(entries, 0),
        None => {},
    }
    if has_gif_signature(d) {
        assert(d[0] == 0x47) by {
            if starts_with(d, gif87a()) {
                assert(d.subrange(0, 6)[0] == d[0]);
            } else {
                assert(d.subrange(0, 6)[0] == d[0]);
            }
        }
        if starts_with(d, jpeg_magic()) {
            assert(d.subrange(0, 3)[0] == d[0]);
        }
        if starts_with(d, png_magic()) {
            assert(d.subrange(0, 8)[0] == d[0]);
        }
    }
}

/// A file that the HEIC remover takes for HEIC, whose `ftyp` box lies within
/// it and is at least 12 bytes long, and that opens with none of the JPEG,
/// PNG, GIF or PDF signatures, is detected as HEIC.
pub proof fn lemma_heic_detection_agrees(d: Seq<u8>)
    requires
        is_heic_ftyp(d),
        12 <= be32(d, 0) <= d.len(),
        !has_image_magic(d),
    ensures
        detect_spec(d) == Ok::<FileFormat, crate::types::ErrorKind>(FileFormat::Heic),
{
}

/// A file that the WebP remover accepts is detected as WebP, unless the
/// bytes of its RIFF size happen to spell `ftyp`.
pub proof fn lemma_webp_detection_agrees(d: Seq<u8>, options: RemovalOptions)
    requires
        webp_remove_spec(d, options) is Some,
        !has_tag(d, 4, tag_ftyp()),
    ensures
        detect_spec(d) == Ok::<FileFormat, crate::types::ErrorKind>(FileFormat::Webp),
{
    assert(d.subrange(0, 4)[0] == d[0]);
    assert(d[0] == 0x52);
    if starts_with(d, jpeg_magic()) {
        assert(d.subrange(0, 3)[0] == d[0]);
    }
    if starts_with(d, png_magic()) {
        assert(d.subrange(0, 8)[0] == d[0]);
    }
    if starts_with(d, gif87a()) || starts_with(d, gif89a()) {
        assert(d.subrange(0, 6)[0] == d[0]);
    }
    if starts_with(d, pdf_magic()) {
        assert(d.subrange(0, 4)[0] == d[0]);
    }
}

/// A file of at least 8 bytes that opens with an ID3v2 tag is detected as
/// MP3, unless its bytes 4 to 7 happen to spell `ftyp`.
pub proof fn lemma_mp3_detection_agrees(d: Seq<u8>)
    requires
        d.len() >= 8,
        starts_with(d, id3_magic()),
        !has_tag(d, 4, tag_ftyp()),
    ensures
        detect_spec(d) == Ok::<FileFormat, crate::types::ErrorKind>(FileFormat::Mp3),
{
    assert(d.subrange(0, 3)[0] == d[0]);
    assert(d[0] == 0x49);
    if starts_with(d, jpeg_magic()) {
        assert(d.subrange(0, 3)[0] == d[0]);
    }
    if starts_with(d, png_magic()) {
        assert(d.subrange(0, 8)[0] == d[0]);
    }
    if starts_with(d, gif87a()) || starts_with(d, gif89a()) {
        assert(d.subrange(0, 6)[0] == d[0]);
    }
    if starts_with(d, pdf_magic()) {
        assert(d.subrange(0, 4)[0] == d[0]);
    }
    if has_tag(d, 0, fourcc_riff()) {
        assert(d.subrange(0, 4)[0] == d[0]);
    }
}

/// The Office format that an entry name announces by its first directory:
/// `word/` a Word document, `xl/` a workbook, `ppt/` a presentation.
pub open spec fn office_dir_format(name: Seq<u8>) -> Option<FileFormat> {
    if name.len() >= 5 && name.subrange(0, 5) == seq![0x77u8, 0x6f, 0x72, 0x64, 0x2f] {
        Some(FileFormat::Docx)
    } else if name.len() >= 3 && name.subrange(0, 3) == seq![0x78u8, 0x6c, 0x2f] {
        Some(FileFormat::Xlsx)
    } else if name.len() >= 4 && name.subrange(0, 4) == seq![0x70u8, 0x70, 0x74, 0x2f] {
        Some(FileFormat::Pptx)
    } else {
        None
    }
}

/// An entry that can be read and lies under none of `word/`, `xl/`, `ppt/`.
pub open spec fn plain_entry(e: Option<Seq<u8>>) -> bool {
    e matches Some(name) && office_dir_format(name) is None
}

/// An entry that can be read and lies under `word/`, `xl/` or `ppt/`.
pub open spec fn office_entry(e: Option<Seq<u8>>) -> bool {
    e matches Some(name) && office_dir_format(name) is Some
}

/// Detection reads the entries of a ZIP archive in order, whatever their
/// number: when the entries before `k` can be read and none lies under
/// `word/`, `xl/` or `ppt/`, and entry `k` does, the format is the one that
/// entry `k` announces.
pub proof fn lemma_office_format_at(entries: Seq<Option<Seq<u8>>>, k: int)
    requires
        0 <= k < entries.len(),
        forall|i: int|
            0 <= i < k ==> plain_entry(#[trigger] entries[i]),
        office_entry(entries[k]),
    ensures
        office_format_from(entries, 0) == office_dir_format(entries[k]->Some_0),
{
    lemma_office_format_from_at(entries, 0, k);
}

proof fn lemma_office_format_from_at(entries: Seq<Option<Seq<u8>>>, i: int, k: int)
    requires
        0 <= i <= k < entries.len(),
        forall|j: int|
            0 <= j < k ==> plain_entry(#[trigger] entries[j]),
        office_entry(entries[k]),
    ensures
        office_format_from(entries, i) == office_dir_format(entries[k]->Some_0),
    decreases k - i,
{
    let name = entries[i]->Some_0;
    assert(crate::format::word_prefix() =~= seq![0x77u8, 0x6f, 0x72, 0x64, 0x2f]);
    assert(crate::format::xl_prefix() =~= seq![0x78u8, 0x6c, 0x2f]);
    assert(crate::format::ppt_prefix() =~= seq![0x70u8, 0x70, 0x74, 0x2f]);
    if i < k {
        lemma_office_format_from_at(entries, i + 1, k);
    }
}

/// A ZIP file (opening with `PK 03 04`, without an `ftyp` box header and
/// without an ID3v1 trailer, which are looked for first) whose listing has, after readable entries outside `word/`,
/// `xl/` and `ppt/`, an entry `k` under one of them is detected as the
/// format that entry announces.
pub proof fn lemma_zip_detected_by_entry(b: Seq<u8>, k: int)
    requires
        b.len() >= 8,
        starts_with(b, crate::format::zip_magic()),
        !has_tag(b, 4, tag_ftyp()),
        !(b.len() >= 128 && b.subrange(b.len() - 128, b.len() - 125) == seq![0x54u8, 0x41, 0x47]),
        zip_listing(b) is Some,
        0 <= k < zip_listing(b)->Some_0.len(),
        forall|i: int|
            0 <= i < k ==> plain_entry(#[trigger] zip_listing(b)->Some_0[i]),
        office_entry(zip_listing(b)->Some_0[k]),
    ensures
        detect_spec(b) == Ok::<FileFormat, crate::types::ErrorKind>(
            office_dir_format(zip_listing(b)->Some_0[k]->Some_0)->Some_0,
        ),
{
    lemma_office_format_at(zip_listing(b)->Some_0, k);
    assert(b.subrange(0, 4) == crate::format::zip_magic());
    assert(b[0] == 0x50 && b[1] == 0x4b && b[2] == 0x03 && b[3] == 0x04) by {
        assert(b.subrange(0, 4)[0] == b[0]);
        assert(b.subrange(0, 4)[1] == b[1]);
        assert(b.subrange(0, 4)[2] == b[2]);
        assert(b.subrange(0, 4)[3] == b[3]);
    }
    if starts_with(b, jpeg_magic()) {
        assert(b.subrange(0, 3)[0] == b[0]);
    }
    if starts_with(b, png_magic()) {
        assert(b.subrange(0, 8)[0] == b[0]);
    }
    if starts_with(b, gif87a()) {
        assert(b.subrange(0, 6)[0] == b[0]);
    }
    if starts_with(b, gif89a()) {
        assert(b.subrange(0, 6)[0] == b[0]);
    }
    if starts_with(b, pdf_magic()) {
        assert(b.subrange(0, 4)[0] == b[0]);
    }
    if has_tag(b, 0, fourcc_riff()) {
        assert(b.subrange(0, 4)[0] == b[0]);
    }
    if starts_with(b, id3_magic()) {
        assert(b.subrange(0, 3)[0] == b[0]);
    }
}

} // verus!
