use crate::archive::{zip_entries, zip_entry_name, zip_len, zip_listing, zip_open};
use crate::bytes::{be32, has_prefix, has_tag, read_be32, starts_with, tag_at};
use crate::remove::gif::{gif87a, gif89a};
use crate::remove::heic::{has_heic_brand_from, heic_brand_from};
use crate::remove::isobmff::{tag_ftyp, tag_heic};
use crate::remove::mp3::{id3_magic, tag_magic};
use crate::remove::webp::{fourcc_riff, fourcc_webp};
use crate::types::{Error, ErrorKind, FileFormat};
use vstd::prelude::*;

verus! {

/// `FF D8 FF`
pub open spec fn jpeg_magic() -> Seq<u8> { seq![0xffu8, 0xd8, 0xff] }
/// `89 50 4E 47 0D 0A 1A 0A`
pub open spec fn png_magic() -> Seq<u8> { seq![0x89u8, 0x50, 0x4e, 0x47, 0x0d, 0x0a, 0x1a, 0x0a] }
/// `%PDF`
pub open spec fn pdf_magic() -> Seq<u8> { seq![0x25u8, 0x50, 0x44, 0x46] }
/// `PK 03 04`
pub open spec fn zip_magic() -> Seq<u8> { seq![0x50u8, 0x4b, 0x03, 0x04] }
/// `word/`
pub open spec fn word_prefix() -> Seq<u8> { seq![0x77u8, 0x6f, 0x72, 0x64, 0x2f] }
/// `xl/`
pub open spec fn xl_prefix() -> Seq<u8> { seq![0x78u8, 0x6c, 0x2f] }
/// `ppt/`
pub open spec fn ppt_prefix() -> Seq<u8> { seq![0x70u8, 0x70, 0x74, 0x2f] }

/// The Office format named by the first entry, from `i` on, whose name opens
/// with `word/`, `xl/` or `ppt/`; `None` when an entry that comes first
/// cannot be read, or when no name matches.
pub open spec fn office_format_from(entries: Seq<Option<Seq<u8>>>, i: int) -> Option<FileFormat>
    decreases entries.len() - i,
{
    if i < 0 || i >= entries.len() {
        None
    } else {
        match entries[i] {
            None => None,
            Some(name) => if starts_with(name, word_prefix()) {
                Some(FileFormat::Docx)
            } else if starts_with(name, xl_prefix()) {
                Some(FileFormat::Xlsx)
            } else if starts_with(name, ppt_prefix()) {
                Some(FileFormat::Pptx)
            } else {
                office_format_from(entries, i + 1)
            },
        }
    }
}

/// The input is an ISOBMFF file whose `ftyp` box names `heic` as its major
/// brand or as one of its compatible brands.
pub open spec fn ftyp_names_heic(b: Seq<u8>) -> bool {
    let size = be32(b, 0);
    size >= 12 && b.len() >= size && (has_tag(b, 8, tag_heic()) || has_heic_brand_from(b, 16, size))
}

/// The prefixes checked before the `ftyp` box.
pub open spec fn has_image_magic(b: Seq<u8>) -> bool {
    starts_with(b, jpeg_magic()) || starts_with(b, png_magic()) || starts_with(b, gif87a()) || starts_with(
        b,
        gif89a(),
    ) || starts_with(b, pdf_magic())
}

/// The format of a file, decided by its leading bytes (and, for a ZIP file,
/// by the names of its entries): JPEG, PNG, GIF, PDF, ISOBMFF (HEIC when the
/// `ftyp` names the `heic` brand, MP4 otherwise), WebP, MP3 (an ID3v2 tag,
/// an MPEG sync word or an ID3v1 trailer), Office Open XML.
pub open spec fn detect_spec(b: Seq<u8>) -> Result<FileFormat, ErrorKind> {
    if b.len() < 8 {
        Err(ErrorKind::FormatDetectionFailed)
    } else if starts_with(b, jpeg_magic()) {
        Ok(FileFormat::Jpeg)
    } else if starts_with(b, png_magic()) {
        Ok(FileFormat::Png)
    } else if starts_with(b, gif87a()) || starts_with(b, gif89a()) {
        Ok(FileFormat::Gif)
    } else if starts_with(b, pdf_magic()) {
        Ok(FileFormat::Pdf)
    } else if has_tag(b, 4, tag_ftyp()) {
        if ftyp_names_heic(b) {
            Ok(FileFormat::Heic)
        } else {
            Ok(FileFormat::Mp4)
        }
    } else if b.len() >= 12 && has_tag(b, 0, fourcc_riff()) && has_tag(b, 8, fourcc_webp()) {
        Ok(FileFormat::Webp)
    } else if starts_with(b, id3_magic()) {
        Ok(FileFormat::Mp3)
    } else if b[0] == 0xff && b[1] >= 0xe0 {
        Ok(FileFormat::Mp3)
    } else if b.len() >= 128 && b.subrange(b.len() - 128, b.len() - 125) == tag_magic() {
        Ok(FileFormat::Mp3)
    } else if starts_with(b, zip_magic()) {
        match zip_listing(b) {
            None => Err(ErrorKind::InvalidData),
            Some(entries) => match office_format_from(entries, 0) {
                Some(f) => Ok(f),
                None => Err(ErrorKind::InvalidData),
            },
        }
    } else {
        Err(ErrorKind::UnsupportedFormat)
    }
}

/// Decides the Office format from the names of a ZIP archive's entries, in
/// order (`None` for an entry that could not be read).
pub fn office_format_from_entries(names: &Vec<Option<Vec<u8>>>) -> (r: Result<FileFormat, Error>)
    ensures
        match office_format_from(names.deep_view(), 0) {
            Some(f) => r matches Ok(g) && g == f,
            None => r matches Err(e) && e.kind() == ErrorKind::InvalidData,
        },
{
    let ghost entries = names.deep_view();
    let word: [u8; 5] = [0x77, 0x6f, 0x72, 0x64, 0x2f];
    let xl: [u8; 3] = [0x78, 0x6c, 0x2f];
    let ppt: [u8; 4] = [0x70, 0x70, 0x74, 0x2f];
    assert(word@ =~= word_prefix());
    assert(xl@ =~= xl_prefix());
    assert(ppt@ =~= ppt_prefix());
    let mut i: usize = 0;
    while i < names.len()
        invariant
            entries == names.deep_view(),
            entries.len() == names@.len(),
            i <= names@.len(),
            office_format_from(entries, i as int) == office_format_from(entries, 0),
            word@ == word_prefix(),
            xl@ == xl_prefix(),
            ppt@ == ppt_prefix(),
        decreases names@.len() - i,
    {
        assert(entries[i as int] == names@[i as int].deep_view());
        match &names[i] {
            None => {
                return Err(Error::InvalidData("ZIP entry".to_string()));
            },
            Some(name) => {
                assert(name.deep_view() =~= name@);
                assert(entries[i as int] == Some(name@));
                if has_prefix(name.as_slice(), &word) {
                    return Ok(FileFormat::Docx);
                }
                if has_prefix(name.as_slice(), &xl) {
                    return Ok(FileFormat::Xlsx);
                }
                if has_prefix(name.as_slice(), &ppt) {
                    return Ok(FileFormat::Pptx);
                }
            },
        }
        i += 1;
    }
    Err(Error::InvalidData("Cannot determine Office format".to_string()))
}

/// Reads the names of a ZIP archive's entries and decides the Office format.
fn detect_office_format(bytes: &[u8]) -> (r: Result<FileFormat, Error>)
    ensures
        match zip_listing(bytes@) {
            None => r matches Err(e) && e.kind() == ErrorKind::InvalidData,
            Some(entries) => match office_format_from(entries, 0) {
                Some(f) => r matches Ok(g) && g == f,
                None => r matches Err(e) && e.kind() == ErrorKind::InvalidData,
            },
        },
{
    let mut archive = match zip_open(bytes) {
        Some(a) => a,
        None => {
            return Err(Error::InvalidData("ZIP".to_string()));
        },
    };
    let ghost listing = zip_entries(archive);
    let n = zip_len(&archive);
    let mut names: Vec<Option<Vec<u8>>> = Vec::new();
    let mut i: usize = 0;
    while i < n
        invariant
            n == listing.len(),
            zip_entries(archive) == listing,
            i <= n,
            names@.len() == i,
            names.deep_view() =~= listing.subrange(0, i as int),
        decreases n - i,
    {
        let name = zip_entry_name(&mut archive, i);
        names.push(name);
        i += 1;
    }
    assert(listing.subrange(0, n as int) =~= listing);
    office_format_from_entries(&names)
}

/// Detects the format of a file from its content.
pub fn detect_format(bytes: &[u8]) -> (r: Result<FileFormat, Error>)
    ensures
        match detect_spec(bytes@) {
            Ok(f) => r matches Ok(g) && g == f,
            Err(k) => r matches Err(e) && e.kind() == k,
        },
{
    let ghost b = bytes@;
    if bytes.len() < 8 {
        return Err(Error::FormatDetectionFailed);
    }
    let jpeg: [u8; 3] = [0xff, 0xd8, 0xff];
    let png: [u8; 8] = [0x89, 0x50, 0x4e, 0x47, 0x0d, 0x0a, 0x1a, 0x0a];
    let gif87: [u8; 6] = [0x47, 0x49, 0x46, 0x38, 0x37, 0x61];
    let gif89: [u8; 6] = [0x47, 0x49, 0x46, 0x38, 0x39, 0x61];
    let pdf: [u8; 4] = [0x25, 0x50, 0x44, 0x46];
    let id3: [u8; 3] = [0x49, 0x44, 0x33];
    let pk: [u8; 4] = [0x50, 0x4b, 0x03, 0x04];
    assert(jpeg@ =~= jpeg_magic());
    assert(png@ =~= png_magic());
    assert(gif87@ =~= gif87a());
    assert(gif89@ =~= gif89a());
    assert(pdf@ =~= pdf_magic());
    assert(id3@ =~= id3_magic());
    assert(pk@ =~= zip_magic());
    // JPEG: FF D8 FF
    if has_prefix(bytes, &jpeg) {
        return Ok(FileFormat::Jpeg);
    }
    // PNG: 89 50 4E 47 0D 0A 1A 0A
    if has_prefix(bytes, &png) {
        return Ok(FileFormat::Png);
    }
    // GIF: GIF87a or GIF89a
    if has_prefix(bytes, &gif87) || has_prefix(bytes, &gif89) {
        return Ok(FileFormat::Gif);
    }
    // PDF: %PDF
    if has_prefix(bytes, &pdf) {
        return Ok(FileFormat::Pdf);
    }
    // ISOBMFF container: box size (4 bytes) + "ftyp" (4 bytes)
    // Distinguish HEIC from MP4 by inspecting major/compatible brands
    let ftyp: [u8; 4] = [0x66, 0x74, 0x79, 0x70];
    let heic: [u8; 4] = [0x68, 0x65, 0x69, 0x63];
    assert(ftyp@ =~= tag_ftyp());
    assert(heic@ =~= tag_heic());
    if tag_at(bytes, 4, ftyp) {
        let ftyp_size = read_be32(bytes, 0) as usize;
        if ftyp_size >= 12 && bytes.len() >= ftyp_size {
            let has_heic = tag_at(bytes, 8, heic) || heic_brand_from(bytes, 16, ftyp_size);
            if has_heic {
                return Ok(FileFormat::Heic);
            }
        }
        return Ok(FileFormat::Mp4);
    }
    // WebP: RIFF....WEBP
    let riff: [u8; 4] = [0x52, 0x49, 0x46, 0x46];
    let webp: [u8; 4] = [0x57, 0x45, 0x42, 0x50];
    assert(riff@ =~= fourcc_riff());
    assert(webp@ =~= fourcc_webp());
    if bytes.len() >= 12 && tag_at(bytes, 0, riff) && tag_at(bytes, 8, webp) {
        return Ok(FileFormat::Webp);
    }
    // MP3: ID3v2 header, MPEG sync word, or ID3v1 trailer
    if has_prefix(bytes, &id3) {
        return Ok(FileFormat::Mp3);
    }
    if bytes[0] == 0xff && bytes[1] >= 0xe0 {
        return Ok(FileFormat::Mp3);
    }
    let n = bytes.len();
    if n >= 128 && bytes[n - 128] == 0x54 && bytes[n - 127] == 0x41 && bytes[n - 126] == 0x47 {
        assert(b.subrange(n - 128, n - 125) =~= tag_magic());
        return Ok(FileFormat::Mp3);
    }
    assert(n >= 128 ==> b.subrange(n - 128, n - 125) != tag_magic()) by {
        if n >= 128 && b.subrange(n - 128, n - 125) == tag_magic() {
            assert(b.subrange(n - 128, n - 125)[0] == b[n - 128]);
            assert(b.subrange(n - 128, n - 125)[1] == b[n - 127]);
            assert(b.subrange(n - 128, n - 125)[2] == b[n - 126]);
        }
    }
    // Office Open XML (ZIP-based): PK 03 04
    if has_prefix(bytes, &pk) {
        return detect_office_format(bytes);
    }
    Err(Error::UnsupportedFormat)
}

} // verus!
