use crate::bytes::{has_tag, le32, le32_bytes, lemma_le32_roundtrip, push_le32, push_range, read_le32, tag_at};
use crate::types::{Error, ErrorKind, FileFormat, MetadataRemover, RemovalOptions};
use vstd::prelude::*;

verus! {

/// Removes metadata chunks from WebP files.
pub struct WebpRemover;

/// `RIFF`
pub open spec fn fourcc_riff() -> Seq<u8> { seq![0x52u8, 0x49, 0x46, 0x46] }
/// `WEBP`
pub open spec fn fourcc_webp() -> Seq<u8> { seq![0x57u8, 0x45, 0x42, 0x50] }
/// `EXIF`
pub open spec fn fourcc_exif() -> Seq<u8> { seq![0x45u8, 0x58, 0x49, 0x46] }
/// `XMP `
pub open spec fn fourcc_xmp() -> Seq<u8> { seq![0x58u8, 0x4d, 0x50, 0x20] }
/// `ICCP`
pub open spec fn fourcc_iccp() -> Seq<u8> { seq![0x49u8, 0x43, 0x43, 0x50] }
/// `VP8 `
pub open spec fn fourcc_vp8() -> Seq<u8> { seq![0x56u8, 0x50, 0x38, 0x20] }
/// `VP8L`
pub open spec fn fourcc_vp8l() -> Seq<u8> { seq![0x56u8, 0x50, 0x38, 0x4c] }

/// A chunk of this type is metadata that `options` asks to remove.
pub open spec fn strips_chunk(fourcc: Seq<u8>, options: RemovalOptions) -> bool {
    (fourcc == fourcc_exif() && options.exif) || (fourcc == fourcc_xmp() && options.xmp) || (fourcc == fourcc_iccp()
        && options.icc_profile)
}

/// A chunk of this type holds image data.
pub open spec fn is_image_chunk(fourcc: Seq<u8>) -> bool {
    fourcc == fourcc_vp8() || fourcc == fourcc_vp8l()
}

/// The chunk at `pos` with payload size `size`, as it is kept: its type, its
/// size, its payload, and its padding byte when the payload size is odd and
/// the data holds the padding byte.
pub open spec fn kept_chunk(d: Seq<u8>, pos: int, size: int) -> Seq<u8> {
    let payload_end = pos + 8 + size;
    d.subrange(pos, pos + 4) + le32_bytes(size as u32) + d.subrange(pos + 8, payload_end) + (if size % 2 != 0
        && payload_end + 1 <= d.len() {
        seq![d[payload_end]]
    } else {
        Seq::empty()
    })
}

/// Appends the chunk at `pos` as it is kept (see `kept_chunk`).
pub fn push_kept_chunk(body: &mut Vec<u8>, input: &[u8], pos: usize, size: u32)
    requires
        pos + 8 + size <= input@.len(),
        input@.len() < usize::MAX,
    ensures
        final(body)@ == old(body)@ + kept_chunk(input@, pos as int, size as int),
{
    let payload_end = pos + 8 + size as usize;
    push_range(body, input, pos, pos + 4);
    push_le32(body, size);
    push_range(body, input, pos + 8, payload_end);
    if size % 2 != 0 && payload_end + 1 <= input.len() {
        body.push(input[payload_end]);
    }
    assert(body@ =~= old(body)@ + kept_chunk(input@, pos as int, size as int));
}

/// The chunks of a RIFF payload from `pos`, appended to `acc`, without the
/// metadata chunks; and whether an image chunk was kept. A kept chunk is its
/// type, its size, its payload and its padding byte when the data holds one.
/// `None` when a chunk runs past the data.
#[verifier::opaque]
pub open spec fn webp_chunks_from(d: Seq<u8>, pos: int, options: RemovalOptions, acc: Seq<u8>, has_image: bool) -> Option<
    (Seq<u8>, bool),
>
    decreases d.len() + 1 - pos,
{
    if pos < 0 || pos + 8 > d.len() {
        Some((acc, has_image))
    } else {
        let fourcc = d.subrange(pos, pos + 4);
        let size = le32(d, pos + 4);
        let payload_end = pos + 8 + size;
        if payload_end > d.len() {
            None
        } else {
            let padded_end = payload_end + size % 2;
            if strips_chunk(fourcc, options) {
                webp_chunks_from(d, padded_end, options, acc, has_image)
            } else {
                webp_chunks_from(d, padded_end, options, acc + kept_chunk(d, pos, size), has_image || is_image_chunk(fourcc))
            }
        }
    }
}

/// One step of `webp_chunks_from` at a position holding a chunk header.
pub proof fn lemma_webp_chunk_step(d: Seq<u8>, pos: int, options: RemovalOptions, acc: Seq<u8>, has_image: bool)
    requires
        0 <= pos,
        pos + 8 <= d.len(),
    ensures
        webp_chunks_from(d, pos, options, acc, has_image) == ({
            let fourcc = d.subrange(pos, pos + 4);
            let size = le32(d, pos + 4);
            let payload_end = pos + 8 + size;
            if payload_end > d.len() {
                None
            } else if strips_chunk(fourcc, options) {
                webp_chunks_from(d, payload_end + size % 2, options, acc, has_image)
            } else {
                webp_chunks_from(d, payload_end + size % 2, options, acc + kept_chunk(d, pos, size),
                    has_image || is_image_chunk(fourcc))
            }
        }),
{
    reveal_with_fuel(webp_chunks_from, 1);
}

/// The walk ends at a position that holds no chunk header.
pub proof fn lemma_webp_chunks_end(d: Seq<u8>, pos: int, options: RemovalOptions, acc: Seq<u8>, has_image: bool)
    requires
        pos + 8 > d.len(),
    ensures
        webp_chunks_from(d, pos, options, acc, has_image) == Some((acc, has_image)),
{
    reveal_with_fuel(webp_chunks_from, 1);
}

/// The WebP file without its metadata chunks, its RIFF size set to what is
/// left; `None` when the input is not a WebP whose RIFF size matches its
/// length, when a chunk is cut short, or when no image chunk is left.
pub open spec fn webp_remove_spec(d: Seq<u8>, options: RemovalOptions) -> Option<Seq<u8>> {
    if d.len() < 12 || !has_tag(d, 0, fourcc_riff()) || !has_tag(d, 8, fourcc_webp()) {
        None
    } else if le32(d, 4) + 8 != d.len() {
        None
    } else {
        match webp_chunks_from(d, 12, options, Seq::empty(), false) {
            None => None,
            Some((body, has_image)) => if !has_image {
                None
            } else {
                Some(fourcc_riff() + le32_bytes((4 + body.len()) as u32) + fourcc_webp() + body)
            },
        }
    }
}

pub fn should_strip_chunk(fourcc: &[u8], options: &RemovalOptions) -> (r: bool)
    ensures
        r == (fourcc@.len() == 4 && strips_chunk(fourcc@, *options)),
{
    let exif: [u8; 4] = [0x45, 0x58, 0x49, 0x46];
    let xmp: [u8; 4] = [0x58, 0x4d, 0x50, 0x20];
    let iccp: [u8; 4] = [0x49, 0x43, 0x43, 0x50];
    proof {
        assert(exif@ =~= fourcc_exif());
        assert(xmp@ =~= fourcc_xmp());
        assert(iccp@ =~= fourcc_iccp());
        assert(fourcc@.len() == 4 ==> fourcc@.subrange(0, 4) =~= fourcc@);
    }
    if fourcc.len() != 4 {
        false
    } else if tag_at(fourcc, 0, exif) {
        options.exif
    } else if tag_at(fourcc, 0, xmp) {
        options.xmp
    } else if tag_at(fourcc, 0, iccp) {
        options.icc_profile
    } else {
        false
    }
}

impl MetadataRemover for WebpRemover {
    open spec fn accepts(&self, input: Seq<u8>, options: RemovalOptions) -> bool {
        input.len() < usize::MAX
    }

    fn format(&self) -> (r: FileFormat)
        ensures
            r == FileFormat::Webp,
    {
        FileFormat::Webp
    }

    fn remove_metadata(&self, input: &[u8], options: &RemovalOptions) -> (r: Result<Vec<u8>, Error>)
        ensures
            match webp_remove_spec(input@, *options) {
                Some(v) => r matches Ok(out) && out@ == v,
                None => r matches Err(e) && e.kind() == ErrorKind::InvalidData,
            },
    {
        let ghost d = input@;
        let riff: [u8; 4] = [0x52, 0x49, 0x46, 0x46];
        let webp: [u8; 4] = [0x57, 0x45, 0x42, 0x50];
        assert(riff@ =~= fourcc_riff());
        assert(webp@ =~= fourcc_webp());
        if input.len() < 12 || !tag_at(input, 0, riff) || !tag_at(input, 8, webp) {
            return Err(Error::InvalidData("WebP".to_string()));
        }
        let riff_size = read_le32(input, 4) as u64;
        if riff_size + 8 != input.len() as u64 {
            return Err(Error::InvalidData("WebP RIFF size mismatch".to_string()));
        }
        let mut body: Vec<u8> = Vec::new();
        let mut pos: usize = 12;
        let mut has_image = false;
        let ghost total = webp_chunks_from(d, 12, *options, Seq::empty(), false);
        while pos <= input.len() && input.len() - pos >= 8
            invariant
                d == input@,
                d.len() < usize::MAX,
                pos <= d.len() + 1,
                webp_chunks_from(d, pos as int, *options, body@, has_image) == total,
                total == webp_chunks_from(d, 12, *options, Seq::empty(), false),
                d.len() >= 12 && has_tag(d, 0, fourcc_riff()) && has_tag(d, 8, fourcc_webp()),
                le32(d, 4) + 8 == d.len(),
                12 <= pos,
                body@.len() + 12 <= pos,
            decreases d.len() + 1 - pos,
        {
            let fourcc = vstd::slice::slice_subrange(input, pos, pos + 4);
            let chunk_size = read_le32(input, pos + 4);
            proof { lemma_webp_chunk_step(d, pos as int, *options, body@, has_image); }
            if chunk_size as usize > input.len() - pos - 8 {
                return Err(Error::InvalidData("WebP truncated chunk".to_string()));
            }
            let payload_end = pos + 8 + chunk_size as usize;
            let padded_end = payload_end + (chunk_size % 2) as usize;
            if should_strip_chunk(fourcc, options) {
                pos = padded_end;
                continue;
            }
            let vp8: [u8; 4] = [0x56, 0x50, 0x38, 0x20];
            let vp8l: [u8; 4] = [0x56, 0x50, 0x38, 0x4c];
            assert(vp8@ =~= fourcc_vp8());
            assert(vp8l@ =~= fourcc_vp8l());
            if tag_at(input, pos, vp8) || tag_at(input, pos, vp8l) {
                has_image = true;
            }
            push_kept_chunk(&mut body, input, pos, chunk_size);
            pos = padded_end;
        }
        proof { lemma_webp_chunks_end(d, pos as int, *options, body@, has_image); }
        if !has_image {
            return Err(Error::InvalidData("WebP missing image data chunk".to_string()));
        }
        let mut output: Vec<u8> = Vec::new();
        push_range(&mut output, &riff, 0, 4);
        push_le32(&mut output, (4 + body.len()) as u32);
        push_range(&mut output, &webp, 0, 4);
        push_range(&mut output, &body, 0, body.len());
        proof {
            assert(riff@.subrange(0, 4) =~= riff@);
            assert(webp@.subrange(0, 4) =~= webp@);
            assert(body@.subrange(0, body@.len() as int) =~= body@);
        }
        Ok(output)
    }
}

/// What the WebP remover writes is a RIFF/WebP file whose RIFF size is the
/// length of what follows the size field (when that length fits the field).
pub proof fn lemma_webp_output_sized(d: Seq<u8>, options: RemovalOptions)
    requires
        webp_remove_spec(d, options) is Some,
        webp_remove_spec(d, options).unwrap().len() <= u32::MAX + 8,
    ensures
        ({
            let out = webp_remove_spec(d, options).unwrap();
            &&& out.len() >= 12
            &&& has_tag(out, 0, fourcc_riff())
            &&& has_tag(out, 8, fourcc_webp())
            &&& le32(out, 4) + 8 == out.len()
        }),
{
    let out = webp_remove_spec(d, options).unwrap();
    let body = out.subrange(12, out.len() as int);
    let size = (out.len() - 8) as u32;
    lemma_le32_roundtrip(size);
    assert(out.subrange(0, 4) =~= fourcc_riff());
    assert(out.subrange(8, 12) =~= fourcc_webp());
    assert(out[4] == le32_bytes(size)[0]);
    assert(out[5] == le32_bytes(size)[1]);
    assert(out[6] == le32_bytes(size)[2]);
    assert(out[7] == le32_bytes(size)[3]);
}

} // verus!
