use crate::bytes::{
    be32, be32_bytes, be64, lemma_be32_roundtrip, lemma_be32_shift, push_be32, push_range, read_be32,
    read_be64,
};
use crate::cursor::{cursor_data, cursor_get_ref, cursor_pos, cursor_position, cursor_set_position};
use crate::types::Error;
use std::io::Cursor;
use vstd::prelude::*;

verus! {

/// The box header at `pos`: `(total_size, header_size, box_type)`.
///
/// A 32-bit size of 1 announces a 64-bit size after the type; a size of 0
/// means the box runs to the end of the data.
pub open spec fn box_header_spec(data: Seq<u8>, pos: int) -> Option<(usize, usize, Seq<u8>)> {
    if pos + 8 > data.len() {
        None
    } else {
        let size = be32(data, pos);
        let box_type = data.subrange(pos + 4, pos + 8);
        if size == 1 {
            if pos + 16 > data.len() {
                None
            } else {
                Some(((be64(data, pos + 8) as u64) as usize, 16usize, box_type))
            }
        } else if size == 0 {
            Some(((data.len() - pos) as usize, 8usize, box_type))
        } else {
            Some((size as usize, 8usize, box_type))
        }
    }
}

/// Reading a box header at `pos` stays within `usize`.
pub open spec fn box_header_fits(data: Seq<u8>, pos: int) -> bool {
    &&& pos + 8 <= usize::MAX
    &&& (pos + 8 <= data.len() && be32(data, pos) == 1) ==> pos + 16 <= usize::MAX
}

/// The full box header at `pos`:
/// `(total_size, header_size, box_type, version, flags)`.
pub open spec fn fullbox_header_spec(data: Seq<u8>, pos: int) -> Option<(usize, usize, Seq<u8>, u8, u32)> {
    if pos + 12 > data.len() {
        None
    } else {
        let size = be32(data, pos);
        let box_type = data.subrange(pos + 4, pos + 8);
        if size == 1 {
            if pos + 20 > data.len() {
                None
            } else {
                let vf = be32(data, pos + 16);
                Some((
                    (be64(data, pos + 8) as u64) as usize,
                    20usize,
                    box_type,
                    (vf / 0x100_0000) as u8,
                    (vf % 0x100_0000) as u32,
                ))
            }
        } else {
            let vf = be32(data, pos + 8);
            let total = if size == 0 { data.len() - pos } else { size };
            Some((total as usize, 12usize, box_type, (vf / 0x100_0000) as u8, (vf % 0x100_0000) as u32))
        }
    }
}

/// Reading a full box header at `pos` stays within `usize`.
pub open spec fn fullbox_header_fits(data: Seq<u8>, pos: int) -> bool {
    &&& pos + 12 <= usize::MAX
    &&& (pos + 12 <= data.len() && be32(data, pos) == 1) ==> pos + 20 <= usize::MAX
}

/// The bytes of a box of type `box_type` whose content is `data`.
pub open spec fn box_bytes(box_type: Seq<u8>, data: Seq<u8>) -> Seq<u8> {
    be32_bytes((8 + data.len()) as u32) + box_type + data
}

/// The bytes of a full box.
pub open spec fn fullbox_bytes(box_type: Seq<u8>, version: u8, flags: u32, data: Seq<u8>) -> Seq<u8> {
    be32_bytes((12 + data.len()) as u32) + box_type + be32_bytes(
        (version as u32 * 0x100_0000 + flags % 0x100_0000) as u32,
    ) + data
}

/// Lengths of the byte strings that the box walks handle: small enough that
/// positions a few megabytes past the end still fit in `usize`.
pub open spec fn within_limit(len: int) -> bool {
    len + 0x100_0000 <= usize::MAX
}

/// The next step of a walk over consecutive boxes at `pos`:
/// `None` when computing the end of the box would overflow, `Some(None)`
/// when the walk is over (no header, or the box runs past the data),
/// `Some(Some((start, header_size, end, box_type)))` otherwise.
/// When `header_counted` holds, the end is computed as
/// `start + header_size + total_size - header_size`, which overflows
/// earlier than `start + total_size`.
pub open spec fn next_box(data: Seq<u8>, pos: int, header_counted: bool) -> Option<
    Option<(int, int, int, Seq<u8>)>,
> {
    match box_header_spec(data, pos) {
        None => Some(None),
        Some((t, h, ty)) => {
            if pos + t + (if header_counted { h as int } else { 0 }) > usize::MAX {
                None
            } else if pos + t > data.len() {
                Some(None)
            } else {
                Some(Some((pos, h as int, pos + t, ty)))
            }
        },
    }
}

/// `ftyp`
pub open spec fn tag_ftyp() -> Seq<u8> { seq![0x66u8, 0x74, 0x79, 0x70] }
/// `heic`
pub open spec fn tag_heic() -> Seq<u8> { seq![0x68u8, 0x65, 0x69, 0x63] }
/// `meta`
pub open spec fn tag_meta() -> Seq<u8> { seq![0x6du8, 0x65, 0x74, 0x61] }
/// `iinf`
pub open spec fn tag_iinf() -> Seq<u8> { seq![0x69u8, 0x69, 0x6e, 0x66] }
/// `iloc`
pub open spec fn tag_iloc() -> Seq<u8> { seq![0x69u8, 0x6c, 0x6f, 0x63] }
/// `iref`
pub open spec fn tag_iref() -> Seq<u8> { seq![0x69u8, 0x72, 0x65, 0x66] }
/// `iprp`
pub open spec fn tag_iprp() -> Seq<u8> { seq![0x69u8, 0x70, 0x72, 0x70] }
/// `ipco`
pub open spec fn tag_ipco() -> Seq<u8> { seq![0x69u8, 0x70, 0x63, 0x6f] }
/// `ipma`
pub open spec fn tag_ipma() -> Seq<u8> { seq![0x69u8, 0x70, 0x6d, 0x61] }
/// `colr`
pub open spec fn tag_colr() -> Seq<u8> { seq![0x63u8, 0x6f, 0x6c, 0x72] }
/// `Exif`
pub open spec fn tag_exif() -> Seq<u8> { seq![0x45u8, 0x78, 0x69, 0x66] }
/// `mime`
pub open spec fn tag_mime() -> Seq<u8> { seq![0x6du8, 0x69, 0x6d, 0x65] }

/// Whether a box type spells `a b c d`.
pub fn tag_eq(ty: &[u8; 4], a: u8, b: u8, c: u8, d: u8) -> (r: bool)
    ensures
        r == (ty@ == seq![a, b, c, d]),
{
    let r = ty[0] == a && ty[1] == b && ty[2] == c && ty[3] == d;
    assert(r == (ty@ =~= seq![a, b, c, d]));
    r
}

/// Takes the next step of a box walk (see `next_box`).
pub fn next_box_at(data: &[u8], pos: usize, header_counted: bool) -> (r: Option<(usize, usize, usize, [u8; 4])>)
    requires
        pos <= data@.len(),
        within_limit(data@.len() as int),
        next_box(data@, pos as int, header_counted) is Some,
    ensures
        match (r, next_box(data@, pos as int, header_counted)) {
            (None, Some(None)) => true,
            (Some((s, h, e, ty)), Some(Some((ss, sh, se, sty)))) => s == ss && h == sh && e == se && ty@ == sty,
            _ => false,
        },
{
    match parse_box_header(data, pos) {
        None => None,
        Some((total, header, ty)) => {
            if total > data.len() - pos {
                None
            } else {
                Some((pos, header, pos + total, ty))
            }
        },
    }
}

/// Reads the box header at `pos` of `data`.
pub fn parse_box_header(data: &[u8], pos: usize) -> (r: Option<(usize, usize, [u8; 4])>)
    requires
        box_header_fits(data@, pos as int),
    ensures
        match (r, box_header_spec(data@, pos as int)) {
            (Some((t, h, ty)), Some((st, sh, sty))) => t == st && h == sh && ty@ == sty,
            (None, None) => true,
            _ => false,
        },
{
    if pos + 8 > data.len() {
        return None;
    }
    let size = read_be32(data, pos);
    let box_type: [u8; 4] = [data[pos + 4], data[pos + 5], data[pos + 6], data[pos + 7]];
    assert(box_type@ =~= data@.subrange(pos + 4, pos + 8));
    if size == 1 {
        if pos + 16 > data.len() {
            return None;
        }
        let ext_size = read_be64(data, pos + 8) as usize;
        Some((ext_size, 16, box_type))
    } else if size == 0 {
        Some((data.len() - pos, 8, box_type))
    } else {
        Some((size as usize, 8, box_type))
    }
}

/// Read a box header and return (total_size, header_size, box_type)
pub fn read_box_header(cursor: &mut Cursor<&[u8]>) -> (r: Option<(usize, usize, [u8; 4])>)
    requires
        box_header_fits(cursor_data(*old(cursor)), (cursor_pos(*old(cursor)) as usize) as int),
    ensures
        ({
            let pos = (cursor_pos(*old(cursor)) as usize) as int;
            let data = cursor_data(*old(cursor));
            &&& cursor_data(*final(cursor)) == data
            &&& match (r, box_header_spec(data, pos)) {
                (Some((t, h, ty)), Some((st, sh, sty))) => {
                    &&& t == st && h == sh && ty@ == sty
                    &&& cursor_pos(*final(cursor)) == pos + h
                },
                (None, None) => cursor_pos(*final(cursor)) == cursor_pos(*old(cursor)),
                _ => false,
            }
        }),
{
    let pos = cursor_position(cursor) as usize;
    let data = cursor_get_ref(cursor);
    match parse_box_header(data, pos) {
        Some((total_size, header_size, box_type)) => {
            cursor_set_position(cursor, (pos + header_size) as u64);
            Some((total_size, header_size, box_type))
        },
        None => None,
    }
}

/// Read a full box header and return (total_size, header_size, box_type, version, flags)
pub fn read_fullbox_header(cursor: &mut Cursor<&[u8]>) -> (r: Option<(usize, usize, [u8; 4], u8, u32)>)
    requires
        fullbox_header_fits(cursor_data(*old(cursor)), (cursor_pos(*old(cursor)) as usize) as int),
    ensures
        ({
            let pos = (cursor_pos(*old(cursor)) as usize) as int;
            let data = cursor_data(*old(cursor));
            &&& cursor_data(*final(cursor)) == data
            &&& match (r, fullbox_header_spec(data, pos)) {
                (Some((t, h, ty, v, f)), Some((st, sh, sty, sv, sf))) => {
                    &&& t == st && h == sh && ty@ == sty && v == sv && f == sf
                    &&& cursor_pos(*final(cursor)) == pos + h
                },
                (None, None) => cursor_pos(*final(cursor)) == cursor_pos(*old(cursor)),
                _ => false,
            }
        }),
{
    let pos = cursor_position(cursor) as usize;
    let data = cursor_get_ref(cursor);
    if pos + 12 > data.len() {
        return None;
    }
    let size = read_be32(data, pos);
    let box_type: [u8; 4] = [data[pos + 4], data[pos + 5], data[pos + 6], data[pos + 7]];
    assert(box_type@ =~= data@.subrange(pos + 4, pos + 8));
    if size == 1 {
        if pos + 20 > data.len() {
            return None;
        }
        let ext_size = read_be64(data, pos + 8) as usize;
        let vf = read_be32(data, pos + 16);
        let version = (vf / 0x100_0000) as u8;
        let flags = vf % 0x100_0000;
        cursor_set_position(cursor, (pos + 20) as u64);
        Some((ext_size, 20, box_type, version, flags))
    } else if size == 0 {
        let remaining = data.len() - pos;
        let vf = read_be32(data, pos + 8);
        let version = (vf / 0x100_0000) as u8;
        let flags = vf % 0x100_0000;
        cursor_set_position(cursor, (pos + 12) as u64);
        Some((remaining, 12, box_type, version, flags))
    } else {
        let vf = read_be32(data, pos + 8);
        let version = (vf / 0x100_0000) as u8;
        let flags = vf % 0x100_0000;
        cursor_set_position(cursor, (pos + 12) as u64);
        Some((size as usize, 12, box_type, version, flags))
    }
}

/// Write a box with the given type and data
pub fn write_box(output: &mut Vec<u8>, box_type: &[u8; 4], data: &[u8]) -> (r: Result<(), Error>)
    requires
        8 + data@.len() <= usize::MAX,
    ensures
        r is Ok,
        final(output)@ == old(output)@ + box_bytes(box_type@, data@),
{
    let size = (8 + data.len()) as u32;
    push_be32(output, size);
    push_range(output, box_type, 0, 4);
    push_range(output, data, 0, data.len());
    assert(box_type@.subrange(0, 4) =~= box_type@);
    assert(data@.subrange(0, data@.len() as int) =~= data@);
    assert(output@ =~= old(output)@ + box_bytes(box_type@, data@));
    Ok(())
}

/// Write a full box with the given type, version, flags, and data
pub fn write_fullbox(output: &mut Vec<u8>, box_type: &[u8; 4], version: u8, flags: u32, data: &[u8]) -> (r: Result<(), Error>)
    requires
        12 + data@.len() <= usize::MAX,
    ensures
        r is Ok,
        final(output)@ == old(output)@ + fullbox_bytes(box_type@, version, flags, data@),
{
    let vf = (version as u32) * 0x100_0000 + flags % 0x100_0000;
    let size = (12 + data.len()) as u32;
    push_be32(output, size);
    push_range(output, box_type, 0, 4);
    push_be32(output, vf);
    push_range(output, data, 0, data.len());
    assert(box_type@.subrange(0, 4) =~= box_type@);
    assert(data@.subrange(0, data@.len() as int) =~= data@);
    assert(output@ =~= old(output)@ + fullbox_bytes(box_type@, version, flags, data@));
    Ok(())
}

/// A box written by `write_box` reads back, by `read_box_header`, as a box
/// of the written type whose total size covers exactly its header and data
/// and whose header takes 8 bytes.
pub proof fn lemma_write_box_reads_back(before: Seq<u8>, box_type: Seq<u8>, data: Seq<u8>, after: Seq<u8>)
    requires
        box_type.len() == 4,
        8 + data.len() <= u32::MAX,
    ensures
        box_header_spec(before + box_bytes(box_type, data) + after, before.len() as int) == Some(
            ((8 + data.len()) as usize, 8usize, box_type),
        ),
{
    let bx = box_bytes(box_type, data);
    let all = before + bx + after;
    let size = (8 + data.len()) as u32;
    lemma_be32_roundtrip(size);
    assert(bx.subrange(0, 4) =~= be32_bytes(size));
    lemma_be32_shift(before, bx + after, 0);
    assert(all =~= before + (bx + after));
    assert(be32(bx + after, 0) == be32(be32_bytes(size), 0));
    assert(all.subrange(before.len() as int + 4, before.len() as int + 8) =~= box_type);
}

/// A full box written by `write_fullbox` reads back, by `read_fullbox_header`,
/// with its type, its version, the low 24 bits of its flags, a 12-byte header
/// and a total size that covers exactly its header and data.
pub proof fn lemma_write_fullbox_reads_back(
    before: Seq<u8>,
    box_type: Seq<u8>,
    version: u8,
    flags: u32,
    data: Seq<u8>,
    after: Seq<u8>,
)
    requires
        box_type.len() == 4,
        12 + data.len() <= u32::MAX,
    ensures
        fullbox_header_spec(before + fullbox_bytes(box_type, version, flags, data) + after, before.len() as int)
            == Some(((12 + data.len()) as usize, 12usize, box_type, version, flags % 0x100_0000)),
{
    let bx = fullbox_bytes(box_type, version, flags, data);
    let all = before + bx + after;
    let size = (12 + data.len()) as u32;
    let vf = (version as u32 * 0x100_0000 + flags % 0x100_0000) as u32;
    lemma_be32_roundtrip(size);
    lemma_be32_roundtrip(vf);
    assert(all =~= before + (bx + after));
    assert((bx + after).subrange(0, 4) =~= be32_bytes(size));
    assert((bx + after).subrange(8, 12) =~= be32_bytes(vf));
    lemma_be32_shift(before, bx + after, 0);
    lemma_be32_shift(before, bx + after, 8);
    assert(be32(bx + after, 0) == be32(be32_bytes(size), 0));
    assert(be32(bx + after, 8) == be32((bx + after).subrange(8, 12), 0));
    assert(all.subrange(before.len() as int + 4, before.len() as int + 8) =~= box_type);
    assert(vf as int / 0x100_0000 == version as int);
    assert(vf as int % 0x100_0000 == flags as int % 0x100_0000);
}

} // verus!
