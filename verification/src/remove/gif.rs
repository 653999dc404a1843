use crate::bytes::{has_prefix, push_range, starts_with};
use crate::types::{Error, ErrorKind, FileFormat, MetadataRemover, RemovalOptions};
use vstd::arithmetic::power2::{lemma2_to64, pow2};
use vstd::prelude::*;

verus! {

/// Removes metadata blocks from GIF files: comments, plain text and
/// application extensions other than the looping ones.
pub struct GifRemover;

/// `GIF87a`
pub open spec fn gif87a() -> Seq<u8> {
    seq![0x47u8, 0x49, 0x46, 0x38, 0x37, 0x61]
}

/// `GIF89a`
pub open spec fn gif89a() -> Seq<u8> {
    seq![0x47u8, 0x49, 0x46, 0x38, 0x39, 0x61]
}

/// `NETSCAPE2.0`
pub open spec fn netscape_id() -> Seq<u8> {
    seq![0x4eu8, 0x45, 0x54, 0x53, 0x43, 0x41, 0x50, 0x45, 0x32, 0x2e, 0x30]
}

/// `ANIMEXTS1.0`
pub open spec fn animexts_id() -> Seq<u8> {
    seq![0x41u8, 0x4e, 0x49, 0x4d, 0x45, 0x58, 0x54, 0x53, 0x31, 0x2e, 0x30]
}

/// The input opens with one of the two GIF signatures.
pub open spec fn has_gif_signature(s: Seq<u8>) -> bool {
    starts_with(s, gif87a()) || starts_with(s, gif89a())
}

/// Bit 7 of a packed field: a colour table follows.
pub open spec fn has_color_table(packed: u8) -> bool {
    packed >= 0x80
}

/// The length of the colour table that a packed field announces:
/// three bytes for each of 2^(n+1) colours, `n` being its low three bits.
pub open spec fn color_table_len(packed: u8) -> int {
    3 * pow2((packed % 8) as nat + 1) as int
}

/// The position after a chain of data sub-blocks starting at `pos`: each is
/// a size byte and that many bytes, and a zero size byte ends the chain.
/// `None` when the chain runs past the data.
pub open spec fn sub_blocks_end(d: Seq<u8>, pos: int) -> Option<int>
    decreases d.len() - pos,
{
    if pos < 0 || pos >= d.len() {
        None
    } else if d[pos] == 0 {
        Some(pos + 1)
    } else if pos + 1 + d[pos] > d.len() {
        None
    } else {
        sub_blocks_end(d, pos + 1 + d[pos])
    }
}

/// A chain of sub-blocks ends after its start and within the data.
pub proof fn lemma_sub_blocks_end_bounds(d: Seq<u8>, pos: int)
    ensures
        sub_blocks_end(d, pos) matches Some(e) ==> pos < e <= d.len(),
    decreases d.len() - pos,
{
    if 0 <= pos < d.len() && d[pos] != 0 && pos + 1 + d[pos] <= d.len() {
        lemma_sub_blocks_end_bounds(d, pos + 1 + d[pos]);
    }
}

/// One step of `sub_blocks_end` at a position inside the data.
proof fn lemma_sub_blocks_step(d: Seq<u8>, pos: int)
    requires
        0 <= pos < d.len(),
    ensures
        sub_blocks_end(d, pos) == if d[pos] == 0 {
            Some(pos + 1)
        } else if pos + 1 + d[pos] > d.len() {
            None
        } else {
            sub_blocks_end(d, pos + 1 + d[pos])
        },
{
}

/// The application extension whose 11-byte identifier is `app_id` controls
/// looping and is kept.
pub open spec fn is_looping_app(app_id: Seq<u8>) -> bool {
    starts_with(app_id, netscape_id()) || starts_with(app_id, animexts_id())
}

/// Where the image block at `pos` ends: the separator (`0x2C`), the 9-byte
/// descriptor, the local colour table that the descriptor announces, the
/// LZW code size byte and the data sub-blocks. `None` when it runs past the
/// data.
pub open spec fn image_block_end(d: Seq<u8>, pos: int) -> Option<int> {
    let p = pos + 1;
    if p + 9 > d.len() {
        None
    } else {
        let packed = d[p + 8];
        let q = p + 9 + (if has_color_table(packed) { color_table_len(packed) } else { 0 });
        if q >= d.len() {
            None
        } else {
            sub_blocks_end(d, q + 1)
        }
    }
}

/// Where the extension at `pos` ends, and whether it is kept: the
/// introducer (`0x21`), the label and the sub-blocks. A graphic control
/// extension (`0xF9`) is its size byte, that many bytes and a terminator
/// byte; an application extension (`0xFF`) has an 11-byte identifier before
/// its sub-blocks and is kept only when it controls looping. Comments
/// (`0xFE`) and plain text (`0x01`) are dropped, other extensions kept.
/// `None` when it runs past the data.
pub open spec fn extension_end(d: Seq<u8>, pos: int) -> Option<(int, bool)> {
    let p = pos + 1;
    if p >= d.len() {
        None
    } else {
        let label = d[p];
        let q = p + 1;
        if label == 0xF9 {
            if q >= d.len() || q + 2 + d[q] > d.len() {
                None
            } else {
                Some((q + 2 + d[q], true))
            }
        } else if label == 0xFF {
            if q + 11 > d.len() {
                None
            } else {
                match sub_blocks_end(d, q + 11) {
                    Some(e) => Some((e, is_looping_app(d.subrange(q, q + 11)))),
                    None => None,
                }
            }
        } else {
            match sub_blocks_end(d, q) {
                Some(e) => Some((e, label != 0xFE && label != 0x01)),
                None => None,
            }
        }
    }
}

/// The block at `pos` (not the trailer): where it ends and whether it is
/// kept. Image blocks are kept; extensions as `extension_end` says. `None`
/// when the block is broken or its introducer is neither `0x2C` nor `0x21`.
pub open spec fn block_at(d: Seq<u8>, pos: int) -> Option<(int, bool)> {
    if pos < 0 || pos >= d.len() {
        None
    } else if d[pos] == 0x2C {
        match image_block_end(d, pos) {
            Some(e) => Some((e, true)),
            None => None,
        }
    } else if d[pos] == 0x21 {
        extension_end(d, pos)
    } else {
        None
    }
}

/// A block ends after its start and within the data.
pub proof fn lemma_block_at_bounds(d: Seq<u8>, pos: int)
    ensures
        block_at(d, pos) matches Some((e, _)) ==> pos < e <= d.len(),
{
    let p = pos + 1;
    if 0 <= pos < d.len() && d[pos] == 0x2C && p + 9 <= d.len() {
        let packed = d[p + 8];
        let q = p + 9 + (if has_color_table(packed) { color_table_len(packed) } else { 0 });
        assert(color_table_len(packed) >= 0);
        lemma_sub_blocks_end_bounds(d, q + 1);
    } else if 0 <= pos < d.len() && d[pos] == 0x21 && p < d.len() {
        lemma_sub_blocks_end_bounds(d, p + 1);
        lemma_sub_blocks_end_bounds(d, p + 12);
    }
}

/// The blocks from `pos` up to the trailer, appended to `acc` without the
/// dropped ones, and the trailer after them. What follows the trailer is
/// not read. `None` when a block is broken or no trailer comes.
pub open spec fn gif_blocks_from(d: Seq<u8>, pos: int, acc: Seq<u8>) -> Option<Seq<u8>>
    decreases d.len() - pos,
{
    if pos < 0 || pos >= d.len() {
        None
    } else if d[pos] == 0x3B {
        Some(acc.push(0x3B))
    } else {
        match block_at(d, pos) {
            Some((e, keep)) => {
                proof {
                    lemma_block_at_bounds(d, pos);
                }
                gif_blocks_from(d, e, if keep { acc + d.subrange(pos, e) } else { acc })
            },
            None => None,
        }
    }
}

/// Where the blocks start: after the 6-byte signature, the 7-byte logical
/// screen descriptor and the global colour table that it announces.
pub open spec fn gif_header_len(d: Seq<u8>) -> int {
    13 + (if has_color_table(d[10]) { color_table_len(d[10]) } else { 0 })
}

/// What the GIF remover makes of `d`: the header, the kept blocks and the
/// trailer; `FormatDetectionFailed` when `d` does not open with a GIF
/// signature, `InvalidData` when its structure is broken.
pub open spec fn gif_remove_spec(d: Seq<u8>) -> Result<Seq<u8>, ErrorKind> {
    if !has_gif_signature(d) {
        Err(ErrorKind::FormatDetectionFailed)
    } else if d.len() < 13 || gif_header_len(d) > d.len() {
        Err(ErrorKind::InvalidData)
    } else {
        match gif_blocks_from(d, gif_header_len(d), d.subrange(0, gif_header_len(d))) {
            Some(out) => Ok(out),
            None => Err(ErrorKind::InvalidData),
        }
    }
}

/// The length of the colour table announced by `packed`.
fn color_table_bytes(packed: u8) -> (n: usize)
    ensures
        n == color_table_len(packed),
        n <= 768,
{
    let shift = (packed % 8) as usize + 1;
    proof {
        lemma2_to64();
        assert(pow2(shift as nat) <= 256) by {
            vstd::arithmetic::power2::lemma_pow2_strictly_increases(shift as nat, 9);
        }
        vstd::bits::lemma_usize_shl_is_mul(1, shift);
    }
    3 * (1usize << shift)
}

/// Skips sub-blocks (read size byte, skip that many bytes, repeat until
/// size=0) and returns the position after the terminator.
fn skip_sub_blocks(input: &[u8], pos: usize) -> (r: Result<usize, Error>)
    ensures
        match sub_blocks_end(input@, pos as int) {
            Some(e) => r matches Ok(p) && p == e,
            None => r matches Err(err) && err.kind() == ErrorKind::InvalidData,
        },
{
    let mut p = pos;
    loop
        invariant
            sub_blocks_end(input@, p as int) == sub_blocks_end(input@, pos as int),
        decreases input@.len() - p,
    {
        if p >= input.len() {
            return Err(Error::InvalidData("Truncated sub-blocks".to_string()));
        }
        let size = input[p] as usize;
        proof {
            lemma_sub_blocks_step(input@, p as int);
        }
        p += 1;
        if size == 0 {
            return Ok(p);
        }
        if size > input.len() - p {
            return Err(Error::InvalidData("Truncated sub-block data".to_string()));
        }
        p += size;
    }
}

/// Copies sub-blocks verbatim to `out` (read size byte, copy size+1 bytes,
/// repeat until size=0) and returns the position after the terminator.
fn copy_sub_blocks(input: &[u8], pos: usize, out: &mut Vec<u8>) -> (r: Result<usize, Error>)
    ensures
        match sub_blocks_end(input@, pos as int) {
            Some(e) => r matches Ok(p) && p == e && final(out)@ == old(out)@ + input@.subrange(pos as int, e),
            None => r matches Err(err) && err.kind() == ErrorKind::InvalidData,
        },
{
    if pos >= input.len() {
        return Err(Error::InvalidData("Truncated sub-blocks".to_string()));
    }
    let mut p = pos;
    loop
        invariant
            pos <= p <= input@.len(),
            sub_blocks_end(input@, p as int) == sub_blocks_end(input@, pos as int),
            out@ == old(out)@ + input@.subrange(pos as int, p as int),
        decreases input@.len() - p,
    {
        if p >= input.len() {
            return Err(Error::InvalidData("Truncated sub-blocks".to_string()));
        }
        let size = input[p] as usize;
        proof {
            lemma_sub_blocks_step(input@, p as int);
        }
        out.push(input[p]);
        p += 1;
        proof {
            assert(input@.subrange(pos as int, p as int) =~= input@.subrange(pos as int, p - 1).push(
                input@[p - 1],
            ));
        }
        if size == 0 {
            return Ok(p);
        }
        if size > input.len() - p {
            return Err(Error::InvalidData("Truncated sub-block data".to_string()));
        }
        push_range(out, input, p, p + size);
        proof {
            assert(input@.subrange(pos as int, (p + size) as int) =~= input@.subrange(pos as int, p as int)
                + input@.subrange(p as int, (p + size) as int));
        }
        p += size;
    }
}

/// Copies the image block at `pos` (its separator `0x2C` there) to `out`
/// and returns the position after it.
fn copy_image_block(input: &[u8], pos: usize, out: &mut Vec<u8>) -> (r: Result<usize, Error>)
    requires
        pos < input@.len(),
        input@[pos as int] == 0x2C,
    ensures
        match image_block_end(input@, pos as int) {
            Some(e) => r matches Ok(p) && p == e && final(out)@ == old(out)@ + input@.subrange(pos as int, e),
            None => r matches Err(err) && err.kind() == ErrorKind::InvalidData,
        },
{
    let ghost d = input@;
    let ghost out0 = out@;
    let _n = input.len();
    out.push(0x2C);
    let mut p = pos + 1;
    proof {
        assert(out@ =~= out0 + d.subrange(pos as int, p as int));
    }
    if 9 > input.len() - p {
        return Err(Error::InvalidData("Truncated image descriptor".to_string()));
    }
    push_range(out, input, p, p + 9);
    let img_packed = input[p + 8];
    p += 9;
    proof {
        assert(out@ =~= out0 + d.subrange(pos as int, p as int));
    }
    // Local Color Table if present
    if img_packed >= 0x80 {
        let lct_bytes = color_table_bytes(img_packed);
        if lct_bytes > input.len() - p {
            return Err(Error::InvalidData("Truncated LCT".to_string()));
        }
        push_range(out, input, p, p + lct_bytes);
        p += lct_bytes;
        proof {
            assert(out@ =~= out0 + d.subrange(pos as int, p as int));
        }
    }
    // LZW minimum code size (1 byte)
    if p >= input.len() {
        return Err(Error::InvalidData("Missing LZW code size".to_string()));
    }
    out.push(input[p]);
    p += 1;
    proof {
        assert(out@ =~= out0 + d.subrange(pos as int, p as int));
        lemma_sub_blocks_end_bounds(d, p as int);
    }
    let ghost mid = out@;
    match copy_sub_blocks(input, p, out) {
        Ok(e) => {
            proof {
                assert(out@ =~= out0 + d.subrange(pos as int, e as int));
            }
            Ok(e)
        },
        Err(err) => Err(err),
    }
}

/// Handles the extension at `pos` (its introducer `0x21` there): copies it
/// to `out` when it is kept, and returns the position after it.
fn copy_or_skip_extension(input: &[u8], pos: usize, out: &mut Vec<u8>) -> (r: Result<usize, Error>)
    requires
        pos < input@.len(),
        input@[pos as int] == 0x21,
    ensures
        match extension_end(input@, pos as int) {
            Some((e, keep)) => r matches Ok(p) && p == e && final(out)@ == old(out)@ + (if keep {
                input@.subrange(pos as int, e)
            } else {
                Seq::empty()
            }),
            None => r matches Err(err) && err.kind() == ErrorKind::InvalidData,
        },
{
    let ghost d = input@;
    let ghost out0 = out@;
    let _n = input.len();
    let mut p = pos + 1;
    if p >= input.len() {
        return Err(Error::InvalidData("Truncated extension label".to_string()));
    }
    let label = input[p];
    p += 1;
    if label == 0xF9 {
        // Graphic Control Extension — preserve
        if p >= input.len() {
            return Err(Error::InvalidData("Truncated GCE".to_string()));
        }
        let block_size = input[p] as usize;
        if block_size + 2 > input.len() - p {
            return Err(Error::InvalidData("Truncated GCE data".to_string()));
        }
        // label, block size byte, data and terminator
        push_range(out, input, pos, p + block_size + 2);
        Ok(p + block_size + 2)
    } else if label == 0xFF {
        // Application Extension — kept only when it controls looping
        if 11 > input.len() - p {
            return Err(Error::InvalidData("Truncated app extension header".to_string()));
        }
        let app_id = vstd::slice::slice_subrange(input, p, p + 11);
        let netscape: [u8; 11] = [0x4e, 0x45, 0x54, 0x53, 0x43, 0x41, 0x50, 0x45, 0x32, 0x2e, 0x30];
        let animexts: [u8; 11] = [0x41, 0x4e, 0x49, 0x4d, 0x45, 0x58, 0x54, 0x53, 0x31, 0x2e, 0x30];
        proof {
            assert(netscape@ =~= netscape_id());
            assert(animexts@ =~= animexts_id());
        }
        let is_looping = has_prefix(app_id, &netscape) || has_prefix(app_id, &animexts);
        if is_looping {
            push_range(out, input, pos, p + 11);
            proof {
                lemma_sub_blocks_end_bounds(d, p + 11);
            }
            match copy_sub_blocks(input, p + 11, out) {
                Ok(e) => {
                    proof {
                        assert(out@ =~= out0 + d.subrange(pos as int, e as int));
                    }
                    Ok(e)
                },
                Err(err) => Err(err),
            }
        } else {
            skip_sub_blocks(input, p + 11)
        }
    } else if label == 0xFE || label == 0x01 {
        // Comment and Plain Text Extensions — strip
        skip_sub_blocks(input, p)
    } else {
        // Unknown extension — preserve
        push_range(out, input, pos, p);
        proof {
            lemma_sub_blocks_end_bounds(d, p as int);
        }
        match copy_sub_blocks(input, p, out) {
            Ok(e) => {
                proof {
                    assert(out@ =~= out0 + d.subrange(pos as int, e as int));
                }
                Ok(e)
            },
            Err(err) => Err(err),
        }
    }
}

/// One step of `gif_blocks_from` at a position inside the data.
proof fn lemma_gif_blocks_step(d: Seq<u8>, pos: int, acc: Seq<u8>)
    requires
        0 <= pos < d.len(),
    ensures
        gif_blocks_from(d, pos, acc) == if d[pos] == 0x3B {
            Some(acc.push(0x3B))
        } else {
            match block_at(d, pos) {
                Some((e, keep)) => gif_blocks_from(d, e, if keep { acc + d.subrange(pos, e) } else { acc }),
                None => None,
            }
        },
{
}

impl MetadataRemover for GifRemover {
    open spec fn accepts(&self, input: Seq<u8>, options: RemovalOptions) -> bool {
        true
    }

    fn format(&self) -> (r: FileFormat)
        ensures
            r == FileFormat::Gif,
    {
        FileFormat::Gif
    }

    /// Copies the header, the logical screen descriptor, the global colour
    /// table, the image blocks, the graphic control extensions, the looping
    /// application extensions and the trailer; drops comments, plain text
    /// and other application extensions. The options are not read.
    fn remove_metadata(&self, input: &[u8], _options: &RemovalOptions) -> (r: Result<Vec<u8>, Error>)
        ensures
            match gif_remove_spec(input@) {
                Ok(v) => r matches Ok(out) && out@ == v,
                Err(k) => r matches Err(e) && e.kind() == k,
            },
    {
        let ghost d = input@;
        let sig87: [u8; 6] = [0x47, 0x49, 0x46, 0x38, 0x37, 0x61];
        let sig89: [u8; 6] = [0x47, 0x49, 0x46, 0x38, 0x39, 0x61];
        proof {
            assert(sig87@ =~= gif87a());
            assert(sig89@ =~= gif89a());
        }
        if !has_prefix(input, &sig87) && !has_prefix(input, &sig89) {
            return Err(Error::FormatDetectionFailed);
        }
        if input.len() < 13 {
            return Err(Error::InvalidData("Truncated LSD".to_string()));
        }
        let mut out: Vec<u8> = Vec::new();
        // Header (6 bytes) and Logical Screen Descriptor (7 bytes)
        push_range(&mut out, input, 0, 13);
        let packed = input[10];
        let mut pos: usize = 13;
        // Global Color Table if present
        if packed >= 0x80 {
            let gct_bytes = color_table_bytes(packed);
            if gct_bytes > input.len() - pos {
                return Err(Error::InvalidData("Truncated GCT".to_string()));
            }
            push_range(&mut out, input, pos, pos + gct_bytes);
            pos += gct_bytes;
            proof {
                assert(out@ =~= d.subrange(0, pos as int));
            }
        }
        assert(pos == gif_header_len(d));
        assert(out@ =~= d.subrange(0, pos as int));
        let ghost total = gif_blocks_from(d, pos as int, out@);
        // Walk blocks until trailer
        loop
            invariant
                d == input@,
                pos <= d.len(),
                gif_blocks_from(d, pos as int, out@) == total,
                d.len() >= 13 && has_gif_signature(d) && gif_header_len(d) <= d.len(),
                total == gif_blocks_from(d, gif_header_len(d), d.subrange(0, gif_header_len(d))),
            decreases d.len() - pos,
        {
            if pos >= input.len() {
                return Err(Error::InvalidData("Missing trailer".to_string()));
            }
            let introducer = input[pos];
            proof {
                lemma_gif_blocks_step(d, pos as int, out@);
                lemma_block_at_bounds(d, pos as int);
            }
            if introducer == 0x3B {
                out.push(0x3B);
                return Ok(out);
            } else if introducer == 0x2C {
                pos = match copy_image_block(input, pos, &mut out) {
                    Ok(p) => p,
                    Err(e) => return Err(e),
                };
            } else if introducer == 0x21 {
                pos = match copy_or_skip_extension(input, pos, &mut out) {
                    Ok(p) => p,
                    Err(e) => return Err(e),
                };
            } else {
                return Err(Error::InvalidData("Unexpected block introducer".to_string()));
            }
        }
    }
}

} // verus!
