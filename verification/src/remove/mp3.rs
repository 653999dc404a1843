use crate::bytes::{has_prefix, starts_with};
use crate::types::{Error, ErrorKind, FileFormat, MetadataRemover, RemovalOptions};
use vstd::prelude::*;

verus! {

/// Removes ID3 tags from MP3 files.
pub struct Mp3Remover;

/// `ID3`
pub open spec fn id3_magic() -> Seq<u8> {
    seq![0x49u8, 0x44, 0x33]
}

/// `TAG`
pub open spec fn tag_magic() -> Seq<u8> {
    seq![0x54u8, 0x41, 0x47]
}

/// The 28-bit value of the four syncsafe bytes at `i` (seven bits each).
pub open spec fn syncsafe(s: Seq<u8>, i: int) -> int {
    (s[i] % 0x80) as int * 0x20_0000 + (s[i + 1] % 0x80) as int * 0x4000 + (s[i + 2] % 0x80) as int * 0x80 + (s[i + 3]
        % 0x80) as int
}

/// Where the audio starts once an ID3v2 tag at the front is skipped:
/// the 10-byte header, the tag body, and a 10-byte footer when flag bit 4 is set.
/// `None` when the header is cut short or the tag runs past the data.
pub open spec fn id3v2_end(d: Seq<u8>) -> Option<int> {
    if !starts_with(d, id3_magic()) {
        Some(0)
    } else if d.len() < 10 {
        None
    } else {
        let skip = 10 + syncsafe(d, 6) + (if (d[5] / 0x10) % 2 == 1 { 10int } else { 0 });
        if skip > d.len() {
            None
        } else {
            Some(skip)
        }
    }
}

/// Where the audio ends once an ID3v1 trailer (128 bytes opening with `TAG`)
/// is cut off, the audio starting at `start`.
pub open spec fn id3v1_start(d: Seq<u8>, start: int) -> int {
    let n = d.len() as int;
    if n - start >= 128 && d.subrange(n - 128, n - 125) == tag_magic() {
        n - 128
    } else {
        n
    }
}

/// The first position from `from` (before `end`) holding a byte other than zero.
pub open spec fn skip_zeros(d: Seq<u8>, from: int, end: int) -> int
    decreases end - from,
{
    if from < end && d[from] == 0 {
        skip_zeros(d, from + 1, end)
    } else {
        from
    }
}

/// The MPEG audio between the ID3v2 tag (and the zero padding after it) and
/// the ID3v1 trailer, as the range `(start, end)`; `None` when the ID3v2
/// header is broken or no audio is left.
pub open spec fn mp3_audio_range(d: Seq<u8>) -> Option<(int, int)> {
    match id3v2_end(d) {
        None => None,
        Some(s0) => {
            let end = id3v1_start(d, s0);
            let start = skip_zeros(d, s0, end);
            if start >= end {
                None
            } else {
                Some((start, end))
            }
        },
    }
}

/// Decode a 4-byte syncsafe integer (each byte uses only 7 bits).
pub fn decode_syncsafe(bytes: &[u8]) -> (r: usize)
    requires
        bytes@.len() >= 4,
    ensures
        r == syncsafe(bytes@, 0),
{
    ((bytes[0] % 0x80) as usize) * 0x20_0000 + ((bytes[1] % 0x80) as usize) * 0x4000 + ((bytes[2] % 0x80) as usize)
        * 0x80 + ((bytes[3] % 0x80) as usize)
}

impl MetadataRemover for Mp3Remover {
    open spec fn accepts(&self, input: Seq<u8>, options: RemovalOptions) -> bool {
        true
    }

    fn format(&self) -> (r: FileFormat)
        ensures
            r == FileFormat::Mp3,
    {
        FileFormat::Mp3
    }

    /// Keeps the audio frames: the ID3v2 tag at the front, the zero padding
    /// after it and the ID3v1 trailer at the end are cut off.
    fn remove_metadata(&self, input: &[u8], _options: &RemovalOptions) -> (r: Result<Vec<u8>, Error>)
        ensures
            match mp3_audio_range(input@) {
                Some((start, end)) => r matches Ok(out) && out@ == input@.subrange(start, end),
                None => r matches Err(e) && e.kind() == ErrorKind::InvalidData,
            },
    {
        let ghost d = input@;
        let mut start = 0usize;
        let mut end = input.len();
        let id3: [u8; 3] = [0x49, 0x44, 0x33];
        assert(id3@ =~= id3_magic());
        // Strip ID3v2 tag from the front
        if has_prefix(input, &id3) {
            if input.len() < 10 {
                return Err(Error::InvalidData("Truncated ID3v2 header".to_string()));
            }
            let tag_size = decode_syncsafe(vstd::slice::slice_subrange(input, 6, 10));
            let total_tag_size = 10 + tag_size;
            // Check for footer (flag bit 4)
            let has_footer = (input[5] / 0x10) % 2 == 1;
            let skip = total_tag_size + if has_footer { 10 } else { 0 };
            if skip > input.len() {
                return Err(Error::InvalidData("ID3v2 tag size exceeds file length".to_string()));
            }
            start = skip;
        }
        assert(id3v2_end(d) == Some(start as int));
        // Strip ID3v1 tag from the end
        if end - start >= 128 && input[end - 128] == 0x54 && input[end - 127] == 0x41 && input[end - 126] == 0x47 {
            assert(d.subrange(end - 128, end - 125) =~= tag_magic());
            end -= 128;
        } else if end - start >= 128 {
            assert(d.subrange(end - 128, end - 125)[0] != tag_magic()[0] || d.subrange(end - 128, end - 125)[1] != tag_magic()[1]
                || d.subrange(end - 128, end - 125)[2] != tag_magic()[2]);
        }
        assert(end == id3v1_start(d, start as int));
        // Trim null padding between ID3v2 tag and first audio frame
        let ghost s0 = start;
        while start < end && input[start] == 0x00
            invariant
                d == input@,
                s0 <= start,
                end <= d.len(),
                skip_zeros(d, start as int, end as int) == skip_zeros(d, s0 as int, end as int),
            decreases end - start,
        {
            start += 1;
        }
        if start >= end {
            return Err(Error::InvalidData("MP3 file contains no audio data".to_string()));
        }
        let mut out: Vec<u8> = Vec::new();
        crate::bytes::push_range(&mut out, input, start, end);
        Ok(out)
    }
}

/// Skipping zeros stops at a position from `from` on, before `end` only on a
/// byte other than zero, and every byte it skips is zero.
pub proof fn lemma_skip_zeros(d: Seq<u8>, from: int, end: int)
    requires
        0 <= from,
        end <= d.len(),
    ensures
        from <= skip_zeros(d, from, end),
        skip_zeros(d, from, end) < end ==> d[skip_zeros(d, from, end)] != 0,
        from <= end ==> skip_zeros(d, from, end) <= end,
        forall|k: int| from <= k < skip_zeros(d, from, end) ==> d[k] == 0,
    decreases end - from,
{
    if from < end && d[from] == 0 {
        lemma_skip_zeros(d, from + 1, end);
    }
}

/// What the MP3 remover keeps is a stretch of the input that opens with a
/// byte other than zero; every byte between the end of the ID3v2 tag and
/// that stretch is zero; and the stretch runs to the end of the input or up
/// to an ID3v1 trailer of 128 bytes opening with `TAG`.
pub proof fn lemma_mp3_output_opens_with_audio(d: Seq<u8>)
    requires
        mp3_audio_range(d) is Some,
    ensures
        ({
            let (start, end) = mp3_audio_range(d).unwrap();
            let tag_end = id3v2_end(d).unwrap();
            &&& 0 <= tag_end <= start < end <= d.len()
            &&& d[start] != 0
            &&& forall|k: int| tag_end <= k < start ==> d[k] == 0
            &&& (end == d.len() || (end == d.len() - 128 && d.subrange(end, end + 3) == tag_magic()))
        }),
{
    let s0 = id3v2_end(d).unwrap();
    let end = id3v1_start(d, s0);
    lemma_skip_zeros(d, s0, end);
}

/// An MP3 without an ID3v2 tag, without an ID3v1 trailer and without leading
/// zero bytes comes back unchanged.
pub proof fn lemma_mp3_untagged_unchanged(d: Seq<u8>)
    requires
        d.len() > 0,
        d[0] != 0,
        !starts_with(d, id3_magic()),
        !(d.len() >= 128 && d.subrange(d.len() - 128, d.len() - 125) == tag_magic()),
    ensures
        mp3_audio_range(d) == Some((0int, d.len() as int)),
{
}

/// The length of an ID3v2 tag body as its header gives it: the four bytes
/// at 6 to 9 hold seven bits each, the first the most significant.
pub open spec fn id3_body_len(d: Seq<u8>) -> int {
    (d[6] % 128) as int * 2097152 + (d[7] % 128) as int * 16384 + (d[8] % 128) as int * 128 + (d[9] % 128) as int
}

/// The audio that the MP3 remover keeps from a file opening with an ID3v2
/// tag starts after the tag's 10-byte header, its body of `id3_body_len`
/// bytes, its 10-byte footer when flag bit 4 is set, and the zero bytes
/// after them: every byte between the tag's end and the kept audio is zero,
/// and the audio opens with a byte other than zero. A tag that runs past
/// the data is refused.
pub proof fn lemma_mp3_audio_after_tag(d: Seq<u8>)
    requires
        d.len() >= 10,
        d[0] == 0x49 && d[1] == 0x44 && d[2] == 0x33,
    ensures
        ({
            let tag_end = 10 + id3_body_len(d) + (if d[5] & 0x10 != 0 { 10int } else { 0 });
            &&& tag_end > d.len() ==> mp3_audio_range(d) is None
            &&& tag_end <= d.len() ==> id3v2_end(d) == Some(tag_end)
            &&& mp3_audio_range(d) matches Some((start, end)) ==> {
                &&& tag_end <= start < end <= d.len()
                &&& d[start] != 0
                &&& forall|k: int| tag_end <= k < start ==> d[k] == 0
            }
        }),
{
    assert(d.subrange(0, 3) =~= id3_magic());
    let f = d[5];
    assert((f & 0x10 != 0) == ((f / 0x10) % 2 == 1)) by (bit_vector);
    assert(id3_body_len(d) == syncsafe(d, 6));
    if mp3_audio_range(d) is Some {
        lemma_mp3_output_opens_with_audio(d);
    }
}

} // verus!
