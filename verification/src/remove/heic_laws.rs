use crate::bytes::{be32, be32_bytes, lemma_be32_bytes_of, lemma_be32_roundtrip, lemma_be32_shift};
use crate::remove::heic::{heic_boxes_from, heic_remove_spec, is_heic_ftyp, meta_ids_from, process_meta_spec};
use crate::remove::heic_props::sized_box;
use crate::remove::heic_items::adjust_field_spec;
use crate::remove::isobmff::{box_bytes, box_header_spec, lemma_write_box_reads_back, next_box, tag_meta};
use crate::types::{Outcome, RemovalOptions};
use vstd::prelude::*;

verus! {

/// A `meta` box content with nothing to remove: no metadata item under
/// `options`, and the ICC profile kept.
pub open spec fn meta_untouched(md: Seq<u8>, options: RemovalOptions) -> bool {
    &&& md.len() >= 4
    &&& !options.icc_profile
    &&& meta_ids_from(md.subrange(4, md.len() as int), 0, Set::empty(), options) == Some(Set::<u16>::empty())
}

/// The top-level boxes from `pos` cover the data to its end, and every `meta`
/// box among them has a plain 32-bit size and nothing to remove.
pub open spec fn untouched_boxes_from(d: Seq<u8>, pos: int, options: RemovalOptions) -> bool
    decreases d.len() - pos,
{
    if pos == d.len() {
        true
    } else {
        match next_box(d, pos, false) {
            Some(Some((s, h, e, ty))) => {
                &&& s < e
                &&& ty == tag_meta() ==> (h == 8 && s + 12 <= e && be32(d, s) == e - s && meta_untouched(d.subrange(s + 8, e), options))
                &&& untouched_boxes_from(d, e, options)
            },
            _ => false,
        }
    }
}

/// Some top-level box from `pos` on is a `meta` box.
pub open spec fn has_meta_from(d: Seq<u8>, pos: int) -> bool
    decreases d.len() - pos,
{
    match next_box(d, pos, false) {
        Some(Some((s, h, e, ty))) => if e <= s {
            false
        } else {
            ty == tag_meta() || has_meta_from(d, e)
        },
        _ => false,
    }
}

/// A `meta` box with a plain size and nothing to remove is written back as it was.
pub proof fn lemma_untouched_meta_box(d: Seq<u8>, s: int, e: int, options: RemovalOptions)
    requires
        0 <= s,
        s + 12 <= e <= d.len(),
        d.subrange(s + 4, s + 8) == tag_meta(),
        be32(d, s) == e - s,
        e - s <= usize::MAX,
        meta_untouched(d.subrange(s + 8, e), options),
    ensures
        process_meta_spec(d.subrange(s + 8, e), e - s, options) == Outcome::Done(d.subrange(s + 8, e)),
        sized_box(tag_meta(), d.subrange(s + 8, e)) == Some(d.subrange(s, e)),
{
    reveal(process_meta_spec);
    let md = d.subrange(s + 8, e);
    lemma_be32_bytes_of(d, s);
    assert(sized_box(tag_meta(), md).unwrap() =~= d.subrange(s, e));
}

/// Over boxes with nothing to remove, the walk copies the data as it is.
pub proof fn lemma_untouched_boxes_copied(d: Seq<u8>, pos: int, options: RemovalOptions, acc: Seq<u8>, found: bool)
    requires
        0 <= pos <= d.len(),
        untouched_boxes_from(d, pos, options),
    ensures
        heic_boxes_from(d, pos, options, acc, found) == Outcome::Done(
            (acc + d.subrange(pos, d.len() as int), found || has_meta_from(d, pos)),
        ),
    decreases d.len() - pos,
{
    if pos == d.len() {
        assert(acc + d.subrange(pos, d.len() as int) =~= acc);
        assert(next_box(d, pos, false) == Some(None::<(int, int, int, Seq<u8>)>));
    } else {
        let (s, h, e, ty) = next_box(d, pos, false).unwrap().unwrap();
        if ty == tag_meta() {
            let md = d.subrange(s + h, e);
            lemma_untouched_meta_box(d, s, e, options);
            let b = sized_box(tag_meta(), md).unwrap();
            lemma_untouched_boxes_copied(d, e, options, acc + b, true);
            assert(acc + b + d.subrange(e, d.len() as int) =~= acc + d.subrange(pos, d.len() as int));
        } else {
            lemma_untouched_boxes_copied(d, e, options, acc + d.subrange(s, e), found);
            assert(acc + d.subrange(s, e) + d.subrange(e, d.len() as int) =~= acc + d.subrange(pos, d.len() as int));
        }
    }
}

/// A HEIC file whose top-level boxes cover it exactly, with a `meta` box and
/// nothing to remove (no metadata item under the options, ICC profile kept),
/// comes back unchanged.
pub proof fn lemma_heic_without_metadata_unchanged(d: Seq<u8>, options: RemovalOptions)
    requires
        is_heic_ftyp(d),
        untouched_boxes_from(d, 0, options),
        has_meta_from(d, 0),
    ensures
        heic_remove_spec(d, options) == Outcome::Done(d),
{
    lemma_untouched_boxes_copied(d, 0, options, Seq::empty(), false);
    assert(Seq::<u8>::empty() + d.subrange(0, d.len() as int) =~= d);
}

/// A box that the HEIC remover rebuilds with an 8-byte header (`iinf`,
/// `iloc`, `iref`, `iprp`, `ipco`, `ipma`, `meta`) declares the size it has:
/// read back at its place, its total size covers exactly its header and its
/// new content.
pub proof fn lemma_rebuilt_box_reads_back(before: Seq<u8>, box_type: Seq<u8>, content: Seq<u8>, after: Seq<u8>)
    requires
        box_type.len() == 4,
        8 + content.len() <= u32::MAX,
    ensures
        sized_box(box_type, content) == Some(box_bytes(box_type, content)),
        box_header_spec(before + sized_box(box_type, content).unwrap() + after, before.len() as int) == Some(
            ((8 + content.len()) as usize, 8usize, box_type),
        ),
{
    assert(sized_box(box_type, content).unwrap() =~= box_bytes(box_type, content));
    lemma_write_box_reads_back(before, box_type, content, after);
}

/// Adjusting a 4-byte file offset lowers it by exactly `delta` and leaves
/// every other byte as it was; an offset that is not to be adjusted (an
/// item whose construction method is not 0) stays as it is.
pub proof fn lemma_offset_adjusted_by_delta(b: Seq<u8>, pos: int, delta: i64, adjust: bool)
    requires
        0 <= pos,
        pos + 4 <= b.len(),
        0 <= be32(b, pos) - delta <= u32::MAX,
    ensures
        !adjust ==> adjust_field_spec(b, pos, 4, delta, adjust) == Outcome::Done(b),
        adjust ==> (adjust_field_spec(b, pos, 4, delta, adjust) matches Outcome::Done(b2) && b2.len() == b.len()
            && be32(b2, pos) == be32(b, pos) - delta && b2.subrange(0, pos) == b.subrange(0, pos) && b2.subrange(
            pos + 4,
            b.len() as int,
        ) == b.subrange(pos + 4, b.len() as int)),
{
    reveal(adjust_field_spec);
    if adjust && delta != 0 {
        let new_val = be32(b, pos) - delta;
        let b2 = b.subrange(0, pos) + be32_bytes(new_val as u32) + b.subrange(pos + 4, b.len() as int);
        lemma_be32_roundtrip(new_val as u32);
        lemma_be32_shift(b.subrange(0, pos), be32_bytes(new_val as u32) + b.subrange(pos + 4, b.len() as int), 0);
        assert(b2 =~= b.subrange(0, pos) + (be32_bytes(new_val as u32) + b.subrange(pos + 4, b.len() as int)));
        assert(be32(be32_bytes(new_val as u32) + b.subrange(pos + 4, b.len() as int), 0) == be32(be32_bytes(new_val as u32), 0));
        assert(b2.subrange(0, pos) =~= b.subrange(0, pos));
        assert(b2.subrange(pos + 4, b.len() as int) =~= b.subrange(pos + 4, b.len() as int));
    }
}

/// A walk over the boxes from `pos`, as `read_box_header` reads them, finds
/// every box ending within the data and after its start, until no header
/// is left to read.
pub open spec fn boxes_fit(o: Seq<u8>, pos: int) -> bool
    decreases o.len() - pos,
{
    if pos < 0 {
        false
    } else {
        match box_header_spec(o, pos) {
            None => true,
            Some((t, h, ty)) => 0 < t && pos + t <= o.len() && boxes_fit(o, pos + t),
        }
    }
}

/// Every top-level box from `pos` other than a `meta` box holds its whole
/// size field: at least 4 bytes, and at least 16 when its size is 64-bit.
pub open spec fn sound_boxes_from(d: Seq<u8>, pos: int) -> bool
    decreases d.len() - pos,
{
    match next_box(d, pos, false) {
        Some(Some((s, h, e, ty))) => if e <= s {
            true
        } else {
            (ty != tag_meta() ==> e - s >= (if h == 16 { 16int } else { 4 })) && sound_boxes_from(d, e)
        },
        _ => true,
    }
}

/// The walk appends what it writes to what it was given.
proof fn lemma_heic_boxes_prefix(d: Seq<u8>, pos: int, options: RemovalOptions, acc: Seq<u8>, found: bool)
    ensures
        heic_boxes_from(d, pos, options, acc, found) == match heic_boxes_from(d, pos, options, Seq::empty(), found) {
            Outcome::Done((t, f)) => Outcome::Done((acc + t, f)),
            Outcome::Fails => Outcome::Fails,
            Outcome::Traps => Outcome::Traps,
        },
    decreases d.len() - pos,
{
    match next_box(d, pos, false) {
        Some(None) => {
            assert(acc + Seq::<u8>::empty() =~= acc);
        },
        Some(Some((s, h, e, ty))) => {
            if e > s {
                if ty == tag_meta() {
                    if s + h <= e {
                        match process_meta_spec(d.subrange(s + h, e), e - s, options) {
                            Outcome::Done(p) => match sized_box(tag_meta(), p) {
                                Some(b) => {
                                    assert(Seq::<u8>::empty() + b =~= b);
                                    lemma_heic_boxes_prefix(d, e, options, acc + b, true);
                                    lemma_heic_boxes_prefix(d, e, options, b, true);
                                    match heic_boxes_from(d, e, options, Seq::empty(), true) {
                                        Outcome::Done((t, f)) => {
                                            assert(acc + b + t =~= acc + (b + t));
                                        },
                                        _ => {},
                                    }
                                },
                                None => {},
                            },
                            _ => {},
                        }
                    }
                } else {
                    let piece = d.subrange(s, e);
                    assert(Seq::<u8>::empty() + piece =~= piece);
                    lemma_heic_boxes_prefix(d, e, options, acc + piece, found);
                    lemma_heic_boxes_prefix(d, e, options, piece, found);
                    match heic_boxes_from(d, e, options, Seq::empty(), found) {
                        Outcome::Done((t, f)) => {
                            assert(acc + piece + t =~= acc + (piece + t));
                        },
                        _ => {},
                    }
                }
            }
        },
        None => {},
    }
}

/// A box copied elsewhere, holding its whole size field, is read back with
/// the same size, when a header can be read there at all.
proof fn lemma_copied_box_header(d: Seq<u8>, s: int, e: int, o: Seq<u8>, q: int)
    requires
        0 <= s,
        next_box(d, s, false) matches Some(Some((s2, h, e2, ty))) && s2 == s && e2 == e && e - s >= (if h == 16 {
            16int
        } else {
            4
        }),
        0 <= q,
        q + (e - s) <= o.len() <= usize::MAX,
        o.subrange(q, q + (e - s)) == d.subrange(s, e),
        be32(d, s) == 0 ==> q + (e - s) == o.len(),
    ensures
        q + 8 > o.len() ==> box_header_spec(o, q) is None,
        q + 8 <= o.len() ==> box_of_o_ends_at(o, q, q + (e - s)),
{
    let n = e - s;
    assert forall|k: int| 0 <= k < n implies #[trigger] o[q + k] == d[s + k] by {
        assert(o.subrange(q, q + n)[k] == d.subrange(s, e)[k]);
    }
    assert(o[q + 0] == d[s + 0]);
    assert(o[q + 1] == d[s + 1]);
    assert(o[q + 2] == d[s + 2]);
    assert(o[q + 3] == d[s + 3]);
    if be32(d, s) == 1 {
        assert(o[q + 8] == d[s + 8]);
        assert(o[q + 9] == d[s + 9]);
        assert(o[q + 10] == d[s + 10]);
        assert(o[q + 11] == d[s + 11]);
        assert(o[q + 12] == d[s + 12]);
        assert(o[q + 13] == d[s + 13]);
        assert(o[q + 14] == d[s + 14]);
        assert(o[q + 15] == d[s + 15]);
    }
}

/// The two parts of what `o` holds from `q` to its end.
proof fn lemma_split_tail(o: Seq<u8>, q: int, a: Seq<u8>, b: Seq<u8>)
    requires
        0 <= q,
        q + a.len() + b.len() == o.len(),
        o.subrange(q, o.len() as int) == a + b,
    ensures
        o.subrange(q, q + a.len()) == a,
        o.subrange(q + a.len(), o.len() as int) == b,
        o == o.subrange(0, q) + a + b,
{
    assert forall|k: int| 0 <= k < a.len() implies #[trigger] o.subrange(q, q + a.len())[k] == a[k] by {
        assert(o.subrange(q, q + a.len())[k] == o.subrange(q, o.len() as int)[k]);
    }
    assert forall|k: int| 0 <= k < b.len() implies #[trigger] o.subrange(q + a.len(), o.len() as int)[k] == b[k] by {
        assert(o.subrange(q + a.len(), o.len() as int)[k] == o.subrange(q, o.len() as int)[a.len() + k]);
    }
    assert(o.subrange(q, q + a.len()) =~= a);
    assert(o.subrange(q + a.len(), o.len() as int) =~= b);
    assert forall|k: int| q <= k < o.len() implies #[trigger] o[k] == (o.subrange(0, q) + a + b)[k] by {
        assert(o[k] == o.subrange(q, o.len() as int)[k - q]);
    }
    assert(o =~= o.subrange(0, q) + a + b);
}

/// The walk from `pos` has written `t`, which `o` holds from `q` to its end.
pub open spec fn written_at(
    d: Seq<u8>,
    pos: int,
    options: RemovalOptions,
    found: bool,
    t: Seq<u8>,
    o: Seq<u8>,
    q: int,
) -> bool {
    &&& 0 <= pos <= d.len() <= usize::MAX
    &&& heic_boxes_from(d, pos, options, Seq::empty(), found) matches Outcome::Done((t2, _)) && t2 == t
    &&& sound_boxes_from(d, pos)
    &&& 0 <= q
    &&& q + t.len() == o.len()
    &&& o.subrange(q, o.len() as int) == t
    &&& o.len() <= u32::MAX
}

/// The box of `o` at `q` ends at `e`, after `q`.
pub open spec fn box_of_o_ends_at(o: Seq<u8>, q: int, e: int) -> bool {
    next_box(o, q, false) matches Some(Some((s2, h2, e2, ty2))) && s2 < e2 && e2 == e
}

/// What the walk writes for a `meta` box: the rebuilt box,
/// then what it writes from the end of that box.
proof fn lemma_meta_walk_step(d: Seq<u8>, pos: int, options: RemovalOptions, found: bool, t: Seq<u8>) -> (r: (
    int,
    Seq<u8>,
    Seq<u8>,
))
    requires
        0 <= pos <= d.len() <= usize::MAX,
        heic_boxes_from(d, pos, options, Seq::empty(), found) matches Outcome::Done((t2, _)) && t2 == t,
        sound_boxes_from(d, pos),
        next_box(d, pos, false) matches Some(Some((s, h, e, ty))) && ty == tag_meta(),
    ensures
        pos < r.0 <= d.len(),
        r.0 == next_box(d, pos, false).unwrap().unwrap().2,
        t == box_bytes(tag_meta(), r.1) + r.2,
        heic_boxes_from(d, r.0, options, Seq::empty(), true) matches Outcome::Done((t2, _)) && t2 == r.2,
        sound_boxes_from(d, r.0),
{
    let (s, h, e, ty) = next_box(d, pos, false).unwrap().unwrap();
    let p = process_meta_spec(d.subrange(s + h, e), e - s, options)->Done_0;
    let b = sized_box(tag_meta(), p).unwrap();
    assert(b =~= box_bytes(tag_meta(), p));
    lemma_heic_boxes_prefix(d, e, options, b, true);
    let t2 = heic_boxes_from(d, e, options, Seq::empty(), true)->Done_0.0;
    assert(t =~= b + t2);
    (e, p, t2)
}

/// One step over a rebuilt `meta` box.
#[verifier::rlimit(40)]
proof fn lemma_covered_meta_step(
    d: Seq<u8>,
    pos: int,
    options: RemovalOptions,
    found: bool,
    t: Seq<u8>,
    o: Seq<u8>,
    q: int,
) -> (r: (int, int, Seq<u8>))
    requires
        written_at(d, pos, options, found, t, o, q),
        next_box(d, pos, false) matches Some(Some((s, h, e, ty))) && ty == tag_meta(),
    ensures
        pos < r.0,
        r.0 == next_box(d, pos, false).unwrap().unwrap().2,
        written_at(d, r.0, options, true, r.2, o, r.1),
        box_of_o_ends_at(o, q, r.1),
        next_box(o, q, false).unwrap().unwrap().3 == tag_meta(),
{
    let (e, p, t2) = lemma_meta_walk_step(d, pos, options, found, t);
    let b = box_bytes(tag_meta(), p);
    lemma_split_tail(o, q, b, t2);
    lemma_rebuilt_box_reads_back(o.subrange(0, q), tag_meta(), p, t2);
    (e, q + b.len(), t2)
}

/// One step over a box copied as it is.
proof fn lemma_covered_copy_step(
    d: Seq<u8>,
    pos: int,
    options: RemovalOptions,
    found: bool,
    t: Seq<u8>,
    o: Seq<u8>,
    q: int,
) -> (r: (int, int, Seq<u8>))
    requires
        written_at(d, pos, options, found, t, o, q),
        next_box(d, pos, false) matches Some(Some((s, h, e, ty))) && ty != tag_meta(),
    ensures
        pos < r.0,
        r.0 == next_box(d, pos, false).unwrap().unwrap().2,
        r.1 == q + (r.0 - pos),
        written_at(d, r.0, options, found, r.2, o, r.1),
        box_of_o_ends_at(o, q, r.1) || box_header_spec(o, q) is None,
{
    let (s, h, e, ty) = next_box(d, pos, false).unwrap().unwrap();
    let piece = d.subrange(s, e);
    lemma_heic_boxes_prefix(d, e, options, piece, found);
    let t2 = heic_boxes_from(d, e, options, Seq::empty(), found)->Done_0.0;
    assert(t =~= piece + t2);
    lemma_split_tail(o, q, piece, t2);
    if be32(d, s) == 0 {
        assert(e == d.len());
        assert(next_box(d, e, false) == Some(None::<(int, int, int, Seq<u8>)>));
    }
    lemma_copied_box_header(d, s, e, o, q);
    (e, q + (e - s), t2)
}

/// What the walk writes from `pos`, placed at the end of `o` at `q`, is
/// covered by the boxes read from `q`.
proof fn lemma_heic_output_covered(
    d: Seq<u8>,
    pos: int,
    options: RemovalOptions,
    found: bool,
    t: Seq<u8>,
    o: Seq<u8>,
    q: int,
)
    requires
        written_at(d, pos, options, found, t, o, q),
    ensures
        boxes_fit(o, q),
    decreases d.len() - pos,
{
    match next_box(d, pos, false) {
        Some(Some((s, h, e, ty))) => {
            if ty == tag_meta() {
                let r = lemma_covered_meta_step(d, pos, options, found, t, o, q);
                lemma_heic_output_covered(d, r.0, options, true, r.2, o, r.1);
            } else {
                let r = lemma_covered_copy_step(d, pos, options, found, t, o, q);
                lemma_heic_output_covered(d, r.0, options, found, r.2, o, r.1);
            }
        },
        _ => {},
    }
}

/// The box sizes of what the HEIC remover writes are consistent: walking its
/// top-level boxes as `read_box_header` reads them finds every box ending
/// within the output, and a rebuilt `meta` box (whatever header it had)
/// declares its 8-byte header and its new content. This holds when the
/// output's size fits the 32-bit size fields and every other top-level box of
/// the input holds its whole size field (a box of 2 or 3 bytes has its size
/// read across the next box, which may have been rewritten; a 64-bit size
/// below 16 is read across the next box the same way).
pub proof fn lemma_heic_output_boxes_fit(d: Seq<u8>, options: RemovalOptions)
    requires
        d.len() <= usize::MAX,
        heic_remove_spec(d, options) matches Outcome::Done(o) && o.len() <= u32::MAX,
        sound_boxes_from(d, 0),
    ensures
        boxes_fit(heic_remove_spec(d, options)->Done_0, 0),
{
    let o = heic_remove_spec(d, options)->Done_0;
    assert(o.subrange(0, o.len() as int) =~= o);
    lemma_heic_output_covered(d, 0, options, false, o, o, 0);
}

/// Every top-level box from `pos` other than a `meta` box is at least as
/// long as its header.
pub open spec fn whole_boxes_from(d: Seq<u8>, pos: int) -> bool
    decreases d.len() - pos,
{
    match next_box(d, pos, false) {
        Some(Some((s, h, e, ty))) => if e <= s {
            true
        } else {
            (ty != tag_meta() ==> e - s >= h) && whole_boxes_from(d, e)
        },
        _ => true,
    }
}

/// The types of the boxes that a walk from `pos` reads, in order, until no
/// header is left or a box runs past the data.
pub open spec fn box_types_from(d: Seq<u8>, pos: int) -> Seq<Seq<u8>>
    decreases d.len() - pos,
{
    match next_box(d, pos, false) {
        Some(Some((s, h, e, ty))) => if e <= s || e > d.len() {
            Seq::empty()
        } else {
            seq![ty] + box_types_from(d, e)
        },
        _ => Seq::empty(),
    }
}

/// A box copied elsewhere, at least as long as its header, is read back
/// with the same header.
proof fn lemma_copied_whole_box_header(d: Seq<u8>, s: int, e: int, o: Seq<u8>, q: int)
    requires
        0 <= s,
        next_box(d, s, false) matches Some(Some((s2, h, e2, ty))) && s2 == s && e2 == e && e - s >= h,
        0 <= q,
        q + (e - s) <= o.len(),
        o.subrange(q, q + (e - s)) == d.subrange(s, e),
        be32(d, s) == 0 ==> q + (e - s) == o.len(),
    ensures
        box_header_spec(o, q) == box_header_spec(d, s),
{
    let n = e - s;
    assert forall|k: int| 0 <= k < n implies #[trigger] o[q + k] == d[s + k] by {
        assert(o.subrange(q, q + n)[k] == d.subrange(s, e)[k]);
    }
    assert(o[q + 0] == d[s + 0]);
    assert(o[q + 1] == d[s + 1]);
    assert(o[q + 2] == d[s + 2]);
    assert(o[q + 3] == d[s + 3]);
    assert(o.subrange(q + 4, q + 8) =~= d.subrange(s + 4, s + 8)) by {
        assert(o[q + 4] == d[s + 4]);
        assert(o[q + 5] == d[s + 5]);
        assert(o[q + 6] == d[s + 6]);
        assert(o[q + 7] == d[s + 7]);
    }
    if be32(d, s) == 1 {
        assert(o[q + 8] == d[s + 8]);
        assert(o[q + 9] == d[s + 9]);
        assert(o[q + 10] == d[s + 10]);
        assert(o[q + 11] == d[s + 11]);
        assert(o[q + 12] == d[s + 12]);
        assert(o[q + 13] == d[s + 13]);
        assert(o[q + 14] == d[s + 14]);
        assert(o[q + 15] == d[s + 15]);
    }
}

proof fn lemma_heic_output_types(
    d: Seq<u8>,
    pos: int,
    options: RemovalOptions,
    found: bool,
    t: Seq<u8>,
    o: Seq<u8>,
    q: int,
)
    requires
        written_at(d, pos, options, found, t, o, q),
        whole_boxes_from(d, pos),
    ensures
        box_types_from(o, q) == box_types_from(d, pos),
    decreases d.len() - pos,
{
    match next_box(d, pos, false) {
        Some(Some((s, h, e, ty))) => {
            if ty == tag_meta() {
                let r = lemma_covered_meta_step(d, pos, options, found, t, o, q);
                lemma_heic_output_types(d, r.0, options, true, r.2, o, r.1);
            } else {
                let r = lemma_covered_copy_step(d, pos, options, found, t, o, q);
                let piece = d.subrange(s, e);
                lemma_heic_boxes_prefix(d, e, options, piece, found);
                let t2 = heic_boxes_from(d, e, options, Seq::empty(), found)->Done_0.0;
                assert(t =~= piece + t2);
                lemma_split_tail(o, q, piece, t2);
                if be32(d, s) == 0 {
                    assert(e == d.len());
                    assert(next_box(d, e, false) == Some(None::<(int, int, int, Seq<u8>)>));
                }
                lemma_copied_whole_box_header(d, s, e, o, q);
                lemma_heic_output_types(d, r.0, options, found, r.2, o, r.1);
            }
        },
        _ => {
            assert(t.len() == 0);
        },
    }
}

/// The top-level boxes of what the HEIC remover writes are the input's, in
/// order: a walk over the output reads the same box types as a walk over the
/// input (each `meta` box rebuilt, every other box copied as it was, as the
/// remover's contract says). This holds when the output's size fits the
/// 32-bit size fields and every top-level box of the input other than `meta`
/// is at least as long as its header (a shorter box has its type read across
/// the next box, which may have been rewritten).
pub proof fn lemma_heic_output_box_order(d: Seq<u8>, options: RemovalOptions)
    requires
        d.len() <= usize::MAX,
        heic_remove_spec(d, options) matches Outcome::Done(o) && o.len() <= u32::MAX,
        whole_boxes_from(d, 0),
    ensures
        box_types_from(heic_remove_spec(d, options)->Done_0, 0) == box_types_from(d, 0),
{
    let o = heic_remove_spec(d, options)->Done_0;
    assert(o.subrange(0, o.len() as int) =~= o);
    lemma_whole_boxes_sound(d, 0);
    lemma_heic_output_types(d, 0, options, false, o, o, 0);
}

proof fn lemma_whole_boxes_sound(d: Seq<u8>, pos: int)
    requires
        whole_boxes_from(d, pos),
    ensures
        sound_boxes_from(d, pos),
    decreases d.len() - pos,
{
    match next_box(d, pos, false) {
        Some(Some((s, h, e, ty))) => if e > s {
            lemma_whole_boxes_sound(d, e);
        },
        _ => {},
    }
}

} // verus!
