use crate::bytes::{be32, be32_bytes, has_tag, lemma_be32_bytes_of, push_range, read_be32, tag_at};
use crate::remove::heic_items::{
    adjust_iloc_offsets, adjust_iloc_spec, find_metadata_item_ids, metadata_ids, rebuild_iinf, rebuild_iinf_spec,
    rebuild_iloc, rebuild_iloc_spec, rebuild_iref, rebuild_iref_spec,
};
use crate::remove::heic_props::{process_iprp, process_iprp_spec, push_sized_box, sized_box};
use crate::remove::isobmff::{
    next_box, next_box_at, tag_eq, tag_ftyp, tag_heic, tag_iinf, tag_iloc, tag_iprp, tag_iref, tag_meta, within_limit,
};
use crate::types::{Error, ErrorKind, FileFormat, MetadataRemover, Outcome, RemovalOptions};
use std::collections::HashSet;
use vstd::prelude::*;

verus! {

broadcast use vstd::std_specs::hash::group_hash_axioms;

/// Removes metadata from HEIC files.
pub struct HeicRemover;

/// The ids of the metadata items named by the last `iinf` box among the boxes
/// of a `meta` box's content from `pos`; `None` where the walk cannot be completed.
pub open spec fn meta_ids_from(inner: Seq<u8>, pos: int, ids: Set<u16>, options: RemovalOptions) -> Option<Set<u16>>
    decreases inner.len() - pos,
{
    match next_box(inner, pos, false) {
        None => None,
        Some(None) => Some(ids),
        Some(Some((s, h, e, ty))) => {
            if e <= s {
                None
            } else if ty == tag_iinf() {
                if s + h > e {
                    None
                } else {
                    match metadata_ids(inner.subrange(s + h, e), options) {
                        None => None,
                        Some(found) => meta_ids_from(inner, e, found, options),
                    }
                }
            } else {
                meta_ids_from(inner, e, ids, options)
            }
        },
    }
}

/// A box that cannot be sized is a computation that cannot be completed.
pub open spec fn sized_or_traps(b: Option<Seq<u8>>) -> Outcome<Seq<u8>> {
    match b {
        Some(v) => Outcome::Done(v),
        None => Outcome::Traps,
    }
}

/// What one box of a `meta` box's content becomes: `iinf`, `iloc` and `iref`
/// lose the removed items, `iprp` loses its `colr` property when the ICC
/// profile goes, an `iref` left without references disappears, every other
/// box stays as it is.
pub open spec fn meta_piece(
    inner: Seq<u8>,
    s: int,
    h: int,
    e: int,
    ty: Seq<u8>,
    removed: Set<u16>,
    options: RemovalOptions,
) -> Outcome<Seq<u8>> {
    let c = inner.subrange(s + h, e);
    if ty == tag_iinf() {
        match rebuild_iinf_spec(c, removed) {
            Outcome::Done(r) => sized_or_traps(sized_box(ty, r)),
            Outcome::Fails => Outcome::Fails,
            Outcome::Traps => Outcome::Traps,
        }
    } else if ty == tag_iloc() {
        match rebuild_iloc_spec(c, removed) {
            Outcome::Done(r) => sized_or_traps(sized_box(ty, r)),
            Outcome::Fails => Outcome::Fails,
            Outcome::Traps => Outcome::Traps,
        }
    } else if ty == tag_iref() {
        match rebuild_iref_spec(c, removed) {
            None => Outcome::Fails,
            Some(r) => if r.len() == 0 {
                Outcome::Done(Seq::empty())
            } else {
                sized_or_traps(sized_box(ty, r))
            },
        }
    } else if ty == tag_iprp() && options.icc_profile {
        match process_iprp_spec(c) {
            None => Outcome::Traps,
            Some(r) => sized_or_traps(sized_box(ty, r)),
        }
    } else {
        Outcome::Done(inner.subrange(s, e))
    }
}

/// The rebuilt boxes of a `meta` box's content from `pos`, appended to `acc`,
/// with the place in the result of the last `iloc` box.
pub open spec fn meta_rebuild_from(
    inner: Seq<u8>,
    pos: int,
    removed: Set<u16>,
    options: RemovalOptions,
    acc: Seq<u8>,
    iloc: Option<(int, int)>,
) -> Outcome<(Seq<u8>, Option<(int, int)>)>
    decreases inner.len() - pos,
{
    match next_box(inner, pos, false) {
        None => Outcome::Traps,
        Some(None) => Outcome::Done((acc, iloc)),
        Some(Some((s, h, e, ty))) => {
            if e <= s || s + h > e {
                Outcome::Traps
            } else {
                match meta_piece(inner, s, h, e, ty, removed, options) {
                    Outcome::Done(p) => meta_rebuild_from(
                        inner,
                        e,
                        removed,
                        options,
                        acc + p,
                        if ty == tag_iloc() { Some((acc.len() as int, (acc.len() + p.len()) as int)) } else { iloc },
                    ),
                    Outcome::Fails => Outcome::Fails,
                    Outcome::Traps => Outcome::Traps,
                }
            }
        },
    }
}

/// The rebuilt content with the file offsets of its last `iloc` box lowered
/// by what the `meta` box lost (or raised by what it gained).
pub open spec fn finish_meta(res: Seq<u8>, iloc: Option<(int, int)>, original_total: int) -> Outcome<
    Seq<u8>,
> {
    if 8 + res.len() > usize::MAX {
        Outcome::Traps
    } else {
        let new_total = 8 + res.len();
        if new_total == original_total {
            Outcome::Done(res)
        } else {
            let delta = (original_total as i64) as int - (new_total as i64) as int;
            if delta < i64::MIN || delta > i64::MAX {
                Outcome::Traps
            } else {
                match iloc {
                    None => Outcome::Done(res),
                    Some((a, b)) => match adjust_iloc_spec(res.subrange(a, b), delta as i64) {
                        Outcome::Done(adjusted) => Outcome::Done(
                            res.subrange(0, a) + adjusted + res.subrange(b, res.len() as int),
                        ),
                        Outcome::Fails => Outcome::Fails,
                        Outcome::Traps => Outcome::Traps,
                    },
                }
            }
        }
    }
}

/// The content of a `meta` box (version and flags, then boxes) with the
/// metadata items and, when asked for, the ICC profile removed. When there is
/// nothing to remove the content is handed back as it is.
#[verifier::opaque]
pub open spec fn process_meta_spec(md: Seq<u8>, original_total: int, options: RemovalOptions) -> Outcome<
    Seq<u8>,
> {
    if md.len() < 4 {
        Outcome::Fails
    } else {
        let inner = md.subrange(4, md.len() as int);
        match meta_ids_from(inner, 0, Set::empty(), options) {
            None => Outcome::Traps,
            Some(removed) => {
                if removed.is_empty() && !options.icc_profile {
                    Outcome::Done(md)
                } else {
                    match meta_rebuild_from(inner, 0, removed, options, md.subrange(0, 4), None) {
                        Outcome::Done((res, iloc)) => finish_meta(res, iloc, original_total),
                        Outcome::Fails => Outcome::Fails,
                        Outcome::Traps => Outcome::Traps,
                    }
                }
            },
        }
    }
}

/// Appends what one box of a `meta` box's content becomes (see `meta_piece`).
pub fn push_meta_piece(
    out: &mut Vec<u8>,
    inner: &[u8],
    s: usize,
    h: usize,
    e: usize,
    ty: [u8; 4],
    removed_ids: &HashSet<u16>,
    options: &RemovalOptions,
) -> (r: Result<(), Error>)
    requires
        within_limit(inner@.len() as int),
        h >= 8,
        s + h <= e <= inner@.len(),
        !(meta_piece(inner@, s as int, h as int, e as int, ty@, removed_ids@, *options) is Traps),
    ensures
        r matches Err(e) ==> e.kind() == ErrorKind::InvalidData,
        match meta_piece(inner@, s as int, h as int, e as int, ty@, removed_ids@, *options) {
            Outcome::Done(p) => r is Ok && final(out)@ == old(out)@ + p && (ty@ == tag_iloc() ==> p.len() <= e - s),
            _ => r is Err,
        },
{
    let box_content = vstd::slice::slice_subrange(inner, s + h, e);
    if tag_eq(&ty, 0x69, 0x69, 0x6e, 0x66) {
        let rebuilt = rebuild_iinf(box_content, removed_ids)?;
        push_sized_box(out, &ty, &rebuilt);
    } else if tag_eq(&ty, 0x69, 0x6c, 0x6f, 0x63) {
        let rebuilt = rebuild_iloc(box_content, removed_ids)?;
        push_sized_box(out, &ty, &rebuilt);
    } else if tag_eq(&ty, 0x69, 0x72, 0x65, 0x66) {
        let rebuilt = rebuild_iref(box_content, removed_ids)?;
        if rebuilt.len() == 0 {
            // All references were removed; omit the entire iref box
            assert(out@ =~= old(out)@ + Seq::<u8>::empty());
        } else {
            push_sized_box(out, &ty, &rebuilt);
        }
    } else if tag_eq(&ty, 0x69, 0x70, 0x72, 0x70) && options.icc_profile {
        let cleaned = process_iprp(box_content)?;
        push_sized_box(out, &ty, &cleaned);
    } else {
        push_range(out, inner, s, e);
    }
    Ok(())
}

/// Process the content inside a meta box (after the box header).
/// The content starts with version+flags (4 bytes for a fullbox), then inner boxes.
/// `original_meta_total` is the original meta box total size (header + content).
/// `_meta_header_size` is the size of the header the box had (8, or 16 for an
/// extended size); the rebuilt box gets an 8-byte header, so its new total
/// is 8 plus the rebuilt content.
pub fn process_meta_box(
    meta_data: &[u8],
    original_meta_total: usize,
    _meta_header_size: usize,
    options: &RemovalOptions,
) -> (r: Result<Vec<u8>, Error>)
    requires
        within_limit(meta_data@.len() as int),
        !(process_meta_spec(meta_data@, original_meta_total as int, *options) is Traps),
    ensures
        r matches Err(e) ==> e.kind() == ErrorKind::InvalidData,
        match process_meta_spec(meta_data@, original_meta_total as int, *options) {
            Outcome::Done(v) => r matches Ok(out) && out@ == v,
            _ => r is Err,
        },
{
    reveal(process_meta_spec);
    // meta is a fullbox: first 4 bytes are version(1) + flags(3)
    if meta_data.len() < 4 {
        return Err(Error::InvalidData("HEIC: meta box too short".to_string()));
    }
    let inner = vstd::slice::slice_subrange(meta_data, 4, meta_data.len());
    let ghost d = inner@;
    // First pass: find metadata item IDs from iinf
    let mut removed_ids: HashSet<u16> = HashSet::new();
    let mut pos: usize = 0;
    loop
        invariant
            d == inner@,
            within_limit(d.len() as int),
            pos <= d.len(),
            meta_ids_from(d, pos as int, removed_ids@, *options) == meta_ids_from(d, 0, Set::empty(), *options),
            meta_ids_from(d, 0, Set::empty(), *options) is Some,
        ensures
            meta_ids_from(d, 0, Set::empty(), *options) == Some(removed_ids@),
        decreases d.len() - pos,
    {
        match next_box_at(inner, pos, false) {
            None => {
                break;
            },
            Some((box_start, header_size, box_end, box_type)) => {
                if tag_eq(&box_type, 0x69, 0x69, 0x6e, 0x66) {
                    let iinf_content = vstd::slice::slice_subrange(inner, box_start + header_size, box_end);
                    removed_ids = find_metadata_item_ids(iinf_content, options);
                }
                pos = box_end;
            },
        }
    }
    // If nothing to remove, return as-is
    if removed_ids.is_empty() && !options.icc_profile {
        return Ok(vstd::slice::slice_to_vec(meta_data));
    }
    // Second pass: rebuild meta box contents, filtering iinf and iloc
    let mut result: Vec<u8> = Vec::new();
    push_range(&mut result, meta_data, 0, 4);
    let mut iloc_result_range: Option<(usize, usize)> = None;
    let ghost total = meta_rebuild_from(d, 0, removed_ids@, *options, meta_data@.subrange(0, 4), None);
    pos = 0;
    loop
        invariant
            d == inner@,
            d.len() + 4 == meta_data@.len(),
            within_limit(meta_data@.len() as int),
            pos <= d.len(),
            total == meta_rebuild_from(d, 0, removed_ids@, *options, meta_data@.subrange(0, 4), None),
            !(total is Traps),
            total is Fails ==> process_meta_spec(meta_data@, original_meta_total as int, *options) is Fails,
            meta_rebuild_from(d, pos as int, removed_ids@, *options, result@, match iloc_result_range {
                Some((a, b)) => Some((a as int, b as int)),
                None => None,
            }) == total,
            match iloc_result_range {
                Some((a, b)) => a <= b <= result@.len() && b - a <= meta_data@.len(),
                None => true,
            },
        ensures
            total == Outcome::Done((result@, match iloc_result_range {
                Some((a, b)) => Some((a as int, b as int)),
                None => None,
            })),
            match iloc_result_range {
                Some((a, b)) => a <= b <= result@.len() && b - a <= meta_data@.len(),
                None => true,
            },
        decreases d.len() - pos,
    {
        match next_box_at(inner, pos, false) {
            None => {
                break;
            },
            Some((box_start, header_size, box_end, box_type)) => {
                let start = result.len();
                push_meta_piece(&mut result, inner, box_start, header_size, box_end, box_type, &removed_ids, options)?;
                if tag_eq(&box_type, 0x69, 0x6c, 0x6f, 0x63) {
                    iloc_result_range = Some((start, result.len()));
                }
                pos = box_end;
            },
        }
    }
    // Adjust iloc extent offsets for construction_method=0 items.
    // When the meta box shrinks, the mdat box moves earlier, making all absolute
    // file offsets in iloc stale. We need to shift them by the delta.
    let new_meta_total = 8 + result.len();
    if new_meta_total != original_meta_total {
        let offset_delta = original_meta_total as i64 - new_meta_total as i64;
        if let Some((iloc_start, iloc_end)) = iloc_result_range {
            let mut iloc_box: Vec<u8> = Vec::new();
            push_range(&mut iloc_box, result.as_slice(), iloc_start, iloc_end);
            adjust_iloc_offsets(&mut iloc_box, offset_delta)?;
            let mut adjusted: Vec<u8> = Vec::new();
            push_range(&mut adjusted, result.as_slice(), 0, iloc_start);
            push_range(&mut adjusted, iloc_box.as_slice(), 0, iloc_box.len());
            push_range(&mut adjusted, result.as_slice(), iloc_end, result.len());
            proof {
                assert(iloc_box@.subrange(0, iloc_box@.len() as int) =~= iloc_box@);
            }
            return Ok(adjusted);
        }
    }
    Ok(result)
}

/// The four-byte brands from `from` up to `to` include `heic`.
pub open spec fn has_heic_brand_from(d: Seq<u8>, from: int, to: int) -> bool
    decreases to - from,
{
    if from + 4 > to {
        false
    } else {
        has_tag(d, from, tag_heic()) || has_heic_brand_from(d, from + 4, to)
    }
}

/// The input starts with an `ftyp` box whose major brand, or one of whose
/// compatible brands, is `heic`.
pub open spec fn is_heic_ftyp(d: Seq<u8>) -> bool {
    let ftyp_size = be32(d, 0);
    &&& d.len() >= 12
    &&& has_tag(d, 4, tag_ftyp())
    &&& (has_tag(d, 8, tag_heic()) || (16 <= ftyp_size <= d.len() && has_heic_brand_from(d, 16, ftyp_size)))
}

/// The top-level boxes from `pos`, appended to `acc`: every `meta` box
/// processed, every other box copied; and whether a `meta` box was seen.
pub open spec fn heic_boxes_from(d: Seq<u8>, pos: int, options: RemovalOptions, acc: Seq<u8>, found: bool) -> Outcome<
    (Seq<u8>, bool),
>
    decreases d.len() - pos,
{
    match next_box(d, pos, false) {
        None => Outcome::Traps,
        Some(None) => Outcome::Done((acc, found)),
        Some(Some((s, h, e, ty))) => {
            if e <= s {
                Outcome::Traps
            } else if ty == tag_meta() {
                if s + h > e {
                    Outcome::Traps
                } else {
                    match process_meta_spec(d.subrange(s + h, e), e - s, options) {
                        Outcome::Done(p) => match sized_box(tag_meta(), p) {
                            Some(b) => heic_boxes_from(d, e, options, acc + b, true),
                            None => Outcome::Traps,
                        },
                        Outcome::Fails => Outcome::Fails,
                        Outcome::Traps => Outcome::Traps,
                    }
                }
            } else {
                heic_boxes_from(d, e, options, acc + d.subrange(s, e), found)
            }
        },
    }
}

/// A HEIC file with its metadata removed: the top-level boxes, each `meta`
/// box processed. An input without a HEIC `ftyp`, without boxes or without
/// a `meta` box is refused.
pub open spec fn heic_remove_spec(d: Seq<u8>, options: RemovalOptions) -> Outcome<Seq<u8>> {
    if !is_heic_ftyp(d) {
        Outcome::Fails
    } else {
        match heic_boxes_from(d, 0, options, Seq::empty(), false) {
            Outcome::Done((out, found)) => if out.len() == 0 || !found {
                Outcome::Fails
            } else {
                Outcome::Done(out)
            },
            Outcome::Fails => Outcome::Fails,
            Outcome::Traps => Outcome::Traps,
        }
    }
}

/// Whether the brands from `from` up to `to` include `heic`.
pub fn heic_brand_from(d: &[u8], from: usize, to: usize) -> (r: bool)
    requires
        to <= d@.len(),
    ensures
        r == has_heic_brand_from(d@, from as int, to as int),
{
    let mut i = from;
    while i <= to && to - i >= 4
        invariant
            to <= d@.len(),
            has_heic_brand_from(d@, i as int, to as int) == has_heic_brand_from(d@, from as int, to as int),
        decreases to - i,
    {
        if tag_at(d, i, [0x68, 0x65, 0x69, 0x63]) {
            assert([0x68u8, 0x65, 0x69, 0x63]@ =~= tag_heic());
            return true;
        }
        assert([0x68u8, 0x65, 0x69, 0x63]@ =~= tag_heic());
        i += 4;
    }
    false
}

impl MetadataRemover for HeicRemover {
    open spec fn accepts(&self, input: Seq<u8>, options: RemovalOptions) -> bool {
        within_limit(input.len() as int) && !(heic_remove_spec(input, options) is Traps)
    }

    fn format(&self) -> (r: FileFormat)
        ensures
            r == FileFormat::Heic,
    {
        FileFormat::Heic
    }

    fn remove_metadata(&self, input: &[u8], options: &RemovalOptions) -> (r: Result<Vec<u8>, Error>)
        ensures
            match heic_remove_spec(input@, *options) {
                Outcome::Done(v) => r matches Ok(out) && out@ == v,
                _ => r matches Err(e) && e.kind() == ErrorKind::InvalidData,
            },
    {
        let ghost d = input@;
        if input.len() < 12 || !tag_eq_slice(input, 4, 0x66, 0x74, 0x79, 0x70) {
            return Err(Error::InvalidData("HEIC".to_string()));
        }
        let ftyp_size = read_be32(input, 0) as usize;
        if !tag_eq_slice(input, 8, 0x68, 0x65, 0x69, 0x63)
            && (ftyp_size < 16 || ftyp_size > input.len() || !heic_brand_from(input, 16, ftyp_size))
        {
            return Err(Error::InvalidData("HEIC".to_string()));
        }
        let mut output: Vec<u8> = Vec::new();
        let mut found_meta = false;
        let mut pos: usize = 0;
        let ghost total = heic_boxes_from(d, 0, *options, Seq::empty(), false);
        loop
            invariant
                d == input@,
                within_limit(d.len() as int),
                pos <= d.len(),
                total == heic_boxes_from(d, 0, *options, Seq::empty(), false),
                total == heic_boxes_from(d, pos as int, *options, output@, found_meta),
                !(total is Traps),
                heic_remove_spec(d, *options) == match total {
                    Outcome::Done((out, found)) => if out.len() == 0 || !found {
                        Outcome::Fails
                    } else {
                        Outcome::Done(out)
                    },
                    Outcome::Fails => Outcome::<Seq<u8>>::Fails,
                    Outcome::Traps => Outcome::Traps,
                },
            ensures
                total == Outcome::Done((output@, found_meta)),
            decreases d.len() - pos,
        {
            match next_box_at(input, pos, false) {
                None => {
                    break;
                },
                Some((box_start, header_size, box_end, box_type)) => {
                    let ghost before = output@;
                    if tag_eq(&box_type, 0x6d, 0x65, 0x74, 0x61) {
                        found_meta = true;
                        let meta_content = vstd::slice::slice_subrange(input, box_start + header_size, box_end);
                        let processed = process_meta_box(meta_content, box_end - box_start, header_size, options)?;
                        // Write meta box header with correct size for the (possibly smaller) content
                        push_sized_box(&mut output, &box_type, &processed);
                    } else {
                        push_range(&mut output, input, box_start, box_end);
                    }
                    pos = box_end;
                },
            }
        }
        if output.len() == 0 {
            return Err(Error::InvalidData("HEIC: no boxes processed".to_string()));
        }
        if !found_meta {
            return Err(Error::InvalidData("HEIC: no meta box found".to_string()));
        }
        Ok(output)
    }
}

/// Whether the four bytes at `i` spell `a b c d`.
pub fn tag_eq_slice(s: &[u8], i: usize, a: u8, b: u8, c: u8, d: u8) -> (r: bool)
    ensures
        r == has_tag(s@, i as int, seq![a, b, c, d]),
{
    let t = [a, b, c, d];
    assert(t@ =~= seq![a, b, c, d]);
    tag_at(s, i, t)
}

} // verus!
