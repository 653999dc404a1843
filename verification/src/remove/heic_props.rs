use crate::bytes::{be16, be16_bytes, be32, be32_bytes, push_be16, push_be32, push_range, read_be16, read_be32};
use crate::remove::isobmff::{
    box_header_spec, next_box, next_box_at, parse_box_header, tag_colr, tag_eq, tag_ipco, tag_ipma, within_limit,
};
use crate::types::{Error, Outcome};
use vstd::prelude::*;

verus! {

/// The association at `pos` as it is kept: the `colr` property leaves
/// `ipco`, so an index past `colr_index` is lowered by one to name the same
/// property as before; the essential bit stays as it was.
pub open spec fn renumbered_assoc(d: Seq<u8>, pos: int, version: u8, colr_index: u8) -> Seq<u8> {
    if version < 1 {
        if d[pos] % 0x80 > colr_index {
            seq![(d[pos] - 1) as u8]
        } else {
            seq![d[pos]]
        }
    } else {
        let v = be16(d, pos);
        if v % 0x8000 > colr_index {
            be16_bytes((v - 1) as u16)
        } else {
            d.subrange(pos, pos + 2)
        }
    }
}

/// The property associations of an `ipma` entry, at most `n` from `pos`,
/// without those naming the property `colr_index` and renumbered (see
/// `renumbered_assoc`); the position after them; and how many are kept.
pub open spec fn ipma_assocs_from(d: Seq<u8>, pos: int, n: nat, version: u8, colr_index: u8) -> (Seq<u8>, int, nat)
    decreases n,
{
    let width: int = if version < 1 { 1 } else { 2 };
    if n == 0 || pos + width > d.len() {
        (Seq::empty(), pos, 0)
    } else {
        let property_index: int = if version < 1 { (d[pos] % 0x80) as int } else { be16(d, pos) % 0x8000 };
        let rest = ipma_assocs_from(d, pos + width, (n - 1) as nat, version, colr_index);
        if property_index != colr_index {
            (renumbered_assoc(d, pos, version, colr_index) + rest.0, rest.1, rest.2 + 1)
        } else {
            rest
        }
    }
}

/// At most `n` `ipma` entries from `pos`, each with its associations to
/// `colr_index` left out, the others renumbered, and its association count
/// set to how many are left.
pub open spec fn ipma_entries_from(d: Seq<u8>, pos: int, n: nat, version: u8, colr_index: u8) -> Seq<u8>
    decreases n,
{
    let id_size: int = if version < 1 { 2 } else { 4 };
    if n == 0 || pos + id_size > d.len() {
        Seq::empty()
    } else if pos + id_size + 1 > d.len() {
        d.subrange(pos, pos + id_size)
    } else {
        let count = d[pos + id_size];
        let assocs = ipma_assocs_from(d, pos + id_size + 1, count as nat, version, colr_index);
        d.subrange(pos, pos + id_size) + seq![assocs.2 as u8] + assocs.0 + ipma_entries_from(
            d,
            assocs.1,
            (n - 1) as nat,
            version,
            colr_index,
        )
    }
}

/// The content of an `ipma` box without the associations to property
/// `colr_index`: version, flags and entry count as they were, then the entries.
pub open spec fn rebuild_ipma_spec(d: Seq<u8>, colr_index: u8) -> Seq<u8> {
    if d.len() < 8 {
        d
    } else {
        d.subrange(0, 8) + ipma_entries_from(d, 8, be32(d, 4) as nat, d[0], colr_index)
    }
}

/// Kept associations number no more than those read.
proof fn lemma_assocs_count(d: Seq<u8>, pos: int, n: nat, version: u8, colr_index: u8)
    ensures
        ipma_assocs_from(d, pos, n, version, colr_index).2 <= n,
        ipma_assocs_from(d, pos, n, version, colr_index).1 >= pos,
    decreases n,
{
    let width: int = if version < 1 { 1 } else { 2 };
    if n > 0 && pos + width <= d.len() {
        lemma_assocs_count(d, pos + width, (n - 1) as nat, version, colr_index);
    }
}

pub fn rebuild_ipma(ipma_data: &[u8], colr_index: u8) -> (r: Result<Vec<u8>, Error>)
    requires
        within_limit(ipma_data@.len() as int),
    ensures
        r matches Ok(out) && out@ == rebuild_ipma_spec(ipma_data@, colr_index),
{
    if ipma_data.len() < 8 {
        return Ok(vstd::slice::slice_to_vec(ipma_data));
    }
    let ghost d = ipma_data@;
    let version = ipma_data[0];
    let entry_count = read_be32(ipma_data, 4) as usize;
    let mut result: Vec<u8> = Vec::new();
    // version, flags and entry count
    push_range(&mut result, ipma_data, 0, 8);
    let ghost head = result@;
    let ghost total = ipma_entries_from(d, 8, entry_count as nat, version, colr_index);
    let mut pos: usize = 8;
    let mut i: usize = 0;
    while i < entry_count
        invariant
            d == ipma_data@,
            within_limit(d.len() as int),
            i <= entry_count,
            pos <= d.len(),
            head.len() <= result@.len(),
            result@.subrange(0, head.len() as int) == head,
            result@.subrange(head.len() as int, result@.len() as int)
                + ipma_entries_from(d, pos as int, (entry_count - i) as nat, version, colr_index) == total,
        ensures
            result@ == head + total,
        decreases entry_count - i,
    {
        let ghost r0 = result@;
        let ghost pos0 = pos;
        let item_id_size: usize = if version < 1 { 2 } else { 4 };
        if pos + item_id_size > ipma_data.len() {
            proof {
                assert(result@ =~= head + result@.subrange(head.len() as int, result@.len() as int));
            }
            break;
        }
        push_range(&mut result, ipma_data, pos, pos + item_id_size);
        pos += item_id_size;
        if pos + 1 > ipma_data.len() {
            proof {
                assert(result@ =~= head + total);
            }
            break;
        }
        let association_count = ipma_data[pos] as usize;
        pos += 1;
        let ghost assocs = ipma_assocs_from(d, pos as int, association_count as nat, version, colr_index);
        proof {
            lemma_assocs_count(d, pos as int, association_count as nat, version, colr_index);
        }
        let mut kept: Vec<u8> = Vec::new();
        let mut kept_count: u8 = 0;
        let mut j: usize = 0;
        while j < association_count
            invariant
                d == ipma_data@,
                within_limit(d.len() as int),
                j <= association_count <= 255,
                pos <= d.len(),
                kept_count <= j,
                kept@ + ipma_assocs_from(d, pos as int, (association_count - j) as nat, version, colr_index).0 == assocs.0,
                kept_count + ipma_assocs_from(d, pos as int, (association_count - j) as nat, version, colr_index).2
                    == assocs.2,
                ipma_assocs_from(d, pos as int, (association_count - j) as nat, version, colr_index).1 == assocs.1,
            ensures
                kept@ == assocs.0,
                kept_count == assocs.2,
                pos == assocs.1,
            decreases association_count - j,
        {
            let assoc_size: usize = if version < 1 { 1 } else { 2 };
            if pos + assoc_size > ipma_data.len() {
                proof {
                    assert(kept@ + Seq::<u8>::empty() =~= kept@);
                }
                break;
            }
            let property_index: u16 = if version < 1 {
                (ipma_data[pos] % 0x80) as u16
            } else {
                read_be16(ipma_data, pos) % 0x8000
            };
            let ghost rest = ipma_assocs_from(d, (pos + assoc_size) as int, (association_count - j - 1) as nat, version, colr_index);
            if property_index != colr_index as u16 {
                let ghost before = kept@;
                // the colr property leaves ipco: later properties move up by one
                if version < 1 {
                    let b = ipma_data[pos];
                    if property_index > colr_index as u16 {
                        kept.push(b - 1);
                    } else {
                        kept.push(b);
                    }
                } else {
                    let v = read_be16(ipma_data, pos);
                    if property_index > colr_index as u16 {
                        push_be16(&mut kept, v - 1);
                    } else {
                        push_range(&mut kept, ipma_data, pos, pos + 2);
                    }
                }
                kept_count += 1;
                proof {
                    assert(kept@ =~= before + renumbered_assoc(d, pos as int, version, colr_index));
                    assert(kept@ + rest.0 =~= before + (renumbered_assoc(d, pos as int, version, colr_index) + rest.0));
                }
            }
            pos += assoc_size;
            j += 1;
        }
        proof {
            lemma_assocs_count(d, pos0 + item_id_size + 1, association_count as nat, version, colr_index);
        }
        result.push(kept_count);
        push_range(&mut result, kept.as_slice(), 0, kept.len());
        proof {
            assert(kept@.subrange(0, kept@.len() as int) =~= kept@);
            let rest = ipma_entries_from(d, pos as int, (entry_count - i - 1) as nat, version, colr_index);
            assert(ipma_entries_from(d, pos0 as int, (entry_count - i) as nat, version, colr_index)
                == d.subrange(pos0 as int, pos0 + item_id_size) + seq![assocs.2 as u8] + assocs.0 + rest);
            assert(result@ =~= r0 + (d.subrange(pos0 as int, pos0 + item_id_size) + seq![assocs.2 as u8] + assocs.0));
            assert(result@.subrange(head.len() as int, result@.len() as int) + rest =~=
                r0.subrange(head.len() as int, r0.len() as int) + (d.subrange(pos0 as int, pos0 + item_id_size)
                + seq![assocs.2 as u8] + assocs.0 + rest));
            assert(result@.subrange(0, head.len() as int) =~= r0.subrange(0, head.len() as int));
        }
        i += 1;
    }
    Ok(result)
}

/// The boxes of an `ipco` box's content from `pos`, numbered from `idx`,
/// without the box numbered `colr_index`. `None` where the walk cannot be
/// completed: a box of size 0, more than 254 boxes, or an end past `usize`.
pub open spec fn ipco_keep_from(d: Seq<u8>, pos: int, idx: int, colr_index: u8) -> Option<Seq<u8>>
    decreases d.len() - pos,
{
    match next_box(d, pos, false) {
        None => None,
        Some(None) => Some(Seq::empty()),
        Some(Some((s, h, e, ty))) => {
            if e <= s || idx >= 255 {
                None
            } else {
                match ipco_keep_from(d, e, idx + 1, colr_index) {
                    None => None,
                    Some(rest) => Some(if idx != colr_index { d.subrange(s, e) + rest } else { rest }),
                }
            }
        },
    }
}

pub fn rebuild_ipco(ipco_data: &[u8], colr_index: u8) -> (r: Result<Vec<u8>, Error>)
    requires
        within_limit(ipco_data@.len() as int),
        ipco_keep_from(ipco_data@, 0, 1, colr_index) is Some,
    ensures
        r matches Ok(out) && out@ == ipco_keep_from(ipco_data@, 0, 1, colr_index).unwrap(),
{
    let ghost d = ipco_data@;
    let ghost total = ipco_keep_from(d, 0, 1, colr_index).unwrap();
    let mut result: Vec<u8> = Vec::new();
    let mut pos: usize = 0;
    let mut idx: u8 = 1;
    loop
        invariant
            d == ipco_data@,
            within_limit(d.len() as int),
            pos <= d.len(),
            ipco_keep_from(d, pos as int, idx as int, colr_index) is Some,
            result@ + ipco_keep_from(d, pos as int, idx as int, colr_index).unwrap() == total,
        ensures
            result@ == total,
        decreases d.len() - pos,
    {
        match next_box_at(ipco_data, pos, false) {
            None => {
                assert(result@ =~= total);
                break;
            },
            Some((box_start, _header_size, box_end, _box_type)) => {
                let ghost before = result@;
                if idx != colr_index {
                    push_range(&mut result, ipco_data, box_start, box_end);
                    assert(result@ + ipco_keep_from(d, box_end as int, idx + 1, colr_index).unwrap() =~= before
                        + (d.subrange(box_start as int, box_end as int) + ipco_keep_from(d, box_end as int, idx + 1, colr_index).unwrap()));
                }
                idx += 1;
                pos = box_end;
            },
        }
    }
    Ok(result)
}

/// The number of the first `colr` box in an `ipco` box's content from `p`,
/// boxes being numbered from `idx`: `Some(None)` when there is none, `None`
/// where the search cannot be completed.
pub open spec fn ipco_find_colr(c: Seq<u8>, p: int, idx: int) -> Option<Option<u8>>
    decreases c.len() - p,
{
    match box_header_spec(c, p) {
        None => Some(None),
        Some((t, h, ty)) => {
            if ty == tag_colr() {
                Some(Some(idx as u8))
            } else if p + h + t > usize::MAX {
                None
            } else if p + t > c.len() {
                Some(None)
            } else if idx >= 255 || t == 0 {
                None
            } else {
                ipco_find_colr(c, p + t, idx + 1)
            }
        },
    }
}

/// The number of the `colr` property found in the last `ipco` box (that has
/// one) among the boxes of an `iprp` box's content from `pos`; `found` when none.
pub open spec fn iprp_colr_from(d: Seq<u8>, pos: int, found: Option<u8>) -> Option<Option<u8>>
    decreases d.len() - pos,
{
    match next_box(d, pos, true) {
        None => None,
        Some(None) => Some(found),
        Some(Some((s, h, e, ty))) => {
            if e <= s {
                None
            } else if ty == tag_ipco() {
                if s + h > e {
                    None
                } else {
                    match ipco_find_colr(d.subrange(s + h, e), 0, 1) {
                        None => None,
                        Some(None) => iprp_colr_from(d, e, found),
                        Some(Some(i)) => iprp_colr_from(d, e, Some(i)),
                    }
                }
            } else {
                iprp_colr_from(d, e, found)
            }
        },
    }
}

/// A box of type `ty` with content `c` behind an 8-byte header, whose size
/// field counts that header and the content.
pub open spec fn sized_box(ty: Seq<u8>, c: Seq<u8>) -> Option<Seq<u8>> {
    if 8 + c.len() > usize::MAX {
        None
    } else {
        Some(be32_bytes((8 + c.len()) as u32) + ty + c)
    }
}

/// One box of an `iprp` box's content, with the `colr_index` property taken
/// out when it is `ipco` or `ipma`.
pub open spec fn iprp_piece(d: Seq<u8>, s: int, h: int, e: int, ty: Seq<u8>, colr_index: u8) -> Option<Seq<u8>> {
    if ty == tag_ipco() {
        if s + h > e {
            None
        } else {
            match ipco_keep_from(d.subrange(s + h, e), 0, 1, colr_index) {
                None => None,
                Some(c) => sized_box(tag_ipco(), c),
            }
        }
    } else if ty == tag_ipma() {
        if s + h > e {
            None
        } else {
            sized_box(tag_ipma(), rebuild_ipma_spec(d.subrange(s + h, e), colr_index))
        }
    } else {
        Some(d.subrange(s, e))
    }
}

/// Appends a box of type `ty` with content `content` behind an 8-byte header.
pub fn push_sized_box(out: &mut Vec<u8>, ty: &[u8; 4], content: &[u8])
    requires
        8 + content@.len() <= usize::MAX,
    ensures
        final(out)@ == old(out)@ + sized_box(ty@, content@).unwrap(),
{
    push_be32(out, (8 + content.len()) as u32);
    push_range(out, ty, 0, 4);
    push_range(out, content, 0, content.len());
    assert(ty@.subrange(0, 4) =~= ty@);
    assert(content@.subrange(0, content@.len() as int) =~= content@);
    assert(out@ =~= old(out)@ + sized_box(ty@, content@).unwrap());
}

/// Appends one box of an `iprp` box's content (see `iprp_piece`).
pub fn push_iprp_piece(out: &mut Vec<u8>, d: &[u8], s: usize, h: usize, e: usize, ty: [u8; 4], colr_index: u8)
    requires
        within_limit(d@.len() as int),
        s < e <= d@.len(),
        iprp_piece(d@, s as int, h as int, e as int, ty@, colr_index) is Some,
    ensures
        final(out)@ == old(out)@ + iprp_piece(d@, s as int, h as int, e as int, ty@, colr_index).unwrap(),
{
    if tag_eq(&ty, 0x69, 0x70, 0x63, 0x6f) {
        let ipco_data = vstd::slice::slice_subrange(d, s + h, e);
        match rebuild_ipco(ipco_data, colr_index) {
            Ok(cleaned) => push_sized_box(out, &ty, &cleaned),
            Err(_) => {},
        }
    } else if tag_eq(&ty, 0x69, 0x70, 0x6d, 0x61) {
        let ipma_data = vstd::slice::slice_subrange(d, s + h, e);
        match rebuild_ipma(ipma_data, colr_index) {
            Ok(cleaned) => push_sized_box(out, &ty, &cleaned),
            Err(_) => {},
        }
    } else {
        push_range(out, d, s, e);
    }
}

/// The boxes of an `iprp` box's content from `pos` with the `colr_index`
/// property taken out of `ipco` and `ipma`.
pub open spec fn iprp_rebuild_from(d: Seq<u8>, pos: int, colr_index: u8) -> Option<Seq<u8>>
    decreases d.len() - pos,
{
    match next_box(d, pos, false) {
        None => None,
        Some(None) => Some(Seq::empty()),
        Some(Some((s, h, e, ty))) => {
            if e <= s {
                None
            } else {
                let piece = iprp_piece(d, s, h, e, ty, colr_index);
                match (piece, iprp_rebuild_from(d, e, colr_index)) {
                    (Some(p), Some(rest)) => Some(p + rest),
                    _ => None,
                }
            }
        },
    }
}

/// The content of an `iprp` box without its `colr` property: the box leaves
/// `ipco` and its associations leave `ipma`. Unchanged when there is no
/// `colr` property; `None` where the walk cannot be completed.
#[verifier::opaque]
pub open spec fn process_iprp_spec(d: Seq<u8>) -> Option<Seq<u8>> {
    match iprp_colr_from(d, 0, None) {
        None => None,
        Some(None) => Some(d),
        Some(Some(i)) => iprp_rebuild_from(d, 0, i),
    }
}

/// Finds the number of the first `colr` box of an `ipco` box's content.
pub fn find_colr_index(ipco_data: &[u8]) -> (r: Option<u8>)
    requires
        within_limit(ipco_data@.len() as int),
        ipco_find_colr(ipco_data@, 0, 1) is Some,
    ensures
        r == ipco_find_colr(ipco_data@, 0, 1).unwrap(),
{
    let ghost d = ipco_data@;
    let mut pos: usize = 0;
    let mut idx: u8 = 1;
    loop
        invariant
            d == ipco_data@,
            within_limit(d.len() as int),
            pos <= d.len(),
            1 <= idx,
            ipco_find_colr(d, pos as int, idx as int) == ipco_find_colr(d, 0, 1),
            ipco_find_colr(d, 0, 1) is Some,
        decreases d.len() - pos,
    {
        match parse_box_header(ipco_data, pos) {
            None => {
                return None;
            },
            Some((total, header, ty)) => {
                if tag_eq(&ty, 0x63, 0x6f, 0x6c, 0x72) {
                    return Some(idx);
                }
                if total > ipco_data.len() - pos {
                    return None;
                }
                idx += 1;
                pos = pos + total;
            },
        }
    }
}

pub fn process_iprp(iprp_data: &[u8]) -> (r: Result<Vec<u8>, Error>)
    requires
        within_limit(iprp_data@.len() as int),
        process_iprp_spec(iprp_data@) is Some,
    ensures
        r matches Ok(out) && out@ == process_iprp_spec(iprp_data@).unwrap(),
{
    reveal(process_iprp_spec);
    let ghost d = iprp_data@;
    let mut colr_property_index: Option<u8> = None;
    let mut pos: usize = 0;
    // First pass: find colr box index in ipco
    loop
        invariant
            d == iprp_data@,
            within_limit(d.len() as int),
            pos <= d.len(),
            iprp_colr_from(d, pos as int, colr_property_index) == iprp_colr_from(d, 0, None),
            iprp_colr_from(d, 0, None) is Some,
        ensures
            iprp_colr_from(d, 0, None) == Some(colr_property_index),
        decreases d.len() - pos,
    {
        match next_box_at(iprp_data, pos, true) {
            None => {
                break;
            },
            Some((box_start, header_size, box_end, box_type)) => {
                if tag_eq(&box_type, 0x69, 0x70, 0x63, 0x6f) {
                    let ipco_data = vstd::slice::slice_subrange(iprp_data, box_start + header_size, box_end);
                    match find_colr_index(ipco_data) {
                        Some(i) => {
                            colr_property_index = Some(i);
                        },
                        None => {},
                    }
                }
                pos = box_end;
            },
        }
    }
    let colr_idx = match colr_property_index {
        Some(i) => i,
        None => {
            return Ok(vstd::slice::slice_to_vec(iprp_data));
        },
    };
    // Second pass: rebuild iprp
    let ghost total = iprp_rebuild_from(d, 0, colr_idx).unwrap();
    let mut result: Vec<u8> = Vec::new();
    pos = 0;
    loop
        invariant
            d == iprp_data@,
            within_limit(d.len() as int),
            pos <= d.len(),
            iprp_rebuild_from(d, pos as int, colr_idx) is Some,
            result@ + iprp_rebuild_from(d, pos as int, colr_idx).unwrap() == total,
        ensures
            result@ == total,
        decreases d.len() - pos,
    {
        match next_box_at(iprp_data, pos, false) {
            None => {
                assert(result@ =~= total);
                break;
            },
            Some((box_start, header_size, box_end, box_type)) => {
                let ghost before = result@;
                let ghost rest = iprp_rebuild_from(d, box_end as int, colr_idx).unwrap();
                push_iprp_piece(&mut result, iprp_data, box_start, header_size, box_end, box_type, colr_idx);
                assert(result@ + rest =~= before + (iprp_piece(d, box_start as int, header_size as int, box_end as int, box_type@, colr_idx).unwrap() + rest));
                pos = box_end;
            },
        }
    }
    Ok(result)
}
} // verus!
