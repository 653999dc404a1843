use crate::bytes::{
    has_prefix, starts_with, be16, be16_bytes, be32, be32_bytes, be64, be64_bytes, push_be16, push_be32, push_range, read_be16, read_be32,
    read_be64,
};
use crate::remove::isobmff::{tag_exif, tag_mime, tag_eq, within_limit};
use crate::types::{Error, ErrorKind, Outcome, RemovalOptions};
use std::collections::HashSet;
use vstd::prelude::*;

verus! {

broadcast use vstd::std_specs::hash::group_hash_axioms;

/// The item id stored at `i`: two bytes, or the low 16 bits of four bytes.
pub open spec fn item_id_at(d: Seq<u8>, i: int, id_size: int) -> u16 {
    if id_size == 2 {
        be16(d, i) as u16
    } else {
        (be32(d, i) % 0x1_0000) as u16
    }
}

/// `application/rdf+xml`
pub open spec fn rdf_xml() -> Seq<u8> {
    seq![0x61u8, 0x70, 0x70, 0x6c, 0x69, 0x63, 0x61, 0x74, 0x69, 0x6f, 0x6e, 0x2f, 0x72, 0x64, 0x66, 0x2b, 0x78, 0x6d, 0x6c]
}

/// The position of the first zero byte of `s` from `i` on; the length of
/// `s` when there is none.
pub open spec fn zero_from(s: Seq<u8>, i: int) -> int
    decreases s.len() - i,
{
    if i < 0 || i >= s.len() {
        s.len() as int
    } else if s[i] == 0 {
        i
    } else {
        zero_from(s, i + 1)
    }
}

/// The `mime` item whose `infe` entry is `infe`, its null-terminated item
/// name starting at `name_start`, holds XMP: its content type (the
/// null-terminated string after the name) is `application/rdf+xml`, or the
/// entry ends with the name and declares no content type.
pub open spec fn is_xmp_content_type(infe: Seq<u8>, name_start: int) -> bool {
    let name_end = zero_from(infe, name_start);
    if name_end + 1 >= infe.len() {
        true
    } else {
        infe.subrange(name_end + 1, zero_from(infe, name_end + 1)) == rdf_xml()
    }
}

/// The `infe` entry `infe`, whose item type stands at `type_offset`, is a
/// metadata item that `options` asks to remove: an `Exif` item, or a `mime`
/// item holding XMP.
pub open spec fn is_metadata_item(infe: Seq<u8>, type_offset: int, options: RemovalOptions) -> bool {
    let item_type = infe.subrange(type_offset, type_offset + 4);
    (options.exif && item_type == tag_exif()) || (options.xmp && item_type == tag_mime() && is_xmp_content_type(
        infe,
        type_offset + 4,
    ))
}

/// The ids of the metadata items among at most `n` `infe` entries from `offset`;
/// `None` where an entry of exactly 8 bytes is read past its end.
pub open spec fn metadata_ids_from(d: Seq<u8>, offset: int, n: nat, id_size: int, options: RemovalOptions) -> Option<
    Set<u16>,
>
    decreases n,
{
    if n == 0 || offset + 8 > d.len() {
        Some(Set::empty())
    } else {
        let size = be32(d, offset);
        if size < 8 || offset + size > d.len() {
            Some(Set::empty())
        } else if size == 8 {
            None
        } else {
            let rest = metadata_ids_from(d, offset + size, (n - 1) as nat, id_size, options);
            let type_offset = 12 + id_size + 2;
            if type_offset + 4 > size {
                rest
            } else if is_metadata_item(d.subrange(offset, offset + size), type_offset, options) {
                match rest {
                    Some(ids) => Some(ids.insert(item_id_at(d, offset + 12, id_size))),
                    None => None,
                }
            } else {
                rest
            }
        }
    }
}

/// The ids of the items that `options` marks as metadata in the content of an
/// `iinf` box (version, flags, entry count, `infe` entries).
#[verifier::opaque]
pub open spec fn metadata_ids(d: Seq<u8>, options: RemovalOptions) -> Option<Set<u16>> {
    if d.len() < 6 {
        Some(Set::empty())
    } else if d[0] == 0 {
        metadata_ids_from(d, 6, be16(d, 4) as nat, 2, options)
    } else if d.len() < 8 {
        Some(Set::empty())
    } else {
        metadata_ids_from(d, 8, be32(d, 4) as nat, 4, options)
    }
}

pub fn read_item_id(d: &[u8], i: usize, id_size: usize) -> (r: u16)
    requires
        id_size == 2 ==> i + 2 <= d@.len(),
        id_size != 2 ==> i + 4 <= d@.len(),
    ensures
        r == item_id_at(d@, i as int, id_size as int),
{
    if id_size == 2 {
        read_be16(d, i)
    } else {
        (read_be32(d, i) % 0x1_0000) as u16
    }
}

/// The position of the first zero byte of `s` from `i` on; its length when there is none.
fn find_zero(s: &[u8], i: usize) -> (r: usize)
    ensures
        r == zero_from(s@, i as int),
{
    let mut k = i;
    while k < s.len() && s[k] != 0
        invariant
            i <= k,
            zero_from(s@, k as int) == zero_from(s@, i as int),
        decreases s@.len() - k,
    {
        k += 1;
    }
    if k >= s.len() {
        s.len()
    } else {
        k
    }
}

/// Whether the `mime` entry `infe`, its item name from `name_start`, holds
/// XMP (see `is_xmp_content_type`).
fn is_xmp_infe(infe: &[u8], name_start: usize) -> (r: bool)
    ensures
        r == is_xmp_content_type(infe@, name_start as int),
{
    let name_end = find_zero(infe, name_start);
    if name_end >= infe.len() || infe.len() - name_end <= 1 {
        return true;
    }
    let ct_end = find_zero(infe, name_end + 1);
    let rdf: [u8; 19] = [0x61, 0x70, 0x70, 0x6c, 0x69, 0x63, 0x61, 0x74, 0x69, 0x6f, 0x6e, 0x2f, 0x72, 0x64, 0x66, 0x2b,
        0x78, 0x6d, 0x6c];
    proof {
        assert(rdf@ =~= rdf_xml());
        lemma_zero_from_bounds(infe@, name_end + 1);
    }
    let ct = vstd::slice::slice_subrange(infe, name_end + 1, ct_end);
    let r = ct.len() == 19 && has_prefix(ct, &rdf);
    proof {
        if ct@.len() == 19 {
            assert(ct@.subrange(0, 19) =~= ct@);
        }
        assert(ct@ == infe@.subrange(name_end + 1, ct_end as int));
    }
    r
}

/// The first zero byte from `i` lies from `i` on, within `s`.
proof fn lemma_zero_from_bounds(s: Seq<u8>, i: int)
    requires
        0 <= i <= s.len(),
    ensures
        i <= zero_from(s, i) <= s.len(),
    decreases s.len() - i,
{
    if i < s.len() && s[i] != 0 {
        lemma_zero_from_bounds(s, i + 1);
    }
}

/// Find metadata item IDs from iinf box content (after the box header, i.e., fullbox content).
/// The content starts with version(1) + flags(3) + entry_count.
/// item_id width in infe entries depends on iinf version: 2 bytes for v0, 4 bytes for v1+.
pub fn find_metadata_item_ids(iinf_data: &[u8], options: &RemovalOptions) -> (ids: HashSet<u16>)
    requires
        within_limit(iinf_data@.len() as int),
        metadata_ids(iinf_data@, *options) is Some,
    ensures
        ids@ == metadata_ids(iinf_data@, *options).unwrap(),
{
    reveal(metadata_ids);
    let mut ids: HashSet<u16> = HashSet::new();
    if iinf_data.len() < 6 {
        return ids;
    }
    let iinf_version = iinf_data[0];
    let entry_count: usize = if iinf_version == 0 {
        read_be16(iinf_data, 4) as usize
    } else {
        if iinf_data.len() < 8 {
            return ids;
        }
        read_be32(iinf_data, 4) as usize
    };
    let item_id_size: usize = if iinf_version == 0 { 2 } else { 4 };
    let mut offset: usize = if iinf_version == 0 { 6 } else { 8 };
    let ghost d = iinf_data@;
    let ghost total = metadata_ids(d, *options).unwrap();
    let mut i: usize = 0;
    while i < entry_count
        invariant
            d == iinf_data@,
            within_limit(d.len() as int),
            i <= entry_count,
            offset <= d.len(),
            item_id_size == 2 || item_id_size == 4,
            metadata_ids_from(d, offset as int, (entry_count - i) as nat, item_id_size as int, *options) is Some,
            total == ids@.union(
                metadata_ids_from(d, offset as int, (entry_count - i) as nat, item_id_size as int, *options).unwrap(),
            ),
        ensures
            total == ids@.union(Set::empty()),
        decreases entry_count - i,
    {
        if offset + 8 > iinf_data.len() {
            break;
        }
        let infe_size = read_be32(iinf_data, offset) as usize;
        if infe_size < 8 || infe_size > iinf_data.len() - offset {
            break;
        }
        // The entry's version byte: an entry of exactly 8 bytes has none.
        let _infe_version = iinf_data[offset + 8];
        let item_type_offset = 12 + item_id_size + 2;
        let ghost rest = metadata_ids_from(d, (offset + infe_size) as int, (entry_count - i - 1) as nat, item_id_size as int, *options);
        if item_type_offset + 4 <= infe_size {
            let item_id = read_item_id(iinf_data, offset + 12, item_id_size);
            let infe = vstd::slice::slice_subrange(iinf_data, offset, offset + infe_size);
            proof {
                assert(infe@.subrange(item_type_offset as int, item_type_offset + 4) =~= d.subrange(
                    offset + item_type_offset,
                    offset + item_type_offset + 4,
                ));
            }
            let remove = (options.exif && tag_eq_at(iinf_data, offset + item_type_offset, 0x45, 0x78, 0x69, 0x66))
                || (options.xmp && tag_eq_at(iinf_data, offset + item_type_offset, 0x6d, 0x69, 0x6d, 0x65)
                && is_xmp_infe(infe, item_type_offset + 4));
            assert(remove == is_metadata_item(d.subrange(offset as int, offset + infe_size), item_type_offset as int, *options));
            if remove {
                ids.insert(item_id);
                assert(total == ids@.union(rest.unwrap()));
            }
        }
        offset += infe_size;
        i += 1;
    }
    assert(ids@ =~= ids@.union(Set::empty()));
    ids
}

/// Whether the four bytes at `i` spell `a b c d`.
pub fn tag_eq_at(d: &[u8], i: usize, a: u8, b: u8, c: u8, e: u8) -> (r: bool)
    requires
        i + 4 <= d@.len(),
    ensures
        r == (d@.subrange(i as int, i + 4) == seq![a, b, c, e]),
{
    let r = d[i] == a && d[i + 1] == b && d[i + 2] == c && d[i + 3] == e;
    assert(r == (d@.subrange(i as int, i + 4) =~= seq![a, b, c, e]));
    r
}

/// The `infe` entry's item id is one of `removed_ids`.
pub open spec fn infe_removed(infe: Seq<u8>, removed_ids: Set<u16>, id_size: int) -> bool {
    if infe.len() < 12 + id_size {
        false
    } else {
        removed_ids.contains(item_id_at(infe, 12, id_size))
    }
}

/// Check if an infe entry's item_id is in the removed_ids list.
/// item_id_size depends on the parent iinf version: 2 for v0, 4 for v1+.
pub fn is_infe_removed(infe_data: &[u8], removed_ids: &HashSet<u16>, item_id_size: usize) -> (r: bool)
    requires
        12 + item_id_size <= usize::MAX,
        item_id_size == 2 || infe_data@.len() < 12 + item_id_size || infe_data@.len() >= 16,
    ensures
        r == infe_removed(infe_data@, removed_ids@, item_id_size as int),
{
    if infe_data.len() < 12 + item_id_size {
        return false;
    }
    let item_id = read_item_id(infe_data, 12, item_id_size);
    removed_ids.contains(&item_id)
}

/// The kept `infe` entries among at most `n` entries from `offset`, and their number.
pub open spec fn kept_infe_from(d: Seq<u8>, offset: int, n: nat, id_size: int, removed: Set<u16>) -> (Seq<u8>, nat)
    decreases n,
{
    if n == 0 || offset + 8 > d.len() {
        (Seq::empty(), 0)
    } else {
        let size = be32(d, offset);
        if size < 8 || offset + size > d.len() {
            (Seq::empty(), 0)
        } else {
            let rest = kept_infe_from(d, offset + size, (n - 1) as nat, id_size, removed);
            let entry = d.subrange(offset, offset + size);
            if infe_removed(entry, removed, id_size) {
                rest
            } else {
                (entry + rest.0, rest.1 + 1)
            }
        }
    }
}

/// The content of an `iinf` box with the entries of the removed items left out:
/// the version and flags, the number of kept entries, the kept entries. A
/// content too short for its entry count is refused.
#[verifier::opaque]
pub open spec fn rebuild_iinf_spec(d: Seq<u8>, removed: Set<u16>) -> Outcome<Seq<u8>> {
    if d.len() < 6 || (d[0] != 0 && d.len() < 8) {
        Outcome::Fails
    } else {
        let v0 = d[0] == 0;
        let count = if v0 { be16(d, 4) } else { be32(d, 4) };
        let kept = kept_infe_from(d, if v0 { 6 } else { 8 }, count as nat, if v0 { 2 } else { 4 }, removed);
        let count_bytes = if v0 { be16_bytes(kept.1 as u16) } else { be32_bytes(kept.1 as u32) };
        Outcome::Done(d.subrange(0, 4) + count_bytes + kept.0)
    }
}

/// Rebuild iinf box content (after the box header), excluding removed items.
/// The content starts with version(1) + flags(3) + entry_count.
pub fn rebuild_iinf(iinf_data: &[u8], removed_ids: &HashSet<u16>) -> (r: Result<Vec<u8>, Error>)
    requires
        within_limit(iinf_data@.len() as int),
    ensures
        r matches Err(e) ==> e.kind() == ErrorKind::InvalidData,
        match rebuild_iinf_spec(iinf_data@, removed_ids@) {
            Outcome::Done(v) => r matches Ok(out) && out@ == v,
            _ => r is Err,
        },
{
    reveal(rebuild_iinf_spec);
    if iinf_data.len() < 6 {
        return Err(Error::InvalidData("HEIC: iinf box too short".to_string()));
    }
    let ghost d = iinf_data@;
    let version = iinf_data[0];
    if version != 0 && iinf_data.len() < 8 {
        return Err(Error::InvalidData("HEIC: iinf box too short".to_string()));
    }
    let item_id_size: usize = if version == 0 { 2 } else { 4 };
    let mut result: Vec<u8> = Vec::new();
    push_range(&mut result, iinf_data, 0, 4);
    let mut kept_count: u32 = 0;
    let mut offset: usize = if version == 0 { 6 } else { 8 };
    let mut kept_entries: Vec<u8> = Vec::new();
    let entry_count: usize = if version == 0 {
        read_be16(iinf_data, 4) as usize
    } else {
        read_be32(iinf_data, 4) as usize
    };
    let ghost total = kept_infe_from(d, offset as int, entry_count as nat, item_id_size as int, removed_ids@);
    let mut i: usize = 0;
    while i < entry_count
        invariant
            d == iinf_data@,
            within_limit(d.len() as int),
            i <= entry_count <= u32::MAX,
            kept_count <= i,
            offset <= d.len(),
            item_id_size == 2 || item_id_size == 4,
            ({
                let rest = kept_infe_from(d, offset as int, (entry_count - i) as nat, item_id_size as int, removed_ids@);
                kept_entries@ + rest.0 == total.0 && kept_count + rest.1 == total.1
            }),
        ensures
            kept_entries@ =~= total.0,
            kept_count == total.1,
        decreases entry_count - i,
    {
        if offset + 8 > iinf_data.len() {
            break;
        }
        let infe_size = read_be32(iinf_data, offset) as usize;
        if infe_size < 8 || infe_size > iinf_data.len() - offset {
            break;
        }
        let infe_data = vstd::slice::slice_subrange(iinf_data, offset, offset + infe_size);
        if !is_infe_removed(infe_data, removed_ids, item_id_size) {
            let ghost before = kept_entries@;
            push_range(&mut kept_entries, iinf_data, offset, offset + infe_size);
            kept_count += 1;
            proof {
                let rest = kept_infe_from(d, (offset + infe_size) as int, (entry_count - i - 1) as nat, item_id_size as int, removed_ids@);
                assert(kept_entries@ + rest.0 =~= before + (d.subrange(offset as int, offset + infe_size) + rest.0));
            }
        }
        offset += infe_size;
        i += 1;
    }
    proof {
        assert(d.subrange(0, 4) == result@);
    }
    if version == 0 {
        push_be16(&mut result, kept_count as u16);
    } else {
        push_be32(&mut result, kept_count);
    }
    push_range(&mut result, &kept_entries, 0, kept_entries.len());
    proof {
        assert(kept_entries@.subrange(0, kept_entries@.len() as int) =~= kept_entries@);
    }
    Ok(result)
}

/// The kept reference entries of an `iref` box from `offset`, and whether any was kept.
pub open spec fn iref_entries_from(d: Seq<u8>, offset: int, id_size: nat, removed: Set<u16>) -> (Seq<u8>, bool)
    decreases d.len() - offset,
{
    if offset + 8 > d.len() {
        (Seq::empty(), false)
    } else {
        let size = be32(d, offset);
        if size < 8 + id_size + 2 || offset + size > d.len() {
            (Seq::empty(), false)
        } else {
            let rest = iref_entries_from(d, offset + size, id_size, removed);
            if removed.contains(item_id_at(d, offset + 8, id_size as int)) {
                rest
            } else {
                (d.subrange(offset, offset + size) + rest.0, true)
            }
        }
    }
}

/// The content of an `iref` box without the references from removed items;
/// empty when no reference is left; `None` when the content is too short.
#[verifier::opaque]
pub open spec fn rebuild_iref_spec(d: Seq<u8>, removed: Set<u16>) -> Option<Seq<u8>> {
    if d.len() < 4 {
        None
    } else {
        let kept = iref_entries_from(d, 4, if d[0] == 0 { 2 } else { 4 }, removed);
        if kept.1 {
            Some(d.subrange(0, 4) + kept.0)
        } else {
            Some(Seq::empty())
        }
    }
}

/// Rebuild iref box content (after the box header), removing entries whose
/// from_item_id is in removed_ids. The content is a fullbox: version(1) + flags(3),
/// then a sequence of reference entries, each being a box with:
///   size(4) + reference_type(4) + from_item_id(2 for v0, 4 for v1+) +
///   reference_count(2) + to_item_ids(2 or 4 each).
/// Returns empty Vec if all references are removed (caller should omit the box).
pub fn rebuild_iref(iref_data: &[u8], removed_ids: &HashSet<u16>) -> (r: Result<Vec<u8>, Error>)
    requires
        within_limit(iref_data@.len() as int),
    ensures
        r matches Err(e) ==> e.kind() == ErrorKind::InvalidData,
        match rebuild_iref_spec(iref_data@, removed_ids@) {
            Some(v) => r matches Ok(out) && out@ == v,
            None => r is Err,
        },
{
    reveal(rebuild_iref_spec);
    if iref_data.len() < 4 {
        return Err(Error::InvalidData("HEIC: iref box too short".to_string()));
    }
    let ghost d = iref_data@;
    let version = iref_data[0];
    let from_id_size: usize = if version == 0 { 2 } else { 4 };
    let mut result: Vec<u8> = Vec::new();
    push_range(&mut result, iref_data, 0, 4);
    let mut offset: usize = 4;
    let mut any_kept = false;
    let ghost total = iref_entries_from(d, 4, from_id_size as nat, removed_ids@);
    while offset + 8 <= iref_data.len()
        invariant
            d == iref_data@,
            within_limit(d.len() as int),
            4 <= offset <= d.len(),
            4 <= result@.len(),
            from_id_size == 2 || from_id_size == 4,
            ({
                let rest = iref_entries_from(d, offset as int, from_id_size as nat, removed_ids@);
                &&& result@.subrange(0, 4) == d.subrange(0, 4)
                &&& result@.subrange(4, result@.len() as int) + rest.0 == total.0
                &&& (any_kept || rest.1) == total.1
            }),
        ensures
            result@.subrange(0, 4) == d.subrange(0, 4),
            result@.subrange(4, result@.len() as int) =~= total.0,
            any_kept == total.1,
        decreases d.len() - offset,
    {
        let entry_size = read_be32(iref_data, offset) as usize;
        if entry_size < 8 + from_id_size + 2 || entry_size > iref_data.len() - offset {
            break;
        }
        let from_id = read_item_id(iref_data, offset + 8, from_id_size);
        if removed_ids.contains(&from_id) {
            offset += entry_size;
            continue;
        }
        let ghost before = result@;
        push_range(&mut result, iref_data, offset, offset + entry_size);
        proof {
            let rest = iref_entries_from(d, (offset + entry_size) as int, from_id_size as nat, removed_ids@);
            assert(result@.subrange(0, 4) =~= before.subrange(0, 4));
            assert(result@.subrange(4, result@.len() as int) + rest.0 =~= before.subrange(4, before.len() as int)
                + (d.subrange(offset as int, offset + entry_size) + rest.0));
        }
        any_kept = true;
        offset += entry_size;
    }
    if any_kept {
        proof {
            assert(result@ =~= result@.subrange(0, 4) + result@.subrange(4, result@.len() as int));
        }
        Ok(result)
    } else {
        Ok(Vec::new())
    }
}

/// The kept item entries of an `iloc` box among at most `n` entries from
/// `offset`, and their number. An entry is the item id, the construction
/// method (version 1), the data reference index, the base offset, the extent
/// count and the extents; `ols` is the width of an extent's offset and length
/// together. A kept entry that runs past the data cannot be copied.
pub open spec fn iloc_items_from(
    d: Seq<u8>,
    offset: int,
    n: nat,
    version: u8,
    base_offset_size: int,
    index_size: int,
    ols: int,
    removed: Set<u16>,
) -> Outcome<(Seq<u8>, nat)>
    decreases n,
{
    if n == 0 || offset + 2 > d.len() {
        Outcome::Done((Seq::empty(), 0))
    } else {
        let o1 = offset + 2 + (if version == 1 { 2int } else { 0 });
        if o1 + 2 > d.len() {
            Outcome::Done((Seq::empty(), 0))
        } else {
            let o2 = o1 + 2 + base_offset_size;
            if o2 + 2 > d.len() {
                Outcome::Done((Seq::empty(), 0))
            } else {
                let extent_count = be16(d, o2);
                let o3 = o2 + 2 + (if version == 1 && index_size > 0 { index_size * extent_count } else { 0 })
                    + ols * extent_count;
                let rest = iloc_items_from(d, o3, (n - 1) as nat, version, base_offset_size, index_size, ols, removed);
                if removed.contains(be16(d, offset) as u16) {
                    rest
                } else if o3 > d.len() {
                    Outcome::Traps
                } else {
                    match rest {
                        Outcome::Done((b, c)) => Outcome::Done((d.subrange(offset, o3) + b, c + 1)),
                        Outcome::Fails => Outcome::Fails,
                        Outcome::Traps => Outcome::Traps,
                    }
                }
            }
        }
    }
}

/// Copying `iloc` entries reports no error: it completes or cannot be computed.
pub proof fn lemma_iloc_items_never_fail(
    d: Seq<u8>,
    offset: int,
    n: nat,
    version: u8,
    base_offset_size: int,
    index_size: int,
    ols: int,
    removed: Set<u16>,
)
    ensures
        !(iloc_items_from(d, offset, n, version, base_offset_size, index_size, ols, removed) is Fails),
    decreases n,
{
    if n > 0 && offset + 2 <= d.len() {
        let o1 = offset + 2 + (if version == 1 { 2int } else { 0 });
        let o2 = o1 + 2 + base_offset_size;
        if o1 + 2 <= d.len() && o2 + 2 <= d.len() {
            let extent_count = be16(d, o2);
            let o3 = o2 + 2 + (if version == 1 && index_size > 0 { index_size * extent_count } else { 0 })
                + ols * extent_count;
            lemma_iloc_items_never_fail(d, o3, (n - 1) as nat, version, base_offset_size, index_size, ols, removed);
        }
    }
}

/// The content of an `iloc` box (versions 0 and 1) with the entries of the
/// removed items left out: version, flags and field sizes as they were, the
/// number of kept entries, the kept entries.
#[verifier::opaque]
pub open spec fn rebuild_iloc_spec(d: Seq<u8>, removed: Set<u16>) -> Outcome<Seq<u8>> {
    if d.len() < 8 || d[0] > 1 {
        Outcome::Fails
    } else {
        let version = d[0];
        let ols = (d[4] / 16) as int + (d[4] % 16) as int;
        let index_size = if version == 1 { (d[5] % 16) as int } else { 0 };
        match iloc_items_from(d, 8, be16(d, 6) as nat, version, (d[5] / 16) as int, index_size, ols, removed) {
            Outcome::Done((entries, kept)) => Outcome::Done(d.subrange(0, 6) + be16_bytes(kept as u16) + entries),
            Outcome::Fails => Outcome::Fails,
            Outcome::Traps => Outcome::Traps,
        }
    }
}

/// Rebuild iloc box content (after the box header), excluding removed items.
/// The content starts with version(1) + flags(3) + size fields + item_count.
/// After rebuilding, `adjust_iloc_offsets` must be called to shift construction_method=0
/// extent offsets by the meta box shrinkage delta.
pub fn rebuild_iloc(iloc_data: &[u8], removed_ids: &HashSet<u16>) -> (r: Result<Vec<u8>, Error>)
    requires
        within_limit(iloc_data@.len() as int),
        !(rebuild_iloc_spec(iloc_data@, removed_ids@) is Traps),
    ensures
        r matches Err(e) ==> e.kind() == ErrorKind::InvalidData,
        match rebuild_iloc_spec(iloc_data@, removed_ids@) {
            Outcome::Done(v) => r matches Ok(out) && out@ == v && out@.len() <= iloc_data@.len(),
            _ => r is Err,
        },
{
    reveal(rebuild_iloc_spec);
    if iloc_data.len() < 8 {
        return Err(Error::InvalidData("HEIC: iloc box too short".to_string()));
    }
    let version = iloc_data[0];
    if version > 1 {
        return Err(Error::InvalidData("HEIC: iloc version > 1 not supported".to_string()));
    }
    let ghost d = iloc_data@;
    let offset_size = (iloc_data[4] / 16) as usize;
    let length_size = (iloc_data[4] % 16) as usize;
    let base_offset_size = (iloc_data[5] / 16) as usize;
    let index_size: usize = if version == 1 { (iloc_data[5] % 16) as usize } else { 0 };
    let item_count = read_be16(iloc_data, 6) as usize;
    let mut entries: Vec<u8> = Vec::new();
    let mut offset: usize = 8;
    let mut kept_count: u32 = 0;
    let ghost ols = offset_size + length_size;
    let ghost total = iloc_items_from(d, 8, item_count as nat, version, base_offset_size as int, index_size as int, ols, removed_ids@);
    proof {
        lemma_iloc_items_never_fail(d, 8, item_count as nat, version, base_offset_size as int, index_size as int, ols, removed_ids@);
    }
    let mut i: usize = 0;
    while i < item_count
        invariant
            d == iloc_data@,
            within_limit(d.len() as int),
            i <= item_count <= 0xffff,
            kept_count <= i,
            8 <= offset <= d.len() + 0x30_0000,
            offset_size <= 15,
            length_size <= 15,
            base_offset_size <= 15,
            index_size <= 15,
            ols == offset_size + length_size,
            version <= 1,
            version != 1 ==> index_size == 0,
            entries@.len() + 8 <= offset,
            entries@.len() + 8 <= d.len(),
            total is Done,
            ({
                let rest = iloc_items_from(d, offset as int, (item_count - i) as nat, version,
                    base_offset_size as int, index_size as int, ols, removed_ids@);
                &&& rest is Done
                &&& entries@ + rest->Done_0.0 == total->Done_0.0
                &&& kept_count + rest->Done_0.1 == total->Done_0.1
            }),
        ensures
            entries@ == total->Done_0.0,
            kept_count == total->Done_0.1,
            entries@.len() + 8 <= d.len(),
        decreases item_count - i,
    {
        if offset + 2 > iloc_data.len() {
            break;
        }
        let item_id = read_be16(iloc_data, offset);
        let is_removed = removed_ids.contains(&item_id);
        let entry_start = offset;
        offset += 2;
        if version == 1 {
            offset += 2;
        }
        if offset + 2 > iloc_data.len() {
            break;
        }
        offset += 2;
        offset += base_offset_size;
        if offset + 2 > iloc_data.len() {
            break;
        }
        let extent_count = read_be16(iloc_data, offset) as usize;
        offset += 2;
        if version == 1 && index_size > 0 {
            assert(index_size * extent_count <= 15 * 0xffff) by (nonlinear_arith)
                requires index_size <= 15, extent_count <= 0xffff;
            offset += index_size * extent_count;
        }
        assert((offset_size + length_size) * extent_count <= 30 * 0xffff) by (nonlinear_arith)
            requires offset_size + length_size <= 30, extent_count <= 0xffff;
        offset += (offset_size + length_size) * extent_count;
        let ghost rest = iloc_items_from(d, offset as int, (item_count - i - 1) as nat, version,
            base_offset_size as int, index_size as int, ols, removed_ids@);
        if !is_removed {
            let ghost before = entries@;
            push_range(&mut entries, iloc_data, entry_start, offset);
            kept_count += 1;
            proof {
                assert(entries@ + rest->Done_0.0 =~= before + (d.subrange(entry_start as int, offset as int) + rest->Done_0.0));
            }
        }
        i += 1;
    }
    let mut result: Vec<u8> = Vec::new();
    push_range(&mut result, iloc_data, 0, 6);
    push_be16(&mut result, kept_count as u16);
    push_range(&mut result, &entries, 0, entries.len());
    proof {
        assert(entries@.subrange(0, entries@.len() as int) =~= entries@);
    }
    Ok(result)
}

/// The buffer with the offset field of `size` bytes at `pos` lowered by
/// `delta`, when `adjust` holds and the field is 4 or 8 bytes wide and within
/// the buffer. An adjusted offset below zero is an error; the subtraction
/// itself overflowing `i64` cannot be computed.
#[verifier::opaque]
pub open spec fn adjust_field_spec(b: Seq<u8>, pos: int, size: int, delta: i64, adjust: bool) -> Outcome<Seq<u8>> {
    if !adjust || delta == 0 {
        Outcome::Done(b)
    } else if size == 4 {
        if pos + 4 > b.len() {
            Outcome::Done(b)
        } else {
            let new_val = be32(b, pos) - delta;
            if new_val < i64::MIN || new_val > i64::MAX {
                Outcome::Traps
            } else if new_val < 0 {
                Outcome::Fails
            } else {
                Outcome::Done(b.subrange(0, pos) + be32_bytes(new_val as u32) + b.subrange(pos + 4, b.len() as int))
            }
        }
    } else if size == 8 {
        if pos + 8 > b.len() {
            Outcome::Done(b)
        } else {
            let new_val = (be64(b, pos) as i64) - delta;
            if new_val < i64::MIN || new_val > i64::MAX {
                Outcome::Traps
            } else if new_val < 0 {
                Outcome::Fails
            } else {
                Outcome::Done(b.subrange(0, pos) + be64_bytes(new_val as u64) + b.subrange(pos + 8, b.len() as int))
            }
        }
    } else {
        Outcome::Done(b)
    }
}

pub fn write_be32_at(buf: &mut Vec<u8>, pos: usize, v: u32)
    requires
        pos + 4 <= old(buf)@.len(),
    ensures
        final(buf)@ == old(buf)@.subrange(0, pos as int) + be32_bytes(v) + old(buf)@.subrange(pos + 4, old(buf)@.len() as int),
{
    let _len = buf.len();
    buf.set(pos, (v / 0x100_0000) as u8);
    buf.set(pos + 1, ((v / 0x1_0000) % 0x100) as u8);
    buf.set(pos + 2, ((v / 0x100) % 0x100) as u8);
    buf.set(pos + 3, (v % 0x100) as u8);
    assert(buf@ =~= old(buf)@.subrange(0, pos as int) + be32_bytes(v) + old(buf)@.subrange(pos + 4, old(buf)@.len() as int));
}

pub fn write_be64_at(buf: &mut Vec<u8>, pos: usize, v: u64)
    requires
        pos + 8 <= old(buf)@.len(),
    ensures
        final(buf)@ == old(buf)@.subrange(0, pos as int) + be64_bytes(v) + old(buf)@.subrange(pos + 8, old(buf)@.len() as int),
{
    let _len = buf.len();
    write_be32_at(buf, pos, (v / 0x1_0000_0000) as u32);
    write_be32_at(buf, pos + 4, (v % 0x1_0000_0000) as u32);
    assert(buf@ =~= old(buf)@.subrange(0, pos as int) + be64_bytes(v) + old(buf)@.subrange(pos + 8, old(buf)@.len() as int));
}

/// Adjust a multi-byte offset field in-place. Only applies the adjustment if `should_adjust` is true
/// (i.e., construction_method == 0, meaning the offset is an absolute file position).
pub fn adjust_offset_field(buf: &mut Vec<u8>, pos: usize, field_size: usize, delta: i64, should_adjust: bool) -> (r: Result<(), Error>)
    requires
        pos + 8 <= usize::MAX,
        !(adjust_field_spec(old(buf)@, pos as int, field_size as int, delta, should_adjust) is Traps),
    ensures
        r matches Err(e) ==> e.kind() == ErrorKind::InvalidData,
        match adjust_field_spec(old(buf)@, pos as int, field_size as int, delta, should_adjust) {
            Outcome::Done(b) => r is Ok && final(buf)@ == b,
            _ => r is Err,
        },
        r is Err ==> final(buf)@ == old(buf)@,
{
    reveal(adjust_field_spec);
    if !should_adjust || delta == 0 {
        return Ok(());
    }
    if field_size == 4 {
        if pos + 4 > buf.len() {
            return Ok(());
        }
        let old_val = read_be32(buf.as_slice(), pos) as i64;
        let new_val = old_val - delta;
        if new_val < 0 {
            return Err(Error::InvalidData("HEIC: iloc offset underflow after adjustment".to_string()));
        }
        write_be32_at(buf, pos, new_val as u32);
    } else if field_size == 8 {
        if pos + 8 > buf.len() {
            return Ok(());
        }
        let old_val = read_be64(buf.as_slice(), pos) as i64;
        let new_val = old_val - delta;
        if new_val < 0 {
            return Err(Error::InvalidData("HEIC: iloc offset underflow after adjustment".to_string()));
        }
        write_be64_at(buf, pos, new_val as u64);
    }
    Ok(())
}

/// Field layout of an `iloc` box, read from its header.
pub struct IlocLayout {
    pub version: u8,
    pub offset_size: int,
    pub length_size: int,
    pub base_offset_size: int,
    pub index_size: int,
}

/// Lowers the offsets of `k` extents from `pos`; gives the buffer and the
/// position after them.
pub open spec fn adjust_extents_spec(b: Seq<u8>, pos: int, k: nat, l: IlocLayout, delta: i64, adjust: bool) -> Outcome<
    (Seq<u8>, int),
>
    decreases k,
{
    if k == 0 {
        Outcome::Done((b, pos))
    } else {
        let p = pos + (if l.version >= 1 && l.index_size > 0 { l.index_size } else { 0 });
        if l.offset_size > 0 {
            match adjust_field_spec(b, p, l.offset_size, delta, adjust) {
                Outcome::Done(b2) => adjust_extents_spec(b2, p + l.offset_size + l.length_size, (k - 1) as nat, l, delta, adjust),
                Outcome::Fails => Outcome::Fails,
                Outcome::Traps => Outcome::Traps,
            }
        } else {
            adjust_extents_spec(b, p + l.length_size, (k - 1) as nat, l, delta, adjust)
        }
    }
}

/// Goes on with the remaining `n` items after the extents of an item.
pub open spec fn then_items(x: Outcome<(Seq<u8>, int)>, n: nat, l: IlocLayout, delta: i64) -> Outcome<Seq<u8>>
    decreases n, 2nat,
{
    match x {
        Outcome::Done((b, p)) => adjust_items_spec(b, p, n, l, delta),
        Outcome::Fails => Outcome::Fails,
        Outcome::Traps => Outcome::Traps,
    }
}

/// How much of `delta` an item's base offset field at `pos` takes: the item's
/// file positions are its base offset plus each extent offset, and they move
/// by `delta` once. When the field can be adjusted (the item is to be
/// adjusted, and the field is 4 or 8 bytes wide and within the buffer), a
/// lowering goes to the base offset as far as it reaches and the rest to the
/// extent offsets, and a raising goes to the base offset; otherwise all of
/// `delta` goes to the extent offsets.
pub open spec fn base_share(b: Seq<u8>, pos: int, size: int, delta: i64, adjust: bool) -> i64 {
    if !adjust || !(size == 4 || size == 8) || pos + size > b.len() {
        0
    } else if delta < 0 {
        delta
    } else {
        let v: int = if size == 4 { be32(b, pos) } else { (be64(b, pos) as u64) as i64 as int };
        if 0 <= v < delta {
            v as i64
        } else {
            delta
        }
    }
}

/// Moves by `delta` the file positions (base offset plus extent offset) of
/// at most `n` item entries from `pos` whose construction method is 0
/// (offsets into the file): the base offset takes its `base_share` of
/// `delta`, every extent offset the rest.
pub open spec fn adjust_items_spec(b: Seq<u8>, pos: int, n: nat, l: IlocLayout, delta: i64) -> Outcome<Seq<u8>>
    decreases n, 1nat,
{
    if n == 0 || pos + 2 > b.len() || (l.version >= 1 && pos + 4 > b.len()) {
        Outcome::Done(b)
    } else {
        let cm = if l.version >= 1 { be16(b, pos + 2) % 16 } else { 0 };
        let p = pos + (if l.version >= 1 { 4int } else { 2 });
        if p + 2 > b.len() {
            Outcome::Done(b)
        } else {
            let p = p + 2;
            let share = base_share(b, p, l.base_offset_size, delta, cm == 0);
            let based = if l.base_offset_size > 0 {
                adjust_field_spec(b, p, l.base_offset_size, share, cm == 0)
            } else {
                Outcome::Done(b)
            };
            match based {
                Outcome::Done(b2) => {
                    let p = p + l.base_offset_size;
                    if p + 2 > b2.len() {
                        Outcome::Done(b2)
                    } else {
                        then_items(
                            adjust_extents_spec(b2, p + 2, be16(b2, p) as nat, l, (delta - share) as i64, cm == 0),
                            (n - 1) as nat,
                            l,
                            delta,
                        )
                    }
                },
                Outcome::Fails => Outcome::Fails,
                Outcome::Traps => Outcome::Traps,
            }
        }
    }
}

/// The field layout stated in the header of an `iloc` box (box header included).
pub open spec fn iloc_layout(b: Seq<u8>) -> IlocLayout {
    IlocLayout {
        version: b[8],
        offset_size: (b[12] / 16) as int,
        length_size: (b[12] % 16) as int,
        base_offset_size: (b[13] / 16) as int,
        index_size: if b[8] == 1 { (b[13] % 16) as int } else { 0 },
    }
}

/// An `iloc` box (box header included) whose file positions (base offset plus
/// extent offset, of items with construction method 0) are lowered by `delta`.
/// Boxes of another version, or too short to hold an item count, stay as they are.
pub open spec fn adjust_iloc_spec(b: Seq<u8>, delta: i64) -> Outcome<Seq<u8>> {
    if delta == 0 || b.len() < 16 || b[8] > 1 {
        Outcome::Done(b)
    } else {
        adjust_items_spec(b, 16, be16(b, 14) as nat, iloc_layout(b), delta)
    }
}

/// Adjusting a field keeps the buffer's length.
pub proof fn lemma_adjust_field_len(b: Seq<u8>, pos: int, size: int, delta: i64, adjust: bool)
    requires
        pos >= 0,
    ensures
        adjust_field_spec(b, pos, size, delta, adjust) matches Outcome::Done(b2) ==> b2.len() == b.len(),
{
    reveal(adjust_field_spec);
}

/// The share of `delta` that the base offset field at `pos` takes (see `base_share`).
pub fn base_share_of(buf: &Vec<u8>, pos: usize, size: usize, delta: i64, adjust: bool) -> (r: i64)
    requires
        pos + 8 <= usize::MAX,
    ensures
        r == base_share(buf@, pos as int, size as int, delta, adjust),
{
    if !adjust || !(size == 4 || size == 8) || pos + size > buf.len() {
        return 0;
    }
    if delta < 0 {
        return delta;
    }
    let v: i64 = if size == 4 {
        read_be32(buf.as_slice(), pos) as i64
    } else {
        read_be64(buf.as_slice(), pos) as i64
    };
    if 0 <= v && v < delta {
        v
    } else {
        delta
    }
}

/// Adjust iloc file positions in-place for construction_method=0 items.
/// `iloc_box` is the full iloc box including the box header (size + type).
/// When the meta box shrinks, the mdat box shifts earlier in the file, so all
/// absolute file positions (construction_method=0) become stale and must be
/// shifted by `offset_delta` (positive = positions need to decrease). A
/// position is the base offset plus an extent offset, so `offset_delta` is
/// shared between the two (see `base_share`) and applied once.
pub fn adjust_iloc_offsets(iloc_box: &mut Vec<u8>, offset_delta: i64) -> (r: Result<(), Error>)
    requires
        within_limit(old(iloc_box)@.len() as int),
        !(adjust_iloc_spec(old(iloc_box)@, offset_delta) is Traps),
    ensures
        r matches Err(e) ==> e.kind() == ErrorKind::InvalidData,
        match adjust_iloc_spec(old(iloc_box)@, offset_delta) {
            Outcome::Done(b) => r is Ok && final(iloc_box)@ == b,
            _ => r is Err,
        },
{
    if offset_delta == 0 {
        return Ok(());
    }
    if iloc_box.len() < 14 {
        return Ok(());
    }
    let version = iloc_box[8];
    if version > 1 {
        return Ok(());
    }
    let offset_size = (iloc_box[12] / 16) as usize;
    let length_size = (iloc_box[12] % 16) as usize;
    let base_offset_size = (iloc_box[13] / 16) as usize;
    let index_size: usize = if version == 1 { (iloc_box[13] % 16) as usize } else { 0 };
    let mut pos: usize = 16;
    if pos > iloc_box.len() {
        return Ok(());
    }
    let item_count = read_be16(iloc_box.as_slice(), 14) as usize;
    let ghost l = iloc_layout(old(iloc_box)@);
    let ghost total = adjust_iloc_spec(old(iloc_box)@, offset_delta);
    let ghost len = old(iloc_box)@.len();
    let mut i: usize = 0;
    while i < item_count
        invariant
            iloc_box@.len() == len,
            within_limit(len as int),
            i <= item_count,
            pos <= len + 0x30_0000,
            l.version == version,
            version <= 1,
            l.offset_size == offset_size && offset_size <= 15,
            l.length_size == length_size && length_size <= 15,
            l.base_offset_size == base_offset_size && base_offset_size <= 15,
            l.index_size == index_size && index_size <= 15,
            offset_delta != 0,
            total == adjust_iloc_spec(old(iloc_box)@, offset_delta),
            !(total is Traps),
            adjust_items_spec(iloc_box@, pos as int, (item_count - i) as nat, l, offset_delta) == total,
        ensures
            total == Outcome::Done(iloc_box@),
        decreases item_count - i,
    {
        let ghost b0 = iloc_box@;
        let ghost pos0 = pos;
        if pos + 2 > iloc_box.len() {
            break;
        }
        let construction_method: u16 = if version >= 1 {
            if pos + 4 > iloc_box.len() {
                break;
            }
            let cm = read_be16(iloc_box.as_slice(), pos + 2) % 16;
            pos += 4;
            cm
        } else {
            pos += 2;
            0
        };
        if pos + 2 > iloc_box.len() {
            break;
        }
        pos += 2;
        let share = base_share_of(iloc_box, pos, base_offset_size, offset_delta, construction_method == 0);
        let extent_delta: i64 = offset_delta - share;
        if base_offset_size > 0 {
            proof { lemma_adjust_field_len(iloc_box@, pos as int, base_offset_size as int, share, construction_method == 0); }
            let ghost b1 = iloc_box@;
            assert(adjust_items_spec(b0, pos0 as int, (item_count - i) as nat, l, offset_delta) == total);
            assert(construction_method == (if l.version >= 1 { be16(b0, pos0 + 2) % 16 } else { 0 }));
            match adjust_offset_field(iloc_box, pos, base_offset_size, share, construction_method == 0) {
                Ok(()) => {},
                Err(e) => {
                    assert(adjust_field_spec(b1, pos as int, base_offset_size as int, share, construction_method == 0) is Fails);
                    assert(total is Fails);
                    return Err(e);
                },
            }
            pos += base_offset_size;
        }
        if pos + 2 > iloc_box.len() {
            break;
        }
        let extent_count = read_be16(iloc_box.as_slice(), pos) as usize;
        pos += 2;
        let ghost p0 = pos;
        let mut j: usize = 0;
        while j < extent_count
            invariant
                iloc_box@.len() == len,
                within_limit(len as int),
                j <= extent_count <= 0xffff,
                p0 <= len,
                pos <= p0 + 45 * j,
                i < item_count,
                l.version == version,
                version <= 1,
                l.offset_size == offset_size && offset_size <= 15,
                l.length_size == length_size && length_size <= 15,
                l.base_offset_size == base_offset_size && base_offset_size <= 15,
                l.index_size == index_size && index_size <= 15,
                offset_delta != 0,
                total == adjust_iloc_spec(old(iloc_box)@, offset_delta),
                !(total is Traps),
                then_items(
                    adjust_extents_spec(iloc_box@, pos as int, (extent_count - j) as nat, l, extent_delta,
                        construction_method == 0),
                    (item_count - i - 1) as nat,
                    l,
                    offset_delta,
                ) == total,
            decreases extent_count - j,
        {
            if version >= 1 && index_size > 0 {
                pos += index_size;
            }
            if offset_size > 0 {
                proof { lemma_adjust_field_len(iloc_box@, pos as int, offset_size as int, extent_delta, construction_method == 0); }
                match adjust_offset_field(iloc_box, pos, offset_size, extent_delta, construction_method == 0) {
                    Ok(()) => {},
                    Err(e) => {
                        return Err(e);
                    },
                }
                pos += offset_size;
            }
            pos += length_size;
            j += 1;
        }
        i += 1;
    }
    Ok(())
}

} // verus!
