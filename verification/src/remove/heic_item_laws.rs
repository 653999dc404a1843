use crate::bytes::{be16, be16_bytes, be32, lemma_be16_bytes_of};
use crate::remove::heic_items::{
    adjust_extents_spec, adjust_field_spec, adjust_items_spec, base_share, iloc_items_from, iref_entries_from,
    item_id_at, rebuild_iloc_spec, rebuild_iref_spec, IlocLayout,
};
use crate::remove::heic_laws::lemma_offset_adjusted_by_delta;
use crate::types::Outcome;
use vstd::prelude::*;

verus! {

/// The `n` item entries of an `iloc` box's content from `offset` lie back
/// to back and end where the content ends.
pub open spec fn iloc_entries_tile(
    d: Seq<u8>,
    offset: int,
    n: nat,
    version: u8,
    base_offset_size: int,
    index_size: int,
    ols: int,
) -> bool
    decreases n,
{
    if n == 0 {
        offset == d.len()
    } else {
        let o1 = offset + 2 + (if version == 1 { 2int } else { 0 });
        let o2 = o1 + 2 + base_offset_size;
        if o2 + 2 > d.len() {
            false
        } else {
            let extent_count = be16(d, o2);
            let o3 = o2 + 2 + (if version == 1 && index_size > 0 { index_size * extent_count } else { 0 })
                + ols * extent_count;
            o3 <= d.len() && iloc_entries_tile(d, o3, (n - 1) as nat, version, base_offset_size, index_size, ols)
        }
    }
}

proof fn lemma_iloc_entries_tile(
    d: Seq<u8>,
    offset: int,
    n: nat,
    version: u8,
    base_offset_size: int,
    index_size: int,
    ols: int,
    removed: Set<u16>,
)
    requires
        0 <= offset,
        0 <= base_offset_size,
        0 <= index_size,
        0 <= ols,
        iloc_entries_tile(d, offset, n, version, base_offset_size, index_size, ols),
    ensures
        iloc_items_from(d, offset, n, version, base_offset_size, index_size, ols, removed) is Done,
        removed.is_empty() ==> iloc_items_from(d, offset, n, version, base_offset_size, index_size, ols, removed)
            == Outcome::Done((d.subrange(offset, d.len() as int), n)),
    decreases n,
{
    if n == 0 {
        assert(d.subrange(offset, d.len() as int) =~= Seq::<u8>::empty());
    } else {
        let o1 = offset + 2 + (if version == 1 { 2int } else { 0 });
        let o2 = o1 + 2 + base_offset_size;
        let extent_count = be16(d, o2);
        let ix = if version == 1 && index_size > 0 { index_size * extent_count } else { 0 };
        assert(ix >= 0 && ols * extent_count >= 0) by (nonlinear_arith)
            requires
                index_size >= 0,
                ols >= 0,
                extent_count >= 0,
                ix == (if version == 1 && index_size > 0 { index_size * extent_count } else { 0 }),
        ;
        let o3 = o2 + 2 + ix + ols * extent_count;
        lemma_iloc_entries_tile(d, o3, (n - 1) as nat, version, base_offset_size, index_size, ols, removed);
        if removed.is_empty() {
            assert(!removed.contains(be16(d, offset) as u16));
            assert(d.subrange(offset, o3) + d.subrange(o3, d.len() as int) =~= d.subrange(offset, d.len() as int));
        }
    }
}

/// An `iloc` content of version 0 or 1 whose `item_count` entries lie back
/// to back up to its end is always rebuilt; with no item removed it comes
/// back unchanged: version, flags, field sizes, item count and entries.
pub proof fn lemma_iloc_rebuild_well_formed(d: Seq<u8>, removed: Set<u16>)
    requires
        d.len() >= 8,
        d[0] <= 1,
        iloc_entries_tile(
            d,
            8,
            be16(d, 6) as nat,
            d[0],
            (d[5] / 16) as int,
            if d[0] == 1 { (d[5] % 16) as int } else { 0 },
            (d[4] / 16) as int + (d[4] % 16) as int,
        ),
    ensures
        rebuild_iloc_spec(d, removed) is Done,
        removed.is_empty() ==> rebuild_iloc_spec(d, removed) == Outcome::Done(d),
{
    reveal(rebuild_iloc_spec);
    lemma_iloc_entries_tile(
        d,
        8,
        be16(d, 6) as nat,
        d[0],
        (d[5] / 16) as int,
        if d[0] == 1 { (d[5] % 16) as int } else { 0 },
        (d[4] / 16) as int + (d[4] % 16) as int,
        removed,
    );
    if removed.is_empty() {
        lemma_be16_bytes_of(d, 6);
        assert(d.subrange(0, 6) + d.subrange(6, 8) + d.subrange(8, d.len() as int) =~= d);
    }
}

/// The reference boxes of an `iref` content from `offset` lie back to back
/// up to its end, each long enough for its type, its from-id (`id_size`
/// bytes) and its reference count.
pub open spec fn iref_refs_tile(d: Seq<u8>, offset: int, id_size: nat) -> bool
    decreases d.len() - offset,
{
    if offset == d.len() {
        true
    } else if offset < 0 || offset + 8 > d.len() {
        false
    } else {
        let size = be32(d, offset);
        size >= 8 + id_size + 2 && offset + size <= d.len() && iref_refs_tile(d, offset + size, id_size)
    }
}

proof fn lemma_iref_refs_tile(d: Seq<u8>, offset: int, id_size: nat, removed: Set<u16>)
    requires
        0 <= offset,
        iref_refs_tile(d, offset, id_size),
        removed.is_empty(),
    ensures
        iref_entries_from(d, offset, id_size, removed) == (d.subrange(offset, d.len() as int), offset < d.len()),
    decreases d.len() - offset,
{
    if offset == d.len() {
        assert(d.subrange(offset, d.len() as int) =~= Seq::<u8>::empty());
    } else {
        let size = be32(d, offset);
        lemma_iref_refs_tile(d, offset + size, id_size, removed);
        assert(d.subrange(offset, offset + size) + d.subrange(offset + size, d.len() as int) =~= d.subrange(
            offset,
            d.len() as int,
        ));
    }
}

/// An `iref` content whose reference boxes lie back to back up to its end,
/// with no item removed, comes back unchanged when it holds a reference,
/// and empty (the box is dropped) when it holds none.
pub proof fn lemma_iref_rebuild_unchanged(d: Seq<u8>, removed: Set<u16>)
    requires
        d.len() >= 4,
        iref_refs_tile(d, 4, if d[0] == 0 { 2 } else { 4 }),
        removed.is_empty(),
    ensures
        rebuild_iref_spec(d, removed) == if d.len() > 4 {
            Some(d)
        } else {
            Some(Seq::<u8>::empty())
        },
{
    reveal(rebuild_iref_spec);
    lemma_iref_refs_tile(d, 4, if d[0] == 0 { 2 } else { 4 }, removed);
    assert(d.subrange(0, 4) + d.subrange(4, d.len() as int) =~= d);
}

/// The file position of an extent of an item with construction method 0,
/// its 4-byte base offset plus its 4-byte extent offset, moves back by
/// exactly `delta` when it is at least `delta`: the base offset takes its
/// share of `delta` and the extent offset the rest, and neither goes below
/// zero.
pub proof fn lemma_extent_position_moved(b: Seq<u8>, pb: int, pe: int, delta: i64)
    requires
        0 <= pb,
        pb + 4 <= pe,
        pe + 4 <= b.len(),
        0 < delta,
        be32(b, pb) + be32(b, pe) >= delta,
    ensures
        ({
            let share = base_share(b, pb, 4, delta, true);
            &&& adjust_field_spec(b, pb, 4, share, true) matches Outcome::Done(b1)
            &&& adjust_field_spec(b1, pe, 4, (delta - share) as i64, true) matches Outcome::Done(b2)
            &&& be32(b2, pb) + be32(b2, pe) == be32(b, pb) + be32(b, pe) - delta
        }),
{
    let share = base_share(b, pb, 4, delta, true);
    assert(share == if be32(b, pb) < delta { be32(b, pb) as i64 } else { delta });
    lemma_offset_adjusted_by_delta(b, pb, share, true);
    let b1 = adjust_field_spec(b, pb, 4, share, true)->Done_0;
    assert(be32(b1, pe) == be32(b, pe)) by {
        assert(b1.subrange(pb + 4, b.len() as int)[pe - (pb + 4)] == b.subrange(pb + 4, b.len() as int)[pe - (pb + 4)]);
        assert(b1.subrange(pb + 4, b.len() as int)[pe + 1 - (pb + 4)] == b.subrange(pb + 4, b.len() as int)[pe + 1 - (pb + 4)]);
        assert(b1.subrange(pb + 4, b.len() as int)[pe + 2 - (pb + 4)] == b.subrange(pb + 4, b.len() as int)[pe + 2 - (pb + 4)]);
        assert(b1.subrange(pb + 4, b.len() as int)[pe + 3 - (pb + 4)] == b.subrange(pb + 4, b.len() as int)[pe + 3 - (pb + 4)]);
    }
    lemma_offset_adjusted_by_delta(b1, pe, (delta - share) as i64, true);
    let b2 = adjust_field_spec(b1, pe, 4, (delta - share) as i64, true)->Done_0;
    assert(be32(b2, pb) == be32(b1, pb)) by {
        assert(b2.subrange(0, pe)[pb] == b1.subrange(0, pe)[pb]);
        assert(b2.subrange(0, pe)[pb + 1] == b1.subrange(0, pe)[pb + 1]);
        assert(b2.subrange(0, pe)[pb + 2] == b1.subrange(0, pe)[pb + 2]);
        assert(b2.subrange(0, pe)[pb + 3] == b1.subrange(0, pe)[pb + 3]);
    }
}

/// The reference boxes of an `iref` content from `offset`, in order, as far
/// as `iref_refs_tile` finds them.
pub open spec fn iref_refs(d: Seq<u8>, offset: int, id_size: nat) -> Seq<Seq<u8>>
    decreases d.len() - offset,
{
    if offset < 0 || offset + 8 > d.len() {
        Seq::empty()
    } else {
        let size = be32(d, offset);
        if size < 8 + id_size + 2 || offset + size > d.len() {
            Seq::empty()
        } else {
            seq![d.subrange(offset, offset + size)] + iref_refs(d, offset + size, id_size)
        }
    }
}

/// A reference box is kept when the item it refers from is not removed.
pub open spec fn ref_kept(r: Seq<u8>, removed: Set<u16>, id_size: nat) -> bool {
    !removed.contains(item_id_at(r, 8, id_size as int))
}

/// The kept reference boxes of `refs`, in order, one after another.
pub open spec fn concat_kept_refs(refs: Seq<Seq<u8>>, removed: Set<u16>, id_size: nat) -> Seq<u8>
    decreases refs.len(),
{
    if refs.len() == 0 {
        Seq::empty()
    } else {
        (if ref_kept(refs[0], removed, id_size) { refs[0] } else { Seq::empty() }) + concat_kept_refs(
            refs.drop_first(),
            removed,
            id_size,
        )
    }
}

proof fn lemma_iref_refs_kept(d: Seq<u8>, offset: int, id_size: nat, removed: Set<u16>)
    requires
        0 <= offset,
        id_size == 2 || id_size == 4,
    ensures
        iref_entries_from(d, offset, id_size, removed) == (
            concat_kept_refs(iref_refs(d, offset, id_size), removed, id_size),
            exists|i: int|
                0 <= i < iref_refs(d, offset, id_size).len() && #[trigger] ref_kept(
                    iref_refs(d, offset, id_size)[i],
                    removed,
                    id_size,
                ),
        ),
    decreases d.len() - offset,
{
    if offset + 8 <= d.len() && be32(d, offset) >= 8 + id_size + 2 && offset + be32(d, offset) <= d.len() {
        let size = be32(d, offset);
        let r = d.subrange(offset, offset + size);
        let rest = iref_refs(d, offset + size, id_size);
        let refs = seq![r] + rest;
        assert(iref_refs(d, offset, id_size) == refs);
        lemma_iref_refs_kept(d, offset + size, id_size, removed);
        assert(refs[0] == r);
        assert(refs.drop_first() =~= rest);
        assert(item_id_at(r, 8, id_size as int) == item_id_at(d, offset + 8, id_size as int)) by {
            assert(r[8] == d[offset + 8]);
            assert(r[9] == d[offset + 9]);
            if id_size == 4 {
                assert(r[10] == d[offset + 10]);
                assert(r[11] == d[offset + 11]);
            }
        }
        let any_rest = exists|i: int| 0 <= i < rest.len() && #[trigger] ref_kept(rest[i], removed, id_size);
        let any_all = exists|i: int| 0 <= i < refs.len() && #[trigger] ref_kept(refs[i], removed, id_size);
        assert(any_all == (ref_kept(r, removed, id_size) || any_rest)) by {
            if any_rest {
                let i = choose|i: int| 0 <= i < rest.len() && #[trigger] ref_kept(rest[i], removed, id_size);
                assert(refs[i + 1] == rest[i]);
            }
            if any_all {
                let i = choose|i: int| 0 <= i < refs.len() && #[trigger] ref_kept(refs[i], removed, id_size);
                if i > 0 {
                    assert(refs[i] == rest[i - 1]);
                }
            }
        }
        if !ref_kept(r, removed, id_size) {
            assert(Seq::<u8>::empty() + concat_kept_refs(rest, removed, id_size) =~= concat_kept_refs(
                rest,
                removed,
                id_size,
            ));
        }
    } else {
        assert(iref_refs(d, offset, id_size) == Seq::<Seq<u8>>::empty());
    }
}

/// The width of the from-item ids of an `iref` content: 2 bytes for
/// version 0, 4 otherwise.
pub open spec fn iref_id_size(d: Seq<u8>) -> nat {
    if d[0] == 0 {
        2
    } else {
        4
    }
}

/// The rebuilt `iref` content keeps, in order, the reference boxes whose
/// from-item is not removed, after the version and flags; it is empty (the
/// box is dropped) when none is kept. The reference boxes are read as far as
/// they lie back to back, each long enough for its from-id and count.
pub proof fn lemma_iref_rebuild_keeps(d: Seq<u8>, removed: Set<u16>)
    requires
        d.len() >= 4,
    ensures
        rebuild_iref_spec(d, removed) == if exists|i: int|
            0 <= i < iref_refs(d, 4, iref_id_size(d)).len() && #[trigger] ref_kept(
                iref_refs(d, 4, iref_id_size(d))[i],
                removed,
                iref_id_size(d),
            ) {
            Some(d.subrange(0, 4) + concat_kept_refs(iref_refs(d, 4, iref_id_size(d)), removed, iref_id_size(d)))
        } else {
            Some(Seq::<u8>::empty())
        },
{
    reveal(rebuild_iref_spec);
    lemma_iref_refs_kept(d, 4, iref_id_size(d), removed);
}

/// The end of the `iloc` item entry at `offset`.
pub open spec fn iloc_entry_end(d: Seq<u8>, offset: int, version: u8, base_offset_size: int, index_size: int, ols: int) -> int {
    let o2 = offset + 2 + (if version == 1 { 2int } else { 0 }) + 2 + base_offset_size;
    let extent_count = be16(d, o2);
    o2 + 2 + (if version == 1 && index_size > 0 { index_size * extent_count } else { 0 }) + ols * extent_count
}

/// The `n` item entries of an `iloc` content from `offset`, in order.
pub open spec fn iloc_entries(
    d: Seq<u8>,
    offset: int,
    n: nat,
    version: u8,
    base_offset_size: int,
    index_size: int,
    ols: int,
) -> Seq<Seq<u8>>
    decreases n,
{
    if n == 0 {
        Seq::empty()
    } else {
        let e = iloc_entry_end(d, offset, version, base_offset_size, index_size, ols);
        seq![d.subrange(offset, e)] + iloc_entries(d, e, (n - 1) as nat, version, base_offset_size, index_size, ols)
    }
}

/// An item entry is kept when its item is not removed.
pub open spec fn entry_kept(e: Seq<u8>, removed: Set<u16>) -> bool {
    !removed.contains(be16(e, 0) as u16)
}

/// The kept entries of `es`, in order, one after another.
pub open spec fn concat_kept_entries(es: Seq<Seq<u8>>, removed: Set<u16>) -> Seq<u8>
    decreases es.len(),
{
    if es.len() == 0 {
        Seq::empty()
    } else {
        (if entry_kept(es[0], removed) { es[0] } else { Seq::empty() }) + concat_kept_entries(es.drop_first(), removed)
    }
}

/// How many entries of `es` are kept.
pub open spec fn count_kept_entries(es: Seq<Seq<u8>>, removed: Set<u16>) -> nat
    decreases es.len(),
{
    if es.len() == 0 {
        0
    } else {
        (if entry_kept(es[0], removed) { 1nat } else { 0 }) + count_kept_entries(es.drop_first(), removed)
    }
}

proof fn lemma_iloc_entries_kept(
    d: Seq<u8>,
    offset: int,
    n: nat,
    version: u8,
    base_offset_size: int,
    index_size: int,
    ols: int,
    removed: Set<u16>,
)
    requires
        0 <= offset,
        0 <= base_offset_size,
        0 <= index_size,
        0 <= ols,
        iloc_entries_tile(d, offset, n, version, base_offset_size, index_size, ols),
    ensures
        ({
            let es = iloc_entries(d, offset, n, version, base_offset_size, index_size, ols);
            iloc_items_from(d, offset, n, version, base_offset_size, index_size, ols, removed) == Outcome::Done(
                (concat_kept_entries(es, removed), count_kept_entries(es, removed)),
            )
        }),
    decreases n,
{
    if n > 0 {
        let o2 = offset + 2 + (if version == 1 { 2int } else { 0 }) + 2 + base_offset_size;
        let extent_count = be16(d, o2);
        let ix = if version == 1 && index_size > 0 { index_size * extent_count } else { 0 };
        assert(ix >= 0 && ols * extent_count >= 0) by (nonlinear_arith)
            requires
                index_size >= 0,
                ols >= 0,
                extent_count >= 0,
                ix == (if version == 1 && index_size > 0 { index_size * extent_count } else { 0 }),
        ;
        let e = iloc_entry_end(d, offset, version, base_offset_size, index_size, ols);
        let rest = iloc_entries(d, e, (n - 1) as nat, version, base_offset_size, index_size, ols);
        let es = seq![d.subrange(offset, e)] + rest;
        lemma_iloc_entries_kept(d, e, (n - 1) as nat, version, base_offset_size, index_size, ols, removed);
        assert(es[0] == d.subrange(offset, e));
        assert(es.drop_first() =~= rest);
        assert(be16(es[0], 0) == be16(d, offset)) by {
            assert(es[0][0] == d[offset]);
            assert(es[0][1] == d[offset + 1]);
        }
        if !entry_kept(es[0], removed) {
            assert(Seq::<u8>::empty() + concat_kept_entries(rest, removed) =~= concat_kept_entries(rest, removed));
        }
    }
}

/// The rebuilt `iloc` content of a version 0 or 1 content whose
/// `item_count` entries lie back to back up to its end: the version, flags
/// and field sizes as they were, the number of kept entries, and the
/// entries of the items not removed, in order.
pub proof fn lemma_iloc_rebuild_keeps(d: Seq<u8>, removed: Set<u16>)
    requires
        d.len() >= 8,
        d[0] <= 1,
        iloc_entries_tile(
            d,
            8,
            be16(d, 6) as nat,
            d[0],
            (d[5] / 16) as int,
            if d[0] == 1 { (d[5] % 16) as int } else { 0 },
            (d[4] / 16) as int + (d[4] % 16) as int,
        ),
    ensures
        ({
            let es = iloc_entries(
                d,
                8,
                be16(d, 6) as nat,
                d[0],
                (d[5] / 16) as int,
                if d[0] == 1 { (d[5] % 16) as int } else { 0 },
                (d[4] / 16) as int + (d[4] % 16) as int,
            );
            rebuild_iloc_spec(d, removed) == Outcome::Done(
                d.subrange(0, 6) + be16_bytes(count_kept_entries(es, removed) as u16) + concat_kept_entries(es, removed),
            )
        }),
{
    reveal(rebuild_iloc_spec);
    lemma_iloc_entries_kept(
        d,
        8,
        be16(d, 6) as nat,
        d[0],
        (d[5] / 16) as int,
        if d[0] == 1 { (d[5] % 16) as int } else { 0 },
        (d[4] / 16) as int + (d[4] % 16) as int,
        removed,
    );
}

/// The bytes before an extent's offset field: its index, when the layout
/// has one.
pub open spec fn index_part(l: IlocLayout) -> int {
    if l.version >= 1 && l.index_size > 0 {
        l.index_size
    } else {
        0
    }
}

/// The length of one extent.
pub open spec fn extent_stride(l: IlocLayout) -> int {
    index_part(l) + l.offset_size + l.length_size
}

/// Where the offset field of extent `j` of the extents from `p` stands.
pub open spec fn extent_field(p: int, j: int, l: IlocLayout) -> int {
    p + j * extent_stride(l) + index_part(l)
}

/// Two sequences that agree on `[a, c)` read the same 32-bit value there.
pub(crate) proof fn lemma_be32_same(s1: Seq<u8>, s2: Seq<u8>, a: int, c: int, i: int)
    requires
        0 <= a <= i,
        i + 4 <= c <= s1.len(),
        c <= s2.len(),
        s1.subrange(a, c) == s2.subrange(a, c),
    ensures
        be32(s1, i) == be32(s2, i),
{
    assert(s1.subrange(a, c)[i - a] == s2.subrange(a, c)[i - a]);
    assert(s1.subrange(a, c)[i + 1 - a] == s2.subrange(a, c)[i + 1 - a]);
    assert(s1.subrange(a, c)[i + 2 - a] == s2.subrange(a, c)[i + 2 - a]);
    assert(s1.subrange(a, c)[i + 3 - a] == s2.subrange(a, c)[i + 3 - a]);
    assert(s1[i] == s1.subrange(a, c)[i - a]);
    assert(s2[i] == s2.subrange(a, c)[i - a]);
    assert(s1[i + 1] == s1.subrange(a, c)[i + 1 - a]);
    assert(s2[i + 1] == s2.subrange(a, c)[i + 1 - a]);
    assert(s1[i + 2] == s1.subrange(a, c)[i + 2 - a]);
    assert(s2[i + 2] == s2.subrange(a, c)[i + 2 - a]);
    assert(s1[i + 3] == s1.subrange(a, c)[i + 3 - a]);
    assert(s2[i + 3] == s2.subrange(a, c)[i + 3 - a]);
}

/// Lowering `k` extents with 4-byte offsets by `r` lowers each offset by
/// exactly `r`, when each is at least `r`, and leaves what comes before
/// them as it was.
pub(crate) proof fn lemma_extents_lowered(b: Seq<u8>, p: int, k: nat, l: IlocLayout, r: i64)
    requires
        0 <= p,
        l.offset_size == 4,
        0 <= l.length_size,
        0 <= l.index_size,
        0 <= r,
        p + k * extent_stride(l) <= b.len(),
        forall|j: int| 0 <= j < k ==> be32(b, #[trigger] extent_field(p, j, l)) >= r,
    ensures
        adjust_extents_spec(b, p, k, l, r, true) matches Outcome::Done((b2, p2)) && p2 == p + k * extent_stride(l)
            && b2.len() == b.len() && b2.subrange(0, p) == b.subrange(0, p) && forall|j: int|
            0 <= j < k ==> be32(b2, #[trigger] extent_field(p, j, l)) == be32(b, extent_field(p, j, l)) - r,
    decreases k,
{
    let st = extent_stride(l);
    let ip = index_part(l);
    if k == 0 {
        assert(k * st == 0) by (nonlinear_arith)
            requires
                k == 0,
        ;
    } else {
        assert(k * st == (k - 1) * st + st) by (nonlinear_arith);
        assert((k - 1) * st >= 0) by (nonlinear_arith)
            requires
                k >= 1,
                st >= 0,
        ;
        let f = p + ip;
        assert(extent_field(p, 0, l) == f);
        lemma_offset_adjusted_by_delta(b, f, r, true);
        let b1 = adjust_field_spec(b, f, 4, r, true)->Done_0;
        assert forall|j: int| 0 <= j < k - 1 implies be32(b1, #[trigger] extent_field(p + st, j, l)) >= r by {
            assert(extent_field(p + st, j, l) == extent_field(p, j + 1, l)) by {
                assert((j + 1) * st == j * st + st) by (nonlinear_arith);
            }
            assert(j * st >= 0) by (nonlinear_arith)
                requires
                    j >= 0,
                    st >= 0,
            ;
            assert(extent_field(p + st, j, l) + 4 <= p + k * st) by {
                assert((j + 1) * st <= (k - 1) * st) by (nonlinear_arith)
                    requires
                        j + 1 <= k - 1,
                        st >= 0,
                ;
                assert((j + 1) * st == j * st + st) by (nonlinear_arith);
            }
            lemma_be32_same(b1, b, f + 4, b.len() as int, extent_field(p + st, j, l));
        }
        lemma_extents_lowered(b1, p + st, (k - 1) as nat, l, r);
        let b2 = adjust_extents_spec(b1, p + st, (k - 1) as nat, l, r, true)->Done_0.0;
        assert(b2.subrange(0, p) =~= b.subrange(0, p)) by {
            assert forall|i: int| 0 <= i < p implies b2.subrange(0, p)[i] == b.subrange(0, p)[i] by {
                assert(b2.subrange(0, p + st)[i] == b1.subrange(0, p + st)[i]);
                assert(b1.subrange(0, f)[i] == b.subrange(0, f)[i]);
            }
        }
        assert forall|j: int| 0 <= j < k implies be32(b2, #[trigger] extent_field(p, j, l)) == be32(
            b,
            extent_field(p, j, l),
        ) - r by {
            if j == 0 {
                lemma_be32_same(b2, b1, 0, p + st, f);
            } else {
                assert(extent_field(p, j, l) == extent_field(p + st, j - 1, l)) by {
                    assert(j * st == (j - 1) * st + st) by (nonlinear_arith);
                }
                assert((j - 1) * st >= 0) by (nonlinear_arith)
                    requires
                        j >= 1,
                        st >= 0,
                ;
                assert(extent_field(p + st, j - 1, l) + 4 <= p + k * st) by {
                    assert(j * st <= (k - 1) * st) by (nonlinear_arith)
                        requires
                            j <= k - 1,
                            st >= 0,
                    ;
                    assert(j * st == (j - 1) * st + st) by (nonlinear_arith);
                }
                lemma_be32_same(b1, b, f + 4, b.len() as int, extent_field(p + st, j - 1, l));
            }
        }
    }
}

/// Where the base offset of the item entry at `pos` stands.
pub open spec fn item_base_field(pos: int, l: IlocLayout) -> int {
    pos + (if l.version >= 1 { 4int } else { 2 }) + 2
}

/// Where the extents of the item entry at `pos` start (after its 4-byte base
/// offset and its extent count).
pub open spec fn item_extents_start(pos: int, l: IlocLayout) -> int {
    item_base_field(pos, l) + 6
}

/// Adjusting the file positions of an `iloc` box by `delta > 0` moves every
/// position of its item entry at `pos` (a construction-method-0 entry with a
/// 4-byte base offset and 4-byte extent offsets) back by exactly `delta`,
/// each one being its base offset plus an extent offset, when each is at
/// least `delta`; then it goes on with the remaining `n - 1` entries after
/// the extents.
pub proof fn lemma_item_positions_moved(b: Seq<u8>, pos: int, n: nat, l: IlocLayout, delta: i64)
    requires
        0 <= pos,
        n >= 1,
        l.version <= 1,
        l.version >= 1 ==> pos + 4 <= b.len() && be16(b, pos + 2) % 16 == 0,
        l.base_offset_size == 4,
        l.offset_size == 4,
        0 <= l.length_size,
        0 <= l.index_size,
        0 < delta,
        item_extents_start(pos, l) + be16(b, item_base_field(pos, l) + 4) * extent_stride(l) <= b.len(),
        forall|j: int|
            0 <= j < be16(b, item_base_field(pos, l) + 4) ==> be32(b, item_base_field(pos, l)) + be32(
                b,
                #[trigger] extent_field(item_extents_start(pos, l), j, l),
            ) >= delta,
    ensures
        exists|b2: Seq<u8>|
            {
                &&& b2.len() == b.len()
                &&& #[trigger] adjust_items_spec(b, pos, n, l, delta) == adjust_items_spec(
                    b2,
                    item_extents_start(pos, l) + be16(b, item_base_field(pos, l) + 4) * extent_stride(l),
                    (n - 1) as nat,
                    l,
                    delta,
                )
                &&& forall|j: int|
                    0 <= j < be16(b, item_base_field(pos, l) + 4) ==> be32(b2, item_base_field(pos, l)) + be32(
                        b2,
                        #[trigger] extent_field(item_extents_start(pos, l), j, l),
                    ) == be32(b, item_base_field(pos, l)) + be32(b, extent_field(item_extents_start(pos, l), j, l))
                        - delta
            },
{
    let pb = item_base_field(pos, l);
    let pe = item_extents_start(pos, l);
    let k = be16(b, pb + 4);
    let st = extent_stride(l);
    assert(k * st >= 0) by (nonlinear_arith)
        requires
            k >= 0,
            st >= 0,
    ;
    let share = base_share(b, pb, 4, delta, true);
    let base = be32(b, pb);
    assert(share == if 0 <= base < delta { base as i64 } else { delta });
    lemma_offset_adjusted_by_delta(b, pb, share, true);
    let b1 = adjust_field_spec(b, pb, 4, share, true)->Done_0;
    assert(be16(b1, pb + 4) == k) by {
        assert(b1.subrange(pb + 4, b.len() as int)[0] == b.subrange(pb + 4, b.len() as int)[0]);
        assert(b1.subrange(pb + 4, b.len() as int)[1] == b.subrange(pb + 4, b.len() as int)[1]);
    }
    let r = (delta - share) as i64;
    assert forall|j: int| 0 <= j < k implies be32(b1, #[trigger] extent_field(pe, j, l)) >= r by {
        assert(j * st >= 0 && j * st + st <= k * st) by (nonlinear_arith)
            requires
                0 <= j < k,
                st >= 0,
        ;
        assert(be32(b, pb) + be32(b, extent_field(pe, j, l)) >= delta);
        lemma_be32_same(b1, b, pb + 4, b.len() as int, extent_field(pe, j, l));
    }
    lemma_extents_lowered(b1, pe, k as nat, l, r);
    let b2 = adjust_extents_spec(b1, pe, k as nat, l, r, true)->Done_0.0;
    assert(be32(b2, pb) == be32(b1, pb)) by {
        lemma_be32_same(b2, b1, 0, pe, pb);
    }
    assert forall|j: int| 0 <= j < k implies be32(b2, pb) + be32(b2, #[trigger] extent_field(pe, j, l)) == be32(b, pb)
        + be32(b, extent_field(pe, j, l)) - delta by {
        assert(j * st >= 0 && j * st + st <= k * st) by (nonlinear_arith)
            requires
                0 <= j < k,
                st >= 0,
        ;
        lemma_be32_same(b1, b, pb + 4, b.len() as int, extent_field(pe, j, l));
    }
    assert(adjust_items_spec(b, pos, n, l, delta) == adjust_items_spec(b2, pe + k * st, (n - 1) as nat, l, delta));
}

} // verus!
