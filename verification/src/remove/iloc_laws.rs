use crate::bytes::{be16, be32};
use crate::remove::heic::finish_meta;
use crate::remove::heic_item_laws::{
    extent_field, extent_stride, index_part, item_base_field, lemma_be32_same, lemma_extents_lowered,
};
use crate::remove::heic_items::{
    adjust_extents_spec, adjust_field_spec, adjust_iloc_spec, adjust_items_spec, base_share, iloc_layout, IlocLayout,
};
use crate::remove::heic_laws::lemma_offset_adjusted_by_delta;
use crate::types::Outcome;
use vstd::prelude::*;

verus! {

/// The bytes of `b2` before `p` are those of `b`, which has the same length.
pub open spec fn same_before(b2: Seq<u8>, b: Seq<u8>, p: int) -> bool {
    b2.len() == b.len() && forall|i: int| 0 <= i < p && i < b.len() ==> #[trigger] b2[i] == b[i]
}

/// Adjusting a field at `pos` leaves the bytes before it and the length as
/// they were.
proof fn lemma_field_prefix(b: Seq<u8>, pos: int, size: int, delta: i64, adjust: bool)
    requires
        0 <= pos,
    ensures
        adjust_field_spec(b, pos, size, delta, adjust) matches Outcome::Done(b2) ==> same_before(b2, b, pos),
{
    reveal(adjust_field_spec);
    match adjust_field_spec(b, pos, size, delta, adjust) {
        Outcome::Done(b2) => {
            if adjust && delta != 0 && (size == 4 || size == 8) && pos + size <= b.len() {
                assert forall|i: int| 0 <= i < pos && i < b.len() implies #[trigger] b2[i] == b[i] by {
                    assert(b2[i] == b.subrange(0, pos)[i]);
                }
            }
        },
        _ => {},
    }
}

/// Adjusting extents from `p` leaves the bytes before `p` and the length as
/// they were, and ends at `p` or after.
proof fn lemma_extents_prefix(b: Seq<u8>, p: int, k: nat, l: IlocLayout, delta: i64, adjust: bool)
    requires
        0 <= p,
        0 <= l.offset_size,
        0 <= l.length_size,
        0 <= l.index_size,
    ensures
        adjust_extents_spec(b, p, k, l, delta, adjust) matches Outcome::Done((b2, p2)) ==> same_before(b2, b, p)
            && p2 >= p,
    decreases k,
{
    if k > 0 {
        let q = p + (if l.version >= 1 && l.index_size > 0 { l.index_size } else { 0 });
        if l.offset_size > 0 {
            lemma_field_prefix(b, q, l.offset_size, delta, adjust);
            match adjust_field_spec(b, q, l.offset_size, delta, adjust) {
                Outcome::Done(b1) => {
                    lemma_extents_prefix(b1, q + l.offset_size + l.length_size, (k - 1) as nat, l, delta, adjust);
                },
                _ => {},
            }
        } else {
            lemma_extents_prefix(b, q + l.length_size, (k - 1) as nat, l, delta, adjust);
        }
    }
}

/// Adjusting the item entries from `pos` leaves the bytes before `pos` and
/// the length as they were.
proof fn lemma_items_prefix(b: Seq<u8>, pos: int, n: nat, l: IlocLayout, delta: i64)
    requires
        0 <= pos,
        0 <= l.offset_size,
        0 <= l.length_size,
        0 <= l.index_size,
        0 <= l.base_offset_size,
    ensures
        adjust_items_spec(b, pos, n, l, delta) matches Outcome::Done(bf) ==> same_before(bf, b, pos),
    decreases n, 0nat,
{
    if n > 0 && pos + 2 <= b.len() && !(l.version >= 1 && pos + 4 > b.len()) {
        let cm = if l.version >= 1 { be16(b, pos + 2) % 16 } else { 0 };
        let p = pos + (if l.version >= 1 { 4int } else { 2 });
        if p + 2 <= b.len() {
            let p = p + 2;
            let share = base_share(b, p, l.base_offset_size, delta, cm == 0);
            lemma_field_prefix(b, p, l.base_offset_size, share, cm == 0);
            let based = if l.base_offset_size > 0 {
                adjust_field_spec(b, p, l.base_offset_size, share, cm == 0)
            } else {
                Outcome::Done(b)
            };
            match based {
                Outcome::Done(b2) => {
                    let p = p + l.base_offset_size;
                    if p + 2 <= b2.len() {
                        lemma_extents_prefix(b2, p + 2, be16(b2, p) as nat, l, (delta - share) as i64, cm == 0);
                        match adjust_extents_spec(b2, p + 2, be16(b2, p) as nat, l, (delta - share) as i64, cm == 0) {
                            Outcome::Done((b3, p3)) => {
                                lemma_items_prefix(b3, p3, (n - 1) as nat, l, delta);
                            },
                            _ => {},
                        }
                    }
                },
                _ => {},
            }
        }
    }
}

/// Bytes of `b2` from `p` on are those of `b`, which has the same length.
pub open spec fn same_from(b2: Seq<u8>, b: Seq<u8>, p: int) -> bool {
    b2.len() == b.len() && forall|i: int| p <= i < b.len() ==> #[trigger] b2[i] == b[i]
}

proof fn lemma_field_suffix(b: Seq<u8>, pos: int, size: int, delta: i64, adjust: bool)
    requires
        0 <= pos,
        0 <= size,
    ensures
        adjust_field_spec(b, pos, size, delta, adjust) matches Outcome::Done(b2) ==> same_from(b2, b, pos + size),
{
    reveal(adjust_field_spec);
    match adjust_field_spec(b, pos, size, delta, adjust) {
        Outcome::Done(b2) => {
            if adjust && delta != 0 && (size == 4 || size == 8) && pos + size <= b.len() {
                assert forall|i: int| pos + size <= i < b.len() implies #[trigger] b2[i] == b[i] by {
                    assert(b2[i] == b.subrange(pos + size, b.len() as int)[i - (pos + size)]);
                }
            }
        },
        _ => {},
    }
}

proof fn lemma_extents_suffix(b: Seq<u8>, p: int, k: nat, l: IlocLayout, delta: i64, adjust: bool)
    requires
        0 <= p,
        0 <= l.offset_size,
        0 <= l.length_size,
        0 <= l.index_size,
    ensures
        adjust_extents_spec(b, p, k, l, delta, adjust) matches Outcome::Done((b2, p2)) ==> same_from(b2, b, p2)
            && p2 >= p,
    decreases k,
{
    if k > 0 {
        let q = p + (if l.version >= 1 && l.index_size > 0 { l.index_size } else { 0 });
        if l.offset_size > 0 {
            lemma_field_suffix(b, q, l.offset_size, delta, adjust);
            match adjust_field_spec(b, q, l.offset_size, delta, adjust) {
                Outcome::Done(b1) => {
                    lemma_extents_suffix(b1, q + l.offset_size + l.length_size, (k - 1) as nat, l, delta, adjust);
                },
                _ => {},
            }
        } else {
            lemma_extents_suffix(b, q + l.length_size, (k - 1) as nat, l, delta, adjust);
        }
    }
}

/// Where the extent count of the item entry at `pos` stands.
pub open spec fn count_field(pos: int, l: IlocLayout) -> int {
    item_base_field(pos, l) + l.base_offset_size
}

/// Where the extents of the item entry at `pos` start.
pub open spec fn extents_start(pos: int, l: IlocLayout) -> int {
    count_field(pos, l) + 2
}

/// Where the item entry at `pos` ends.
pub open spec fn item_end(b: Seq<u8>, pos: int, l: IlocLayout) -> int {
    extents_start(pos, l) + be16(b, count_field(pos, l)) * extent_stride(l)
}

/// The file position of extent `j` of the item entry at `pos`: its base
/// offset (when it has one) plus its extent offset.
pub open spec fn item_position(b: Seq<u8>, pos: int, j: int, l: IlocLayout) -> int {
    (if l.base_offset_size == 4 { be32(b, item_base_field(pos, l)) } else { 0 }) + be32(
        b,
        extent_field(extents_start(pos, l), j, l),
    )
}

/// The layouts these laws cover: version 0 or 1, no base offset or a 4-byte
/// one, 4-byte extent offsets.
pub open spec fn covered_layout(l: IlocLayout) -> bool {
    &&& l.version <= 1
    &&& (l.base_offset_size == 0 || l.base_offset_size == 4)
    &&& l.offset_size == 4
    &&& 0 <= l.length_size
    &&& 0 <= l.index_size
}

/// The item entry at `pos` lies within `b`, has construction method 0, and
/// each of its file positions is at least `delta`.
pub open spec fn item_fits(b: Seq<u8>, pos: int, l: IlocLayout, delta: i64) -> bool {
    &&& 0 <= pos
    &&& extents_start(pos, l) <= b.len()
    &&& item_end(b, pos, l) <= b.len()
    &&& l.version >= 1 ==> be16(b, pos + 2) % 16 == 0
    &&& forall|j: int| 0 <= j < be16(b, count_field(pos, l)) ==> #[trigger] item_position(b, pos, j, l) >= delta
}

/// One item entry: its positions move back by `delta`, the bytes after it
/// stay, and the walk goes on after it.
proof fn lemma_item_step(b: Seq<u8>, pos: int, n: nat, l: IlocLayout, delta: i64) -> (b2: Seq<u8>)
    requires
        n >= 1,
        covered_layout(l),
        0 < delta,
        item_fits(b, pos, l, delta),
    ensures
        adjust_items_spec(b, pos, n, l, delta) == adjust_items_spec(b2, item_end(b, pos, l), (n - 1) as nat, l, delta),
        same_from(b2, b, item_end(b, pos, l)),
        be16(b2, count_field(pos, l)) == be16(b, count_field(pos, l)),
        item_end(b2, pos, l) == item_end(b, pos, l),
        forall|j: int|
            0 <= j < be16(b, count_field(pos, l)) ==> #[trigger] item_position(b2, pos, j, l) == item_position(
                b,
                pos,
                j,
                l,
            ) - delta,
{
    let pb = item_base_field(pos, l);
    let pc = count_field(pos, l);
    let pe = extents_start(pos, l);
    let k = be16(b, pc);
    let st = extent_stride(l);
    assert(k * st >= 0) by (nonlinear_arith)
        requires
            k >= 0,
            st >= 0,
    ;
    let share = base_share(b, pb, l.base_offset_size, delta, true);
    let b1 = if l.base_offset_size > 0 {
        adjust_field_spec(b, pb, l.base_offset_size, share, true)->Done_0
    } else {
        b
    };
    if l.base_offset_size == 4 {
        let base = be32(b, pb);
        assert(share == if 0 <= base < delta { base as i64 } else { delta });
        lemma_offset_adjusted_by_delta(b, pb, share, true);
        assert(be16(b1, pc) == k) by {
            assert(b1.subrange(pb + 4, b.len() as int)[0] == b.subrange(pb + 4, b.len() as int)[0]);
            assert(b1.subrange(pb + 4, b.len() as int)[1] == b.subrange(pb + 4, b.len() as int)[1]);
        }
    } else {
        assert(share == 0);
    }
    let r = (delta - share) as i64;
    assert forall|j: int| 0 <= j < k implies be32(b1, #[trigger] extent_field(pe, j, l)) >= r by {
        assert(j * st >= 0 && j * st + st <= k * st) by (nonlinear_arith)
            requires
                0 <= j < k,
                st >= 0,
        ;
        assert(item_position(b, pos, j, l) >= delta);
        if l.base_offset_size == 4 {
            lemma_be32_same(b1, b, pb + 4, b.len() as int, extent_field(pe, j, l));
        }
    }
    lemma_extents_lowered(b1, pe, k as nat, l, r);
    lemma_extents_suffix(b1, pe, k as nat, l, r, true);
    lemma_extents_prefix(b1, pe, k as nat, l, r, true);
    let b2 = adjust_extents_spec(b1, pe, k as nat, l, r, true)->Done_0.0;
    assert(be16(b2, pc) == k) by {
        assert(b2[pc] == b1[pc] && b2[pc + 1] == b1[pc + 1]);
        lemma_be16_at(b2, b1, pc);
    }
    if l.base_offset_size == 4 {
        assert(be32(b2, pb) == be32(b1, pb)) by {
            lemma_be32_same(b2, b1, 0, pe, pb);
        }
        lemma_field_suffix(b, pb, 4, share, true);
    }
    assert forall|j: int| 0 <= j < k implies #[trigger] item_position(b2, pos, j, l) == item_position(b, pos, j, l)
        - delta by {
        assert(j * st >= 0 && j * st + st <= k * st) by (nonlinear_arith)
            requires
                0 <= j < k,
                st >= 0,
        ;
        if l.base_offset_size == 4 {
            lemma_be32_same(b1, b, pb + 4, b.len() as int, extent_field(pe, j, l));
        }
    }
    assert(adjust_items_spec(b, pos, n, l, delta) == adjust_items_spec(b2, pe + k * st, (n - 1) as nat, l, delta));
    b2
}

/// Every one of `n` item entries from `pos` fits (see `item_fits`).
pub open spec fn items_fit(b: Seq<u8>, pos: int, n: nat, l: IlocLayout, delta: i64) -> bool
    decreases n,
{
    if n == 0 {
        true
    } else {
        item_fits(b, pos, l, delta) && items_fit(b, item_end(b, pos, l), (n - 1) as nat, l, delta)
    }
}

/// Every file position of the `n` item entries from `pos` in `b` stands in
/// `bf` lowered by `delta`.
pub open spec fn items_moved(b: Seq<u8>, bf: Seq<u8>, pos: int, n: nat, l: IlocLayout, delta: i64) -> bool
    decreases n,
{
    if n == 0 {
        true
    } else {
        &&& forall|j: int|
            0 <= j < be16(b, count_field(pos, l)) ==> #[trigger] item_position(bf, pos, j, l) == item_position(
                b,
                pos,
                j,
                l,
            ) - delta
        &&& items_moved(b, bf, item_end(b, pos, l), (n - 1) as nat, l, delta)
    }
}

proof fn lemma_be16_at(s1: Seq<u8>, s2: Seq<u8>, i: int)
    requires
        0 <= i,
        i + 2 <= s1.len(),
        s1[i] == s2[i] && s1[i + 1] == s2[i + 1],
    ensures
        be16(s1, i) == be16(s2, i),
{
}

proof fn lemma_be32_at(s1: Seq<u8>, s2: Seq<u8>, i: int)
    requires
        s1[i] == s2[i] && s1[i + 1] == s2[i + 1] && s1[i + 2] == s2[i + 2] && s1[i + 3] == s2[i + 3],
    ensures
        be32(s1, i) == be32(s2, i),
{
}

/// An item entry reads the same in two buffers of one length that agree on
/// every byte from `lo` (at or before the entry) up to `hi` (at or after its end).
proof fn lemma_item_reads_same(b: Seq<u8>, b0: Seq<u8>, pos: int, l: IlocLayout, lo: int, hi: int)
    requires
        covered_layout(l),
        0 <= lo <= pos,
        b.len() == b0.len(),
        forall|i: int| lo <= i < hi && i < b.len() ==> #[trigger] b[i] == b0[i],
        extents_start(pos, l) <= b0.len(),
        item_end(b0, pos, l) <= b0.len(),
        item_end(b0, pos, l) <= hi,
    ensures
        be16(b, count_field(pos, l)) == be16(b0, count_field(pos, l)),
        l.version >= 1 ==> be16(b, pos + 2) == be16(b0, pos + 2),
        item_end(b, pos, l) == item_end(b0, pos, l),
        forall|j: int|
            0 <= j < be16(b0, count_field(pos, l)) ==> #[trigger] item_position(b, pos, j, l) == item_position(
                b0,
                pos,
                j,
                l,
            ),
{
    let pc = count_field(pos, l);
    let pb = item_base_field(pos, l);
    let k = be16(b0, pc);
    let st = extent_stride(l);
    assert(k * st >= 0) by (nonlinear_arith)
        requires
            k >= 0,
            st >= 0,
    ;
    assert(b[pc] == b0[pc] && b[pc + 1] == b0[pc + 1]);
    lemma_be16_at(b, b0, pc);
    if l.version >= 1 {
        assert(b[pos + 2] == b0[pos + 2] && b[pos + 3] == b0[pos + 3]);
        lemma_be16_at(b, b0, pos + 2);
    }
    if l.base_offset_size == 4 {
        assert(b[pb] == b0[pb] && b[pb + 1] == b0[pb + 1] && b[pb + 2] == b0[pb + 2] && b[pb + 3] == b0[pb + 3]);
        lemma_be32_at(b, b0, pb);
    }
    assert forall|j: int| 0 <= j < k implies #[trigger] item_position(b, pos, j, l) == item_position(b0, pos, j, l) by {
        let f = extent_field(extents_start(pos, l), j, l);
        assert(j * st >= 0 && j * st + st <= k * st) by (nonlinear_arith)
            requires
                0 <= j < k,
                st >= 0,
        ;
        assert(b[f] == b0[f] && b[f + 1] == b0[f + 1] && b[f + 2] == b0[f + 2] && b[f + 3] == b0[f + 3]);
        lemma_be32_at(b, b0, f);
    }
}

/// Lowering the positions of `n` item entries from `pos` in `b`, which agrees
/// with `b0` from `pos` on, lowers each file position of them by `delta`.
proof fn lemma_items_moved(b0: Seq<u8>, b: Seq<u8>, pos: int, n: nat, l: IlocLayout, delta: i64)
    requires
        covered_layout(l),
        0 < delta,
        0 <= pos,
        same_from(b, b0, pos),
        items_fit(b0, pos, n, l, delta),
    ensures
        adjust_items_spec(b, pos, n, l, delta) matches Outcome::Done(bf) ==> items_moved(b0, bf, pos, n, l, delta),
    decreases n,
{
    if n > 0 {
        lemma_item_reads_same(b, b0, pos, l, pos, b.len() as int);
        assert(item_fits(b, pos, l, delta)) by {
            assert forall|j: int| 0 <= j < be16(b, count_field(pos, l)) implies #[trigger] item_position(b, pos, j, l)
                >= delta by {
                assert(item_position(b0, pos, j, l) >= delta);
            }
        }
        let b2 = lemma_item_step(b, pos, n, l, delta);
        let e = item_end(b, pos, l);
        assert(e >= pos) by {
            let k = be16(b, count_field(pos, l));
            let st = extent_stride(l);
            assert(k * st >= 0) by (nonlinear_arith)
                requires
                    k >= 0,
                    st >= 0,
            ;
        }
        lemma_items_moved(b0, b2, e, (n - 1) as nat, l, delta);
        match adjust_items_spec(b, pos, n, l, delta) {
            Outcome::Done(bf) => {
                lemma_items_prefix(b2, e, (n - 1) as nat, l, delta);
                lemma_item_reads_same(bf, b2, pos, l, 0, e);
                assert forall|j: int| 0 <= j < be16(b0, count_field(pos, l)) implies #[trigger] item_position(
                    bf,
                    pos,
                    j,
                    l,
                ) == item_position(b0, pos, j, l) - delta by {
                    assert(item_position(bf, pos, j, l) == item_position(b2, pos, j, l));
                    assert(item_position(b2, pos, j, l) == item_position(b, pos, j, l) - delta);
                }
            },
            _ => {},
        }
    }
}

/// When the content of a `meta` box has been rebuilt as `res` and the box
/// shrank from `original_total` bytes to `8 + res.len()`, finishing it lowers
/// every file position of the items in its `iloc` box (at `a..e` in `res`) by
/// exactly what the box lost, for `iloc` version 0 as for version 1, and
/// leaves the bytes around that box as they were.
pub proof fn lemma_finish_meta_lowers_positions(res: Seq<u8>, a: int, e: int, original_total: int)
    requires
        0 <= a,
        a + 16 <= e <= res.len(),
        8 + res.len() <= usize::MAX,
        8 + res.len() < original_total <= i64::MAX,
        covered_layout(iloc_layout(res.subrange(a, e))),
        items_fit(
            res.subrange(a, e),
            16,
            be16(res.subrange(a, e), 14) as nat,
            iloc_layout(res.subrange(a, e)),
            (original_total - (8 + res.len())) as i64,
        ),
        finish_meta(res, Some((a, e)), original_total) is Done,
    ensures
        ({
            let out = finish_meta(res, Some((a, e)), original_total)->Done_0;
            let bx = res.subrange(a, e);
            &&& out.len() == res.len()
            &&& out.subrange(0, a) == res.subrange(0, a)
            &&& out.subrange(e, out.len() as int) == res.subrange(e, res.len() as int)
            &&& items_moved(
                bx,
                out.subrange(a, e),
                16,
                be16(bx, 14) as nat,
                iloc_layout(bx),
                (original_total - (8 + res.len())) as i64,
            )
        }),
{
    let bx = res.subrange(a, e);
    let l = iloc_layout(bx);
    let n = be16(bx, 14) as nat;
    let new_total = 8 + res.len();
    let delta = (original_total - new_total) as i64;
    assert((original_total as i64) as int == original_total);
    assert((new_total as i64) as int == new_total);
    assert(delta as int == original_total - new_total);
    assert(adjust_iloc_spec(bx, delta) == adjust_items_spec(bx, 16, n, l, delta));
    lemma_items_prefix(bx, 16, n, l, delta);
    lemma_items_moved(bx, bx, 16, n, l, delta);
    let adjusted = adjust_items_spec(bx, 16, n, l, delta)->Done_0;
    let out = finish_meta(res, Some((a, e)), original_total)->Done_0;
    assert(out == res.subrange(0, a) + adjusted + res.subrange(e, res.len() as int));
    assert(out.subrange(a, e) =~= adjusted);
    assert(out.subrange(0, a) =~= res.subrange(0, a));
    assert(out.subrange(e, out.len() as int) =~= res.subrange(e, res.len() as int));
}

} // verus!
