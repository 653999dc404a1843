use crate::bytes::starts_with;
use crate::remove::gif::{
    block_at, color_table_len, gif87a, gif_blocks_from, gif_header_len, gif_remove_spec, has_gif_signature,
    lemma_block_at_bounds, lemma_sub_blocks_end_bounds, sub_blocks_end,
};
use vstd::prelude::*;

verus! {

/// `o` holds at `q` the `n` bytes that `d` holds at `p`.
pub open spec fn same_bytes(d: Seq<u8>, p: int, o: Seq<u8>, q: int, n: int) -> bool {
    &&& 0 <= p && p + n <= d.len()
    &&& 0 <= q && q + n <= o.len()
    &&& forall|k: int| 0 <= k < n ==> #[trigger] o[q + k] == d[p + k]
}

/// A chain of sub-blocks reads the same wherever its bytes are copied.
proof fn lemma_sub_blocks_moved(d: Seq<u8>, p: int, o: Seq<u8>, q: int, e: int)
    requires
        sub_blocks_end(d, p) == Some(e),
        same_bytes(d, p, o, q, e - p),
    ensures
        sub_blocks_end(o, q) == Some(q + (e - p)),
    decreases d.len() - p,
{
    lemma_sub_blocks_end_bounds(d, p);
    assert(o[q + 0] == d[p + 0]);
    if d[p] != 0 {
        let next = p + 1 + d[p];
        lemma_sub_blocks_end_bounds(d, next);
        assert forall|k: int| 0 <= k < e - next implies #[trigger] o[(q + (next - p)) + k] == d[next + k] by {
            assert(o[q + ((next - p) + k)] == d[p + ((next - p) + k)]);
        }
        lemma_sub_blocks_moved(d, next, o, q + (next - p), e);
    }
}

/// A block that is kept reads the same wherever its bytes are copied.
proof fn lemma_kept_block_moved(d: Seq<u8>, p: int, o: Seq<u8>, q: int, e: int)
    requires
        block_at(d, p) == Some((e, true)),
        same_bytes(d, p, o, q, e - p),
    ensures
        block_at(o, q) == Some((q + (e - p), true)),
{
    lemma_block_at_bounds(d, p);
    assert(o[q + 0] == d[p + 0]);
    if d[p] == 0x2C {
        let packed = d[p + 9];
        let c = 10 + (if packed >= 0x80 { color_table_len(packed) } else { 0 });
        assert(color_table_len(packed) >= 0);
        lemma_sub_blocks_end_bounds(d, p + c + 1);
        assert(o[q + 9] == d[p + 9]);
        assert forall|k: int| 0 <= k < e - (p + c + 1) implies #[trigger] o[(q + c + 1) + k] == d[(p + c + 1) + k] by {
            assert(o[q + (c + 1 + k)] == d[p + (c + 1 + k)]);
        }
        lemma_sub_blocks_moved(d, p + c + 1, o, q + c + 1, e);
    } else {
        lemma_sub_blocks_end_bounds(d, p + 2);
        lemma_sub_blocks_end_bounds(d, p + 13);
        assert(o[q + 1] == d[p + 1]);
        let label = d[p + 1];
        if label == 0xF9 {
            assert(o[q + 2] == d[p + 2]);
        } else if label == 0xFF {
            lemma_sub_blocks_end_bounds(d, p + 13);
            assert forall|k: int| 0 <= k < e - (p + 13) implies #[trigger] o[(q + 13) + k] == d[(p + 13) + k] by {
                assert(o[q + (13 + k)] == d[p + (13 + k)]);
            }
            lemma_sub_blocks_moved(d, p + 13, o, q + 13, e);
            assert(o.subrange(q + 2, q + 13) =~= d.subrange(p + 2, p + 13)) by {
                assert forall|k: int| 0 <= k < 11 implies #[trigger] o.subrange(q + 2, q + 13)[k] == d.subrange(p + 2, p + 13)[k] by {
                    assert(o[q + (2 + k)] == d[p + (2 + k)]);
                }
            }
        } else {
            lemma_sub_blocks_end_bounds(d, p + 2);
            assert forall|k: int| 0 <= k < e - (p + 2) implies #[trigger] o[(q + 2) + k] == d[(p + 2) + k] by {
                assert(o[q + (2 + k)] == d[p + (2 + k)]);
            }
            lemma_sub_blocks_moved(d, p + 2, o, q + 2, e);
        }
    }
}

/// The walk appends what it keeps to what it was given.
proof fn lemma_gif_blocks_prefix(d: Seq<u8>, pos: int, acc: Seq<u8>)
    ensures
        gif_blocks_from(d, pos, acc) == match gif_blocks_from(d, pos, Seq::empty()) {
            Some(t) => Some(acc + t),
            None => None::<Seq<u8>>,
        },
    decreases d.len() - pos,
{
    if 0 <= pos < d.len() {
        if d[pos] == 0x3B {
            assert(acc.push(0x3B) =~= acc + Seq::<u8>::empty().push(0x3B));
        } else {
            match block_at(d, pos) {
                Some((e, keep)) => {
                    lemma_block_at_bounds(d, pos);
                    let piece = if keep { d.subrange(pos, e) } else { Seq::<u8>::empty() };
                    assert((if keep { acc + d.subrange(pos, e) } else { acc }) =~= acc + piece);
                    assert((if keep { Seq::<u8>::empty() + d.subrange(pos, e) } else { Seq::<u8>::empty() }) =~= piece);
                    lemma_gif_blocks_prefix(d, e, acc + piece);
                    lemma_gif_blocks_prefix(d, e, piece);
                    match gif_blocks_from(d, e, Seq::empty()) {
                        Some(t) => {
                            assert(acc + piece + t =~= acc + (piece + t));
                        },
                        None => {},
                    }
                },
                None => {},
            }
        }
    }
}

/// What the walk keeps from `d`, copied to the end of `o` at `q`, is walked
/// again to the same result.
proof fn lemma_gif_blocks_replay(d: Seq<u8>, pos: int, t: Seq<u8>, o: Seq<u8>, q: int, acc: Seq<u8>)
    requires
        gif_blocks_from(d, pos, Seq::empty()) == Some(t),
        0 <= q,
        q + t.len() == o.len(),
        o.subrange(q, o.len() as int) == t,
    ensures
        gif_blocks_from(o, q, acc) == Some(acc + t),
    decreases d.len() - pos,
{
    if d[pos] == 0x3B {
        assert(t =~= seq![0x3Bu8]);
        assert(o[q] == o.subrange(q, o.len() as int)[0]);
        assert(acc.push(0x3B) =~= acc + t);
    } else {
        let (e, keep) = block_at(d, pos).unwrap();
        lemma_block_at_bounds(d, pos);
        lemma_gif_blocks_prefix(d, e, if keep { d.subrange(pos, e) } else { Seq::empty() });
        let t2 = gif_blocks_from(d, e, Seq::empty()).unwrap();
        if keep {
            let n = e - pos;
            assert(t =~= d.subrange(pos, e) + t2);
            assert forall|k: int| 0 <= k < n implies #[trigger] o[q + k] == d[pos + k] by {
                assert(o[q + k] == o.subrange(q, o.len() as int)[k]);
            }
            lemma_kept_block_moved(d, pos, o, q, e);
            assert(o[q + 0] == d[pos + 0]);
            assert(o.subrange(q + n, o.len() as int) =~= t2) by {
                assert forall|k: int| 0 <= k < t2.len() implies #[trigger] o.subrange(q + n, o.len() as int)[k] == t2[k] by {
                    assert(o.subrange(q + n, o.len() as int)[k] == o.subrange(q, o.len() as int)[n + k]);
                }
            }
            assert(o.subrange(q, q + n) =~= d.subrange(pos, e)) by {
                assert forall|k: int| 0 <= k < n implies #[trigger] o.subrange(q, q + n)[k] == d.subrange(pos, e)[k] by {
                    assert(o[q + k] == d[pos + k]);
                }
            }
            lemma_gif_blocks_replay(d, e, t2, o, q + n, acc + d.subrange(pos, e));
            assert(acc + d.subrange(pos, e) + t2 =~= acc + t);
        } else {
            assert(t =~= t2);
            lemma_gif_blocks_replay(d, e, t2, o, q, acc);
        }
    }
}

/// Removal is idempotent: what the GIF remover writes holds nothing more to
/// remove, and a second pass hands it back unchanged.
pub proof fn lemma_gif_remove_idempotent(d: Seq<u8>)
    requires
        gif_remove_spec(d) is Ok,
    ensures
        gif_remove_spec(gif_remove_spec(d)->Ok_0) == gif_remove_spec(d),
{
    let o = gif_remove_spec(d)->Ok_0;
    let h = gif_header_len(d);
    let head = d.subrange(0, h);
    lemma_gif_blocks_prefix(d, h, head);
    let t = gif_blocks_from(d, h, Seq::empty()).unwrap();
    assert(o =~= head + t);
    lemma_gif_blocks_nonempty(d, h);
    assert(o.subrange(0, 13) =~= d.subrange(0, 13));
    assert(o[10] == d[10]);
    assert(has_gif_signature(o)) by {
        if starts_with(d, gif87a()) {
            assert(o.subrange(0, 6) =~= d.subrange(0, 6));
        } else {
            assert(o.subrange(0, 6) =~= d.subrange(0, 6));
        }
    }
    assert(o.subrange(0, h) =~= head);
    assert(o.subrange(h, o.len() as int) =~= t);
    lemma_gif_blocks_replay(d, h, t, o, h, head);
}

/// The walk keeps at least the trailer.
proof fn lemma_gif_blocks_nonempty(d: Seq<u8>, pos: int)
    ensures
        gif_blocks_from(d, pos, Seq::empty()) matches Some(t) ==> t.len() >= 1,
    decreases d.len() - pos,
{
    if 0 <= pos < d.len() && d[pos] != 0x3B {
        match block_at(d, pos) {
            Some((e, keep)) => {
                lemma_block_at_bounds(d, pos);
                lemma_gif_blocks_prefix(d, e, if keep { d.subrange(pos, e) } else { Seq::empty() });
                lemma_gif_blocks_nonempty(d, e);
            },
            None => {},
        }
    }
}

/// Every block from `pos` on is kept, and the trailer is the last byte.
pub open spec fn keeps_every_block_from(d: Seq<u8>, pos: int) -> bool
    decreases d.len() - pos,
{
    if pos < 0 || pos >= d.len() {
        false
    } else if d[pos] == 0x3B {
        pos + 1 == d.len()
    } else {
        match block_at(d, pos) {
            Some((e, keep)) => {
                proof {
                    lemma_block_at_bounds(d, pos);
                }
                keep && keeps_every_block_from(d, e)
            },
            None => false,
        }
    }
}

proof fn lemma_keeps_every_block(d: Seq<u8>, pos: int, acc: Seq<u8>)
    requires
        keeps_every_block_from(d, pos),
    ensures
        gif_blocks_from(d, pos, acc) == Some(acc + d.subrange(pos, d.len() as int)),
    decreases d.len() - pos,
{
    if d[pos] == 0x3B {
        assert(acc.push(0x3B) =~= acc + d.subrange(pos, d.len() as int));
    } else {
        let (e, keep) = block_at(d, pos).unwrap();
        lemma_block_at_bounds(d, pos);
        lemma_keeps_every_block(d, e, acc + d.subrange(pos, e));
        assert(acc + d.subrange(pos, e) + d.subrange(e, d.len() as int) =~= acc + d.subrange(pos, d.len() as int));
    }
}

/// A GIF with no metadata block, ending at its trailer, comes out of the
/// GIF remover unchanged.
pub proof fn lemma_gif_without_metadata_unchanged(d: Seq<u8>)
    requires
        d.len() >= 13,
        has_gif_signature(d),
        gif_header_len(d) <= d.len(),
        keeps_every_block_from(d, gif_header_len(d)),
    ensures
        gif_remove_spec(d) == Ok::<Seq<u8>, crate::types::ErrorKind>(d),
{
    let h = gif_header_len(d);
    lemma_keeps_every_block(d, h, d.subrange(0, h));
    assert(d.subrange(0, h) + d.subrange(h, d.len() as int) =~= d);
}

/// The bytes of a colour table announced by a packed field: 2, 4, 8, ...,
/// 256 colours (by its low three bits), three bytes each.
pub open spec fn table_bytes(packed: u8) -> int {
    seq![6int, 12, 24, 48, 96, 192, 384, 768][(packed % 8) as int]
}

/// A colour table is three bytes for each of 2^(n+1) colours, `n` being the
/// low three bits of the packed field: 6 bytes up to 768.
pub proof fn lemma_color_table_sizes(packed: u8)
    ensures
        color_table_len(packed) == table_bytes(packed),
{
    vstd::arithmetic::power2::lemma2_to64();
    let n = packed % 8;
    assert(n == 0 || n == 1 || n == 2 || n == 3 || n == 4 || n == 5 || n == 6 || n == 7);
}

/// A GIF with no metadata block after its header, its logical screen
/// descriptor and the global colour table that the descriptor announces
/// (3 * 2^(n+1) bytes, when bit 7 of the packed field is set), ending at
/// its trailer, comes out unchanged.
pub proof fn lemma_gif_with_table_unchanged(d: Seq<u8>)
    requires
        has_gif_signature(d),
        d.len() >= 13,
        13 + (if d[10] >= 0x80 { table_bytes(d[10]) } else { 0 }) <= d.len(),
        keeps_every_block_from(d, 13 + (if d[10] >= 0x80 { table_bytes(d[10]) } else { 0 })),
    ensures
        gif_remove_spec(d) == Ok::<Seq<u8>, crate::types::ErrorKind>(d),
{
    lemma_color_table_sizes(d[10]);
    lemma_gif_without_metadata_unchanged(d);
}

} // verus!
