use crate::bytes::{has_tag, le32, lemma_le32_bytes_of};
use crate::remove::webp::{
    fourcc_exif, fourcc_iccp, fourcc_riff, fourcc_webp, fourcc_xmp, is_image_chunk, kept_chunk, lemma_webp_chunk_step,
    lemma_webp_chunks_end, lemma_webp_output_sized, strips_chunk, webp_chunks_from, webp_remove_spec,
};
use crate::types::RemovalOptions;
use vstd::prelude::*;

verus! {

/// Where the chunk at `pos` with payload size `size` ends as it is kept:
/// after its payload, and after its padding byte when there is one.
pub open spec fn kept_chunk_end(d: Seq<u8>, pos: int, size: int) -> int {
    let payload_end = pos + 8 + size;
    if size % 2 != 0 && payload_end + 1 <= d.len() {
        payload_end + 1
    } else {
        payload_end
    }
}

/// A kept chunk is the bytes of the data where it stands.
proof fn lemma_kept_chunk_verbatim(d: Seq<u8>, pos: int)
    requires
        0 <= pos,
        pos + 8 + le32(d, pos + 4) <= d.len(),
    ensures
        kept_chunk(d, pos, le32(d, pos + 4)) == d.subrange(pos, kept_chunk_end(d, pos, le32(d, pos + 4))),
{
    let size = le32(d, pos + 4);
    lemma_le32_bytes_of(d, pos + 4);
    assert(kept_chunk(d, pos, size) =~= d.subrange(pos, kept_chunk_end(d, pos, size)));
}

/// The walk appends what it keeps to what it was given.
proof fn lemma_webp_chunks_prefix(d: Seq<u8>, pos: int, options: RemovalOptions, acc: Seq<u8>, has_image: bool)
    ensures
        webp_chunks_from(d, pos, options, acc, has_image) == match webp_chunks_from(
            d,
            pos,
            options,
            Seq::empty(),
            has_image,
        ) {
            Some((t, h)) => Some((acc + t, h)),
            None => None::<(Seq<u8>, bool)>,
        },
    decreases d.len() + 1 - pos,
{
    if pos < 0 {
        reveal_with_fuel(webp_chunks_from, 1);
        assert(acc + Seq::<u8>::empty() =~= acc);
    } else if pos + 8 > d.len() {
        lemma_webp_chunks_end(d, pos, options, acc, has_image);
        lemma_webp_chunks_end(d, pos, options, Seq::empty(), has_image);
        assert(acc + Seq::<u8>::empty() =~= acc);
    } else {
        lemma_webp_chunk_step(d, pos, options, acc, has_image);
        lemma_webp_chunk_step(d, pos, options, Seq::empty(), has_image);
        let fourcc = d.subrange(pos, pos + 4);
        let size = le32(d, pos + 4);
        let payload_end = pos + 8 + size;
        if payload_end <= d.len() {
            let next = payload_end + size % 2;
            if strips_chunk(fourcc, options) {
                lemma_webp_chunks_prefix(d, next, options, acc, has_image);
            } else {
                let k = kept_chunk(d, pos, size);
                let hi = has_image || is_image_chunk(fourcc);
                assert(Seq::<u8>::empty() + k =~= k);
                lemma_webp_chunks_prefix(d, next, options, acc + k, hi);
                lemma_webp_chunks_prefix(d, next, options, k, hi);
                match webp_chunks_from(d, next, options, Seq::empty(), hi) {
                    Some((t, h)) => {
                        assert(acc + k + t =~= acc + (k + t));
                    },
                    None => {},
                }
            }
        }
    }
}

/// What the walk keeps from `d`, placed at the end of `o` at `q`, is walked
/// again to the same chunks.
proof fn lemma_webp_chunks_replay(
    d: Seq<u8>,
    pos: int,
    options: RemovalOptions,
    has_image: bool,
    t: Seq<u8>,
    found: bool,
    o: Seq<u8>,
    q: int,
    acc: Seq<u8>,
)
    requires
        0 <= pos,
        webp_chunks_from(d, pos, options, Seq::empty(), has_image) == Some((t, found)),
        0 <= q,
        q + t.len() == o.len(),
        o.subrange(q, o.len() as int) == t,
    ensures
        webp_chunks_from(o, q, options, acc, has_image) == Some((acc + t, found)),
    decreases d.len() + 1 - pos,
{
    if pos + 8 > d.len() {
        lemma_webp_chunks_end(d, pos, options, Seq::empty(), has_image);
        lemma_webp_chunks_end(o, q, options, acc, has_image);
        assert(acc + t =~= acc);
    } else {
        lemma_webp_chunk_step(d, pos, options, Seq::empty(), has_image);
        let fourcc = d.subrange(pos, pos + 4);
        let size = le32(d, pos + 4);
        let payload_end = pos + 8 + size;
        let next = payload_end + size % 2;
        if strips_chunk(fourcc, options) {
            lemma_webp_chunks_replay(d, next, options, has_image, t, found, o, q, acc);
        } else {
            let k = kept_chunk(d, pos, size);
            let hi = has_image || is_image_chunk(fourcc);
            lemma_webp_chunks_prefix(d, next, options, k, hi);
            let t2 = webp_chunks_from(d, next, options, Seq::empty(), hi).unwrap().0;
            assert(t =~= k + t2);
            lemma_kept_chunk_verbatim(d, pos);
            let ke = kept_chunk_end(d, pos, size);
            let n = ke - pos;
            assert forall|i: int| 0 <= i < n implies #[trigger] o[q + i] == d[pos + i] by {
                assert(o[q + i] == o.subrange(q, o.len() as int)[i]);
                assert(k[i] == d.subrange(pos, ke)[i]);
            }
            assert(o.subrange(q, q + 4) =~= fourcc);
            assert(o[q + 4] == d[pos + 4] && o[q + 5] == d[pos + 5] && o[q + 6] == d[pos + 6] && o[q + 7] == d[pos + 7]);
            assert(le32(o, q + 4) == size);
            if size % 2 != 0 && payload_end + 1 > d.len() {
                lemma_webp_chunks_end(d, next, options, Seq::empty(), hi);
                assert(t2.len() == 0);
            }
            assert(o.subrange(q + 8, q + 8 + size) =~= d.subrange(pos + 8, payload_end)) by {
                assert forall|j: int| 0 <= j < size implies #[trigger] o.subrange(q + 8, q + 8 + size)[j]
                    == d.subrange(pos + 8, payload_end)[j] by {
                    assert(o[q + (8 + j)] == d[pos + (8 + j)]);
                }
            }
            if size % 2 != 0 && payload_end + 1 <= d.len() {
                assert(o[q + (8 + size)] == d[pos + (8 + size)]);
            }
            assert(kept_chunk(o, q, size) =~= k);
            lemma_webp_chunk_step(o, q, options, acc, has_image);
            let q2 = q + 8 + size + size % 2;
            if q2 > o.len() {
                lemma_webp_chunks_end(o, q2, options, acc + k, hi);
                assert(acc + k =~= acc + t);
            } else {
                assert(q2 == q + n);
                assert(o.subrange(q2, o.len() as int) =~= t2) by {
                    assert forall|i: int| 0 <= i < t2.len() implies #[trigger] o.subrange(q2, o.len() as int)[i]
                        == t2[i] by {
                        assert(o.subrange(q2, o.len() as int)[i] == o.subrange(q, o.len() as int)[n + i]);
                    }
                }
                lemma_webp_chunks_replay(d, next, options, hi, t2, found, o, q2, acc + k);
                assert(acc + k + t2 =~= acc + t);
            }
        }
    }
}

/// Removal is idempotent: what the WebP remover writes holds no chunk that
/// the same options remove, and a second pass hands it back unchanged. This
/// holds when the output's RIFF size fits its 32-bit field.
pub proof fn lemma_webp_remove_idempotent(d: Seq<u8>, options: RemovalOptions)
    requires
        webp_remove_spec(d, options) is Some,
        webp_remove_spec(d, options).unwrap().len() <= u32::MAX + 8,
    ensures
        webp_remove_spec(webp_remove_spec(d, options).unwrap(), options) == webp_remove_spec(d, options),
{
    let o = webp_remove_spec(d, options).unwrap();
    lemma_webp_output_sized(d, options);
    let (body, has_image) = webp_chunks_from(d, 12, options, Seq::empty(), false).unwrap();
    assert(o.subrange(12, o.len() as int) =~= body);
    lemma_webp_chunks_replay(d, 12, options, false, body, has_image, o, 12, Seq::empty());
    assert(Seq::<u8>::empty() + body =~= body);
    assert(has_tag(o, 0, fourcc_riff()) && has_tag(o, 8, fourcc_webp()));
}

/// The chunks from `pos` lie back to back up to the end of the data, each
/// padded to an even length, and none is one that `options` removes.
pub open spec fn clean_chunks_from(d: Seq<u8>, pos: int, options: RemovalOptions) -> bool
    decreases d.len() - pos,
{
    if pos == d.len() {
        true
    } else if pos < 0 || pos + 8 > d.len() {
        false
    } else {
        let size = le32(d, pos + 4);
        let next = pos + 8 + size + size % 2;
        next <= d.len() && !strips_chunk(d.subrange(pos, pos + 4), options) && clean_chunks_from(d, next, options)
    }
}

/// One of the chunks from `pos` (as `clean_chunks_from` walks them) is an
/// image chunk.
pub open spec fn image_chunk_from(d: Seq<u8>, pos: int) -> bool
    decreases d.len() - pos,
{
    if pos < 0 || pos + 8 > d.len() {
        false
    } else {
        let size = le32(d, pos + 4);
        let next = pos + 8 + size + size % 2;
        if next <= pos || next > d.len() {
            false
        } else {
            is_image_chunk(d.subrange(pos, pos + 4)) || image_chunk_from(d, next)
        }
    }
}

proof fn lemma_clean_chunks_kept(d: Seq<u8>, pos: int, options: RemovalOptions, acc: Seq<u8>, has_image: bool)
    requires
        0 <= pos,
        clean_chunks_from(d, pos, options),
    ensures
        webp_chunks_from(d, pos, options, acc, has_image) == Some(
            (acc + d.subrange(pos, d.len() as int), has_image || image_chunk_from(d, pos)),
        ),
    decreases d.len() - pos,
{
    if pos == d.len() {
        lemma_webp_chunks_end(d, pos, options, acc, has_image);
        assert(acc + d.subrange(pos, d.len() as int) =~= acc);
    } else {
        lemma_webp_chunk_step(d, pos, options, acc, has_image);
        let size = le32(d, pos + 4);
        let next = pos + 8 + size + size % 2;
        lemma_kept_chunk_verbatim(d, pos);
        assert(kept_chunk_end(d, pos, size) == next);
        let k = kept_chunk(d, pos, size);
        lemma_clean_chunks_kept(d, next, options, acc + k, has_image || is_image_chunk(d.subrange(pos, pos + 4)));
        assert(acc + k + d.subrange(next, d.len() as int) =~= acc + d.subrange(pos, d.len() as int));
    }
}

/// A WebP file whose chunks lie back to back, padded to even lengths, with
/// none that the options remove, is handed back unchanged when it holds an
/// image chunk (and refused when it holds none).
pub proof fn lemma_webp_clean_unchanged(d: Seq<u8>, options: RemovalOptions)
    requires
        d.len() >= 12,
        has_tag(d, 0, fourcc_riff()),
        has_tag(d, 8, fourcc_webp()),
        le32(d, 4) + 8 == d.len(),
        clean_chunks_from(d, 12, options),
    ensures
        webp_remove_spec(d, options) == if image_chunk_from(d, 12) {
            Some(d)
        } else {
            None
        },
{
    lemma_clean_chunks_kept(d, 12, options, Seq::empty(), false);
    let body = d.subrange(12, d.len() as int);
    assert(Seq::<u8>::empty() + body =~= body);
    if image_chunk_from(d, 12) {
        lemma_le32_bytes_of(d, 4);
        assert(((4 + body.len()) as u32) == le32(d, 4));
        assert(fourcc_riff() + crate::bytes::le32_bytes((4 + body.len()) as u32) + fourcc_webp() + body =~= d) by {
            assert(d.subrange(0, 4) == fourcc_riff());
            assert(d.subrange(8, 12) == fourcc_webp());
            assert(d =~= d.subrange(0, 4) + d.subrange(4, 8) + d.subrange(8, 12) + body);
        }
    }
}

/// The chunks from `pos` lie back to back up to the end of the data, each
/// padded to an even length.
pub open spec fn chunks_tile(d: Seq<u8>, pos: int) -> bool
    decreases d.len() - pos,
{
    if pos == d.len() {
        true
    } else if pos < 0 || pos + 8 > d.len() {
        false
    } else {
        let size = le32(d, pos + 4);
        let next = pos + 8 + size + size % 2;
        next <= d.len() && chunks_tile(d, next)
    }
}

/// The chunks from `pos` (as `chunks_tile` walks them), each with its
/// padding, in order.
pub open spec fn chunk_list(d: Seq<u8>, pos: int) -> Seq<Seq<u8>>
    decreases d.len() - pos,
{
    if pos < 0 || pos + 8 > d.len() {
        Seq::empty()
    } else {
        let size = le32(d, pos + 4);
        let next = pos + 8 + size + size % 2;
        if next > d.len() {
            Seq::empty()
        } else {
            seq![d.subrange(pos, next)] + chunk_list(d, next)
        }
    }
}

/// A chunk that `options` does not remove.
pub open spec fn chunk_kept(c: Seq<u8>, options: RemovalOptions) -> bool {
    !strips_chunk(c.subrange(0, 4), options)
}

/// A kept image chunk.
pub open spec fn kept_image(c: Seq<u8>, options: RemovalOptions) -> bool {
    chunk_kept(c, options) && is_image_chunk(c.subrange(0, 4))
}

/// The kept chunks of `cs`, in order, one after another.
pub open spec fn concat_kept_chunks(cs: Seq<Seq<u8>>, options: RemovalOptions) -> Seq<u8>
    decreases cs.len(),
{
    if cs.len() == 0 {
        Seq::empty()
    } else {
        (if chunk_kept(cs[0], options) { cs[0] } else { Seq::empty() }) + concat_kept_chunks(cs.drop_first(), options)
    }
}

proof fn lemma_chunks_kept(d: Seq<u8>, pos: int, options: RemovalOptions, acc: Seq<u8>, has_image: bool)
    requires
        0 <= pos,
        chunks_tile(d, pos),
    ensures
        webp_chunks_from(d, pos, options, acc, has_image) == Some(
            (
                acc + concat_kept_chunks(chunk_list(d, pos), options),
                has_image || exists|i: int|
                    0 <= i < chunk_list(d, pos).len() && #[trigger] kept_image(chunk_list(d, pos)[i], options),
            ),
        ),
    decreases d.len() - pos,
{
    if pos == d.len() {
        lemma_webp_chunks_end(d, pos, options, acc, has_image);
        assert(chunk_list(d, pos) == Seq::<Seq<u8>>::empty());
        assert(acc + Seq::<u8>::empty() =~= acc);
    } else {
        lemma_webp_chunk_step(d, pos, options, acc, has_image);
        let size = le32(d, pos + 4);
        let next = pos + 8 + size + size % 2;
        let c = d.subrange(pos, next);
        let rest = chunk_list(d, next);
        let cs = seq![c] + rest;
        assert(chunk_list(d, pos) == cs);
        assert(cs[0] == c);
        assert(cs.drop_first() =~= rest);
        assert(c.subrange(0, 4) =~= d.subrange(pos, pos + 4));
        lemma_kept_chunk_verbatim(d, pos);
        assert(kept_chunk_end(d, pos, size) == next);
        let hi = has_image || is_image_chunk(d.subrange(pos, pos + 4));
        if chunk_kept(c, options) {
            lemma_chunks_kept(d, next, options, acc + c, hi);
            assert(acc + c + concat_kept_chunks(rest, options) =~= acc + (c + concat_kept_chunks(rest, options)));
        } else {
            lemma_chunks_kept(d, next, options, acc, has_image);
            assert(Seq::<u8>::empty() + concat_kept_chunks(rest, options) =~= concat_kept_chunks(rest, options));
        }
        let any_rest = exists|i: int| 0 <= i < rest.len() && #[trigger] kept_image(rest[i], options);
        let any_all = exists|i: int| 0 <= i < cs.len() && #[trigger] kept_image(cs[i], options);
        assert(any_all == (kept_image(c, options) || any_rest)) by {
            if any_rest {
                let i = choose|i: int| 0 <= i < rest.len() && #[trigger] kept_image(rest[i], options);
                assert(cs[i + 1] == rest[i]);
            }
            if any_all {
                let i = choose|i: int| 0 <= i < cs.len() && #[trigger] kept_image(cs[i], options);
                if i > 0 {
                    assert(cs[i] == rest[i - 1]);
                }
            }
        }
    }
}

/// A WebP file whose chunks lie back to back, padded to even lengths, comes
/// out as `RIFF`, the new RIFF size, `WEBP` and the chunks that `options`
/// does not remove, in order; it is refused when no image chunk is kept.
pub proof fn lemma_webp_keeps_chunks(d: Seq<u8>, options: RemovalOptions)
    requires
        d.len() >= 12,
        has_tag(d, 0, fourcc_riff()),
        has_tag(d, 8, fourcc_webp()),
        le32(d, 4) + 8 == d.len(),
        chunks_tile(d, 12),
    ensures
        ({
            let body = concat_kept_chunks(chunk_list(d, 12), options);
            webp_remove_spec(d, options) == if exists|i: int|
                0 <= i < chunk_list(d, 12).len() && #[trigger] kept_image(chunk_list(d, 12)[i], options) {
                Some(fourcc_riff() + crate::bytes::le32_bytes((4 + body.len()) as u32) + fourcc_webp() + body)
            } else {
                None
            }
        }),
{
    lemma_chunks_kept(d, 12, options, Seq::empty(), false);
    assert(Seq::<u8>::empty() + concat_kept_chunks(chunk_list(d, 12), options) =~= concat_kept_chunks(
        chunk_list(d, 12),
        options,
    ));
}

/// The chunks of `cs` that `options` keeps, in order.
pub open spec fn kept_chunk_list(cs: Seq<Seq<u8>>, options: RemovalOptions) -> Seq<Seq<u8>>
    decreases cs.len(),
{
    if cs.len() == 0 {
        Seq::empty()
    } else {
        (if chunk_kept(cs[0], options) { seq![cs[0]] } else { Seq::empty() }) + kept_chunk_list(cs.drop_first(), options)
    }
}

/// The chunks of `cs`, one after another.
pub open spec fn concat_chunks(cs: Seq<Seq<u8>>) -> Seq<u8>
    decreases cs.len(),
{
    if cs.len() == 0 {
        Seq::empty()
    } else {
        cs[0] + concat_chunks(cs.drop_first())
    }
}

/// A chunk with its header, its payload and its padding byte: as long as
/// its size field says, rounded up to an even length.
pub open spec fn whole_chunk(c: Seq<u8>) -> bool {
    c.len() >= 8 && c.len() == 8 + le32(c, 4) + le32(c, 4) % 2
}

proof fn lemma_concat_kept(cs: Seq<Seq<u8>>, options: RemovalOptions)
    ensures
        concat_kept_chunks(cs, options) == concat_chunks(kept_chunk_list(cs, options)),
        forall|i: int|
            0 <= i < kept_chunk_list(cs, options).len() ==> cs.contains(#[trigger] kept_chunk_list(cs, options)[i])
                && chunk_kept(kept_chunk_list(cs, options)[i], options),
        forall|i: int|
            0 <= i < cs.len() && chunk_kept(#[trigger] cs[i], options) ==> kept_chunk_list(cs, options).contains(
                cs[i],
            ),
    decreases cs.len(),
{
    if cs.len() > 0 {
        let rest = cs.drop_first();
        lemma_concat_kept(rest, options);
        let kr = kept_chunk_list(rest, options);
        let k = kept_chunk_list(cs, options);
        if chunk_kept(cs[0], options) {
            assert(k == seq![cs[0]] + kr);
            assert(k[0] == cs[0]);
            assert(k.drop_first() =~= kr);
            assert forall|i: int| 0 <= i < k.len() implies cs.contains(#[trigger] k[i]) && chunk_kept(k[i], options) by {
                if i > 0 {
                    assert(k[i] == kr[i - 1]);
                    let j = choose|j: int| 0 <= j < rest.len() && rest[j] == kr[i - 1];
                    assert(cs[j + 1] == rest[j]);
                }
            }
            assert forall|i: int| 0 <= i < cs.len() && chunk_kept(#[trigger] cs[i], options) implies k.contains(cs[i]) by {
                if i == 0 {
                    assert(k[0] == cs[0]);
                } else {
                    assert(cs[i] == rest[i - 1]);
                    let j = choose|j: int| 0 <= j < kr.len() && kr[j] == rest[i - 1];
                    assert(k[j + 1] == kr[j]);
                }
            }
        } else {
            assert(k =~= kr);
            assert forall|i: int| 0 <= i < k.len() implies cs.contains(#[trigger] k[i]) && chunk_kept(k[i], options) by {
                let j = choose|j: int| 0 <= j < rest.len() && rest[j] == kr[i];
                assert(cs[j + 1] == rest[j]);
            }
            assert forall|i: int| 0 <= i < cs.len() && chunk_kept(#[trigger] cs[i], options) implies k.contains(cs[i]) by {
                assert(i != 0);
                assert(cs[i] == rest[i - 1]);
            }
        }
        if !chunk_kept(cs[0], options) {
            assert(Seq::<u8>::empty() + concat_kept_chunks(rest, options) =~= concat_kept_chunks(rest, options));
        }
    }
}

proof fn lemma_chunk_list_whole(d: Seq<u8>, pos: int)
    ensures
        forall|i: int| 0 <= i < chunk_list(d, pos).len() ==> whole_chunk(#[trigger] chunk_list(d, pos)[i]),
    decreases d.len() - pos,
{
    if 0 <= pos && pos + 8 <= d.len() {
        let size = le32(d, pos + 4);
        let next = pos + 8 + size + size % 2;
        if next <= d.len() {
            lemma_chunk_list_whole(d, next);
            let c = d.subrange(pos, next);
            let cs = chunk_list(d, pos);
            assert(cs == seq![c] + chunk_list(d, next));
            assert(le32(c, 4) == size) by {
                assert(c[4] == d[pos + 4] && c[5] == d[pos + 5] && c[6] == d[pos + 6] && c[7] == d[pos + 7]);
            }
            assert forall|i: int| 0 <= i < cs.len() implies whole_chunk(#[trigger] cs[i]) by {
                if i > 0 {
                    assert(cs[i] == chunk_list(d, next)[i - 1]);
                }
            }
        }
    }
}

/// Whole chunks laid one after another are read back by the chunk walk.
proof fn lemma_chunk_list_of_concat(o: Seq<u8>, q: int, cs: Seq<Seq<u8>>)
    requires
        0 <= q,
        forall|i: int| 0 <= i < cs.len() ==> whole_chunk(#[trigger] cs[i]),
        q + concat_chunks(cs).len() == o.len(),
        o.subrange(q, o.len() as int) == concat_chunks(cs),
    ensures
        chunk_list(o, q) == cs,
    decreases cs.len(),
{
    if cs.len() == 0 {
        assert(chunk_list(o, q) =~= cs);
    } else {
        let c = cs[0];
        let rest = cs.drop_first();
        assert forall|i: int| 0 <= i < rest.len() implies whole_chunk(#[trigger] rest[i]) by {
            assert(rest[i] == cs[i + 1]);
        }
        let n = c.len() as int;
        let t = o.subrange(q, o.len() as int);
        assert(t == c + concat_chunks(rest));
        assert forall|k: int| 0 <= k < n implies #[trigger] o[q + k] == c[k] by {
            assert(o[q + k] == t[k]);
        }
        assert(o[q + 4] == c[4] && o[q + 5] == c[5] && o[q + 6] == c[6] && o[q + 7] == c[7]);
        assert(le32(o, q + 4) == le32(c, 4));
        assert(o.subrange(q, q + n) =~= c);
        assert(o.subrange(q + n, o.len() as int) =~= concat_chunks(rest)) by {
            assert forall|k: int| 0 <= k < concat_chunks(rest).len() implies #[trigger] o.subrange(
                q + n,
                o.len() as int,
            )[k] == concat_chunks(rest)[k] by {
                assert(o.subrange(q + n, o.len() as int)[k] == t[n + k]);
            }
        }
        lemma_chunk_list_of_concat(o, q + n, rest);
        assert(chunk_list(o, q) =~= cs);
    }
}

/// The chunks of what the WebP remover writes, read back one by one, are
/// the chunks of the input that the options keep, in order.
pub proof fn lemma_webp_output_chunks(d: Seq<u8>, options: RemovalOptions)
    requires
        d.len() >= 12,
        has_tag(d, 0, fourcc_riff()),
        has_tag(d, 8, fourcc_webp()),
        le32(d, 4) + 8 == d.len(),
        chunks_tile(d, 12),
        webp_remove_spec(d, options) is Some,
    ensures
        chunk_list(webp_remove_spec(d, options)->Some_0, 12) == kept_chunk_list(chunk_list(d, 12), options),
{
    lemma_webp_keeps_chunks(d, options);
    let cs = chunk_list(d, 12);
    let body = concat_kept_chunks(cs, options);
    let o = webp_remove_spec(d, options)->Some_0;
    lemma_concat_kept(cs, options);
    lemma_chunk_list_whole(d, 12);
    let ks = kept_chunk_list(cs, options);
    assert forall|i: int| 0 <= i < ks.len() implies whole_chunk(#[trigger] ks[i]) by {
        let j = choose|j: int| 0 <= j < cs.len() && cs[j] == ks[i];
        assert(whole_chunk(cs[j]));
    }
    assert(o.subrange(12, o.len() as int) =~= body);
    lemma_chunk_list_of_concat(o, 12, ks);
}

/// What the options ask to remove is gone from what the WebP remover
/// writes, and what they keep is still there: with `exif` set no `EXIF`
/// chunk is left, with `xmp` set no `XMP ` chunk, with `icc_profile` set no
/// `ICCP` chunk; with the option unset, every such chunk of the input is
/// still among the output's chunks.
pub proof fn lemma_webp_metadata_chunks(d: Seq<u8>, options: RemovalOptions)
    requires
        d.len() >= 12,
        has_tag(d, 0, fourcc_riff()),
        has_tag(d, 8, fourcc_webp()),
        le32(d, 4) + 8 == d.len(),
        chunks_tile(d, 12),
        webp_remove_spec(d, options) is Some,
    ensures
        ({
            let out = chunk_list(webp_remove_spec(d, options)->Some_0, 12);
            let input = chunk_list(d, 12);
            let exif = seq![0x45u8, 0x58, 0x49, 0x46];
            let xmp = seq![0x58u8, 0x4d, 0x50, 0x20];
            let iccp = seq![0x49u8, 0x43, 0x43, 0x50];
            &&& forall|i: int| 0 <= i < out.len() ==> input.contains(#[trigger] out[i])
            &&& options.exif ==> forall|i: int| 0 <= i < out.len() ==> (#[trigger] out[i]).subrange(0, 4) != exif
            &&& options.xmp ==> forall|i: int| 0 <= i < out.len() ==> (#[trigger] out[i]).subrange(0, 4) != xmp
            &&& options.icc_profile ==> forall|i: int|
                0 <= i < out.len() ==> (#[trigger] out[i]).subrange(0, 4) != iccp
            &&& !options.exif ==> forall|j: int|
                0 <= j < input.len() && (#[trigger] input[j]).subrange(0, 4) == exif ==> out.contains(input[j])
            &&& !options.xmp ==> forall|j: int|
                0 <= j < input.len() && (#[trigger] input[j]).subrange(0, 4) == xmp ==> out.contains(input[j])
            &&& !options.icc_profile ==> forall|j: int|
                0 <= j < input.len() && (#[trigger] input[j]).subrange(0, 4) == iccp ==> out.contains(input[j])
        }),
{
    lemma_webp_output_chunks(d, options);
    lemma_concat_kept(chunk_list(d, 12), options);
    assert(fourcc_exif() =~= seq![0x45u8, 0x58, 0x49, 0x46]);
    assert(fourcc_xmp() =~= seq![0x58u8, 0x4d, 0x50, 0x20]);
    assert(fourcc_iccp() =~= seq![0x49u8, 0x43, 0x43, 0x50]);
}

} // verus!
