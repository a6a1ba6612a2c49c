//! Splitting an article body into bounded chunks for embedding.
//!
//! A chunk is the unit of text handed to the embedding provider.  Each
//! chunk repeats the article's title and date so that every embedding
//! carries document-level context.  Bodies are cut at ASCII space
//! boundaries, never inside a word: starting at a fixed offset the cutter
//! scans forward to the next space.  A body that never exceeds the
//! minimum threshold yields exactly one chunk.

use vstd::prelude::*;

use crate::text::push_all;
use crate::text::NEWLINE;
use crate::text::SPACE;

verus! {

/// Offset at which the scan for a chunk's split point starts.
pub const CHUNK_SIZE: usize = 2000;

/// Bodies no longer than this stay in a single chunk.
pub const MIN_CHUNK: usize = 2500;

/// Position of the first space byte at or after `from`, or the body's
/// length when no space follows.
pub open spec fn space_from(body: Seq<u8>, from: int) -> int
    decreases body.len() - from,
{
    if from >= body.len() {
        body.len() as int
    } else if body[from] == SPACE {
        from
    } else {
        space_from(body, from + 1)
    }
}

pub proof fn lemma_space_from(body: Seq<u8>, from: int)
    requires
        0 <= from <= body.len(),
    ensures
        from <= space_from(body, from) <= body.len(),
        space_from(body, from) == body.len() || body[space_from(body, from)] == SPACE,
        forall|k: int| from <= k < space_from(body, from) ==> body[k] != SPACE,
    decreases body.len() - from,
{
    if from < body.len() && body[from] != SPACE {
        lemma_space_from(body, from + 1);
    }
}

/// Where a long body is cut: the first space at or after `CHUNK_SIZE`.
pub open spec fn split_pos(body: Seq<u8>) -> int {
    space_from(body, CHUNK_SIZE as int)
}

/// The body slices of the chunks, in order.
pub open spec fn chunk_slices(body: Seq<u8>) -> Seq<Seq<u8>>
    decreases body.len(),
        via chunk_slices_dec
{
    if body.len() <= MIN_CHUNK {
        seq![body]
    } else {
        seq![body.take(split_pos(body))] + chunk_slices(body.skip(split_pos(body)))
    }
}

#[via_fn]
proof fn chunk_slices_dec(body: Seq<u8>) {
    if body.len() > MIN_CHUNK {
        lemma_space_from(body, CHUNK_SIZE as int);
    }
}

/// The two-line context header carried by every chunk.
pub open spec fn header_block(title: Seq<u8>, date: Seq<u8>) -> Seq<u8> {
    title + seq![NEWLINE] + date
}

/// The chunk texts produced for a body: every chunk but the last is the
/// header, a blank line, and a body slice; the last is the header
/// followed directly by the remaining slice.
pub open spec fn chunks_of(header: Seq<u8>, body: Seq<u8>) -> Seq<Seq<u8>>
    decreases body.len(),
        via chunks_of_dec
{
    if body.len() <= MIN_CHUNK {
        seq![header + body]
    } else {
        seq![header + seq![NEWLINE, NEWLINE] + body.take(split_pos(body))]
            + chunks_of(header, body.skip(split_pos(body)))
    }
}

#[via_fn]
proof fn chunks_of_dec(header: Seq<u8>, body: Seq<u8>) {
    if body.len() > MIN_CHUNK {
        lemma_space_from(body, CHUNK_SIZE as int);
    }
}

/// Split `body` into chunk texts, each prefixed with the title/date
/// header.  At least one chunk is always produced.
pub fn chunk_body(title: &Vec<u8>, date: &Vec<u8>, body: Vec<u8>) -> (chunks: Vec<Vec<u8>>)
    ensures
        chunks.deep_view() == chunks_of(header_block(title@, date@), body@),
        chunks.len() >= 1,
{
    let ghost h = header_block(title@, date@);
    let ghost body0 = body@;
    let mut chunks: Vec<Vec<u8>> = Vec::new();
    let mut body = body;
    proof {
        assert(chunks.deep_view() =~= Seq::<Seq<u8>>::empty());
        assert(chunks.deep_view() + chunks_of(h, body@) =~= chunks_of(h, body0));
    }
    while body.len() > MIN_CHUNK
        invariant
            h == header_block(title@, date@),
            chunks.deep_view() + chunks_of(h, body@) == chunks_of(h, body0),
        decreases body.len(),
    {
        let ghost before = body@;
        let mut split: usize = CHUNK_SIZE;
        while split < body.len() && body[split] != SPACE
            invariant
                CHUNK_SIZE <= split <= body.len(),
                space_from(body@, CHUNK_SIZE as int) == space_from(body@, split as int),
            decreases body.len() - split,
        {
            proof {
                assert(space_from(body@, split as int) == space_from(body@, split as int + 1));
            }
            split = split + 1;
        }
        proof {
            assert(space_from(body@, split as int) == split as int);
            assert(split_pos(before) == split as int);
        }
        let rest = body.split_off(split);
        let mut unit: Vec<u8> = Vec::new();
        push_all(&mut unit, title);
        unit.push(NEWLINE);
        push_all(&mut unit, date);
        unit.push(NEWLINE);
        unit.push(NEWLINE);
        push_all(&mut unit, &body);
        proof {
            assert(unit@ =~= h + seq![NEWLINE, NEWLINE] + before.take(split as int));
        }
        let ghost chunks_before = chunks.deep_view();
        chunks.push(unit);
        body = rest;
        proof {
            assert(unit.deep_view() =~= unit@);
            assert(chunks.deep_view() =~= chunks_before.push(unit@));
            assert(chunks_of(h, before)
                == seq![h + seq![NEWLINE, NEWLINE] + before.take(split as int)]
                    + chunks_of(h, before.skip(split as int)));
            assert(chunks.deep_view() + chunks_of(h, body@)
                =~= chunks_before + chunks_of(h, before));
        }
    }
    let mut unit: Vec<u8> = Vec::new();
    push_all(&mut unit, title);
    unit.push(NEWLINE);
    push_all(&mut unit, date);
    push_all(&mut unit, &body);
    proof {
        assert(unit@ =~= h + body@);
    }
    let ghost chunks_before = chunks.deep_view();
    chunks.push(unit);
    proof {
        assert(unit.deep_view() =~= unit@);
        assert(chunks.deep_view() =~= chunks_before.push(unit@));
        assert(chunks_of(h, body@) == seq![h + body@]);
        assert(chunks.deep_view() =~= chunks_before + chunks_of(h, body@));
        assert(chunks.deep_view() == chunks_of(h, body0));
        assert(chunks.deep_view().len() == chunks@.len());
    }
    chunks
}

/// Law: a body within the single-chunk threshold yields exactly one
/// chunk, the header followed by the whole body.
pub proof fn lemma_short_body_single_chunk(header: Seq<u8>, body: Seq<u8>)
    requires
        body.len() <= MIN_CHUNK,
    ensures
        chunks_of(header, body).len() == 1,
        chunks_of(header, body)[0] == header + body,
{
}

/// All the parts, concatenated in order.
pub open spec fn concat_all(parts: Seq<Seq<u8>>) -> Seq<u8>
    decreases parts.len(),
{
    if parts.len() == 0 {
        Seq::empty()
    } else {
        parts.first() + concat_all(parts.drop_first())
    }
}

/// Law: the body slices of the chunks reconstruct the body exactly.
pub proof fn lemma_chunks_cover_body(body: Seq<u8>)
    ensures
        concat_all(chunk_slices(body)) == body,
    decreases body.len(),
{
    if body.len() <= MIN_CHUNK {
        let s = chunk_slices(body);
        assert(s == seq![body]);
        assert(s.first() == body);
        assert(s.drop_first() =~= Seq::<Seq<u8>>::empty());
        assert(concat_all(s.drop_first()) == Seq::<u8>::empty());
        assert(concat_all(s) == body + Seq::<u8>::empty());
        assert(body + Seq::<u8>::empty() =~= body);
    } else {
        let p = split_pos(body);
        lemma_space_from(body, CHUNK_SIZE as int);
        let s = chunk_slices(body);
        assert(s == seq![body.take(p)] + chunk_slices(body.skip(p)));
        assert(s.first() == body.take(p));
        assert(s.drop_first() =~= chunk_slices(body.skip(p)));
        lemma_chunks_cover_body(body.skip(p));
        assert(concat_all(s) == body.take(p) + body.skip(p));
        assert(body.take(p) + body.skip(p) =~= body);
    }
}

/// Law: no cut falls inside a word.  Every slice after the first either
/// is empty (the body ended without a further space) or begins with the
/// space byte found at the cut.
pub proof fn lemma_cuts_on_spaces(body: Seq<u8>)
    ensures
        forall|i: int|
            1 <= i < chunk_slices(body).len() ==> (#[trigger] chunk_slices(body)[i]).len() == 0
                || chunk_slices(body)[i][0] == SPACE,
    decreases body.len(),
{
    if body.len() > MIN_CHUNK {
        let p = split_pos(body);
        lemma_space_from(body, CHUNK_SIZE as int);
        let tail = body.skip(p);
        lemma_cuts_on_spaces(tail);
        let s = chunk_slices(body);
        assert(s == seq![body.take(p)] + chunk_slices(tail));
        assert forall|i: int|
            1 <= i < s.len() implies (#[trigger] s[i]).len() == 0 || s[i][0] == SPACE by {
            assert(s[i] == chunk_slices(tail)[i - 1]);
            if i == 1 {
                if tail.len() == 0 {
                    assert(chunk_slices(tail) == seq![tail]);
                    assert(s[i].len() == 0);
                } else {
                    assert(p < body.len());
                    assert(body[p] == SPACE);
                    assert(tail[0] == SPACE);
                    if tail.len() <= MIN_CHUNK {
                        assert(chunk_slices(tail) == seq![tail]);
                        assert(s[i][0] == SPACE);
                    } else {
                        lemma_space_from(tail, CHUNK_SIZE as int);
                        assert(chunk_slices(tail)[0] == tail.take(split_pos(tail)));
                        assert(s[i][0] == SPACE);
                    }
                }
            }
        }
    }
}

/// Law: the chunk texts are exactly the header glued to the body slices;
/// a blank line separates the two in every chunk but the last.
pub proof fn lemma_chunks_shape(header: Seq<u8>, body: Seq<u8>)
    ensures
        chunks_of(header, body).len() == chunk_slices(body).len(),
        chunk_slices(body).len() >= 1,
        forall|i: int|
            0 <= i < chunk_slices(body).len() - 1 ==> #[trigger] chunks_of(header, body)[i]
                == header + seq![NEWLINE, NEWLINE] + chunk_slices(body)[i],
        chunks_of(header, body).last() == header + chunk_slices(body).last(),
    decreases body.len(),
{
    if body.len() <= MIN_CHUNK {
        assert(chunks_of(header, body) == seq![header + body]);
        assert(chunk_slices(body) == seq![body]);
    } else {
        let p = split_pos(body);
        lemma_space_from(body, CHUNK_SIZE as int);
        lemma_chunks_shape(header, body.skip(p));
        let c = chunks_of(header, body);
        let s = chunk_slices(body);
        assert(c == seq![header + seq![NEWLINE, NEWLINE] + body.take(p)]
            + chunks_of(header, body.skip(p)));
        assert(s == seq![body.take(p)] + chunk_slices(body.skip(p)));
        assert(c.last() == chunks_of(header, body.skip(p)).last());
        assert(s.last() == chunk_slices(body.skip(p)).last());
        assert forall|i: int|
            0 <= i < s.len() - 1 implies #[trigger] c[i]
                == header + seq![NEWLINE, NEWLINE] + s[i] by {
            if i >= 1 {
                assert(c[i] == chunks_of(header, body.skip(p))[i - 1]);
                assert(s[i] == chunk_slices(body.skip(p))[i - 1]);
            }
        }
    }
}

} // verus!
