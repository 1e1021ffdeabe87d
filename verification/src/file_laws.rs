//! What a file gives back: its segments are stored one by one, and a byte range
//! is read as one run of frames across them.
use vstd::prelude::*;

use crate::byte::{ceil_div, clips, request_clip, ByteRequest};
use crate::catalog::{aligned, row_error, rows_complete, sizes_of, SegmentRow};
use crate::frame::TAG_SIZE;
use crate::join::{joined, lemma_joined_at};
use crate::sums::total;
use crate::upload::{
    download_after, is_sealed, law_stored_frames_decrypt, law_uploaded_range_reads_back,
    lemma_ceil_div, padded, payload_frame,
};

verus! {

/// The frames of the first `n` bodies.
pub open spec fn frames_up_to(bodies: Seq<Seq<u8>>, payload_size: int, n: int) -> int
    decreases n,
{
    if n <= 0 {
        0
    } else {
        frames_up_to(bodies, payload_size, n - 1) + ceil_div(
            bodies[n - 1].len() as int,
            payload_size,
        )
    }
}

/// Whether frame number `g` of the file is frame `j` of body `i`.
pub open spec fn is_frame_of(
    bodies: Seq<Seq<u8>>,
    payload_size: int,
    g: int,
    i: int,
    j: int,
) -> bool {
    &&& 0 <= i < bodies.len()
    &&& 0 <= j < ceil_div(bodies[i].len() as int, payload_size)
    &&& frames_up_to(bodies, payload_size, i) + j == g
}

/// Whether this is frame number `g` of the file.
pub open spec fn is_file_frame(
    bodies: Seq<Seq<u8>>,
    payload_size: int,
    g: int,
    frame: Seq<u8>,
) -> bool {
    exists|i: int, j: int| #[trigger]
        is_frame_of(bodies, payload_size, g, i, j) && frame == payload_frame(
            bodies[i],
            payload_size,
            j,
        )
}

/// Whether every body but the last fills its frames.
pub open spec fn bodies_aligned(bodies: Seq<Seq<u8>>, payload_size: int) -> bool {
    forall|k: int|
        0 <= k < bodies.len() - 1 ==> (#[trigger] bodies[k]).len() as int % payload_size == 0
}

proof fn lemma_frames_fill(bodies: Seq<Seq<u8>>, payload_size: int, n: int)
    requires
        payload_size > 0,
        bodies_aligned(bodies, payload_size),
        0 <= n < bodies.len(),
    ensures
        joined(bodies.take(n)).len() == frames_up_to(bodies, payload_size, n) * payload_size,
        frames_up_to(bodies, payload_size, n) >= 0,
    decreases n,
{
    if n == 0 {
        assert(bodies.take(0).len() == 0);
        assert(0 * payload_size == 0);
    } else {
        lemma_frames_fill(bodies, payload_size, n - 1);
        let size = bodies[n - 1].len() as int;
        let before = frames_up_to(bodies, payload_size, n - 1);
        assert(bodies.take(n).drop_last() =~= bodies.take(n - 1));
        assert(bodies.take(n).last() == bodies[n - 1]);
        vstd::arithmetic::div_mod::lemma_fundamental_div_mod(size, payload_size);
        vstd::arithmetic::div_mod::lemma_div_pos_is_pos(size, payload_size);
        assert((before + size / payload_size) * payload_size == before * payload_size
            + payload_size * (size / payload_size)) by (nonlinear_arith);
    }
}

/// The frames of the bodies are those of the joined bodies.
proof fn lemma_frame_of_file(bodies: Seq<Seq<u8>>, payload_size: int, g: int, i: int, j: int)
    requires
        payload_size > 0,
        bodies_aligned(bodies, payload_size),
        is_frame_of(bodies, payload_size, g, i, j),
    ensures
        payload_frame(joined(bodies), payload_size, g) == payload_frame(
            bodies[i],
            payload_size,
            j,
        ),
{
    let whole = joined(bodies);
    let body = bodies[i];
    let size = body.len() as int;
    let start = joined(bodies.take(i)).len() as int;
    lemma_frames_fill(bodies, payload_size, i);
    lemma_joined_at(bodies, i);
    lemma_ceil_div(size, payload_size);
    lemma_ceil_div(whole.len() as int, payload_size);
    let before = frames_up_to(bodies, payload_size, i);
    let blocks = ceil_div(size, payload_size);
    let all_blocks = ceil_div(whole.len() as int, payload_size);
    assert(g * payload_size == start + j * payload_size) by (nonlinear_arith)
        requires
            g == before + j,
            start == before * payload_size,
    ;
    assert((g + 1) * payload_size == g * payload_size + payload_size) by (nonlinear_arith);
    assert((j + 1) * payload_size == j * payload_size + payload_size) by (nonlinear_arith);
    assert(0 <= j * payload_size && (j + 1) * payload_size <= blocks * payload_size)
        by (nonlinear_arith)
        requires
            0 <= j < blocks,
            payload_size > 0,
    ;
    assert(j * payload_size < size) by (nonlinear_arith)
        requires
            j + 1 <= blocks,
            blocks * payload_size < size + payload_size,
            payload_size > 0,
    ;
    assert((g + 1) * payload_size <= all_blocks * payload_size) by (nonlinear_arith)
        requires
            g * payload_size < all_blocks * payload_size,
            payload_size > 0,
    ;
    if i < bodies.len() - 1 {
        assert(bodies[i].len() as int % payload_size == 0);
        vstd::arithmetic::div_mod::lemma_fundamental_div_mod(size, payload_size);
        assert(blocks * payload_size == size) by (nonlinear_arith)
            requires
                blocks == size / payload_size,
                size == payload_size * (size / payload_size) + 0,
        ;
    }
    let mine = payload_frame(body, payload_size, j);
    let theirs = payload_frame(whole, payload_size, g);
    assert(padded(body, payload_size).len() == blocks * payload_size);
    assert(padded(whole, payload_size).len() == all_blocks * payload_size);
    assert forall|x: int| 0 <= x < payload_size implies #[trigger] theirs[x] == mine[x] by {
        let at = j * payload_size + x;
        assert(theirs[x] == padded(whole, payload_size)[start + at]);
        assert(mine[x] == padded(body, payload_size)[at]);
        if at < size {
            assert(whole.subrange(start, start + size)[at] == body[at]);
        } else {
            assert(i == bodies.len() - 1);
            assert(start + at >= whole.len());
        }
    }
    assert(theirs =~= mine);
}

/// The file promise: frames taken from one body after the other, clipped once,
/// are exactly the bytes asked for of the bodies joined. Every body but the last
/// fills its frames.
pub proof fn law_file_of_segments_reads_back(
    bodies: Seq<Seq<u8>>,
    request: ByteRequest,
    payload_size: int,
    frames: Seq<Seq<u8>>,
)
    requires
        payload_size > 0,
        request.wf(),
        request.end() <= joined(bodies).len(),
        bodies_aligned(bodies, payload_size),
        frames.len() == ceil_div(request.end(), payload_size) - request.start() / payload_size,
        forall|k: int|
            0 <= k < frames.len() ==> is_file_frame(
                bodies,
                payload_size,
                request.start() / payload_size + k,
                #[trigger] frames[k],
            ),
    ensures
        joined(clips(request_clip(request, payload_size), frames)) == joined(bodies).subrange(
            request.start(),
            request.end(),
        ),
{
    let first = request.start() / payload_size;
    assert forall|k: int| 0 <= k < frames.len() implies #[trigger] frames[k] == payload_frame(
        joined(bodies),
        payload_size,
        first + k,
    ) by {
        assert(is_file_frame(bodies, payload_size, first + k, frames[k]));
        let (i, j) = choose|i: int, j: int| #[trigger]
            is_frame_of(bodies, payload_size, first + k, i, j) && frames[k] == payload_frame(
                bodies[i],
                payload_size,
                j,
            );
        lemma_frame_of_file(bodies, payload_size, first + k, i, j);
    }
    law_uploaded_range_reads_back(joined(bodies), request, payload_size, frames);
}

/// Whether the rows of a file describe these bodies.
pub open spec fn rows_describe(rows: Seq<SegmentRow>, bodies: Seq<Seq<u8>>) -> bool {
    &&& rows.len() == bodies.len()
    &&& forall|i: int| 0 <= i < rows.len() ==> (#[trigger] rows[i]).size == bodies[i].len()
}

/// Whether the payload is what a download of some frames of segment `i` of the
/// file gave for frame number `g` of the file.
pub open spec fn is_downloaded(
    bodies: Seq<Seq<u8>>,
    keys: Seq<Seq<u8>>,
    sealed: Seq<Seq<Seq<u8>>>,
    frame_size: int,
    g: int,
    i: int,
    frames: (int, int),
    taken: int,
    payload: Seq<u8>,
) -> bool {
    &&& is_frame_of(bodies, frame_size - TAG_SIZE, g, i, frames.0 + taken)
    &&& 0 <= frames.0 <= frames.0 + taken < frames.1 <= sealed[i].len()
    &&& download_after(keys[i], joined(sealed[i]), frame_size, frames, taken).next_payload()
        == Some(payload)
}

/// Whether the payload is what some download gave for frame number `g` of the
/// file.
pub open spec fn was_downloaded(
    bodies: Seq<Seq<u8>>,
    keys: Seq<Seq<u8>>,
    sealed: Seq<Seq<Seq<u8>>>,
    frame_size: int,
    g: int,
    payload: Seq<u8>,
) -> bool {
    exists|i: int, frames: (int, int), taken: int| #[trigger]
        is_downloaded(bodies, keys, sealed, frame_size, g, i, frames, taken, payload)
}

/// Whether each segment was stored as the encrypted frames of its body.
pub open spec fn segments_sealed(
    bodies: Seq<Seq<u8>>,
    keys: Seq<Seq<u8>>,
    sealed: Seq<Seq<Seq<u8>>>,
    frame_size: int,
) -> bool {
    &&& keys.len() == bodies.len()
    &&& sealed.len() == bodies.len()
    &&& forall|i: int|
        0 <= i < bodies.len() ==> is_sealed(keys[i], bodies[i], frame_size, #[trigger] sealed[i])
}

proof fn lemma_download_gives_frame(
    bodies: Seq<Seq<u8>>,
    keys: Seq<Seq<u8>>,
    sealed: Seq<Seq<Seq<u8>>>,
    frame_size: int,
    g: int,
    payload: Seq<u8>,
)
    requires
        TAG_SIZE < frame_size,
        segments_sealed(bodies, keys, sealed, frame_size),
        was_downloaded(bodies, keys, sealed, frame_size, g, payload),
    ensures
        is_file_frame(bodies, frame_size - TAG_SIZE, g, payload),
{
    let (i, frames, taken) = choose|i: int, frames: (int, int), taken: int| #[trigger]
        is_downloaded(bodies, keys, sealed, frame_size, g, i, frames, taken, payload);
    assert(is_sealed(keys[i], bodies[i], frame_size, sealed[i]));
    law_stored_frames_decrypt(keys[i], bodies[i], frame_size, sealed[i], frames, taken);
    assert(is_frame_of(bodies, frame_size - TAG_SIZE, g, i, frames.0 + taken));
}

proof fn lemma_rows_give_alignment(
    rows: Seq<SegmentRow>,
    bodies: Seq<Seq<u8>>,
    payload_size: int,
)
    requires
        payload_size > 0,
        rows_complete(rows, payload_size),
        rows_describe(rows, bodies),
    ensures
        bodies_aligned(bodies, payload_size),
{
    assert forall|k: int| 0 <= k < bodies.len() - 1 implies (#[trigger] bodies[k]).len() as int
        % payload_size == 0 by {
        assert(row_error(rows, payload_size, k) is None);
        assert(rows[k].size == bodies[k].len());
        assert(aligned(rows[k].size as int, payload_size));
    }
}

proof fn lemma_rows_give_size(rows: Seq<SegmentRow>, bodies: Seq<Seq<u8>>)
    requires
        rows_describe(rows, bodies),
    ensures
        total(sizes_of(rows)) == joined(bodies).len(),
    decreases rows.len(),
{
    if rows.len() > 0 {
        let last = rows.len() - 1;
        assert forall|i: int| 0 <= i < last implies (#[trigger] rows.drop_last()[i]).size
            == bodies.drop_last()[i].len() by {
            assert(rows[i].size == bodies[i].len());
        }
        lemma_rows_give_size(rows.drop_last(), bodies.drop_last());
        assert(sizes_of(rows).drop_last() =~= sizes_of(rows.drop_last()));
        assert(rows[last].size == bodies[last].len());
    }
}

/// Write, then read, of a whole file: each segment was stored as the encrypted
/// frames of its body, and the catalog took the file as complete. Then the size
/// that it tells is that of the bodies joined. Of a byte range within it, the
/// frames are downloaded from one segment after the other, in whatever runs, and
/// clipped once: the result is exactly the bytes asked for.
pub proof fn law_completed_file_reads_back(
    rows: Seq<SegmentRow>,
    bodies: Seq<Seq<u8>>,
    keys: Seq<Seq<u8>>,
    sealed: Seq<Seq<Seq<u8>>>,
    frame_size: int,
    request: ByteRequest,
    payloads: Seq<Seq<u8>>,
)
    requires
        TAG_SIZE < frame_size,
        rows_complete(rows, frame_size - TAG_SIZE),
        rows_describe(rows, bodies),
        segments_sealed(bodies, keys, sealed, frame_size),
        request.wf(),
        request.end() <= total(sizes_of(rows)),
        payloads.len() == ceil_div(request.end(), frame_size - TAG_SIZE) - request.start() / (
        frame_size - TAG_SIZE),
        forall|k: int|
            0 <= k < payloads.len() ==> was_downloaded(
                bodies,
                keys,
                sealed,
                frame_size,
                request.start() / (frame_size - TAG_SIZE) + k,
                #[trigger] payloads[k],
            ),
    ensures
        total(sizes_of(rows)) == joined(bodies).len(),
        joined(clips(request_clip(request, frame_size - TAG_SIZE), payloads)) == joined(
            bodies,
        ).subrange(request.start(), request.end()),
{
    let payload_size = frame_size - TAG_SIZE;
    let first = request.start() / payload_size;
    lemma_rows_give_alignment(rows, bodies, payload_size);
    lemma_rows_give_size(rows, bodies);
    assert forall|k: int| 0 <= k < payloads.len() implies is_file_frame(
        bodies,
        payload_size,
        first + k,
        #[trigger] payloads[k],
    ) by {
        lemma_download_gives_frame(bodies, keys, sealed, frame_size, first + k, payloads[k]);
    }
    law_file_of_segments_reads_back(bodies, request, payload_size, payloads);
}

} // verus!
