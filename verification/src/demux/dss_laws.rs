//! What holds of DSS files however they are read.
use crate::bytes;
use crate::demux::container_laws;
use crate::demux::dss;
use crate::demux::dss::{DssDemux, DssRun, DssState, Input, Reset};
use crate::demux::framing;
use crate::demux::packet;
use crate::demux::packet::Swap;
use vstd::prelude::*;

verus! {

proof fn lemma_run_split(s: DssState, a: Seq<Seq<u8>>, b: Seq<Seq<u8>>)
    ensures
        ({
            let first = dss::dss_run(s, a);
            let second = dss::dss_run(first.state, b);
            dss::dss_run(s, a + b) == DssRun {
                state: second.state,
                frames: first.frames + second.frames,
            }
        }),
    decreases b.len(),
{
    let first = dss::dss_run(s, a);
    if b.len() == 0 {
        assert(a + b =~= a);
        assert(first.frames + Seq::<Seq<u8>>::empty() =~= first.frames);
    } else {
        lemma_run_split(s, a, b.drop_last());
        assert((a + b).drop_last() =~= a + b.drop_last());
        let middle = dss::dss_run(first.state, b.drop_last());
        let last = dss::dss_cut(dss::dss_with(middle.state, b.last()), Input::Open);
        assert((first.frames + middle.frames) + last.frames =~= first.frames + (middle.frames
            + last.frames));
    }
}

/// A DSS demuxer hands out the same frames, and ends in the same state, however the file
/// is cut into pieces: as if it had come in one piece.
pub proof fn law_dss_pieces_make_no_difference(s: DssDemux, pieces: Seq<Seq<u8>>)
    requires
        framing::valid(s.framing),
        s.framing.header_size > 0,
    ensures
        dss::dss_fed(s, pieces) == dss::dss_push(s, framing::joined(pieces)),
        framing::valid(dss::dss_fed(s, pieces).0.framing),
    decreases pieces.len(),
{
    if pieces.len() == 0 {
        let none = Seq::<u8>::empty();
        assert(s.framing.buf + none =~= s.framing.buf);
        assert(framing::after(s.framing, none) =~= s.framing);
        assert(framing::cut(s.framing, none) =~= Seq::empty());
    } else {
        let x = framing::joined(pieces.drop_last());
        let y = pieces.last();
        law_dss_pieces_make_no_difference(s, pieces.drop_last());
        framing::law_pieces_make_no_difference(s.framing, x, y);
        lemma_run_split(
            s.dss,
            framing::cut(s.framing, x),
            framing::cut(framing::after(s.framing, x), y),
        );
    }
}

proof fn lemma_cut_counts(s: DssState, input: Input)
    ensures
        ({
            let r = dss::dss_cut(s, input);
            &&& r.frames.len() + r.state.awaited == s.awaited
            &&& input is Lenient ==> r.state.awaited == 0
            &&& forall|i: int| 0 <= i < r.frames.len() ==> (#[trigger] r.frames[i]).len() == 42
        }),
    decreases s.awaited,
{
    if s.awaited > 0 && !dss::must_wait(s, input) {
        lemma_cut_counts(dss::after_packet(s), input);
    }
}

proof fn lemma_run_counts(blocks: Seq<Seq<u8>>)
    ensures
        ({
            let r = dss::dss_run(dss::dss_start(), blocks);
            &&& r.frames.len() + r.state.awaited == framing::frame_total(blocks)
            &&& forall|i: int| 0 <= i < r.frames.len() ==> (#[trigger] r.frames[i]).len() == 42
        }),
    decreases blocks.len(),
{
    if blocks.len() > 0 {
        lemma_run_counts(blocks.drop_last());
        let before = dss::dss_run(dss::dss_start(), blocks.drop_last());
        lemma_cut_counts(dss::dss_with(before.state, blocks.last()), Input::Open);
    }
}

/// Whatever pieces a DSS file comes in, and whatever its resets, every frame that a block
/// counts is handed out, on the way or at a lenient end, and has 42 bytes.
pub proof fn law_dss_every_frame_is_handed_out(file: Seq<u8>, pieces: Seq<Seq<u8>>)
    requires
        framing::joined(pieces) == file,
        dss::is_dss(file),
        file.len() >= 512 * file[0],
    ensures
        ({
            let (s, frames) = dss::dss_fed(dss::dss_new(file[0]), pieces);
            let all = frames + dss::dss_cut(s.dss, Input::Lenient).frames;
            &&& all.len() == framing::frame_total(framing::blocks(dss::body(file)))
            &&& forall|i: int| 0 <= i < all.len() ==> (#[trigger] all[i]).len() == 42
        }),
{
    law_dss_pieces_make_no_difference(dss::dss_new(file[0]), pieces);
    assert(Seq::<u8>::empty() + file =~= file);
    lemma_run_counts(framing::blocks(dss::body(file)));
    let (s, frames) = dss::dss_fed(dss::dss_new(file[0]), pieces);
    lemma_cut_counts(s.dss, Input::Lenient);
}

/// Block `n - 1` is empty, and a block with frames comes later: it demands a reset.
pub open spec fn demands_reset(blocks: Seq<Seq<u8>>, n: int) -> bool {
    framing::frame_count(blocks[n - 1]) == 0 && dss::next_swap(blocks, n) is Some
}

/// The stream of a prefix grows with the prefix; with a frame in it, it is not empty.
proof fn lemma_stream_grows(blocks: Seq<Seq<u8>>, n: int)
    requires
        0 <= n < blocks.len(),
        forall|i: int| 0 <= i < blocks.len() ==> (#[trigger] blocks[i]).len() == 512,
    ensures
        dss::stream_of(blocks.take(n + 1)) == dss::stream_of(blocks.take(n)) + dss::contribution(
            blocks[n],
        ),
        framing::frame_total(blocks.take(n + 1)) == framing::frame_total(blocks.take(n))
            + framing::frame_count(blocks[n]),
{
    assert(blocks.take(n + 1).drop_last() =~= blocks.take(n));
}

/// Blocks that add nothing to the stream have no frames, so the next block with frames is
/// the same before and after them.
proof fn lemma_same_place_same_next(blocks: Seq<Seq<u8>>, n: int, m: int)
    requires
        0 <= n <= m <= blocks.len(),
        forall|i: int| 0 <= i < blocks.len() ==> (#[trigger] blocks[i]).len() == 512,
    ensures
        dss::stream_of(blocks.take(n)).len() <= dss::stream_of(blocks.take(m)).len(),
        dss::stream_of(blocks.take(n)).len() == dss::stream_of(blocks.take(m)).len()
            ==> dss::next_swap(blocks, n) == dss::next_swap(blocks, m),
    decreases m - n,
{
    if n < m {
        lemma_stream_grows(blocks, n);
        lemma_same_place_same_next(blocks, n + 1, m);
    }
}

proof fn lemma_reset_found(blocks: Seq<Seq<u8>>, n: int, m: int)
    requires
        0 < n <= m <= blocks.len(),
        forall|i: int| 0 <= i < blocks.len() ==> (#[trigger] blocks[i]).len() == 512,
        demands_reset(blocks, n),
    ensures
        dss::reset_at(blocks, m, dss::stream_of(blocks.take(n)).len() as int) == dss::next_swap(
            blocks,
            n,
        ),
    decreases m,
{
    lemma_same_place_same_next(blocks, n, m);
    if n < m {
        lemma_reset_found(blocks, n, m - 1);
    }
}

/// The length of the stream that the first `n` blocks hold.
spec fn place(blocks: Seq<Seq<u8>>, n: int) -> nat {
    dss::stream_of(blocks.take(n)).len()
}

proof fn lemma_reset_origin(blocks: Seq<Seq<u8>>, n: int, pos: int) -> (m: int)
    requires
        n <= blocks.len(),
        dss::reset_at(blocks, n, pos) is Some,
    ensures
        0 < m <= n,
        demands_reset(blocks, m),
        place(blocks, m) == pos,
        dss::next_swap(blocks, m) == dss::reset_at(blocks, n, pos),
    decreases n,
{
    if framing::frame_count(blocks[n - 1]) == 0 && place(blocks, n) == pos && dss::next_swap(
        blocks,
        n,
    ) is Some {
        n
    } else {
        lemma_reset_origin(blocks, n - 1, pos)
    }
}

/// The swap state and the stream position after `n` packets.
spec fn walked(blocks: Seq<Seq<u8>>, stream: Seq<u8>, sw: Swap, pos: int, n: nat) -> (Swap, int)
    decreases n,
{
    if n == 0 {
        (sw, pos)
    } else {
        let now = dss::swap_at(blocks, sw, pos);
        let size = packet::need(now.on) as int;
        let chunk = dss::chunk_at(stream, pos, size);
        walked(blocks, stream, packet::swap_after(now, chunk), pos + size, (n - 1) as nat)
    }
}

proof fn lemma_packets_split(
    blocks: Seq<Seq<u8>>,
    stream: Seq<u8>,
    sw: Swap,
    pos: int,
    a: nat,
    b: nat,
)
    ensures
        ({
            let mid = walked(blocks, stream, sw, pos, a);
            &&& dss::packets_from(blocks, stream, sw, pos, a + b) == dss::packets_from(
                blocks,
                stream,
                sw,
                pos,
                a,
            ) + dss::packets_from(blocks, stream, mid.0, mid.1, b)
            &&& walked(blocks, stream, sw, pos, a + b) == walked(blocks, stream, mid.0, mid.1, b)
        }),
    decreases a,
{
    let mid = walked(blocks, stream, sw, pos, a);
    let rest = dss::packets_from(blocks, stream, mid.0, mid.1, b);
    if a == 0 {
        assert(Seq::<Seq<u8>>::empty() + rest =~= rest);
    } else {
        let now = dss::swap_at(blocks, sw, pos);
        let size = packet::need(now.on) as int;
        let chunk = dss::chunk_at(stream, pos, size);
        let next = packet::swap_after(now, chunk);
        lemma_packets_split(blocks, stream, next, pos + size, (a - 1) as nat, b);
        assert((a + b - 1) as nat == (a - 1) as nat + b);
        let first = seq![packet::packet(now, chunk)];
        let middle = dss::packets_from(blocks, stream, next, pos + size, (a - 1) as nat);
        assert((first + middle) + rest =~= first + (middle + rest));
    }
}

/// The resets that the first `n` blocks announce, at positions counted from the start.
spec fn announced(blocks: Seq<Seq<u8>>, n: int) -> Seq<Reset>
    decreases n,
{
    if n <= 0 {
        Seq::empty()
    } else if framing::frame_count(blocks[n - 1]) == 0 {
        announced(blocks, n - 1).push(Reset { at: place(blocks, n), on: None })
    } else {
        dss::settled(announced(blocks, n - 1), framing::block_swap(blocks[n - 1]))
    }
}

/// Each reset comes from an empty block; its swap bit is that of the next block with
/// frames, as far as the blocks tell.
proof fn lemma_announced_by(blocks: Seq<Seq<u8>>, n: int, i: int) -> (m: int)
    requires
        0 <= n <= blocks.len(),
        0 <= i < announced(blocks, n).len(),
    ensures
        0 < m <= n,
        framing::frame_count(blocks[m - 1]) == 0,
        announced(blocks, n)[i].at == place(blocks, m),
        announced(blocks, n)[i].on is Some ==> dss::next_swap(blocks, m) == announced(
            blocks,
            n,
        )[i].on,
        announced(blocks, n)[i].on is None ==> dss::next_swap(blocks, m) == dss::next_swap(
            blocks,
            n,
        ),
    decreases n,
{
    if framing::frame_count(blocks[n - 1]) == 0 && i == announced(blocks, n - 1).len() {
        n
    } else {
        lemma_announced_by(blocks, n - 1, i)
    }
}

proof fn lemma_empty_blocks_announce(blocks: Seq<Seq<u8>>, n: int, m: int) -> (i: int)
    requires
        0 < m <= n <= blocks.len(),
        framing::frame_count(blocks[m - 1]) == 0,
    ensures
        0 <= i < announced(blocks, n).len(),
        announced(blocks, n)[i].at == place(blocks, m),
    decreases n,
{
    if m == n {
        announced(blocks, n - 1).len() as int
    } else {
        lemma_empty_blocks_announce(blocks, n - 1, m)
    }
}

/// The resets stand in the order of the stream.
spec fn in_order(resets: Seq<Reset>) -> bool {
    forall|i: int, j: int|
        0 <= i <= j < resets.len() ==> (#[trigger] resets[i]).at <= (#[trigger] resets[j]).at
}

proof fn lemma_announced_in_order(blocks: Seq<Seq<u8>>, n: int)
    requires
        0 <= n <= blocks.len(),
        forall|i: int| 0 <= i < blocks.len() ==> (#[trigger] blocks[i]).len() == 512,
    ensures
        in_order(announced(blocks, n)),
        forall|i: int|
            0 <= i < announced(blocks, n).len() ==> (#[trigger] announced(blocks, n)[i]).at
                <= place(blocks, n),
    decreases n,
{
    if n > 0 {
        lemma_announced_in_order(blocks, n - 1);
        lemma_stream_grows(blocks, n - 1);
        let before = announced(blocks, n - 1);
        let now = announced(blocks, n);
        assert forall|i: int| 0 <= i < before.len() implies (#[trigger] now[i]).at
            == before[i].at by {}
        assert forall|i: int| 0 <= i < now.len() implies (#[trigger] now[i]).at <= place(
            blocks,
            n,
        ) by {
            if i < before.len() {
                assert(before[i].at <= place(blocks, n - 1));
            }
        }
        assert forall|i: int, j: int| 0 <= i <= j < now.len() implies (#[trigger] now[i]).at <= (
        #[trigger] now[j]).at by {
            if j < before.len() {
                assert(before[i].at <= before[j].at);
            }
        }
    }
}

proof fn lemma_ahead_from(resets: Seq<Reset>, n: nat, j: int) -> (i: int)
    requires
        0 <= j < dss::ahead(resets, n).len(),
    ensures
        0 <= i < resets.len(),
        resets[i].at >= n,
        dss::ahead(resets, n)[j].at == resets[i].at - n,
        dss::ahead(resets, n)[j].on == resets[i].on,
    decreases resets.len(),
{
    let before = dss::ahead(resets.drop_last(), n);
    if j < before.len() {
        lemma_ahead_from(resets.drop_last(), n, j)
    } else {
        resets.len() - 1
    }
}

proof fn lemma_ahead_keeps(resets: Seq<Reset>, n: nat, i: int) -> (j: int)
    requires
        0 <= i < resets.len(),
        resets[i].at >= n,
    ensures
        0 <= j < dss::ahead(resets, n).len(),
        dss::ahead(resets, n)[j].at == resets[i].at - n,
    decreases resets.len(),
{
    let before = dss::ahead(resets.drop_last(), n);
    if i < resets.len() - 1 {
        lemma_ahead_keeps(resets.drop_last(), n, i)
    } else {
        before.len() as int
    }
}

proof fn lemma_ahead_in_order(resets: Seq<Reset>, n: nat)
    requires
        in_order(resets),
    ensures
        in_order(dss::ahead(resets, n)),
    decreases resets.len(),
{
    if resets.len() > 0 {
        let shorter = resets.drop_last();
        assert(in_order(shorter)) by {
            assert forall|i: int, j: int| 0 <= i <= j < shorter.len() implies (
            #[trigger] shorter[i]).at <= (#[trigger] shorter[j]).at by {
                assert(resets[i].at <= resets[j].at);
            }
        }
        lemma_ahead_in_order(shorter, n);
        let before = dss::ahead(shorter, n);
        let now = dss::ahead(resets, n);
        assert forall|i: int, j: int| 0 <= i <= j < now.len() implies (#[trigger] now[i]).at <= (
        #[trigger] now[j]).at by {
            if j < before.len() {
                assert(before[i].at <= before[j].at);
            } else if i < before.len() {
                let k = lemma_ahead_from(shorter, n, i);
                assert(resets[k].at <= resets[resets.len() - 1].at);
            }
        }
    }
}

proof fn lemma_ahead_twice(resets: Seq<Reset>, a: nat, b: nat)
    ensures
        dss::ahead(dss::ahead(resets, a), b) == dss::ahead(resets, a + b),
    decreases resets.len(),
{
    if resets.len() > 0 {
        lemma_ahead_twice(resets.drop_last(), a, b);
        let before = dss::ahead(resets.drop_last(), a);
        let last = resets.last();
        if last.at >= a {
            let moved = Reset { at: (last.at - a) as nat, on: last.on };
            assert(before.push(moved).drop_last() =~= before);
        }
    }
}

proof fn lemma_ahead_settled(resets: Seq<Reset>, n: nat, on: bool)
    ensures
        dss::ahead(dss::settled(resets, on), n) == dss::settled(dss::ahead(resets, n), on),
    decreases resets.len(),
{
    if resets.len() > 0 {
        lemma_ahead_settled(resets.drop_last(), n, on);
        assert(dss::settled(resets, on).drop_last() =~= dss::settled(resets.drop_last(), on));
        assert(dss::ahead(dss::settled(resets, on), n) =~= dss::settled(
            dss::ahead(resets, n),
            on,
        ));
    } else {
        assert(dss::ahead(dss::settled(resets, on), n) =~= dss::settled(
            dss::ahead(resets, n),
            on,
        ));
    }
}

/// The resets of a stream position are those of the blocks before it, so the next packet is
/// read as in the whole file: at once where its reset is settled or there is none, and at
/// the end of the input in any case.
proof fn lemma_front_swap(blocks: Seq<Seq<u8>>, n: int, s: DssState, pos: nat, input: Input)
    requires
        0 <= n <= blocks.len(),
        forall|i: int| 0 <= i < blocks.len() ==> (#[trigger] blocks[i]).len() == 512,
        s.resets == dss::ahead(announced(blocks, n), pos),
        input is Open ==> !(dss::reset_is_due(s) && s.resets[0].on is None),
        !(input is Open) ==> n == blocks.len(),
        pos < place(blocks, n) || n == blocks.len(),
    ensures
        dss::front_swap(s) == dss::swap_at(blocks, s.swap, pos as int),
{
    let list = announced(blocks, n);
    let len = blocks.len() as int;
    if dss::reset_is_due(s) {
        let i = lemma_ahead_from(list, pos, 0);
        let m = lemma_announced_by(blocks, n, i);
        if s.resets[0].on is Some {
            lemma_reset_found(blocks, m, len);
        } else if dss::reset_at(blocks, len, pos as int) is Some {
            let k = lemma_reset_origin(blocks, len, pos as int);
            if k <= m {
                lemma_same_place_same_next(blocks, k, m);
            } else {
                lemma_same_place_same_next(blocks, m, k);
            }
        }
    } else if dss::reset_at(blocks, len, pos as int) is Some {
        let k = lemma_reset_origin(blocks, len, pos as int);
        if n < k {
            lemma_same_place_same_next(blocks, n, k);
        } else {
            let i = lemma_empty_blocks_announce(blocks, n, k);
            let j = lemma_ahead_keeps(list, pos, i);
            lemma_announced_in_order(blocks, n);
            lemma_ahead_in_order(list, pos);
            assert(s.resets[0].at <= s.resets[j].at);
        }
    }
}

proof fn lemma_stream_prefix(blocks: Seq<Seq<u8>>, n: int)
    requires
        0 <= n <= blocks.len(),
        forall|i: int| 0 <= i < blocks.len() ==> (#[trigger] blocks[i]).len() == 512,
    ensures
        place(blocks, n) <= dss::stream_of(blocks).len(),
        dss::stream_of(blocks).take(place(blocks, n) as int) == dss::stream_of(blocks.take(n)),
    decreases blocks.len() - n,
{
    let all = dss::stream_of(blocks.take(n));
    if n == blocks.len() {
        assert(blocks.take(n) =~= blocks);
        assert(all.take(all.len() as int) =~= all);
    } else {
        lemma_stream_prefix(blocks, n + 1);
        lemma_stream_grows(blocks, n);
        let more = dss::stream_of(blocks.take(n + 1));
        assert(dss::stream_of(blocks).take(all.len() as int) =~= more.take(all.len() as int));
        assert(more.take(all.len() as int) =~= all);
    }
}

/// What a stream leaves behind a position.
spec fn left(stream: Seq<u8>, pos: nat) -> Seq<u8> {
    stream.skip(
        if pos < stream.len() {
            pos as int
        } else {
            stream.len() as int
        },
    )
}

/// A state that stands at a position of the whole file's stream cuts the packets of the
/// whole file.
proof fn lemma_cut_follows(blocks: Seq<Seq<u8>>, n: int, s: DssState, pos: nat, input: Input)
    requires
        0 <= n <= blocks.len(),
        forall|i: int| 0 <= i < blocks.len() ==> (#[trigger] blocks[i]).len() == 512,
        s.stream == left(dss::stream_of(blocks.take(n)), pos),
        s.resets == dss::ahead(announced(blocks, n), pos),
        input is Open ==> pos <= place(blocks, n),
        !(input is Open) ==> n == blocks.len(),
    ensures
        ({
            let stream = dss::stream_of(blocks);
            let r = dss::dss_cut(s, input);
            let (swap, to) = walked(blocks, stream, s.swap, pos as int, r.frames.len());
            &&& r.frames == dss::packets_from(blocks, stream, s.swap, pos as int, r.frames.len())
            &&& r.state.swap == swap
            &&& r.state.started == s.started
            &&& to >= pos
            &&& r.state.stream == left(dss::stream_of(blocks.take(n)), to as nat)
            &&& r.state.resets == dss::ahead(announced(blocks, n), to as nat)
            &&& input is Open ==> to <= place(blocks, n)
        }),
    decreases s.awaited,
{
    if s.awaited > 0 && !dss::must_wait(s, input) {
        let stream = dss::stream_of(blocks);
        let all = dss::stream_of(blocks.take(n));
        lemma_front_swap(blocks, n, s, pos, input);
        lemma_stream_prefix(blocks, n);
        let now = dss::front_swap(s);
        let size = packet::need(now.on);
        let chunk = dss::chunk_at(stream, pos as int, size as int);
        if n == blocks.len() {
            assert(blocks.take(n) =~= blocks);
        }
        assert(dss::front_chunk(s) =~= chunk) by {
            assert(all == stream.take(all.len() as int));
        }
        let next = dss::after_packet(s);
        assert(next.stream =~= left(all, pos + size));
        lemma_ahead_twice(announced(blocks, n), pos, size);
        lemma_cut_follows(blocks, n, next, pos + size, input);
        let later = dss::dss_cut(next, input).frames;
        let frames = dss::dss_cut(s, input).frames;
        assert(frames == seq![packet::packet(now, chunk)] + later);
        assert((frames.len() - 1) as nat == later.len());
    }
}

/// After `n` blocks, a stream demuxer has handed out the first packets of the whole file
/// and stands where the next one starts.
spec fn in_step(blocks: Seq<Seq<u8>>, n: int, r: DssRun) -> bool {
    let stream = dss::stream_of(blocks);
    let first = dss::first_swap(blocks);
    let (swap, pos) = walked(blocks, stream, first, 0, r.frames.len());
    &&& r.frames == dss::packets_from(blocks, stream, first, 0, r.frames.len())
    &&& r.frames.len() + r.state.awaited == framing::frame_total(blocks.take(n))
    &&& n == 0 ==> r == DssRun { state: dss::dss_start(), frames: Seq::empty() }
    &&& n > 0 ==> r.state.started && r.state.swap == swap
    &&& 0 <= pos <= place(blocks, n)
    &&& r.state.stream == left(dss::stream_of(blocks.take(n)), pos as nat)
    &&& r.state.resets == dss::ahead(announced(blocks, n), pos as nat)
}

proof fn lemma_run_in_step(blocks: Seq<Seq<u8>>, n: int)
    requires
        0 <= n <= blocks.len(),
        forall|i: int| 0 <= i < blocks.len() ==> (#[trigger] blocks[i]).len() == 512,
    ensures
        in_step(blocks, n, dss::dss_run(dss::dss_start(), blocks.take(n))),
    decreases n,
{
    let r = dss::dss_run(dss::dss_start(), blocks.take(n));
    let all = dss::stream_of(blocks.take(n));
    if n == 0 {
        assert(blocks.take(0).len() == 0);
        assert(left(all, 0) =~= Seq::<u8>::empty());
    } else {
        lemma_run_in_step(blocks, n - 1);
        lemma_stream_grows(blocks, n - 1);
        assert(blocks.take(n).drop_last() =~= blocks.take(n - 1));
        assert(blocks.take(n).last() == blocks[n - 1]);
        let stream = dss::stream_of(blocks);
        let first = dss::first_swap(blocks);
        let before = dss::dss_run(dss::dss_start(), blocks.take(n - 1));
        let given = before.frames.len();
        let (swap, at) = walked(blocks, stream, first, 0, given);
        let pos = at as nat;
        let block = blocks[n - 1];
        let s = dss::dss_with(before.state, block);
        assert(s.swap == swap);
        assert(s.stream =~= left(all, pos));
        let old_list = announced(blocks, n - 1);
        let list = announced(blocks, n);
        if framing::frame_count(block) == 0 {
            assert(list.drop_last() =~= old_list);
            assert(s.resets =~= dss::ahead(list, pos));
        } else {
            lemma_ahead_settled(old_list, pos, framing::block_swap(block));
        }
        lemma_cut_follows(blocks, n, s, pos, Input::Open);
        lemma_cut_counts(s, Input::Open);
        let last = dss::dss_cut(s, Input::Open);
        lemma_packets_split(blocks, stream, first, 0, given, last.frames.len());
        assert(r.frames.len() == given + last.frames.len());
    }
}

/// Whatever pieces a DSS file comes in, the frames handed out on the way and those of the
/// end are together the packets that demuxing the whole file gives: at a lenient end
/// always, and at a strict one where it is no fault.
pub proof fn law_dss_stream_matches_batch(file: Seq<u8>, pieces: Seq<Seq<u8>>)
    requires
        framing::joined(pieces) == file,
        dss::is_dss(file),
        file.len() >= 512 * file[0],
    ensures
        ({
            let (s, frames) = dss::dss_fed(dss::dss_new(file[0]), pieces);
            let all = dss::dss_packets(framing::blocks(dss::body(file)));
            &&& s.framing.header_complete
            &&& frames + dss::dss_cut(s.dss, Input::Lenient).frames == all
            &&& dss::dss_fault(s) is None ==> frames + dss::dss_cut(s.dss, Input::Ended).frames
                == all
        }),
{
    law_dss_pieces_make_no_difference(dss::dss_new(file[0]), pieces);
    assert(Seq::<u8>::empty() + file =~= file);
    let blocks = framing::blocks(dss::body(file));
    let len = blocks.len() as int;
    let (s, frames) = dss::dss_fed(dss::dss_new(file[0]), pieces);
    assert forall|i: int| 0 <= i < blocks.len() implies (#[trigger] blocks[i]).len() == 512 by {}
    lemma_run_in_step(blocks, len);
    assert(blocks.take(len) =~= blocks);
    if len > 0 {
        let stream = dss::stream_of(blocks);
        let first = dss::first_swap(blocks);
        let (swap, pos) = walked(blocks, stream, first, 0, frames.len());
        lemma_cut_follows(blocks, len, s.dss, pos as nat, Input::Lenient);
        lemma_cut_counts(s.dss, Input::Lenient);
        lemma_packets_split(blocks, stream, first, 0, frames.len(), s.dss.awaited);
        lemma_cut_follows(blocks, len, s.dss, pos as nat, Input::Ended);
        lemma_cut_counts(s.dss, Input::Ended);
    } else {
        assert(frames + Seq::<Seq<u8>>::empty() =~= dss::dss_packets(blocks));
    }
}

/// At the end of a group of blocks the swap state starts anew: where an empty block ends
/// and a block with frames comes later, a packet that starts there is read as that later
/// block's first byte says, and with nothing carried over.
pub proof fn law_groups_start_anew(file: Seq<u8>, n: int, sw: Swap)
    requires
        dss::is_dss(file),
        file.len() >= 512 * file[0],
        0 < n <= framing::blocks(dss::body(file)).len(),
        demands_reset(framing::blocks(dss::body(file)), n),
    ensures
        ({
            let blocks = framing::blocks(dss::body(file));
            let pos = dss::stream_of(blocks.take(n)).len() as int;
            dss::next_swap(blocks, n) matches Some(on) && dss::swap_at(blocks, sw, pos) == Swap {
                on,
                byte: 0,
            }
        }),
{
    let blocks = framing::blocks(dss::body(file));
    assert forall|i: int| 0 <= i < blocks.len() implies (#[trigger] blocks[i]).len() == 512 by {}
    lemma_reset_found(blocks, n, blocks.len() as int);
}

/// The next block with frames decides: its first byte's top bit is what the blocks before
/// it wait for; where no block with frames follows, there is nothing to wait for.
pub proof fn law_next_block_with_frames_decides(blocks: Seq<Seq<u8>>, i: int) -> (j: int)
    requires
        0 <= i <= blocks.len(),
    ensures
        i <= j <= blocks.len(),
        forall|k: int| i <= k < j ==> (#[trigger] blocks[k])[2] == 0,
        j < blocks.len() ==> blocks[j][2] > 0 && dss::next_swap(blocks, i) == Some(
            blocks[j][0] >= 128,
        ),
        j == blocks.len() ==> dss::next_swap(blocks, i) is None,
    decreases blocks.len() - i,
{
    if i == blocks.len() || blocks[i][2] > 0 {
        i
    } else {
        law_next_block_with_frames_decides(blocks, i + 1)
    }
}

/// The swap state is kept wherever no group of blocks ends: where no empty block that is
/// followed by one with frames ends at a position, a packet there is read as it was.
pub proof fn law_only_groups_start_anew(blocks: Seq<Seq<u8>>, pos: int, sw: Swap)
    requires
        forall|n: int|
            0 < n <= blocks.len() && #[trigger] demands_reset(blocks, n) ==> dss::stream_of(
                blocks.take(n),
            ).len() != pos,
    ensures
        dss::swap_at(blocks, sw, pos) == sw,
{
    if dss::reset_at(blocks, blocks.len() as int, pos) is Some {
        let m = lemma_reset_origin(blocks, blocks.len() as int, pos);
        assert(demands_reset(blocks, m));
    }
}

/// What a block adds to the stream: all its payload if frames start in it, and otherwise the
/// end of the frame before, as long as its second byte and its top bit say, counted in
/// words from the start of the block.
pub proof fn law_blocks_add_to_the_stream(blocks: Seq<Seq<u8>>, n: int)
    requires
        0 <= n < blocks.len(),
        forall|i: int| 0 <= i < blocks.len() ==> (#[trigger] blocks[i]).len() == 512,
    ensures
        ({
            let block = blocks[n];
            let words = block[1] + (if block[0] >= 128 {
                1int
            } else {
                0int
            });
            let end = if block[2] > 0 {
                512
            } else if words < 3 {
                6
            } else {
                2 * words
            };
            &&& 6 <= end <= 512
            &&& dss::stream_of(blocks.take(0)).len() == 0
            &&& dss::stream_of(blocks.take(n + 1)) == dss::stream_of(blocks.take(n))
                + block.subrange(6, end)
        }),
{
    lemma_stream_grows(blocks, n);
    let block = blocks[n];
    assert(block.len() == 512);
    assert(dss::contribution(block) =~= block.subrange(
        6,
        6 + dss::contribution(block).len() as int,
    ));
}

/// How a packet is read: with a short read or a plain one, from where on, and which byte is
/// carried over.
pub struct Reading {
    pub on: bool,
    pub at: int,
    pub carried: u8,
}

/// The reads of a DSS file: the first starts where the stream does, in the way its first
/// block says, each later one where the one before ends, in the other way, with the byte 40
/// of the last plain read carried over; unless a group of blocks ends there.
pub open spec fn is_trail(blocks: Seq<Seq<u8>>, trail: Seq<Reading>) -> bool {
    let stream = dss::stream_of(blocks);
    &&& trail.len() == framing::frame_total(blocks)
    &&& forall|k: int|
        0 <= k < trail.len() ==> {
            let r = #[trigger] trail[k];
            let kept = if k == 0 {
                Swap { on: blocks[0][0] >= 128, byte: 0 }
            } else {
                Swap {
                    on: !trail[k - 1].on,
                    byte: if trail[k - 1].on {
                        trail[k - 1].carried
                    } else {
                        bytes::padded(stream, trail[k - 1].at + 40)
                    },
                }
            };
            &&& r.at == (if k == 0 {
                0
            } else if trail[k - 1].on {
                trail[k - 1].at + 40
            } else {
                trail[k - 1].at + 42
            })
            &&& Swap { on: r.on, byte: r.carried } == dss::swap_at(blocks, kept, r.at)
        }
}

/// The packets of a DSS file follow each other, and each holds the bytes of its read.
pub proof fn law_dss_packets_follow_each_other(blocks: Seq<Seq<u8>>) -> (trail: Seq<Reading>)
    ensures
        ({
            let stream = dss::stream_of(blocks);
            let packets = dss::dss_packets(blocks);
            &&& packets.len() == framing::frame_total(blocks)
            &&& is_trail(blocks, trail)
            &&& forall|k: int|
                0 <= k < packets.len() ==> {
                    let r = #[trigger] trail[k];
                    &&& r.on ==> container_laws::holds_short_read(
                        packets[k],
                        stream,
                        r.at,
                        r.carried,
                    )
                    &&& !r.on ==> container_laws::holds_plain_read(packets[k], stream, r.at)
                }
        }),
{
    let stream = dss::stream_of(blocks);
    let first = dss::first_swap(blocks);
    let total = framing::frame_total(blocks);
    dss::lemma_packet_len(blocks, stream, first, 0, total);
    let trail = Seq::new(
        total,
        |k: int|
            {
                let (sw, at) = walked(blocks, stream, first, 0, k as nat);
                let now = dss::swap_at(blocks, sw, at);
                Reading { on: now.on, at, carried: now.byte }
            },
    );
    assert forall|k: int| 0 <= k < total implies {
        let r = #[trigger] trail[k];
        let kept = if k == 0 {
            Swap { on: blocks[0][0] >= 128, byte: 0 }
        } else {
            Swap {
                on: !trail[k - 1].on,
                byte: if trail[k - 1].on {
                    trail[k - 1].carried
                } else {
                    bytes::padded(stream, trail[k - 1].at + 40)
                },
            }
        };
        let packets = dss::dss_packets(blocks);
        &&& r.at == (if k == 0 {
            0
        } else if trail[k - 1].on {
            trail[k - 1].at + 40
        } else {
            trail[k - 1].at + 42
        })
        &&& Swap { on: r.on, byte: r.carried } == dss::swap_at(blocks, kept, r.at)
        &&& r.on ==> container_laws::holds_short_read(packets[k], stream, r.at, r.carried)
        &&& !r.on ==> container_laws::holds_plain_read(packets[k], stream, r.at)
    } by {
        let (sw, at) = walked(blocks, stream, first, 0, k as nat);
        lemma_walked_forward(blocks, stream, first, 0, k as nat);
        lemma_packet_at(blocks, stream, first, 0, total, k as nat);
        let now = dss::swap_at(blocks, sw, at);
        let chunk = dss::chunk_at(stream, at, packet::need(now.on) as int);
        lemma_packet_holds_read(stream, now, at);
        if k > 0 {
            lemma_walked_forward(blocks, stream, first, 0, (k - 1) as nat);
            lemma_walked_step(blocks, stream, first, 0, (k - 1) as nat);
            let (sw1, at1) = walked(blocks, stream, first, 0, (k - 1) as nat);
            let now1 = dss::swap_at(blocks, sw1, at1);
            lemma_packet_holds_read(stream, now1, at1);
            assert(trail[k - 1] == (Reading { on: now1.on, at: at1, carried: now1.byte }));
        }
    }
    trail
}

proof fn lemma_walked_forward(
    blocks: Seq<Seq<u8>>,
    stream: Seq<u8>,
    sw: Swap,
    pos: int,
    n: nat,
)
    ensures
        walked(blocks, stream, sw, pos, n).1 >= pos,
    decreases n,
{
    if n > 0 {
        let now = dss::swap_at(blocks, sw, pos);
        let size = packet::need(now.on) as int;
        let chunk = dss::chunk_at(stream, pos, size);
        lemma_walked_forward(
            blocks,
            stream,
            packet::swap_after(now, chunk),
            pos + size,
            (n - 1) as nat,
        );
    }
}

proof fn lemma_walked_step(blocks: Seq<Seq<u8>>, stream: Seq<u8>, sw: Swap, pos: int, n: nat)
    ensures
        ({
            let (before, at) = walked(blocks, stream, sw, pos, n);
            let now = dss::swap_at(blocks, before, at);
            let size = packet::need(now.on) as int;
            walked(blocks, stream, sw, pos, n + 1) == (
                packet::swap_after(now, dss::chunk_at(stream, at, size)),
                at + size,
            )
        }),
{
    let (before, at) = walked(blocks, stream, sw, pos, n);
    lemma_packets_split(blocks, stream, sw, pos, n, 1);
    let now = dss::swap_at(blocks, before, at);
    let size = packet::need(now.on) as int;
    let next = packet::swap_after(now, dss::chunk_at(stream, at, size));
    assert(walked(blocks, stream, next, at + size, 0) == (next, at + size));
}

proof fn lemma_packet_at(
    blocks: Seq<Seq<u8>>,
    stream: Seq<u8>,
    sw: Swap,
    pos: int,
    n: nat,
    k: nat,
)
    requires
        k < n,
    ensures
        ({
            let (before, at) = walked(blocks, stream, sw, pos, k);
            let now = dss::swap_at(blocks, before, at);
            let chunk = dss::chunk_at(stream, at, packet::need(now.on) as int);
            dss::packets_from(blocks, stream, sw, pos, n)[k as int] == packet::packet(now, chunk)
        }),
{
    let (before, at) = walked(blocks, stream, sw, pos, k);
    lemma_packets_split(blocks, stream, sw, pos, k, (n - k) as nat);
    dss::lemma_packet_len(blocks, stream, sw, pos, k);
    assert(dss::packets_from(blocks, stream, before, at, (n - k) as nat)[0] == packet::packet(
        dss::swap_at(blocks, before, at),
        dss::chunk_at(
            stream,
            at,
            packet::need(dss::swap_at(blocks, before, at).on) as int,
        ),
    ));
}

/// A packet made of a chunk of a stream holds the bytes of its read.
proof fn lemma_packet_holds_read(stream: Seq<u8>, sw: Swap, at: int)
    requires
        0 <= at,
    ensures
        ({
            let chunk = dss::chunk_at(stream, at, packet::need(sw.on) as int);
            let p = packet::packet(sw, chunk);
            &&& sw.on ==> container_laws::holds_short_read(p, stream, at, sw.byte)
            &&& !sw.on ==> container_laws::holds_plain_read(p, stream, at)
            &&& !sw.on ==> bytes::padded(chunk, 40) == bytes::padded(stream, at + 40)
        }),
{
    let size = packet::need(sw.on) as int;
    let chunk = dss::chunk_at(stream, at, size);
    let p = packet::packet(sw, chunk);
    assert forall|i: int| 0 <= i < size implies #[trigger] bytes::padded(chunk, i)
        == bytes::padded(stream, at + i) by {}
    if sw.on {
        assert forall|m: int| 0 <= m < 20 implies #[trigger] p[2 * m] == bytes::padded(
            stream,
            at + 2 * m + 1,
        ) by {
            assert((2 * m) % 2 == 0);
            assert(bytes::padded(chunk, 2 * m + 1) == bytes::padded(stream, at + (2 * m + 1)));
        }
        assert forall|m: int| 0 <= m < 20 implies #[trigger] p[2 * m + 3] == bytes::padded(
            stream,
            at + 2 * m,
        ) by {
            assert((2 * m + 3) % 2 == 1);
            assert(bytes::padded(chunk, 2 * m) == bytes::padded(stream, at + 2 * m));
        }
    }
}

/// A stream demuxer hands out what it can: after every block, the packets still awaited
/// either lack bytes, or the next one starts where a group of blocks ends whose successor
/// is not known yet. At the end of the input only missing bytes count, and a lenient end
/// hands out all of them.
pub proof fn law_dss_complete_packets_are_cut(s: DssState, input: Input)
    ensures
        ({
            let cut = dss::dss_cut(s, input);
            let r = cut.state;
            let due = r.resets.len() > 0 && r.resets[0].at == 0;
            let waits = due && r.resets[0].on is None;
            let short = if due && r.resets[0].on is Some {
                r.resets[0].on->0
            } else {
                r.swap.on
            };
            let lacks = r.stream.len() < (if short {
                40int
            } else {
                42int
            });
            &&& cut.frames.len() + r.awaited == s.awaited
            &&& input is Open && r.awaited > 0 ==> waits || lacks
            &&& input is Ended && r.awaited > 0 ==> lacks
            &&& input is Lenient ==> r.awaited == 0
        }),
    decreases s.awaited,
{
    if s.awaited > 0 && !dss::must_wait(s, input) {
        law_dss_complete_packets_are_cut(dss::after_packet(s), input);
    }
}

proof fn lemma_fits_forward(
    blocks: Seq<Seq<u8>>,
    stream: Seq<u8>,
    sw: Swap,
    pos: int,
    n: nat,
    k: nat,
)
    requires
        k < n,
        dss::fits_from(blocks, stream, sw, pos, n),
    ensures
        walked(blocks, stream, sw, pos, k).1 <= stream.len(),
    decreases n,
{
    if k > 0 {
        let now = dss::swap_at(blocks, sw, pos);
        let size = packet::need(now.on) as int;
        let next = packet::swap_after(now, dss::chunk_at(stream, pos, size));
        lemma_fits_forward(blocks, stream, next, pos + size, (n - 1) as nat, (k - 1) as nat);
    }
}

proof fn lemma_fits_back(blocks: Seq<Seq<u8>>, stream: Seq<u8>, sw: Swap, pos: int, n: nat)
    requires
        n > 0 ==> walked(blocks, stream, sw, pos, (n - 1) as nat).1 <= stream.len(),
    ensures
        dss::fits_from(blocks, stream, sw, pos, n),
    decreases n,
{
    if n > 0 {
        let now = dss::swap_at(blocks, sw, pos);
        let size = packet::need(now.on) as int;
        let next = packet::swap_after(now, dss::chunk_at(stream, pos, size));
        lemma_walked_forward(blocks, stream, sw, pos, (n - 1) as nat);
        if n > 1 {
            assert(walked(blocks, stream, sw, pos, (n - 1) as nat) == walked(
                blocks,
                stream,
                next,
                pos + size,
                (n - 2) as nat,
            ));
        }
        lemma_fits_back(blocks, stream, next, pos + size, (n - 1) as nat);
    }
}

/// A DSS file can be demuxed exactly where it holds a block behind its header and its last
/// packet, and with it every other, starts inside the stream. It has as many packets as the
/// headers of its blocks count.
pub proof fn law_dss_files_that_can_be_demuxed(file: Seq<u8>) -> (trail: Seq<Reading>)
    requires
        dss::is_dss(file),
        file.len() >= 512 * file[0],
    ensures
        ({
            let region = file.skip(512 * file[0] as int);
            let blocks = framing::blocks(region);
            let (packets, total) = dss::demuxed(file);
            let count = container_laws::counted(region, region.len() / 512);
            &&& packets == dss::dss_packets(blocks)
            &&& total == count
            &&& packets.len() == count
            &&& is_trail(blocks, trail)
            &&& dss::demuxable(file) <==> file.len() >= 512 * file[0] + 512 && (count > 0
                ==> trail[count - 1].at <= dss::stream_of(blocks).len())
        }),
{
    let region = file.skip(512 * file[0] as int);
    let blocks = framing::blocks(region);
    let stream = dss::stream_of(blocks);
    let first = dss::first_swap(blocks);
    let total = framing::frame_total(blocks);
    container_laws::law_payload_of_a_body(region, 0);
    let trail = law_dss_packets_follow_each_other(blocks);
    if total > 0 {
        lemma_trail_is_walked(blocks, trail, (total - 1) as nat);
        if dss::dss_fits(blocks) {
            lemma_fits_forward(blocks, stream, first, 0, total, (total - 1) as nat);
        }
    }
    if total == 0 || trail[total - 1].at <= stream.len() {
        lemma_fits_back(blocks, stream, first, 0, total);
    }
    trail
}

/// A trail is where the reads of a file stand.
proof fn lemma_trail_is_walked(blocks: Seq<Seq<u8>>, trail: Seq<Reading>, k: nat)
    requires
        is_trail(blocks, trail),
        k < trail.len(),
    ensures
        ({
            let stream = dss::stream_of(blocks);
            let (sw, at) = walked(blocks, stream, dss::first_swap(blocks), 0, k);
            let now = dss::swap_at(blocks, sw, at);
            trail[k as int] == Reading { on: now.on, at, carried: now.byte }
        }),
    decreases k,
{
    let stream = dss::stream_of(blocks);
    let first = dss::first_swap(blocks);
    if k > 0 {
        lemma_trail_is_walked(blocks, trail, (k - 1) as nat);
        lemma_walked_forward(blocks, stream, first, 0, (k - 1) as nat);
        lemma_walked_step(blocks, stream, first, 0, (k - 1) as nat);
        let (sw1, at1) = walked(blocks, stream, first, 0, (k - 1) as nat);
        let now1 = dss::swap_at(blocks, sw1, at1);
        lemma_packet_holds_read(stream, now1, at1);
        assert(trail[k as int].at == at1 + packet::need(now1.on));
    }
}

} // verus!
