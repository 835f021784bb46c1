//! What holds of containers: where the bytes and bits of packets and frames stand in a file.
use crate::bytes;
use crate::codec::grundig_laws;
use crate::codec::writing;
use crate::demux::ds2;
use crate::demux::ds2::{DemuxedDs2, QpDemux, QpState, SpDemux, SpState};
use crate::demux::framing;
use crate::demux::grundig;
use crate::demux::packet;
use crate::demux::packet::Swap;
use vstd::arithmetic::power2::*;
use vstd::prelude::*;

verus! {

// ---------------------------------------------------------------- blocks

/// Byte `j` of the payload of a file's body: 506 bytes of every whole block, behind the six
/// of its header; zero past the last block.
pub open spec fn payload_byte(body: Seq<u8>, j: int) -> u8 {
    if 0 <= j < 506 * (body.len() / 512) {
        body[512 * (j / 506) + 6 + j % 506]
    } else {
        0
    }
}

/// The frames that the headers of the first `n` blocks count.
pub open spec fn counted(body: Seq<u8>, n: nat) -> nat
    decreases n,
{
    if n == 0 {
        0
    } else {
        counted(body, (n - 1) as nat) + body[512 * (n - 1) + 2] as nat
    }
}

/// A body is cut into blocks of 512 bytes; what is left over is less than one.
pub proof fn law_blocks_of_512_bytes(body: Seq<u8>, i: int, j: int)
    ensures
        framing::blocks(body).len() == body.len() / 512,
        0 <= i < body.len() / 512 && 0 <= j < 512 ==> framing::blocks(body)[i].len() == 512
            && framing::blocks(body)[i][j] == body[512 * i + j],
        framing::remainder(body).len() == body.len() % 512,
        0 <= j < body.len() % 512 ==> framing::remainder(body)[j] == body[512 * (body.len() / 512)
            + j],
{
}

proof fn lemma_payloads(body: Seq<u8>, n: int, j: int)
    requires
        0 <= n <= body.len() / 512,
        0 <= j < 506 * n,
    ensures
        framing::payloads(framing::blocks(body).take(n)).len() == 506 * n,
        framing::payloads(framing::blocks(body).take(n))[j] == body[512 * (j / 506) + 6 + j % 506],
    decreases n,
{
    let blocks = framing::blocks(body);
    let first = blocks.take(n);
    assert(first.drop_last() =~= blocks.take(n - 1));
    assert(first.last() == blocks[n - 1]);
    lemma_payloads_len(body, n - 1);
    if j < 506 * (n - 1) {
        lemma_payloads(body, n - 1, j);
    } else {
        assert(j / 506 == n - 1);
        assert(j % 506 == j - 506 * (n - 1));
    }
}

proof fn lemma_payloads_len(body: Seq<u8>, n: int)
    requires
        0 <= n <= body.len() / 512,
    ensures
        framing::payloads(framing::blocks(body).take(n)).len() == 506 * n,
        framing::frame_total(framing::blocks(body).take(n)) == counted(body, n as nat),
    decreases n,
{
    let blocks = framing::blocks(body);
    let first = blocks.take(n);
    if n > 0 {
        assert(first.drop_last() =~= blocks.take(n - 1));
        assert(first.last() == blocks[n - 1]);
        lemma_payloads_len(body, n - 1);
    }
}

/// The payload of a body is made of 506 bytes of every block, and its frames are those that
/// the third byte of every block counts.
pub proof fn law_payload_of_a_body(body: Seq<u8>, j: int)
    ensures
        ({
            let blocks = framing::blocks(body);
            &&& framing::payloads(blocks).len() == 506 * (body.len() / 512)
            &&& bytes::padded(framing::payloads(blocks), j) == payload_byte(body, j)
            &&& framing::frame_total(blocks) == counted(body, body.len() / 512)
        }),
{
    let blocks = framing::blocks(body);
    let n = (body.len() / 512) as int;
    assert(blocks.take(n) =~= blocks);
    lemma_payloads_len(body, n);
    if 0 <= j < 506 * n {
        lemma_payloads(body, n, j);
    }
}

// ---------------------------------------------------------------- SP packets

/// Where read `k` starts, if the first is a short one or not: the reads take 42 and 40 bytes
/// in turn.
pub open spec fn read_start(on: bool, k: int) -> int {
    82 * (k / 2) + (if k % 2 == 0 {
        0int
    } else if on {
        40
    } else {
        42
    })
}

/// The packet holds the bytes of a plain read at `at`: 42 bytes in order, but for byte 40,
/// which is zero.
pub open spec fn holds_plain_read(p: Seq<u8>, stream: Seq<u8>, at: int) -> bool {
    &&& p.len() == 42
    &&& p[40] == 0
    &&& forall|i: int| 0 <= i < 42 && i != 40 ==> #[trigger] p[i] == bytes::padded(stream, at + i)
}

/// The packet holds the bytes of a short read at `at`: of its 40 bytes the odd ones stand
/// one place earlier and the even ones three places later; the second byte of the packet is
/// carried over, and byte 40 is zero.
pub open spec fn holds_short_read(p: Seq<u8>, stream: Seq<u8>, at: int, carried: u8) -> bool {
    &&& p.len() == 42
    &&& p[1] == carried
    &&& p[40] == 0
    &&& forall|m: int|
        0 <= m < 20 ==> #[trigger] p[2 * m] == bytes::padded(stream, at + 2 * m + 1)
    &&& forall|m: int|
        0 <= m < 20 ==> #[trigger] p[2 * m + 3] == bytes::padded(stream, at + 2 * m)
}

/// What packet `k` of a stream holds. A short read carries over the byte 40 of the plain
/// read before it, which stands two bytes before its own start.
pub open spec fn is_packet(p: Seq<u8>, stream: Seq<u8>, sw: Swap, k: int) -> bool {
    let at = read_start(sw.on, k);
    if sw.on == (k % 2 == 0) {
        holds_short_read(
            p,
            stream,
            at,
            if k == 0 {
                sw.byte
            } else {
                bytes::padded(stream, at - 2)
            },
        )
    } else {
        holds_plain_read(p, stream, at)
    }
}

/// Packets lie end to end in their stream, in plain and short reads by turns, and hold every
/// byte of it. Bytes that are missing at the end are zero.
pub proof fn law_packets_hold_the_stream(stream: Seq<u8>, sw: Swap, n: nat, k: int)
    requires
        0 <= k < n,
    ensures
        packet::extract(stream, sw, n).packets.len() == n,
        is_packet(packet::extract(stream, sw, n).packets[k], stream, sw, k),
    decreases n,
{
    let take = packet::taken(sw, stream);
    let chunk = stream.take(take);
    let rest = stream.skip(take);
    let next = packet::swap_after(sw, chunk);
    lemma_extract_len(stream, sw, n);
    lemma_extract_len(rest, next, (n - 1) as nat);
    let later = packet::extract(rest, next, (n - 1) as nat).packets;
    if k == 0 {
        let p = packet::packet(sw, chunk);
        assert(packet::extract(stream, sw, n).packets[0] == p);
        if sw.on {
            assert forall|m: int| 0 <= m < 20 implies #[trigger] p[2 * m] == bytes::padded(
                stream,
                2 * m + 1,
            ) by {
                assert((2 * m) % 2 == 0);
            }
            assert forall|m: int| 0 <= m < 20 implies #[trigger] p[2 * m + 3] == bytes::padded(
                stream,
                2 * m,
            ) by {
                assert((2 * m + 3) % 2 == 1);
            }
        }
    } else {
        law_packets_hold_the_stream(rest, next, (n - 1) as nat, k - 1);
        let p = later[k - 1];
        assert(packet::extract(stream, sw, n).packets[k] == p);
        let size = packet::need(sw.on) as int;
        let at = read_start(sw.on, k);
        let before = read_start(!sw.on, k - 1);
        assert(at == size + before);
        assert forall|i: int| 0 <= i implies #[trigger] bytes::padded(rest, i) == bytes::padded(
            stream,
            size + i,
        ) by {}
        assert(before >= 0);
        if next.on == ((k - 1) % 2 == 0) {
            assert forall|m: int| 0 <= m < 20 implies #[trigger] p[2 * m] == bytes::padded(
                stream,
                at + 2 * m + 1,
            ) by {
                assert(p[2 * m] == bytes::padded(rest, before + 2 * m + 1));
            }
            assert forall|m: int| 0 <= m < 20 implies #[trigger] p[2 * m + 3] == bytes::padded(
                stream,
                at + 2 * m,
            ) by {
                assert(p[2 * m + 3] == bytes::padded(rest, before + 2 * m));
            }
            if k == 1 {
                assert(next.byte == bytes::padded(chunk, 40));
                assert(bytes::padded(chunk, 40) == bytes::padded(stream, 40));
            } else {
                assert(before >= 2);
                assert(bytes::padded(rest, before - 2) == bytes::padded(stream, at - 2));
            }
        } else {
            assert forall|i: int| 0 <= i < 42 && i != 40 implies #[trigger] p[i] == bytes::padded(
                stream,
                at + i,
            ) by {
                assert(p[i] == bytes::padded(rest, before + i));
            }
        }
    }
}

proof fn lemma_extract_len(stream: Seq<u8>, sw: Swap, n: nat)
    ensures
        packet::extract(stream, sw, n).packets.len() == n,
    decreases n,
{
    if n > 0 {
        let take = packet::taken(sw, stream);
        lemma_extract_len(
            stream.skip(take),
            packet::swap_after(sw, stream.take(take)),
            (n - 1) as nat,
        );
    }
}

/// A DS2 SP file has as many packets as its blocks count, and they hold its payload: reads
/// of 42 and 40 bytes in turn, beginning with a short one where the first byte of the first
/// block has its top bit set.
pub proof fn law_sp_packets_hold_the_payload(body: Seq<u8>, k: int)
    ensures
        ds2::sp_packets(body).len() == counted(body, body.len() / 512),
        0 <= k < counted(body, body.len() / 512) ==> is_packet(
            ds2::sp_packets(body)[k],
            Seq::new(506 * (body.len() / 512), |j: int| payload_byte(body, j)),
            Swap { on: body[0] >= 128, byte: 0 },
            k,
        ),
{
    let blocks = framing::blocks(body);
    let stream = framing::payloads(blocks);
    let n = framing::frame_total(blocks);
    law_payload_of_a_body(body, 0);
    lemma_extract_len(stream, ds2::first_swap(body), n);
    assert forall|j: int| 0 <= j < stream.len() implies stream[j] == payload_byte(body, j) by {
        law_payload_of_a_body(body, j);
    }
    assert(stream =~= Seq::new(506 * (body.len() / 512), |j: int| payload_byte(body, j)));
    if 0 <= k < n {
        law_packets_hold_the_stream(stream, ds2::first_swap(body), n, k);
    }
}

/// A DS2 QP file has as many frames as its blocks count; frame `k` is the 56 bytes of the
/// payload from byte `56 * k` on, with zeros for what is missing.
pub proof fn law_qp_frames_hold_the_payload(body: Seq<u8>, k: int, i: int)
    requires
        0 <= i < 56,
    ensures
        ({
            let blocks = framing::blocks(body);
            let frames = ds2::qp_frames(framing::payloads(blocks), framing::frame_total(blocks));
            &&& frames.len() == counted(body, body.len() / 512)
            &&& 0 <= k < frames.len() ==> frames[k].len() == 56 && frames[k][i] == payload_byte(
                body,
                56 * k + i,
            )
        }),
{
    law_payload_of_a_body(body, 56 * k + i);
}

// ---------------------------------------------------------------- Grundig frames

/// Bit `i` of the payload of block `b` of a list: from its 16-bit words, low byte first, the
/// highest bit of each first.
pub open spec fn word_bit(blocks: Seq<Seq<u8>>, b: int, i: int) -> int {
    (writing::word(blocks[b].subrange(6, 512), i / 16) / pow2((15 - i % 16) as nat) as int) % 2
}

/// A frame is 328 bits from its start on, packed with the first bit highest. They run on
/// from the end of the payload of its block to that of the next; past the last block they
/// are zero.
pub proof fn law_frames_hold_328_bits(blocks: Seq<Seq<u8>>, bi: int, pos: int, j: int)
    requires
        0 <= bi < blocks.len(),
        forall|b: int| 0 <= b < blocks.len() ==> (#[trigger] blocks[b]).len() == 512,
        0 <= pos <= 4048,
        0 <= j < 328,
    ensures
        ({
            let f = grundig::frame(blocks, bi, pos);
            let bit = (f[j / 8] as nat / pow2((7 - j % 8) as nat)) % 2;
            &&& f.len() == 41
            &&& pos + j < 4048 ==> bit == word_bit(blocks, bi, pos + j)
            &&& pos + j >= 4048 && bi + 1 < blocks.len() ==> bit == word_bit(
                blocks,
                bi + 1,
                pos + j - 4048,
            )
            &&& pos + j >= 4048 && bi + 1 >= blocks.len() ==> bit == 0
        }),
{
    lemma_bit_of_frame(blocks, bi, pos, j);
    lemma_bit_of_words(blocks, bi, pos, j);
}

proof fn lemma_bit_of_frame(blocks: Seq<Seq<u8>>, bi: int, pos: int, j: int)
    requires
        0 <= j < 328,
    ensures
        grundig::frame(blocks, bi, pos).len() == 41,
        (grundig::frame(blocks, bi, pos)[j / 8] as nat / pow2((7 - j % 8) as nat)) % 2
            == grundig::frame_bit(blocks, bi, pos, j),
{
    let f = grundig::frame(blocks, bi, pos);
    grundig_laws::law_decoder_reads_the_demuxed_bits(blocks, bi, pos, j);
    grundig_laws::law_bits_come_from_bytes(f, j / 8, j % 8);
    assert(8 * (j / 8) + j % 8 == j);
}

proof fn lemma_bit_of_words(blocks: Seq<Seq<u8>>, bi: int, pos: int, j: int)
    requires
        0 <= bi < blocks.len(),
        forall|b: int| 0 <= b < blocks.len() ==> (#[trigger] blocks[b]).len() == 512,
        0 <= pos <= 4048,
        0 <= j < 328,
    ensures
        ({
            let bit = grundig::frame_bit(blocks, bi, pos, j);
            &&& pos + j < 4048 ==> bit == word_bit(blocks, bi, pos + j)
            &&& pos + j >= 4048 && bi + 1 < blocks.len() ==> bit == word_bit(
                blocks,
                bi + 1,
                pos + j - 4048,
            )
            &&& pos + j >= 4048 && bi + 1 >= blocks.len() ==> bit == 0
        }),
{
    if pos + j < 4048 {
        let payload = framing::payload(blocks[bi]);
        assert(blocks[bi].len() == 512);
        writing::law_bits_come_from_words(payload, (pos + j) as nat);
    } else if bi + 1 < blocks.len() {
        let payload = framing::payload(blocks[bi + 1]);
        assert(blocks[bi + 1].len() == 512);
        writing::law_bits_come_from_words(payload, (pos + j - 4048) as nat);
    }
}

/// Where the first frame of a block starts: the header counts it from the start of the
/// block, in words by its second byte and in bits by the upper half of its first. Inside the
/// header there is none.
pub proof fn law_first_frame_of_a_block(block: Seq<u8>)
    ensures
        block[1] >= 3 ==> grundig::first_bit(block) + 48 == 16 * block[1] + block[0] / 16,
        block[1] < 3 ==> grundig::first_bit(block) == 4048,
{
}

/// The frames of a block follow each other without a gap: each starts where the one before
/// ends. One that ends in the next block counts from the start of that block's payload, and
/// behind the last block there are only zeros.
pub proof fn law_frames_follow_each_other(blocks: Seq<Seq<u8>>, bi: int, pos: int, n: nat)
    ensures
        ({
            let next = if pos + 328 <= 4048 {
                pos + 328
            } else if bi + 1 < blocks.len() {
                pos + 328 - 4048
            } else {
                4048
            };
            &&& grundig::frames_from(blocks, bi, pos, 0).len() == 0
            &&& grundig::frames_from(blocks, bi, pos, n + 1) == seq![
                grundig::frame(blocks, bi, pos),
            ] + grundig::frames_from(blocks, bi, next, n)
        }),
{
}

/// The frames of a region are those of its blocks in order, as many of each as its third
/// byte counts.
pub proof fn law_regions_are_read_block_by_block(audio: Seq<u8>, n: nat)
    requires
        n < audio.len() / 512,
    ensures
        ({
            let blocks = framing::blocks(audio);
            let block = audio.subrange(512 * n as int, 512 * n as int + 512);
            let own = grundig::frames_from(
                blocks,
                n as int,
                grundig::first_bit(block),
                block[2] as nat,
            );
            &&& own.len() == block[2]
            &&& grundig::grundig_frames(blocks, 0).len() == 0
            &&& grundig::grundig_frames(blocks, n + 1) == grundig::grundig_frames(blocks, n) + own
            &&& grundig::region_frames(audio) == grundig::grundig_frames(blocks, audio.len() / 512)
        }),
{
    let blocks = framing::blocks(audio);
    let block = audio.subrange(512 * n as int, 512 * n as int + 512);
    assert(blocks[n as int] =~= block);
    lemma_frames_len(blocks, n as int, grundig::first_bit(block), block[2] as nat);
}

proof fn lemma_frames_len(blocks: Seq<Seq<u8>>, bi: int, pos: int, n: nat)
    ensures
        grundig::frames_from(blocks, bi, pos, n).len() == n,
    decreases n,
{
    if n > 0 {
        lemma_frames_len(blocks, bi, grundig::next_pos(blocks, bi, pos), (n - 1) as nat);
    }
}

// ---------------------------------------------------------------- streams

/// Cutting goes as far as it can: of the packets still awaited not even the next is complete.
pub proof fn law_complete_packets_are_cut(s: SpState)
    ensures
        ({
            let r = ds2::sp_cut(s);
            &&& r.frames.len() + r.state.awaited == s.awaited
            &&& r.state.awaited > 0 ==> r.state.stream.len() < (if r.state.swap.on {
                40int
            } else {
                42int
            })
        }),
{
    let k = packet::ready(s.stream.len(), s.swap.on, s.awaited);
    packet::lemma_ready(s.stream.len(), s.swap.on, s.awaited);
    lemma_cut_goes_far(s.stream, s.swap, s.awaited);
    lemma_extract_len(s.stream, s.swap, k);
}

proof fn lemma_cut_goes_far(stream: Seq<u8>, sw: Swap, awaited: nat)
    ensures
        ({
            let k = packet::ready(stream.len(), sw.on, awaited);
            let e = packet::extract(stream, sw, k);
            k < awaited ==> e.stream.len() < packet::need(e.swap.on)
        }),
    decreases awaited,
{
    if awaited > 0 && stream.len() >= packet::need(sw.on) {
        let take = packet::taken(sw, stream);
        lemma_cut_goes_far(
            stream.skip(take),
            packet::swap_after(sw, stream.take(take)),
            (awaited - 1) as nat,
        );
    }
}

/// Cutting goes as far as it can: of the frames still awaited not even the next is complete.
pub proof fn law_complete_frames_are_cut(s: QpState)
    ensures
        ({
            let r = ds2::qp_cut(s);
            &&& r.frames.len() + r.state.awaited == s.awaited
            &&& r.state.awaited > 0 ==> r.state.stream.len() < 56
            &&& r.state.stream == s.stream.skip(56 * r.frames.len() as int)
        }),
{
}

/// A block adds its payload and its frames to what a stream demuxer waits for; the first one
/// says with which kind of read an SP stream begins.
pub proof fn law_blocks_add_up(s: SpState, q: QpState, block: Seq<u8>)
    requires
        block.len() == 512,
    ensures
        ds2::sp_with(s, block).stream == s.stream + block.subrange(6, 512),
        ds2::sp_with(s, block).awaited == s.awaited + block[2],
        s.started ==> ds2::sp_with(s, block).swap == s.swap,
        !s.started ==> ds2::sp_with(s, block).swap.on == (block[0] >= 128),
        ds2::qp_with(q, block).stream == q.stream + block.subrange(6, 512),
        ds2::qp_with(q, block).awaited == q.awaited + block[2],
{
}

/// After a lenient end nothing is owed and nothing waits: another end gives no frame and
/// changes nothing. The header is not asked for again.
pub proof fn law_lenient_ends_owe_nothing(s: SpDemux, q: QpDemux)
    ensures
        ({
            let after = ds2::sp_ended(s);
            &&& after.framing.buf.len() == 0
            &&& after.framing.header_complete == s.framing.header_complete
            &&& after.framing.header_size == s.framing.header_size
            &&& after.sp.awaited == 0
            &&& after.sp.started == s.sp.started
            &&& ds2::sp_rest(s.sp).packets.len() == s.sp.awaited
            &&& ds2::sp_ended(after) == after
        }),
        ({
            let after = ds2::qp_ended(q);
            let read = 56 * q.qp.awaited;
            &&& after.framing.buf.len() == 0
            &&& after.framing.header_complete == q.framing.header_complete
            &&& after.framing.header_size == q.framing.header_size
            &&& after.qp.awaited == 0
            &&& read <= q.qp.stream.len() ==> after.qp.stream.len() + read == q.qp.stream.len()
            &&& read > q.qp.stream.len() ==> after.qp.stream.len() == 0
            &&& forall|i: int|
                0 <= i < after.qp.stream.len() ==> #[trigger] after.qp.stream[i]
                    == q.qp.stream[read + i]
            &&& ds2::qp_ended(after) == after
        }),
{
    lemma_extract_len(s.sp.stream, s.sp.swap, s.sp.awaited);
    assert(ds2::sp_ended(ds2::sp_ended(s)) =~= ds2::sp_ended(s));
    let after = ds2::qp_ended(q);
    assert(after.qp.stream.skip(0) =~= after.qp.stream);
    assert(ds2::qp_ended(after) =~= after);
}

/// A DS2 file is demuxed by the quality that its first block names: up to 5 an SP file, of
/// which there are as many packets as the headers of its blocks count, from 6 on a QP file,
/// of which there is the payload of every block.
pub proof fn law_quality_decides(found: DemuxedDs2, file: Seq<u8>, j: int)
    requires
        ds2::is_demuxed(found, file),
        file.len() >= 0x600,
    ensures
        ({
            let body = file.skip(0x600);
            let count = counted(body, body.len() / 512);
            match found {
                DemuxedDs2::Sp { packets, total_frames } => {
                    &&& file[0x604] <= 5
                    &&& total_frames == count
                    &&& packets@.len() == count
                    &&& bytes::contents(packets@) == ds2::sp_packets(body)
                },
                DemuxedDs2::Qp { stream, total_frames } => {
                    &&& file[0x604] >= 6
                    &&& total_frames == count
                    &&& stream@.len() == 506 * (body.len() / 512)
                    &&& bytes::padded(stream@, j) == payload_byte(body, j)
                },
            }
        }),
{
    let body = file.skip(0x600);
    let blocks = framing::blocks(body);
    law_payload_of_a_body(body, j);
    lemma_extract_len(
        framing::payloads(blocks),
        ds2::first_swap(body),
        framing::frame_total(blocks),
    );
    if let DemuxedDs2::Sp { packets, total_frames } = found {
        assert(bytes::contents(packets@).len() == packets@.len());
    }
}

} // verus!
