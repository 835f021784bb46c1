//! DSS files.
//!
//! A header of as many blocks as the first byte says (2 or 3), then blocks of 512 bytes.
//! A block in which no frame starts holds only the end of an earlier frame; the bytes
//! after it are void, and the swap state starts anew from the next block with frames.
use crate::bytes;
use crate::demux::framing;
use crate::demux::framing::{Framer, Framing};
use crate::demux::packet;
use crate::demux::packet::{Swap, SP_PACKET_SIZE};
use crate::error::{DecodeError, Fault};
use std::collections::HashMap;
use vstd::prelude::*;
use vstd::slice::slice_subrange;

verus! {

broadcast use vstd::std_specs::hash::group_hash_axioms;

/// The file starts like a DSS file of a known version.
pub open spec fn is_dss(file: Seq<u8>) -> bool {
    &&& file.len() >= 4
    &&& file[0] == 2 || file[0] == 3
    &&& file[1] == 0x64
    &&& file[2] == 0x73
    &&& file[3] == 0x73
}

/// The bytes after the file header.
pub open spec fn body(file: Seq<u8>) -> Seq<u8> {
    file.skip(512 * file[0] as int)
}

/// How many bytes of an empty block belong to the frame before.
pub open spec fn cont_size(block: Seq<u8>) -> int {
    let words = 2 * block[1] + if framing::block_swap(block) {
        2int
    } else {
        0int
    };
    if words < 6 {
        0
    } else {
        words - 6
    }
}

/// The bytes of the stream that a block holds.
pub open spec fn contribution(block: Seq<u8>) -> Seq<u8> {
    if framing::frame_count(block) == 0 {
        framing::payload(block).take(cont_size(block))
    } else {
        framing::payload(block)
    }
}

/// The stream that a list of blocks holds.
pub open spec fn stream_of(blocks: Seq<Seq<u8>>) -> Seq<u8>
    decreases blocks.len(),
{
    if blocks.len() == 0 {
        Seq::empty()
    } else {
        stream_of(blocks.drop_last()) + contribution(blocks.last())
    }
}

/// The swap bit of the first block with frames, from block `i` on.
pub open spec fn next_swap(blocks: Seq<Seq<u8>>, i: int) -> Option<bool>
    decreases blocks.len() - i,
{
    if i >= blocks.len() {
        None
    } else if framing::frame_count(blocks[i]) > 0 {
        Some(framing::block_swap(blocks[i]))
    } else {
        next_swap(blocks, i + 1)
    }
}

/// The swap state that an empty block before block `n` demands at stream position `pos`.
pub open spec fn reset_at(blocks: Seq<Seq<u8>>, n: int, pos: int) -> Option<bool>
    decreases n,
{
    if n <= 0 {
        None
    } else if framing::frame_count(blocks[n - 1]) == 0 && stream_of(blocks.take(n)).len() == pos
        && next_swap(blocks, n) is Some {
        next_swap(blocks, n)
    } else {
        reset_at(blocks, n - 1, pos)
    }
}

/// The swap state with which the frame at a stream position is read.
pub open spec fn swap_at(blocks: Seq<Seq<u8>>, sw: Swap, pos: int) -> Swap {
    match reset_at(blocks, blocks.len() as int, pos) {
        Some(on) => Swap { on, byte: 0 },
        None => sw,
    }
}

/// `n` bytes of a stream from a position on, fewer at its end.
pub open spec fn chunk_at(stream: Seq<u8>, pos: int, n: int) -> Seq<u8> {
    let from = if pos < stream.len() {
        pos
    } else {
        stream.len() as int
    };
    let to = if pos + n < stream.len() {
        pos + n
    } else {
        stream.len() as int
    };
    stream.subrange(from, to)
}

/// The next `n` packets from a stream position on.
pub open spec fn packets_from(
    blocks: Seq<Seq<u8>>,
    stream: Seq<u8>,
    sw: Swap,
    pos: int,
    n: nat,
) -> Seq<Seq<u8>>
    decreases n,
{
    if n == 0 {
        Seq::empty()
    } else {
        let now = swap_at(blocks, sw, pos);
        let size = packet::need(now.on) as int;
        let chunk = chunk_at(stream, pos, size);
        seq![packet::packet(now, chunk)] + packets_from(
            blocks,
            stream,
            packet::swap_after(now, chunk),
            pos + size,
            (n - 1) as nat,
        )
    }
}

/// Each of the next `n` packets starts inside the stream.
pub open spec fn fits_from(
    blocks: Seq<Seq<u8>>,
    stream: Seq<u8>,
    sw: Swap,
    pos: int,
    n: nat,
) -> bool
    decreases n,
{
    n > 0 ==> {
        let now = swap_at(blocks, sw, pos);
        let size = packet::need(now.on) as int;
        &&& pos <= stream.len()
        &&& fits_from(
            blocks,
            stream,
            packet::swap_after(now, chunk_at(stream, pos, size)),
            pos + size,
            (n - 1) as nat,
        )
    }
}

/// The swap state before the first packet.
pub open spec fn first_swap(blocks: Seq<Seq<u8>>) -> Swap {
    Swap { on: framing::block_swap(blocks[0]), byte: 0 }
}

/// The packets of a DSS file, from its blocks.
pub open spec fn dss_packets(blocks: Seq<Seq<u8>>) -> Seq<Seq<u8>> {
    packets_from(
        blocks,
        stream_of(blocks),
        first_swap(blocks),
        0,
        framing::frame_total(blocks),
    )
}

/// Every packet of a DSS file starts inside the stream.
pub open spec fn dss_fits(blocks: Seq<Seq<u8>>) -> bool {
    fits_from(blocks, stream_of(blocks), first_swap(blocks), 0, framing::frame_total(blocks))
}

struct BlockInfo {
    frame_count: usize,
    swap: bool,
    cont_size: usize,
    payload: Vec<u8>,
}

spec fn describes(info: BlockInfo, block: Seq<u8>) -> bool {
    &&& block.len() == 512
    &&& info.frame_count == framing::frame_count(block)
    &&& info.swap == framing::block_swap(block)
    &&& info.cont_size == cont_size(block)
    &&& info.payload@ == framing::payload(block)
}

fn read_block(block: &[u8]) -> (info: BlockInfo)
    requires
        block@.len() == 512,
    ensures
        describes(info, block@),
{
    let swap: bool = framing::top_bit(block[0]);
    let words: usize = 2 * block[1] as usize + if swap {
        2
    } else {
        0
    };
    BlockInfo {
        frame_count: block[2] as usize,
        swap,
        cont_size: if words < framing::BLOCK_HEADER_SIZE {
            0
        } else {
            words - framing::BLOCK_HEADER_SIZE
        },
        payload: bytes::copy_range(block, framing::BLOCK_HEADER_SIZE, framing::BLOCK_SIZE),
    }
}

/// The swap bit of the first block with frames, from block `from` on.
fn find_next_swap(infos: &Vec<BlockInfo>, from: usize, Ghost(blocks): Ghost<Seq<Seq<u8>>>) -> (r:
    Option<bool>)
    requires
        infos@.len() == blocks.len(),
        from <= blocks.len(),
        forall|i: int| 0 <= i < blocks.len() ==> describes(#[trigger] infos@[i], blocks[i]),
    ensures
        r == next_swap(blocks, from as int),
{
    let mut i: usize = from;
    while i < infos.len()
        invariant
            i <= infos@.len(),
            infos@.len() == blocks.len(),
            forall|i: int| 0 <= i < blocks.len() ==> describes(#[trigger] infos@[i], blocks[i]),
            next_swap(blocks, from as int) == next_swap(blocks, i as int),
        decreases infos@.len() - i,
    {
        if infos[i].frame_count > 0 {
            return Some(infos[i].swap);
        }
        i += 1;
    }
    None
}

/// The swap resets recorded so far are those that the first `n` blocks demand.
spec fn records(resets: Map<usize, bool>, blocks: Seq<Seq<u8>>, n: int) -> bool {
    forall|pos: usize|
        (if #[trigger] resets.contains_key(pos) {
            Some(resets[pos])
        } else {
            None
        }) == reset_at(blocks, n, pos as int)
}

proof fn lemma_stream_bound(blocks: Seq<Seq<u8>>)
    requires
        forall|i: int| 0 <= i < blocks.len() ==> (#[trigger] blocks[i]).len() == 512,
    ensures
        stream_of(blocks).len() <= 506 * blocks.len(),
    decreases blocks.len(),
{
    if blocks.len() > 0 {
        let earlier = blocks.drop_last();
        assert forall|i: int| 0 <= i < earlier.len() implies (#[trigger] earlier[i]).len()
            == 512 by {
            assert(earlier[i] == blocks[i]);
        }
        lemma_stream_bound(earlier);
        assert(blocks.last() == blocks[blocks.len() - 1]);
    }
}

pub proof fn lemma_packet_len(
    blocks: Seq<Seq<u8>>,
    stream: Seq<u8>,
    sw: Swap,
    pos: int,
    n: nat,
)
    ensures
        packets_from(blocks, stream, sw, pos, n).len() == n,
        forall|i: int|
            0 <= i < n ==> (#[trigger] packets_from(blocks, stream, sw, pos, n)[i]).len() == 42,
    decreases n,
{
    if n > 0 {
        let now = swap_at(blocks, sw, pos);
        let size = packet::need(now.on) as int;
        let chunk = chunk_at(stream, pos, size);
        lemma_packet_len(
            blocks,
            stream,
            packet::swap_after(now, chunk),
            pos + size,
            (n - 1) as nat,
        );
    }
}

/// The file can be demuxed: it has a block, and every packet starts inside the stream.
pub open spec fn demuxable(file: Seq<u8>) -> bool {
    &&& file.len() >= 512 * file[0] + 512
    &&& dss_fits(framing::blocks(body(file)))
}

/// The packets of a DSS file and their number.
pub open spec fn demuxed(file: Seq<u8>) -> (Seq<Seq<u8>>, nat) {
    let blocks = framing::blocks(body(file));
    (dss_packets(blocks), framing::frame_total(blocks))
}

/// Demuxes a DSS file. Returns the packets and their number.
pub fn demux_dss(data: &[u8]) -> (r: Result<(Vec<Vec<u8>>, usize), DecodeError>)
    requires
        is_dss(data@) ==> demuxable(data@),
    ensures
        match r {
            Err(e) => {
                &&& !is_dss(data@)
                &&& e@ == Fault::NotDss("<bytes>"@)
            },
            Ok((packets, total)) => {
                &&& is_dss(data@)
                &&& (bytes::contents(packets@), total as nat) == demuxed(data@)
            },
        },
{
    match try_demux_dss(data) {
        Some(found) => Ok(found),
        None => Err(DecodeError::NotDss("<bytes>".to_string())),
    }
}

/// Demuxes a DSS file, where it is one and can be demuxed. Returns the packets and their
/// number.
pub fn try_demux_dss(data: &[u8]) -> (r: Option<(Vec<Vec<u8>>, usize)>)
    ensures
        match r {
            None => !is_dss(data@) || !demuxable(data@),
            Some((packets, total)) => {
                &&& is_dss(data@)
                &&& demuxable(data@)
                &&& (bytes::contents(packets@), total as nat) == demuxed(data@)
            },
        },
{
    if data.len() < 4 || data[1] != 0x64 || data[2] != 0x73 || data[3] != 0x73 || (data[0] != 2
        && data[0] != 3) {
        return None;
    }
    if data.len() < data[0] as usize * framing::BLOCK_SIZE + framing::BLOCK_SIZE {
        return None;
    }
    let ghost blocks = framing::blocks(body(data@));
    let header_size: usize = data[0] as usize * framing::BLOCK_SIZE;
    let num_blocks: usize = (data.len() - header_size) / framing::BLOCK_SIZE;
    let mut infos: Vec<BlockInfo> = Vec::new();
    let mut total_frames: usize = 0;
    let mut bi: usize = 0;
    while bi < num_blocks
        invariant
            bi <= num_blocks,
            is_dss(data@),
            data@.len() >= header_size + 512,
            data@.len() <= usize::MAX,
            header_size == 512 * data@[0],
            num_blocks == (data@.len() - header_size) / 512,
            blocks == framing::blocks(body(data@)),
            infos@.len() == bi,
            forall|i: int| 0 <= i < bi ==> describes(#[trigger] infos@[i], blocks[i]),
            total_frames == framing::frame_total(blocks.take(bi as int)),
        decreases num_blocks - bi,
    {
        assert(header_size + 512 * bi + 512 <= data@.len());
        let start: usize = header_size + bi * framing::BLOCK_SIZE;
        let ghost before = infos@;
        proof {
            framing::lemma_frame_total_bound(blocks.take(bi as int));
            framing::lemma_frame_total_take(blocks, bi as int);
            assert(blocks[bi as int] =~= data@.subrange(start as int, start + 512));
        }
        let info: BlockInfo = read_block(
            slice_subrange(data, start, start + framing::BLOCK_SIZE),
        );
        total_frames = total_frames + info.frame_count;
        infos.push(info);
        bi += 1;
        assert forall|i: int| 0 <= i < bi implies describes(#[trigger] infos@[i], blocks[i]) by {
            if i < bi - 1 {
                assert(infos@[i] == before[i]);
            }
        }
    }
    assert(blocks.take(num_blocks as int) =~= blocks);
    let mut stream: Vec<u8> = Vec::new();
    let mut resets: HashMap<usize, bool> = HashMap::new();
    let mut bi: usize = 0;
    assert(stream_of(blocks.take(0)) =~= Seq::empty());
    while bi < infos.len()
        invariant
            bi <= infos@.len(),
            infos@.len() == blocks.len(),
            forall|i: int| 0 <= i < blocks.len() ==> describes(#[trigger] infos@[i], blocks[i]),
            stream@ == stream_of(blocks.take(bi as int)),
            records(resets@, blocks, bi as int),
        decreases infos@.len() - bi,
    {
        assert(blocks.take(bi + 1).drop_last() =~= blocks.take(bi as int));
        let ghost old_resets = resets@;
        assert(describes(infos@[bi as int], blocks[bi as int]));
        if infos[bi].frame_count == 0 {
            let size: usize = if infos[bi].cont_size < infos[bi].payload.len() {
                infos[bi].cont_size
            } else {
                infos[bi].payload.len()
            };
            bytes::append(&mut stream, slice_subrange(infos[bi].payload.as_slice(), 0, size));
            assert(stream@ =~= stream_of(blocks.take(bi + 1)));
            let next: Option<bool> = find_next_swap(&infos, bi + 1, Ghost(blocks));
            if let Some(swap) = next {
                resets.insert(stream.len(), swap);
            }
        } else {
            bytes::append(&mut stream, infos[bi].payload.as_slice());
            assert(stream@ =~= stream_of(blocks.take(bi + 1)));
        }
        assert(records(resets@, blocks, bi + 1)) by {
            assert forall|pos: usize|
                (if #[trigger] resets@.contains_key(pos) {
                    Some(resets@[pos])
                } else {
                    None
                }) == reset_at(blocks, bi + 1, pos as int) by {
                assert((if old_resets.contains_key(pos) {
                    Some(old_resets[pos])
                } else {
                    None
                }) == reset_at(blocks, bi as int, pos as int));
            }
        }
        bi += 1;
    }
    assert(blocks.take(infos@.len() as int) =~= blocks);
    proof {
        assert forall|i: int| 0 <= i < blocks.len() implies (#[trigger] blocks[i]).len()
            == 512 by {}
        lemma_stream_bound(blocks);
        assert(describes(infos@[0], blocks[0]));
    }
    let mut sw: Swap = Swap { on: infos[0].swap, byte: 0 };
    let mut pos: usize = 0;
    let mut packets: Vec<Vec<u8>> = Vec::new();
    let mut left: usize = total_frames;
    let ghost all = dss_packets(blocks);
    assert(bytes::contents(packets@) + packets_from(blocks, stream@, sw, pos as int, left as nat)
        =~= all);
    while left > 0
        invariant
            records(resets@, blocks, blocks.len() as int),
            blocks == framing::blocks(body(data@)),
            dss_fits(blocks) == fits_from(blocks, stream@, sw, pos as int, left as nat),
            stream@.len() + 1024 <= usize::MAX,
            pos <= stream@.len() + 42,
            bytes::contents(packets@) + packets_from(
                blocks,
                stream@,
                sw,
                pos as int,
                left as nat,
            ) == all,
        decreases left,
    {
        if pos > stream.len() {
            return None;
        }
        let ghost before = packets@;
        let ghost todo = packets_from(blocks, stream@, sw, pos as int, left as nat);
        let ghost now = swap_at(blocks, sw, pos as int);
        assert((if resets@.contains_key(pos) {
            Some(resets@[pos])
        } else {
            None
        }) == reset_at(blocks, blocks.len() as int, pos as int));
        if let Some(on) = resets.get(&pos) {
            sw = Swap { on: *on, byte: 0 };
        }
        assert(sw == now);
        let size: usize = if sw.on {
            40
        } else {
            SP_PACKET_SIZE
        };
        let end: usize = if pos + size < stream.len() {
            pos + size
        } else {
            stream.len()
        };
        let pkt: Vec<u8> = packet::fill_sp_packet(
            &mut sw,
            slice_subrange(stream.as_slice(), pos, end),
        );
        packets.push(pkt);
        pos = pos + size;
        left -= 1;
        proof {
            bytes::lemma_contents_push(before, pkt);
            assert(bytes::contents(before) + todo =~= bytes::contents(packets@) + packets_from(
                blocks,
                stream@,
                sw,
                pos as int,
                left as nat,
            ));
        }
    }
    assert(bytes::contents(packets@) =~= all);
    Some((packets, total_frames))
}

/// Whether more of the file may come, or the input has ended; at a lenient end, bytes that
/// are missing count as zeros.
#[derive(Clone, Copy, PartialEq, Eq, Structural)]
pub enum Input {
    Open,
    Ended,
    Lenient,
}

/// A reset of the swap state at a stream position, counted from the front of the stream.
/// The swap bit is that of the next block with frames; until that block comes in, it is
/// not known.
pub struct Reset {
    pub at: nat,
    pub on: Option<bool>,
}

/// The resets once their swap bits are known.
pub open spec fn settled(resets: Seq<Reset>, on: bool) -> Seq<Reset> {
    Seq::new(
        resets.len(),
        |i: int| Reset {
            at: resets[i].at,
            on: match resets[i].on {
                Some(known) => Some(known),
                None => Some(on),
            },
        },
    )
}

/// The resets still ahead once a packet of `n` bytes is gone. The others were either at its
/// start or inside it, where no packet starts.
pub open spec fn ahead(resets: Seq<Reset>, n: nat) -> Seq<Reset>
    decreases resets.len(),
{
    if resets.len() == 0 {
        Seq::empty()
    } else {
        let before = ahead(resets.drop_last(), n);
        let last = resets.last();
        if last.at < n {
            before
        } else {
            before.push(Reset { at: (last.at - n) as nat, on: last.on })
        }
    }
}

/// What a DSS stream demuxer remembers of the blocks: the bytes not yet read, the frames
/// still owed, the swap state, whether a block has come in, and the resets ahead.
#[verifier::ext_equal]
pub struct DssState {
    pub stream: Seq<u8>,
    pub awaited: nat,
    pub swap: Swap,
    pub started: bool,
    pub resets: Seq<Reset>,
}

/// A state, and the frames handed out on the way to it.
#[verifier::ext_equal]
pub struct DssRun {
    pub state: DssState,
    pub frames: Seq<Seq<u8>>,
}

/// Before any block.
pub open spec fn dss_start() -> DssState {
    DssState {
        stream: Seq::empty(),
        awaited: 0,
        swap: Swap { on: false, byte: 0 },
        started: false,
        resets: Seq::empty(),
    }
}

/// A block that comes in, before packets are cut.
pub open spec fn dss_with(s: DssState, block: Seq<u8>) -> DssState {
    let stream = s.stream + contribution(block);
    let swap = if s.started {
        s.swap
    } else {
        Swap { on: framing::block_swap(block), ..s.swap }
    };
    let resets = if framing::frame_count(block) == 0 {
        s.resets.push(Reset { at: stream.len(), on: None })
    } else {
        settled(s.resets, framing::block_swap(block))
    };
    DssState {
        stream,
        awaited: s.awaited + framing::frame_count(block),
        swap,
        started: true,
        resets,
    }
}

/// A reset stands at the front of the stream.
pub open spec fn reset_is_due(s: DssState) -> bool {
    s.resets.len() > 0 && s.resets[0].at == 0
}

/// The swap state with which the next packet is read.
pub open spec fn front_swap(s: DssState) -> Swap {
    if reset_is_due(s) && s.resets[0].on is Some {
        Swap { on: s.resets[0].on->0, byte: 0 }
    } else {
        s.swap
    }
}

/// The next packet cannot be cut yet: a reset is due whose swap bit may still come in, or
/// bytes are missing.
pub open spec fn must_wait(s: DssState, input: Input) -> bool {
    ||| input is Open && reset_is_due(s) && s.resets[0].on is None
    ||| !(input is Lenient) && s.stream.len() < packet::need(front_swap(s).on)
}

/// The bytes of the next packet.
pub open spec fn front_chunk(s: DssState) -> Seq<u8> {
    s.stream.take(packet::taken(front_swap(s), s.stream))
}

/// The state after one packet.
pub open spec fn after_packet(s: DssState) -> DssState {
    let now = front_swap(s);
    DssState {
        stream: s.stream.skip(packet::taken(now, s.stream)),
        awaited: (s.awaited - 1) as nat,
        swap: packet::swap_after(now, front_chunk(s)),
        started: s.started,
        resets: ahead(s.resets, packet::need(now.on)),
    }
}

/// Cuts the awaited packets that are complete; at a lenient end, all of them.
pub open spec fn dss_cut(s: DssState, input: Input) -> DssRun
    decreases s.awaited,
{
    if s.awaited == 0 || must_wait(s, input) {
        DssRun { state: s, frames: Seq::empty() }
    } else {
        let pkt = packet::packet(front_swap(s), front_chunk(s));
        let later = dss_cut(after_packet(s), input);
        DssRun { frames: seq![pkt] + later.frames, ..later }
    }
}

/// The effect of a list of blocks.
pub open spec fn dss_run(s: DssState, blocks: Seq<Seq<u8>>) -> DssRun
    decreases blocks.len(),
{
    if blocks.len() == 0 {
        DssRun { state: s, frames: Seq::empty() }
    } else {
        let before = dss_run(s, blocks.drop_last());
        let last = dss_cut(dss_with(before.state, blocks.last()), Input::Open);
        DssRun { state: last.state, frames: before.frames + last.frames }
    }
}

/// Everything a DSS stream demuxer remembers.
#[verifier::ext_equal]
pub struct DssDemux {
    pub framing: Framing,
    pub dss: DssState,
}

/// The state once more bytes have come in, and the frames that they complete.
pub open spec fn dss_push(s: DssDemux, data: Seq<u8>) -> (DssDemux, Seq<Seq<u8>>) {
    let run = dss_run(s.dss, framing::cut(s.framing, data));
    (DssDemux { framing: framing::after(s.framing, data), dss: run.state }, run.frames)
}

/// A demuxer that has seen nothing of a file with the given version byte.
pub open spec fn dss_new(version: u8) -> DssDemux {
    DssDemux { framing: framing::start(512 * version as nat), dss: dss_start() }
}

/// The effect of a list of pieces, pushed one by one.
pub open spec fn dss_fed(s: DssDemux, pieces: Seq<Seq<u8>>) -> (DssDemux, Seq<Seq<u8>>)
    decreases pieces.len(),
{
    if pieces.len() == 0 {
        (s, Seq::empty())
    } else {
        let before = dss_fed(s, pieces.drop_last());
        let last = dss_push(before.0, pieces.last());
        (last.0, before.1 + last.1)
    }
}

/// What is missing when the input ends: the name of the part that is incomplete, if any.
pub open spec fn dss_fault(s: DssDemux) -> Option<Seq<char>> {
    framing::fault(
        s.framing,
        dss_cut(s.dss, Input::Ended).state.awaited,
        "DSS header"@,
        "DSS block"@,
        "DSS SP frame"@,
    )
}

#[derive(Clone, Copy)]
struct PendingReset {
    at: usize,
    on: Option<bool>,
}

spec fn pending(v: Seq<PendingReset>) -> Seq<Reset> {
    Seq::new(v.len(), |i: int| Reset { at: v[i].at as nat, on: v[i].on })
}

/// The blocks of a DSS file as far as packets have not been cut from them.
struct DssStream {
    stream_buf: Vec<u8>,
    pending_frames: usize,
    swap: Swap,
    have_initial_swap: bool,
    resets: Vec<PendingReset>,
}

impl View for DssStream {
    type V = DssState;

    closed spec fn view(&self) -> DssState {
        DssState {
            stream: self.stream_buf@,
            awaited: self.pending_frames as nat,
            swap: self.swap,
            started: self.have_initial_swap,
            resets: pending(self.resets@),
        }
    }
}

impl DssStream {
    /// A copy, to try on what an end of the input gives.
    fn copy(&self) -> (r: Self)
        ensures
            r@ == self@,
    {
        let stream_buf: Vec<u8> = bytes::copy_range(
            self.stream_buf.as_slice(),
            0,
            self.stream_buf.len(),
        );
        let mut resets: Vec<PendingReset> = Vec::new();
        let mut i: usize = 0;
        while i < self.resets.len()
            invariant
                i <= self.resets@.len(),
                resets@ == self.resets@.take(i as int),
            decreases self.resets@.len() - i,
        {
            resets.push(self.resets[i]);
            assert(resets@ =~= self.resets@.take(i + 1));
            i += 1;
        }
        assert(resets@ =~= self.resets@);
        assert(stream_buf@ =~= self.stream_buf@);
        DssStream {
            stream_buf,
            pending_frames: self.pending_frames,
            swap: self.swap,
            have_initial_swap: self.have_initial_swap,
            resets,
        }
    }

    /// Takes a block and cuts the packets that it completes.
    fn process_block(&mut self, block: &[u8], frames: &mut Vec<Vec<u8>>)
        requires
            block@.len() == 512,
            old(self)@.awaited + 255 <= usize::MAX,
        ensures
            final(self)@ == dss_cut(dss_with(old(self)@, block@), Input::Open).state,
            bytes::contents(final(frames)@) == bytes::contents(old(frames)@) + dss_cut(
                dss_with(old(self)@, block@),
                Input::Open,
            ).frames,
    {
        let info: BlockInfo = read_block(block);
        let ghost s = self@;
        if !self.have_initial_swap {
            self.swap.on = info.swap;
            self.have_initial_swap = true;
        }
        if info.frame_count == 0 {
            let size: usize = if info.cont_size < info.payload.len() {
                info.cont_size
            } else {
                info.payload.len()
            };
            bytes::append(
                &mut self.stream_buf,
                slice_subrange(info.payload.as_slice(), 0, size),
            );
            self.resets.push(PendingReset { at: self.stream_buf.len(), on: None });
            assert(pending(self.resets@) =~= s.resets.push(
                Reset { at: self.stream_buf@.len(), on: None },
            ));
        } else {
            self.settle_resets(info.swap);
            bytes::append(&mut self.stream_buf, info.payload.as_slice());
            self.pending_frames = self.pending_frames + info.frame_count;
        }
        assert(self@ =~= dss_with(s, block@));
        self.emit_frames(Input::Open, frames);
    }

    /// Fills in the swap bit of the resets that wait for it.
    fn settle_resets(&mut self, on: bool)
        ensures
            final(self)@ == (DssState { resets: settled(old(self)@.resets, on), ..old(self)@ }),
    {
        let ghost s = self@;
        let mut i: usize = 0;
        while i < self.resets.len()
            invariant
                i <= self.resets@.len() == s.resets.len(),
                forall|j: int|
                    0 <= j < s.resets.len() ==> #[trigger] pending(self.resets@)[j] == (if j < i {
                        settled(s.resets, on)[j]
                    } else {
                        s.resets[j]
                    }),
                self@ == (DssState { resets: pending(self.resets@), ..s }),
            decreases self.resets@.len() - i,
        {
            let reset: PendingReset = self.resets[i];
            let ghost before = self.resets@;
            assert(pending(before)[i as int] == s.resets[i as int]);
            if reset.on.is_none() {
                self.resets[i] = PendingReset { at: reset.at, on: Some(on) };
            }
            proof {
                let after = self.resets@;
                assert forall|j: int| 0 <= j < s.resets.len() implies #[trigger] pending(after)[j]
                    == (if j < i + 1 {
                    settled(s.resets, on)[j]
                } else {
                    s.resets[j]
                }) by {
                    assert(pending(before)[j] == (if j < i {
                        settled(s.resets, on)[j]
                    } else {
                        s.resets[j]
                    }));
                }
            }
            i += 1;
        }
        assert(pending(self.resets@) =~= settled(s.resets, on));
    }

    /// Drops the resets that a packet of `size` bytes leaves behind.
    fn pass_resets(&mut self, size: usize)
        ensures
            final(self)@ == (DssState {
                resets: ahead(old(self)@.resets, size as nat),
                ..old(self)@
            }),
    {
        let ghost s = self@;
        let mut kept: Vec<PendingReset> = Vec::new();
        let mut i: usize = 0;
        assert(pending(kept@) =~= ahead(s.resets.take(0), size as nat));
        while i < self.resets.len()
            invariant
                i <= self.resets@.len(),
                pending(self.resets@) == s.resets,
                self@ == s,
                pending(kept@) == ahead(s.resets.take(i as int), size as nat),
            decreases self.resets@.len() - i,
        {
            let reset: PendingReset = self.resets[i];
            let ghost before = kept@;
            assert(pending(self.resets@)[i as int] == s.resets[i as int]);
            assert(s.resets.take(i + 1).drop_last() =~= s.resets.take(i as int));
            if reset.at >= size {
                kept.push(PendingReset { at: reset.at - size, on: reset.on });
                assert(pending(kept@) =~= pending(before).push(
                    Reset { at: (reset.at - size) as nat, on: reset.on },
                ));
            }
            i += 1;
        }
        assert(s.resets.take(i as int) =~= s.resets);
        self.resets = kept;
    }

    /// Cuts the awaited packets that are complete; at a lenient end, all of them.
    fn emit_frames(&mut self, input: Input, frames: &mut Vec<Vec<u8>>)
        ensures
            final(self)@ == dss_cut(old(self)@, input).state,
            bytes::contents(final(frames)@) == bytes::contents(old(frames)@) + dss_cut(
                old(self)@,
                input,
            ).frames,
    {
        let ghost goal = dss_cut(self@, input);
        let ghost all = bytes::contents(frames@) + goal.frames;
        while self.pending_frames > 0
            invariant_except_break
                dss_cut(self@, input).state == goal.state,
                bytes::contents(frames@) + dss_cut(self@, input).frames == all,
            ensures
                self@ == goal.state,
                bytes::contents(frames@) == all,
            decreases self.pending_frames,
        {
            let ghost s = self@;
            let ghost before = frames@;
            let ghost todo = dss_cut(s, input).frames;
            let mut swap: Swap = self.swap;
            let mut held: bool = false;
            if self.resets.len() > 0 {
                let reset: PendingReset = self.resets[0];
                assert(s.resets[0] == (Reset { at: reset.at as nat, on: reset.on }));
                if reset.at == 0 {
                    match reset.on {
                        Some(on) => {
                            swap = Swap { on, byte: 0 };
                        },
                        None => {
                            held = input == Input::Open;
                        },
                    }
                }
            }
            assert(swap == front_swap(s));
            let needed: usize = if swap.on {
                40
            } else {
                SP_PACKET_SIZE
            };
            if held || (input != Input::Lenient && self.stream_buf.len() < needed) {
                assert(must_wait(s, input));
                assert(bytes::contents(frames@) =~= all);
                break;
            }
            assert(!must_wait(s, input));
            let take: usize = if needed < self.stream_buf.len() {
                needed
            } else {
                self.stream_buf.len()
            };
            let pkt: Vec<u8> = packet::fill_sp_packet(
                &mut swap,
                slice_subrange(self.stream_buf.as_slice(), 0, take),
            );
            assert(front_chunk(s) =~= s.stream.subrange(0, take as int));
            frames.push(pkt);
            self.swap = swap;
            self.pending_frames -= 1;
            let _ = bytes::take_front(&mut self.stream_buf, take);
            self.pass_resets(needed);
            proof {
                bytes::lemma_contents_push(before, pkt);
                assert(self@ =~= after_packet(s));
                assert(bytes::contents(before) + todo =~= bytes::contents(frames@) + dss_cut(
                    self@,
                    input,
                ).frames);
            }
        }
        assert(bytes::contents(frames@) =~= all);
    }
}

/// Demuxes a DSS file that comes in pieces.
pub struct DssSpStreamDemuxer {
    framer: Framer,
    stream: DssStream,
}

impl View for DssSpStreamDemuxer {
    type V = DssDemux;

    closed spec fn view(&self) -> DssDemux {
        DssDemux { framing: self.framer@, dss: self.stream@ }
    }
}

impl DssSpStreamDemuxer {
    pub fn new(version: u8) -> (r: Self)
        ensures
            r@ == dss_new(version),
            framing::valid(r@.framing),
    {
        let r: DssSpStreamDemuxer = DssSpStreamDemuxer {
            framer: Framer::new(version as usize * framing::BLOCK_SIZE),
            stream: DssStream {
                stream_buf: Vec::new(),
                pending_frames: 0,
                swap: Swap { on: false, byte: 0 },
                have_initial_swap: false,
                resets: Vec::new(),
            },
        };
        assert(r@ =~= dss_new(version));
        r
    }

    /// Takes more bytes of the file and returns the frames that they complete. A frame that
    /// starts at the end of an empty block is held back until the next block with frames
    /// tells how it is read, or the input ends.
    pub fn push(&mut self, data: &[u8]) -> (r: Result<Vec<Vec<u8>>, DecodeError>)
        requires
            framing::valid(old(self)@.framing),
            old(self)@.dss.awaited + old(self)@.framing.buf.len() + data@.len() <= usize::MAX,
        ensures
            framing::valid(final(self)@.framing),
            r matches Ok(frames) && (final(self)@, bytes::contents(frames@)) == dss_push(
                old(self)@,
                data@,
            ),
    {
        let ghost list = framing::cut(self.framer@, data@);
        let ghost s0 = self@.dss;
        let blocks: Vec<Vec<u8>> = self.framer.push(data);
        let mut frames: Vec<Vec<u8>> = Vec::new();
        let mut i: usize = 0;
        assert(bytes::contents(frames@) =~= Seq::empty());
        assert(512 * list.len() <= old(self)@.framing.buf.len() + data@.len());
        assert(blocks@.len() == bytes::contents(blocks@).len());
        while i < blocks.len()
            invariant
                i <= blocks@.len(),
                bytes::contents(blocks@) == list,
                list == framing::cut(old(self)@.framing, data@),
                blocks@.len() == list.len(),
                s0.awaited + 512 * list.len() <= usize::MAX,
                self.framer@ == framing::after(old(self)@.framing, data@),
                framing::valid(self.framer@),
                self.stream@ == dss_run(s0, list.take(i as int)).state,
                bytes::contents(frames@) == dss_run(s0, list.take(i as int)).frames,
                self.stream@.awaited <= s0.awaited + 255 * i,
            decreases blocks@.len() - i,
        {
            proof {
                assert(bytes::contents(blocks@)[i as int] == blocks@[i as int]@);
                assert(list[i as int].len() == 512);
                assert(list.take(i + 1).drop_last() =~= list.take(i as int));
                lemma_cut_awaits_no_more(dss_with(self.stream@, list[i as int]), Input::Open);
            }
            self.stream.process_block(blocks[i].as_slice(), &mut frames);
            i += 1;
        }
        assert(list.take(blocks@.len() as int) =~= list);
        Ok(frames)
    }

    /// Ends the input. Returns the frames that were held back; anything unfinished is an
    /// error, and leaves the demuxer as it is.
    pub fn finish(&mut self) -> (r: Result<Vec<Vec<u8>>, DecodeError>)
        ensures
            match dss_fault(old(self)@) {
                Some(part) => {
                    &&& r matches Err(e)
                    &&& e@ == Fault::Truncated(part)
                    &&& final(self)@ == old(self)@
                },
                None if old(self)@.framing.header_complete => {
                    let rest = dss_cut(old(self)@.dss, Input::Ended);
                    &&& r matches Ok(frames)
                    &&& bytes::contents(frames@) == rest.frames
                    &&& final(self)@ == (DssDemux { dss: rest.state, ..old(self)@ })
                },
                None => {
                    &&& r matches Ok(frames)
                    &&& frames@.len() == 0
                    &&& final(self)@ == old(self)@
                },
            },
    {
        if !self.framer.header_complete() {
            if self.framer.is_empty() {
                return Ok(Vec::new());
            }
            return Err(DecodeError::Truncated("DSS header".to_string()));
        }
        if !self.framer.is_empty() {
            return Err(DecodeError::Truncated("DSS block".to_string()));
        }
        let mut ended: DssStream = self.stream.copy();
        let mut frames: Vec<Vec<u8>> = Vec::new();
        let ghost rest = dss_cut(ended@, Input::Ended);
        assert(bytes::contents(frames@) + rest.frames =~= rest.frames);
        ended.emit_frames(Input::Ended, &mut frames);
        if ended.pending_frames > 0 {
            return Err(DecodeError::Truncated("DSS SP frame".to_string()));
        }
        self.stream = ended;
        Ok(frames)
    }

    /// Ends the input. An unfinished block is dropped, and the frames still owed are
    /// made of what is there and zeros.
    pub fn finish_lenient(&mut self) -> (r: Result<Vec<Vec<u8>>, DecodeError>)
        ensures
            !old(self)@.framing.header_complete ==> final(self)@ == old(self)@,
            !old(self)@.framing.header_complete && old(self)@.framing.buf.len() == 0 ==> (
            r matches Ok(frames) && frames@.len() == 0),
            !old(self)@.framing.header_complete && old(self)@.framing.buf.len() > 0 ==> (
            r matches Err(e) && e@ == Fault::Truncated("DSS header"@)),
            old(self)@.framing.header_complete ==> ({
                let rest = dss_cut(old(self)@.dss, Input::Lenient);
                &&& r matches Ok(frames)
                &&& bytes::contents(frames@) == rest.frames
                &&& final(self)@ == DssDemux {
                    framing: Framing { buf: Seq::empty(), ..old(self)@.framing },
                    dss: rest.state,
                }
            }),
    {
        if !self.framer.header_complete() {
            if self.framer.is_empty() {
                return Ok(Vec::new());
            }
            return Err(DecodeError::Truncated("DSS header".to_string()));
        }
        self.framer.clear();
        let mut frames: Vec<Vec<u8>> = Vec::new();
        let ghost rest = dss_cut(self@.dss, Input::Lenient);
        assert(bytes::contents(frames@) + rest.frames =~= rest.frames);
        self.stream.emit_frames(Input::Lenient, &mut frames);
        Ok(frames)
    }
}

/// Cutting packets does not raise the count of awaited frames.
proof fn lemma_cut_awaits_no_more(s: DssState, input: Input)
    ensures
        dss_cut(s, input).state.awaited <= s.awaited,
    decreases s.awaited,
{
    if s.awaited > 0 && !must_wait(s, input) {
        lemma_cut_awaits_no_more(after_packet(s), input);
    }
}

} // verus!
