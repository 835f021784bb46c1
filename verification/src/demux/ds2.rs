//! DS2 files.
//!
//! A header of 0x600 bytes, then blocks of 512. SP files (modes 0 and 1) hold packets
//! of 42 bytes cut in alternating reads; QP files (modes 6 and 7) one continuous stream
//! of 56-byte frames.
use crate::bytes;
use crate::demux::framing;
use crate::demux::framing::{Framer, Framing};
use crate::demux::packet;
use crate::demux::packet::{Extracted, Swap, SP_PACKET_SIZE};
use crate::error::{DecodeError, Fault};
use vstd::prelude::*;
use vstd::slice::slice_subrange;

verus! {

/// Bytes before the first block.
pub const DS2_HEADER_SIZE: usize = 0x600;

/// Bytes per QP frame.
pub const DS2_QP_FRAME_SIZE: usize = 56;

/// What a DS2 file holds.
pub enum DemuxedDs2 {
    Sp { packets: Vec<Vec<u8>>, total_frames: usize },
    Qp { stream: Vec<u8>, total_frames: usize },
}

/// The first four bytes of a DS2 file.
pub open spec fn magic() -> Seq<u8> {
    seq![3u8, 0x64, 0x73, 0x32]
}

/// The bytes after the file header.
pub open spec fn body(file: Seq<u8>) -> Seq<u8> {
    file.skip(0x600)
}

/// The swap state before the first packet.
pub open spec fn first_swap(body: Seq<u8>) -> Swap {
    Swap { on: framing::block_swap(body), byte: 0 }
}

/// The packets of an SP file, from the bytes after its header.
pub open spec fn sp_packets(body: Seq<u8>) -> Seq<Seq<u8>> {
    let blocks = framing::blocks(body);
    packet::extract(
        framing::payloads(blocks),
        first_swap(body),
        framing::frame_total(blocks),
    ).packets
}

/// Every packet of an SP file starts inside the stream.
pub open spec fn sp_fits(body: Seq<u8>) -> bool {
    let blocks = framing::blocks(body);
    packet::packets_fit(
        framing::payloads(blocks).len(),
        first_swap(body).on,
        framing::frame_total(blocks),
    )
}

/// What demuxing a DS2 file gives: an SP file its packets, a QP file its stream, with the
/// number of frames.
pub open spec fn is_demuxed(found: DemuxedDs2, file: Seq<u8>) -> bool {
    let blocks = framing::blocks(body(file));
    match found {
        DemuxedDs2::Qp { stream, total_frames } => {
            &&& file[0x604] >= 6
            &&& stream@ == framing::payloads(blocks)
            &&& total_frames == framing::frame_total(blocks)
        },
        DemuxedDs2::Sp { packets, total_frames } => {
            &&& file[0x604] < 6
            &&& bytes::contents(packets@) == sp_packets(body(file))
            &&& total_frames == framing::frame_total(blocks)
        },
    }
}

/// Demuxes a DS2 file.
pub fn demux_ds2(data: &[u8]) -> (r: Result<DemuxedDs2, DecodeError>)
    requires
        bytes::begins_with(data@, magic()) ==> data@.len() > 0x604 && (data@[0x604] < 6 ==> sp_fits(
            body(data@),
        )),
    ensures
        match r {
            Err(e) => {
                &&& !bytes::begins_with(data@, magic())
                &&& e@ == Fault::NotDs2("<bytes>"@)
            },
            Ok(found) => {
                &&& bytes::begins_with(data@, magic())
                &&& is_demuxed(found, data@)
            },
        },
{
    let magic_bytes: [u8; 4] = [3u8, 0x64, 0x73, 0x32];
    assert(magic_bytes@ =~= magic());
    if !bytes::has_magic(data, &magic_bytes) {
        return Err(DecodeError::NotDs2("<bytes>".to_string()));
    }
    let ghost tail = body(data@);
    let ghost blocks = framing::blocks(tail);
    let num_blocks: usize = (data.len() - DS2_HEADER_SIZE) / framing::BLOCK_SIZE;
    let format_type: u8 = data[DS2_HEADER_SIZE + 4];
    let mut total_frames: usize = 0;
    let mut stream: Vec<u8> = Vec::new();
    let mut bi: usize = 0;
    assert(framing::payloads(blocks.take(0)) =~= Seq::empty());
    while bi < num_blocks
        invariant
            bi <= num_blocks,
            0x604 < data@.len() <= usize::MAX,
            num_blocks == (data@.len() - 0x600) / 512,
            tail == body(data@),
            blocks == framing::blocks(tail),
            total_frames == framing::frame_total(blocks.take(bi as int)),
            stream@ == framing::payloads(blocks.take(bi as int)),
        decreases num_blocks - bi,
    {
        assert(0x600 + 512 * bi + 512 <= data@.len());
        let start: usize = DS2_HEADER_SIZE + bi * framing::BLOCK_SIZE;
        proof {
            framing::lemma_frame_total_bound(blocks.take(bi as int));
            framing::lemma_frame_total_take(blocks, bi as int);
            assert(framing::payload(blocks[bi as int]) =~= data@.subrange(
                start + 6,
                start + 512,
            ));
        }
        total_frames = total_frames + data[start + 2] as usize;
        bytes::append(
            &mut stream,
            slice_subrange(
                data,
                start + framing::BLOCK_HEADER_SIZE,
                start + framing::BLOCK_SIZE,
            ),
        );
        bi += 1;
    }
    assert(blocks.take(num_blocks as int) =~= blocks);
    if format_type >= 6 {
        return Ok(DemuxedDs2::Qp { stream, total_frames });
    }
    let on: bool = framing::top_bit(data[DS2_HEADER_SIZE]);
    let packets: Vec<Vec<u8>> = cut_packets(stream, Swap { on, byte: 0 }, total_frames);
    Ok(DemuxedDs2::Sp { packets, total_frames })
}

/// Cuts packets out of a stream that holds the start of each.
fn cut_packets(stream: Vec<u8>, first: Swap, total: usize) -> (packets: Vec<Vec<u8>>)
    requires
        packet::packets_fit(stream@.len(), first.on, total as nat),
    ensures
        bytes::contents(packets@) == packet::extract(stream@, first, total as nat).packets,
{
    let mut packets: Vec<Vec<u8>> = Vec::new();
    let mut rest: Vec<u8> = stream;
    let mut sw: Swap = first;
    let mut left: usize = total;
    assert(bytes::contents(packets@) + packet::extract(rest@, sw, left as nat).packets
        =~= packet::extract(stream@, first, total as nat).packets);
    while left > 0
        invariant
            packet::packets_fit(rest@.len(), sw.on, left as nat),
            bytes::contents(packets@) + packet::extract(rest@, sw, left as nat).packets
                == packet::extract(stream@, first, total as nat).packets,
        decreases left,
    {
        let ghost before = packets@;
        let ghost todo = packet::extract(rest@, sw, left as nat).packets;
        let pkt: Vec<u8> = next_packet(&mut rest, &mut sw);
        packets.push(pkt);
        left -= 1;
        proof {
            bytes::lemma_contents_push(before, pkt);
            assert(bytes::contents(before) + todo =~= bytes::contents(packets@) + packet::extract(
                rest@,
                sw,
                left as nat,
            ).packets);
        }
    }
    packets
}

/// Cuts one packet from the front of a stream.
fn next_packet(stream: &mut Vec<u8>, sw: &mut Swap) -> (pkt: Vec<u8>)
    ensures
        ({
            let n = packet::taken(*old(sw), old(stream)@);
            &&& pkt@ == packet::packet(*old(sw), old(stream)@.take(n))
            &&& final(stream)@ == old(stream)@.skip(n)
            &&& *final(sw) == packet::swap_after(*old(sw), old(stream)@.take(n))
        }),
{
    let needed: usize = if sw.on {
        40
    } else {
        SP_PACKET_SIZE
    };
    let take: usize = if needed < stream.len() {
        needed
    } else {
        stream.len()
    };
    let chunk: Vec<u8> = bytes::take_front(stream, take);
    packet::fill_sp_packet(sw, chunk.as_slice())
}

/// What an SP stream demuxer remembers of the blocks.
#[verifier::ext_equal]
pub struct SpState {
    pub stream: Seq<u8>,
    pub awaited: nat,
    pub swap: Swap,
    pub started: bool,
}

/// A state, and the frames handed out on the way to it.
#[verifier::ext_equal]
pub struct SpRun {
    pub state: SpState,
    pub frames: Seq<Seq<u8>>,
}

/// Before any block.
pub open spec fn sp_start() -> SpState {
    SpState {
        stream: Seq::empty(),
        awaited: 0,
        swap: Swap { on: false, byte: 0 },
        started: false,
    }
}

/// A block that comes in, before packets are cut.
pub open spec fn sp_with(s: SpState, block: Seq<u8>) -> SpState {
    SpState {
        stream: s.stream + framing::payload(block),
        awaited: s.awaited + framing::frame_count(block),
        swap: if s.started {
            s.swap
        } else {
            Swap { on: framing::block_swap(block), ..s.swap }
        },
        started: true,
    }
}

/// Cuts the packets that are complete.
pub open spec fn sp_cut(s: SpState) -> SpRun {
    let k = packet::ready(s.stream.len(), s.swap.on, s.awaited);
    let e = packet::extract(s.stream, s.swap, k);
    SpRun {
        state: SpState {
            stream: e.stream,
            awaited: (s.awaited - k) as nat,
            swap: e.swap,
            ..s
        },
        frames: e.packets,
    }
}

/// The effect of a list of blocks.
pub open spec fn sp_run(s: SpState, blocks: Seq<Seq<u8>>) -> SpRun
    decreases blocks.len(),
{
    if blocks.len() == 0 {
        SpRun { state: s, frames: Seq::empty() }
    } else {
        let before = sp_run(s, blocks.drop_last());
        let last = sp_cut(sp_with(before.state, blocks.last()));
        SpRun { state: last.state, frames: before.frames + last.frames }
    }
}

/// Everything an SP stream demuxer remembers.
#[verifier::ext_equal]
pub struct SpDemux {
    pub framing: Framing,
    pub sp: SpState,
}

/// The state once more bytes have come in, and the frames that they complete.
pub open spec fn sp_push(s: SpDemux, data: Seq<u8>) -> (SpDemux, Seq<Seq<u8>>) {
    let run = sp_run(s.sp, framing::cut(s.framing, data));
    (SpDemux { framing: framing::after(s.framing, data), sp: run.state }, run.frames)
}

/// A demuxer that has seen nothing.
pub open spec fn sp_new() -> SpDemux {
    SpDemux { framing: framing::start(0x600), sp: sp_start() }
}

/// The frames still owed at the end of the input, padded with zeros.
pub open spec fn sp_rest(s: SpState) -> Extracted {
    packet::extract(s.stream, s.swap, s.awaited)
}

/// The state after a lenient end: no frame is owed any more, and an unfinished block is gone.
pub open spec fn sp_ended(s: SpDemux) -> SpDemux {
    let rest = sp_rest(s.sp);
    SpDemux {
        framing: Framing { buf: Seq::empty(), ..s.framing },
        sp: SpState { stream: rest.stream, awaited: 0, swap: rest.swap, ..s.sp },
    }
}

/// Demuxes an SP file that comes in pieces.
pub struct Ds2SpStreamDemuxer {
    framer: Framer,
    stream_buf: Vec<u8>,
    pending_frames: usize,
    swap: Swap,
    have_initial_swap: bool,
}

impl View for Ds2SpStreamDemuxer {
    type V = SpDemux;

    closed spec fn view(&self) -> SpDemux {
        SpDemux {
            framing: self.framer@,
            sp: SpState {
                stream: self.stream_buf@,
                awaited: self.pending_frames as nat,
                swap: self.swap,
                started: self.have_initial_swap,
            },
        }
    }
}

impl Ds2SpStreamDemuxer {
    pub fn new() -> (r: Self)
        ensures
            r@ == sp_new(),
            framing::valid(r@.framing),
    {
        let r: Ds2SpStreamDemuxer = Ds2SpStreamDemuxer {
            framer: Framer::new(DS2_HEADER_SIZE),
            stream_buf: Vec::new(),
            pending_frames: 0,
            swap: Swap { on: false, byte: 0 },
            have_initial_swap: false,
        };
        assert(r@ =~= sp_new());
        r
    }

    /// Takes more bytes of the file and returns the frames that they complete.
    pub fn push(&mut self, data: &[u8]) -> (r: Result<Vec<Vec<u8>>, DecodeError>)
        requires
            framing::valid(old(self)@.framing),
            old(self)@.sp.awaited + old(self)@.framing.buf.len() + data@.len() <= usize::MAX,
        ensures
            framing::valid(final(self)@.framing),
            r matches Ok(frames) && (final(self)@, bytes::contents(frames@)) == sp_push(
                old(self)@,
                data@,
            ),
    {
        let ghost list = framing::cut(self.framer@, data@);
        let ghost s0 = self@.sp;
        let blocks: Vec<Vec<u8>> = self.framer.push(data);
        let mut frames: Vec<Vec<u8>> = Vec::new();
        let mut i: usize = 0;
        assert(bytes::contents(frames@) =~= Seq::empty());
        assert(self@.sp =~= s0);
        assert(512 * list.len() <= old(self)@.framing.buf.len() + data@.len());
        assert(blocks@.len() == bytes::contents(blocks@).len());
        while i < blocks.len()
            invariant
                i <= blocks@.len(),
                bytes::contents(blocks@) == list,
                list == framing::cut(old(self)@.framing, data@),
                blocks@.len() == list.len(),
                s0.awaited + 512 * list.len() <= usize::MAX,
                self.framer@ == framing::after(old(self)@.framing, data@),
                framing::valid(self.framer@),
                self@.sp == sp_run(s0, list.take(i as int)).state,
                bytes::contents(frames@) == sp_run(s0, list.take(i as int)).frames,
                self@.sp.awaited <= s0.awaited + 255 * i,
            decreases blocks@.len() - i,
        {
            proof {
                assert(bytes::contents(blocks@)[i as int] == blocks@[i as int]@);
                assert(blocks@[i as int]@.len() == 512) by {
                    lemma_cut_len(old(self)@.framing, data@, i as int);
                }
                assert(list.take(i + 1).drop_last() =~= list.take(i as int));
                packet::lemma_ready(
                    sp_with(self@.sp, list[i as int]).stream.len(),
                    sp_with(self@.sp, list[i as int]).swap.on,
                    sp_with(self@.sp, list[i as int]).awaited,
                );
            }
            self.process_block(blocks[i].as_slice(), &mut frames);
            i += 1;
        }
        assert(list.take(blocks@.len() as int) =~= list);
        Ok(frames)
    }

    fn process_block(&mut self, block: &[u8], frames: &mut Vec<Vec<u8>>)
        requires
            block@.len() == 512,
            old(self)@.sp.awaited + 255 <= usize::MAX,
        ensures
            final(self)@.framing == old(self)@.framing,
            final(self).framer == old(self).framer,
            final(self)@.sp == sp_cut(sp_with(old(self)@.sp, block@)).state,
            bytes::contents(final(frames)@) == bytes::contents(old(frames)@) + sp_cut(
                sp_with(old(self)@.sp, block@),
            ).frames,
    {
        if !self.have_initial_swap {
            self.swap.on = framing::top_bit(block[0]);
            self.have_initial_swap = true;
        }
        self.pending_frames = self.pending_frames + block[2] as usize;
        bytes::append(
            &mut self.stream_buf,
            slice_subrange(block, framing::BLOCK_HEADER_SIZE, framing::BLOCK_SIZE),
        );
        let ghost s1 = sp_with(old(self)@.sp, block@);
        assert(self@.sp =~= s1);
        let ghost k = packet::ready(s1.stream.len(), s1.swap.on, s1.awaited);
        let ghost goal = packet::extract(s1.stream, s1.swap, k);
        let ghost given = bytes::contents(frames@);
        let ghost mut left = k;
        assert(given + goal.packets =~= bytes::contents(frames@) + goal.packets);
        while self.pending_frames > 0
            invariant_except_break
                left == packet::ready(
                    self.stream_buf@.len(),
                    self.swap.on,
                    self.pending_frames as nat,
                ),
                given + goal.packets == bytes::contents(frames@) + packet::extract(
                    self.stream_buf@,
                    self.swap,
                    left,
                ).packets,
                goal.stream == packet::extract(self.stream_buf@, self.swap, left).stream,
                goal.swap == packet::extract(self.stream_buf@, self.swap, left).swap,
                self.pending_frames - left == s1.awaited - k,
                self.have_initial_swap,
                self.framer == old(self).framer,
            ensures
                left == 0,
                given + goal.packets == bytes::contents(frames@) + packet::extract(
                    self.stream_buf@,
                    self.swap,
                    left,
                ).packets,
                goal.stream == packet::extract(self.stream_buf@, self.swap, left).stream,
                goal.swap == packet::extract(self.stream_buf@, self.swap, left).swap,
                self.pending_frames - left == s1.awaited - k,
                self.have_initial_swap,
                self.framer == old(self).framer,
            decreases self.pending_frames,
        {
            let needed: usize = if self.swap.on {
                40
            } else {
                SP_PACKET_SIZE
            };
            if self.stream_buf.len() < needed {
                break;
            }
            let ghost before = frames@;
            let ghost todo = packet::extract(self.stream_buf@, self.swap, left).packets;
            let pkt: Vec<u8> = next_packet(&mut self.stream_buf, &mut self.swap);
            frames.push(pkt);
            self.pending_frames -= 1;
            proof {
                left = (left - 1) as nat;
                bytes::lemma_contents_push(before, pkt);
                assert(bytes::contents(before) + todo =~= bytes::contents(frames@)
                    + packet::extract(self.stream_buf@, self.swap, left).packets);
            }
        }
        assert(bytes::contents(frames@) + Seq::<Seq<u8>>::empty() =~= bytes::contents(frames@));
        assert(self@.sp =~= sp_cut(s1).state);
    }

    /// Ends the input. Anything unfinished is an error.
    pub fn finish(&mut self) -> (r: Result<Vec<Vec<u8>>, DecodeError>)
        ensures
            final(self)@ == old(self)@,
            match framing::fault(
                old(self)@.framing,
                old(self)@.sp.awaited,
                "DS2 header"@,
                "DS2 block"@,
                "DS2 SP frame"@,
            ) {
                None => r matches Ok(frames) && frames@.len() == 0,
                Some(part) => r matches Err(e) && e@ == Fault::Truncated(part),
            },
    {
        if !self.framer.header_complete() {
            if self.framer.is_empty() {
                return Ok(Vec::new());
            }
            return Err(DecodeError::Truncated("DS2 header".to_string()));
        }
        if !self.framer.is_empty() {
            return Err(DecodeError::Truncated("DS2 block".to_string()));
        }
        if self.pending_frames > 0 {
            return Err(DecodeError::Truncated("DS2 SP frame".to_string()));
        }
        Ok(Vec::new())
    }

    /// Ends the input. An unfinished block is dropped, and the frames still owed are
    /// made of what is there and zeros.
    pub fn finish_lenient(&mut self) -> (r: Result<Vec<Vec<u8>>, DecodeError>)
        ensures
            !old(self)@.framing.header_complete ==> final(self)@ == old(self)@,
            !old(self)@.framing.header_complete && old(self)@.framing.buf.len() == 0 ==> (
            r matches Ok(frames) && frames@.len() == 0),
            !old(self)@.framing.header_complete && old(self)@.framing.buf.len() > 0 ==> (
            r matches Err(e) && e@ == Fault::Truncated("DS2 header"@)),
            old(self)@.framing.header_complete ==> ({
                let rest = sp_rest(old(self)@.sp);
                &&& r matches Ok(frames)
                &&& bytes::contents(frames@) == rest.packets
                &&& final(self)@ == sp_ended(old(self)@)
            }),
    {
        if !self.framer.header_complete() {
            if self.framer.is_empty() {
                return Ok(Vec::new());
            }
            return Err(DecodeError::Truncated("DS2 header".to_string()));
        }
        self.framer.clear();
        let ghost goal = sp_rest(self@.sp);
        let mut frames: Vec<Vec<u8>> = Vec::new();
        assert(bytes::contents(frames@) + goal.packets =~= goal.packets);
        while self.pending_frames > 0
            invariant
                ({
                    let todo = sp_rest(self@.sp);
                    &&& bytes::contents(frames@) + todo.packets == goal.packets
                    &&& todo.stream == goal.stream
                    &&& todo.swap == goal.swap
                }),
                self.framer@ == (Framing { buf: Seq::<u8>::empty(), ..old(self)@.framing }),
                self.have_initial_swap == old(self).have_initial_swap,
            decreases self.pending_frames,
        {
            let ghost before = frames@;
            let ghost todo = sp_rest(self@.sp).packets;
            let pkt: Vec<u8> = next_packet(&mut self.stream_buf, &mut self.swap);
            frames.push(pkt);
            self.pending_frames -= 1;
            proof {
                bytes::lemma_contents_push(before, pkt);
                assert(bytes::contents(before) + todo =~= bytes::contents(frames@) + sp_rest(
                    self@.sp,
                ).packets);
            }
        }
        assert(bytes::contents(frames@) =~= goal.packets);
        Ok(frames)
    }
}

proof fn lemma_cut_len(f: Framing, data: Seq<u8>, i: int)
    requires
        0 <= i < framing::cut(f, data).len(),
    ensures
        framing::cut(f, data)[i].len() == 512,
{
}

/// The effect of a list of pieces, pushed one by one.
pub open spec fn sp_fed(s: SpDemux, pieces: Seq<Seq<u8>>) -> (SpDemux, Seq<Seq<u8>>)
    decreases pieces.len(),
{
    if pieces.len() == 0 {
        (s, Seq::empty())
    } else {
        let before = sp_fed(s, pieces.drop_last());
        let last = sp_push(before.0, pieces.last());
        (last.0, before.1 + last.1)
    }
}

proof fn lemma_sp_run_split(s: SpState, a: Seq<Seq<u8>>, b: Seq<Seq<u8>>)
    ensures
        ({
            let first = sp_run(s, a);
            let second = sp_run(first.state, b);
            sp_run(s, a + b) == SpRun {
                state: second.state,
                frames: first.frames + second.frames,
            }
        }),
    decreases b.len(),
{
    let first = sp_run(s, a);
    if b.len() == 0 {
        assert(a + b =~= a);
        assert(first.frames + Seq::<Seq<u8>>::empty() =~= first.frames);
    } else {
        lemma_sp_run_split(s, a, b.drop_last());
        assert((a + b).drop_last() =~= a + b.drop_last());
        let middle = sp_run(first.state, b.drop_last());
        let last = sp_cut(sp_with(middle.state, b.last()));
        assert((first.frames + middle.frames) + last.frames =~= first.frames + (middle.frames
            + last.frames));
    }
}

/// An SP demuxer hands out the same frames, and ends in the same state, however the file
/// is cut into pieces: as if it had come in one piece.
pub proof fn law_sp_pieces_make_no_difference(s: SpDemux, pieces: Seq<Seq<u8>>)
    requires
        framing::valid(s.framing),
        s.framing.header_size > 0,
    ensures
        sp_fed(s, pieces) == sp_push(s, framing::joined(pieces)),
        framing::valid(sp_fed(s, pieces).0.framing),
    decreases pieces.len(),
{
    if pieces.len() == 0 {
        let none = Seq::<u8>::empty();
        assert(s.framing.buf + none =~= s.framing.buf);
        assert(framing::after(s.framing, none) =~= s.framing);
        assert(framing::cut(s.framing, none) =~= Seq::empty());
    } else {
        let x = framing::joined(pieces.drop_last());
        let y = pieces.last();
        law_sp_pieces_make_no_difference(s, pieces.drop_last());
        framing::law_pieces_make_no_difference(s.framing, x, y);
        lemma_sp_run_split(
            s.sp,
            framing::cut(s.framing, x),
            framing::cut(framing::after(s.framing, x), y),
        );
    }
}

/// After a list of blocks: the frames handed out are the first ones of the whole
/// stream, and the rest of it is what the state holds.
proof fn lemma_sp_run(blocks: Seq<Seq<u8>>, first: Swap)
    requires
        blocks.len() > 0,
        first == (Swap { on: framing::block_swap(blocks[0]), byte: 0 }),
    ensures
        ({
            let run = sp_run(sp_start(), blocks);
            let all = framing::payloads(blocks);
            let total = framing::frame_total(blocks);
            let given = (total - run.state.awaited) as nat;
            &&& run.state.started
            &&& run.state.awaited <= total
            &&& packet::packet_start(first.on, given) <= all.len()
            &&& packet::extract(all, first, given) == Extracted {
                stream: run.state.stream,
                swap: run.state.swap,
                packets: run.frames,
            }
        }),
    decreases blocks.len(),
{
    let earlier = blocks.drop_last();
    let before = sp_run(sp_start(), earlier);
    let s1 = sp_with(before.state, blocks.last());
    let k = packet::ready(s1.stream.len(), s1.swap.on, s1.awaited);
    packet::lemma_ready(s1.stream.len(), s1.swap.on, s1.awaited);
    let all = framing::payloads(blocks);
    if earlier.len() == 0 {
        assert(s1.stream =~= all);
        assert(s1.swap == first);
        assert(before.frames + packet::extract(all, first, k).packets =~= packet::extract(
            all,
            first,
            k,
        ).packets);
    } else {
        assert(earlier[0] == blocks[0]);
        lemma_sp_run(earlier, first);
        let given = (framing::frame_total(earlier) - before.state.awaited) as nat;
        let start = framing::payloads(earlier);
        packet::lemma_extract_more(start, framing::payload(blocks.last()), first, given);
        packet::lemma_packet_start(all, first, given, k);
        packet::lemma_extract_split(all, first, given, k);
    }
}

/// Whatever pieces a DS2 SP file comes in, the frames handed out on the way and those of
/// a lenient end are together the packets that demuxing the whole file gives. Where no
/// frame is awaited at the end, those handed out on the way are all of them.
pub proof fn law_sp_stream_matches_batch(file: Seq<u8>, pieces: Seq<Seq<u8>>)
    requires
        framing::joined(pieces) == file,
        file.len() >= 0x600,
    ensures
        ({
            let (s, frames) = sp_fed(sp_new(), pieces);
            &&& s.framing.header_complete
            &&& frames + sp_rest(s.sp).packets == sp_packets(body(file))
            &&& s.sp.awaited == 0 ==> frames == sp_packets(body(file))
        }),
{
    law_sp_pieces_make_no_difference(sp_new(), pieces);
    assert(Seq::<u8>::empty() + file =~= file);
    let tail = body(file);
    let blocks = framing::blocks(tail);
    let (s, frames) = sp_fed(sp_new(), pieces);
    if blocks.len() == 0 {
        assert(frames =~= Seq::empty());
        assert(sp_packets(tail) =~= Seq::empty());
    } else {
        let first = first_swap(tail);
        assert(blocks[0][0] == tail[0]);
        lemma_sp_run(blocks, first);
        let total = framing::frame_total(blocks);
        let given = (total - s.sp.awaited) as nat;
        packet::lemma_extract_split(framing::payloads(blocks), first, given, s.sp.awaited);
    }
    if s.sp.awaited == 0 {
        assert(frames + sp_rest(s.sp).packets =~= frames);
    }
}

/// Frame `i` of a QP stream, padded with zeros.
pub open spec fn qp_frame(stream: Seq<u8>, i: int) -> Seq<u8> {
    Seq::new(56, |j: int| bytes::padded(stream, 56 * i + j))
}

/// The first `n` frames of a QP stream.
pub open spec fn qp_frames(stream: Seq<u8>, n: nat) -> Seq<Seq<u8>> {
    Seq::new(n, |i: int| qp_frame(stream, i))
}

/// What a QP stream demuxer remembers of the blocks.
#[verifier::ext_equal]
pub struct QpState {
    pub stream: Seq<u8>,
    pub awaited: nat,
}

/// A state, and the frames handed out on the way to it.
#[verifier::ext_equal]
pub struct QpRun {
    pub state: QpState,
    pub frames: Seq<Seq<u8>>,
}

/// A block that comes in, before frames are cut.
pub open spec fn qp_with(s: QpState, block: Seq<u8>) -> QpState {
    QpState {
        stream: s.stream + framing::payload(block),
        awaited: s.awaited + framing::frame_count(block),
    }
}

/// How many of the awaited frames are complete.
pub open spec fn qp_ready(s: QpState) -> nat {
    if s.awaited < s.stream.len() / 56 {
        s.awaited
    } else {
        s.stream.len() / 56
    }
}

/// Cuts the frames that are complete.
pub open spec fn qp_cut(s: QpState) -> QpRun {
    QpRun {
        state: QpState {
            stream: s.stream.skip(56 * qp_ready(s) as int),
            awaited: (s.awaited - qp_ready(s)) as nat,
        },
        frames: qp_frames(s.stream, qp_ready(s)),
    }
}

/// The effect of a list of blocks.
pub open spec fn qp_run(s: QpState, blocks: Seq<Seq<u8>>) -> QpRun
    decreases blocks.len(),
{
    if blocks.len() == 0 {
        QpRun { state: s, frames: Seq::empty() }
    } else {
        let before = qp_run(s, blocks.drop_last());
        let last = qp_cut(qp_with(before.state, blocks.last()));
        QpRun { state: last.state, frames: before.frames + last.frames }
    }
}

/// Everything a QP stream demuxer remembers.
#[verifier::ext_equal]
pub struct QpDemux {
    pub framing: Framing,
    pub qp: QpState,
}

/// The state once more bytes have come in, and the frames that they complete.
pub open spec fn qp_push(s: QpDemux, data: Seq<u8>) -> (QpDemux, Seq<Seq<u8>>) {
    let run = qp_run(s.qp, framing::cut(s.framing, data));
    (QpDemux { framing: framing::after(s.framing, data), qp: run.state }, run.frames)
}

/// A demuxer that has seen nothing.
pub open spec fn qp_new() -> QpDemux {
    QpDemux {
        framing: framing::start(0x600),
        qp: QpState { stream: Seq::empty(), awaited: 0 },
    }
}

/// The effect of a list of pieces, pushed one by one.
pub open spec fn qp_fed(s: QpDemux, pieces: Seq<Seq<u8>>) -> (QpDemux, Seq<Seq<u8>>)
    decreases pieces.len(),
{
    if pieces.len() == 0 {
        (s, Seq::empty())
    } else {
        let before = qp_fed(s, pieces.drop_last());
        let last = qp_push(before.0, pieces.last());
        (last.0, before.1 + last.1)
    }
}

/// The state after a lenient end: no frame is owed any more, and an unfinished block is gone.
pub open spec fn qp_ended(s: QpDemux) -> QpDemux {
    QpDemux {
        framing: Framing { buf: Seq::empty(), ..s.framing },
        qp: QpState {
            stream: if 56 * s.qp.awaited < s.qp.stream.len() {
                s.qp.stream.skip(56 * s.qp.awaited as int)
            } else {
                Seq::empty()
            },
            awaited: 0,
        },
    }
}

/// Demuxes a QP file that comes in pieces.
pub struct Ds2QpStreamDemuxer {
    framer: Framer,
    stream_buf: Vec<u8>,
    pending_frames: usize,
}

impl View for Ds2QpStreamDemuxer {
    type V = QpDemux;

    closed spec fn view(&self) -> QpDemux {
        QpDemux {
            framing: self.framer@,
            qp: QpState { stream: self.stream_buf@, awaited: self.pending_frames as nat },
        }
    }
}

impl Ds2QpStreamDemuxer {
    pub fn new() -> (r: Self)
        ensures
            r@ == qp_new(),
            framing::valid(r@.framing),
    {
        let r: Ds2QpStreamDemuxer = Ds2QpStreamDemuxer {
            framer: Framer::new(DS2_HEADER_SIZE),
            stream_buf: Vec::new(),
            pending_frames: 0,
        };
        assert(r@ =~= qp_new());
        r
    }

    /// Takes more bytes of the file and returns the frames that they complete.
    pub fn push(&mut self, data: &[u8]) -> (r: Result<Vec<Vec<u8>>, DecodeError>)
        requires
            framing::valid(old(self)@.framing),
            old(self)@.qp.awaited + old(self)@.framing.buf.len() + data@.len() <= usize::MAX,
        ensures
            framing::valid(final(self)@.framing),
            r matches Ok(frames) && (final(self)@, bytes::contents(frames@)) == qp_push(
                old(self)@,
                data@,
            ),
    {
        let ghost list = framing::cut(self.framer@, data@);
        let ghost s0 = self@.qp;
        let blocks: Vec<Vec<u8>> = self.framer.push(data);
        let mut frames: Vec<Vec<u8>> = Vec::new();
        let mut i: usize = 0;
        assert(bytes::contents(frames@) =~= Seq::empty());
        assert(self@.qp =~= s0);
        assert(512 * list.len() <= old(self)@.framing.buf.len() + data@.len());
        assert(blocks@.len() == bytes::contents(blocks@).len());
        while i < blocks.len()
            invariant
                i <= blocks@.len(),
                bytes::contents(blocks@) == list,
                list == framing::cut(old(self)@.framing, data@),
                blocks@.len() == list.len(),
                s0.awaited + 512 * list.len() <= usize::MAX,
                self.framer@ == framing::after(old(self)@.framing, data@),
                framing::valid(self.framer@),
                self@.qp == qp_run(s0, list.take(i as int)).state,
                bytes::contents(frames@) == qp_run(s0, list.take(i as int)).frames,
                self@.qp.awaited <= s0.awaited + 255 * i,
            decreases blocks@.len() - i,
        {
            proof {
                assert(bytes::contents(blocks@)[i as int] == blocks@[i as int]@);
                assert(blocks@[i as int]@.len() == 512) by {
                    lemma_cut_len(old(self)@.framing, data@, i as int);
                }
                assert(list.take(i + 1).drop_last() =~= list.take(i as int));
            }
            self.process_block(blocks[i].as_slice(), &mut frames);
            i += 1;
        }
        assert(list.take(blocks@.len() as int) =~= list);
        Ok(frames)
    }

    fn process_block(&mut self, block: &[u8], frames: &mut Vec<Vec<u8>>)
        requires
            block@.len() == 512,
            old(self)@.qp.awaited + 255 <= usize::MAX,
        ensures
            final(self).framer == old(self).framer,
            final(self)@.qp == qp_cut(qp_with(old(self)@.qp, block@)).state,
            bytes::contents(final(frames)@) == bytes::contents(old(frames)@) + qp_cut(
                qp_with(old(self)@.qp, block@),
            ).frames,
    {
        self.pending_frames = self.pending_frames + block[2] as usize;
        bytes::append(
            &mut self.stream_buf,
            slice_subrange(block, framing::BLOCK_HEADER_SIZE, framing::BLOCK_SIZE),
        );
        let ghost s1 = qp_with(old(self)@.qp, block@);
        assert(self@.qp =~= s1);
        let ghost given = bytes::contents(frames@);
        let ghost mut n: nat = 0;
        assert(given + qp_frames(s1.stream, 0) =~= given);
        assert(s1.stream.skip(0) =~= s1.stream);
        while self.pending_frames > 0 && self.stream_buf.len() >= DS2_QP_FRAME_SIZE
            invariant
                self.framer == old(self).framer,
                56 * n <= s1.stream.len(),
                self.stream_buf@ == s1.stream.skip(56 * n as int),
                self.pending_frames + n == s1.awaited,
                bytes::contents(frames@) == given + qp_frames(s1.stream, n),
            decreases self.pending_frames,
        {
            let ghost before = frames@;
            let frame: Vec<u8> = bytes::take_front(&mut self.stream_buf, DS2_QP_FRAME_SIZE);
            frames.push(frame);
            self.pending_frames -= 1;
            proof {
                bytes::lemma_contents_push(before, frame);
                assert(frame@ =~= qp_frame(s1.stream, n as int));
                assert(self.stream_buf@ =~= s1.stream.skip(56 * (n + 1) as int));
                n = n + 1;
                assert(bytes::contents(frames@) =~= given + qp_frames(s1.stream, n));
            }
        }
        assert(n == qp_ready(s1));
    }

    /// Ends the input. Anything unfinished is an error.
    pub fn finish(&mut self) -> (r: Result<Vec<Vec<u8>>, DecodeError>)
        ensures
            final(self)@ == old(self)@,
            match framing::fault(
                old(self)@.framing,
                old(self)@.qp.awaited,
                "DS2 header"@,
                "DS2 block"@,
                "DS2 QP frame"@,
            ) {
                None => r matches Ok(frames) && frames@.len() == 0,
                Some(part) => r matches Err(e) && e@ == Fault::Truncated(part),
            },
    {
        if !self.framer.header_complete() {
            if self.framer.is_empty() {
                return Ok(Vec::new());
            }
            return Err(DecodeError::Truncated("DS2 header".to_string()));
        }
        if !self.framer.is_empty() {
            return Err(DecodeError::Truncated("DS2 block".to_string()));
        }
        if self.pending_frames > 0 {
            return Err(DecodeError::Truncated("DS2 QP frame".to_string()));
        }
        Ok(Vec::new())
    }

    /// Ends the input. An unfinished block is dropped, and the frames still owed are
    /// made of what is there and zeros.
    pub fn finish_lenient(&mut self) -> (r: Result<Vec<Vec<u8>>, DecodeError>)
        ensures
            !old(self)@.framing.header_complete ==> final(self)@ == old(self)@,
            !old(self)@.framing.header_complete && old(self)@.framing.buf.len() == 0 ==> (
            r matches Ok(frames) && frames@.len() == 0),
            !old(self)@.framing.header_complete && old(self)@.framing.buf.len() > 0 ==> (
            r matches Err(e) && e@ == Fault::Truncated("DS2 header"@)),
            old(self)@.framing.header_complete ==> ({
                let s = old(self)@.qp;
                &&& r matches Ok(frames)
                &&& bytes::contents(frames@) == qp_frames(s.stream, s.awaited)
                &&& final(self)@ == qp_ended(old(self)@)
            }),
    {
        if !self.framer.header_complete() {
            if self.framer.is_empty() {
                return Ok(Vec::new());
            }
            return Err(DecodeError::Truncated("DS2 header".to_string()));
        }
        self.framer.clear();
        let ghost s = self@.qp;
        let mut frames: Vec<Vec<u8>> = Vec::new();
        let ghost mut n: nat = 0;
        assert(bytes::contents(frames@) =~= qp_frames(s.stream, 0));
        assert(s.stream.skip(0) =~= s.stream);
        while self.pending_frames > 0
            invariant
                self.framer@ == (Framing { buf: Seq::<u8>::empty(), ..old(self)@.framing }),
                self.pending_frames + n == s.awaited,
                56 * n <= s.stream.len() ==> self.stream_buf@ == s.stream.skip(56 * n as int),
                56 * n > s.stream.len() ==> self.stream_buf@.len() == 0,
                bytes::contents(frames@) == qp_frames(s.stream, n),
            decreases self.pending_frames,
        {
            let ghost before = frames@;
            let take: usize = if DS2_QP_FRAME_SIZE < self.stream_buf.len() {
                DS2_QP_FRAME_SIZE
            } else {
                self.stream_buf.len()
            };
            let mut frame: Vec<u8> = bytes::take_front(&mut self.stream_buf, take);
            let ghost chunk = frame@;
            while frame.len() < DS2_QP_FRAME_SIZE
                invariant
                    chunk.len() <= frame@.len() <= 56,
                    frame@ == Seq::new(frame@.len(), |j: int| bytes::padded(chunk, j)),
                decreases 56 - frame@.len(),
            {
                let ghost f = frame@;
                frame.push(0);
                assert(frame@ =~= Seq::new(frame@.len(), |j: int| bytes::padded(chunk, j)));
            }
            frames.push(frame);
            self.pending_frames -= 1;
            proof {
                bytes::lemma_contents_push(before, frame);
                assert(frame@ =~= qp_frame(s.stream, n as int));
                if 56 * (n + 1) <= s.stream.len() {
                    assert(self.stream_buf@ =~= s.stream.skip(56 * (n + 1) as int));
                }
                n = n + 1;
                assert(bytes::contents(frames@) =~= qp_frames(s.stream, n));
            }
        }
        assert(self@.qp.stream =~= if 56 * s.awaited < s.stream.len() {
            s.stream.skip(56 * s.awaited as int)
        } else {
            Seq::empty()
        });
        Ok(frames)
    }
}

proof fn lemma_qp_run_split(s: QpState, a: Seq<Seq<u8>>, b: Seq<Seq<u8>>)
    ensures
        ({
            let first = qp_run(s, a);
            let second = qp_run(first.state, b);
            qp_run(s, a + b) == QpRun {
                state: second.state,
                frames: first.frames + second.frames,
            }
        }),
    decreases b.len(),
{
    let first = qp_run(s, a);
    if b.len() == 0 {
        assert(a + b =~= a);
        assert(first.frames + Seq::<Seq<u8>>::empty() =~= first.frames);
    } else {
        lemma_qp_run_split(s, a, b.drop_last());
        assert((a + b).drop_last() =~= a + b.drop_last());
        let middle = qp_run(first.state, b.drop_last());
        let last = qp_cut(qp_with(middle.state, b.last()));
        assert((first.frames + middle.frames) + last.frames =~= first.frames + (middle.frames
            + last.frames));
    }
}

/// A QP demuxer hands out the same frames, and ends in the same state, however the file
/// is cut into pieces: as if it had come in one piece.
pub proof fn law_qp_pieces_make_no_difference(s: QpDemux, pieces: Seq<Seq<u8>>)
    requires
        framing::valid(s.framing),
        s.framing.header_size > 0,
    ensures
        qp_fed(s, pieces) == qp_push(s, framing::joined(pieces)),
        framing::valid(qp_fed(s, pieces).0.framing),
    decreases pieces.len(),
{
    if pieces.len() == 0 {
        let none = Seq::<u8>::empty();
        assert(s.framing.buf + none =~= s.framing.buf);
        assert(framing::after(s.framing, none) =~= s.framing);
        assert(framing::cut(s.framing, none) =~= Seq::empty());
    } else {
        let x = framing::joined(pieces.drop_last());
        let y = pieces.last();
        law_qp_pieces_make_no_difference(s, pieces.drop_last());
        framing::law_pieces_make_no_difference(s.framing, x, y);
        lemma_qp_run_split(
            s.qp,
            framing::cut(s.framing, x),
            framing::cut(framing::after(s.framing, x), y),
        );
    }
}

proof fn lemma_qp_run(blocks: Seq<Seq<u8>>)
    ensures
        ({
            let run = qp_run(qp_new().qp, blocks);
            let all = framing::payloads(blocks);
            let total = framing::frame_total(blocks);
            let given = total - run.state.awaited;
            &&& 0 <= given
            &&& 56 * given <= all.len()
            &&& run.state.stream == all.skip(56 * given)
            &&& run.frames == qp_frames(all, given as nat)
        }),
    decreases blocks.len(),
{
    if blocks.len() == 0 {
        assert(framing::payloads(blocks).skip(0) =~= Seq::empty());
        assert(qp_frames(framing::payloads(blocks), 0) =~= Seq::empty());
    } else {
        let earlier = blocks.drop_last();
        lemma_qp_run(earlier);
        let before = qp_run(qp_new().qp, earlier);
        let start = framing::payloads(earlier);
        let all = framing::payloads(blocks);
        let given = framing::frame_total(earlier) - before.state.awaited;
        let s1 = qp_with(before.state, blocks.last());
        let k = qp_ready(s1);
        assert(s1.stream =~= all.skip(56 * given));
        assert(s1.stream.skip(56 * k as int) =~= all.skip(56 * (given + k)));
        assert forall|i: int| 0 <= i < given implies qp_frame(start, i) == #[trigger] qp_frame(
            all,
            i,
        ) by {
            assert(qp_frame(start, i) =~= qp_frame(all, i));
        }
        lemma_qp_frames_split(all, given as nat, k);
        assert(qp_frames(start, given as nat) =~= qp_frames(all, given as nat));
        assert(given as nat + k == (given + k) as nat);
    }
}

proof fn lemma_qp_frames_split(stream: Seq<u8>, a: nat, b: nat)
    requires
        56 * a <= stream.len(),
    ensures
        qp_frames(stream, a + b) == qp_frames(stream, a) + qp_frames(
            stream.skip(56 * a as int),
            b,
        ),
{
    assert forall|i: int| 0 <= i < b implies qp_frame(stream, a + i) == #[trigger] qp_frame(
        stream.skip(56 * a as int),
        i,
    ) by {
        assert(qp_frame(stream, a + i) =~= qp_frame(stream.skip(56 * a as int), i));
    }
    assert(qp_frames(stream, a + b) =~= qp_frames(stream, a) + qp_frames(
        stream.skip(56 * a as int),
        b,
    ));
}

/// Whatever pieces a DS2 QP file comes in, the frames handed out on the way and those of
/// a lenient end are together the frames of the stream that demuxing the whole file
/// gives. Where no frame is awaited at the end, those handed out on the way are all.
pub proof fn law_qp_stream_matches_batch(file: Seq<u8>, pieces: Seq<Seq<u8>>)
    requires
        framing::joined(pieces) == file,
        file.len() >= 0x600,
    ensures
        ({
            let (s, frames) = qp_fed(qp_new(), pieces);
            let blocks = framing::blocks(body(file));
            let all = qp_frames(framing::payloads(blocks), framing::frame_total(blocks));
            &&& s.framing.header_complete
            &&& frames + qp_frames(s.qp.stream, s.qp.awaited) == all
            &&& s.qp.awaited == 0 ==> frames == all
        }),
{
    law_qp_pieces_make_no_difference(qp_new(), pieces);
    assert(Seq::<u8>::empty() + file =~= file);
    let blocks = framing::blocks(body(file));
    let (s, frames) = qp_fed(qp_new(), pieces);
    lemma_qp_run(blocks);
    let given = (framing::frame_total(blocks) - s.qp.awaited) as nat;
    lemma_qp_frames_split(framing::payloads(blocks), given, s.qp.awaited);
    if s.qp.awaited == 0 {
        assert(frames + qp_frames(s.qp.stream, 0) =~= frames);
    }
}

/// A whole SP file in one piece.
pub proof fn lemma_sp_whole(file: Seq<u8>)
    ensures
        ({
            let (s, frames) = sp_push(sp_new(), file);
            &&& s.framing.header_complete == (file.len() >= 0x600)
            &&& file.len() < 0x600 ==> s.framing.buf == file
            &&& file.len() >= 0x600 ==> frames + sp_rest(s.sp).packets == sp_packets(body(file))
        }),
{
    framing::lemma_joined_one(file);
    law_sp_pieces_make_no_difference(sp_new(), seq![file]);
    assert(Seq::<u8>::empty() + file =~= file);
    if file.len() >= 0x600 {
        law_sp_stream_matches_batch(file, seq![file]);
    }
}

/// A whole QP file in one piece.
pub proof fn lemma_qp_whole(file: Seq<u8>)
    ensures
        ({
            let (s, frames) = qp_push(qp_new(), file);
            let blocks = framing::blocks(body(file));
            &&& s.framing.header_complete == (file.len() >= 0x600)
            &&& file.len() < 0x600 ==> s.framing.buf == file
            &&& file.len() >= 0x600 ==> frames + qp_frames(s.qp.stream, s.qp.awaited) == qp_frames(
                framing::payloads(blocks),
                framing::frame_total(blocks),
            )
        }),
{
    framing::lemma_joined_one(file);
    law_qp_pieces_make_no_difference(qp_new(), seq![file]);
    assert(Seq::<u8>::empty() + file =~= file);
    if file.len() >= 0x600 {
        law_qp_stream_matches_batch(file, seq![file]);
    }
}

} // verus!
