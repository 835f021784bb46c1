//! Grundig DSS files.
//!
//! Blocks of 512 bytes with a 6-byte header; the 506 payload bytes are little-endian
//! 16-bit words whose bits are read most significant first. A frame is 328 bits. The
//! header says how many frames start in the block and at which bit the first one does;
//! a frame may run on into the next block.
use crate::bitstream;
use crate::bytes;
use crate::demux::framing;
use crate::error::DecodeError;
use vstd::prelude::*;
use vstd::slice::slice_subrange;

verus! {

/// Bits per frame.
pub const FRAME_BITS: usize = 328;

/// Payload bits per block.
pub const BLOCK_BITS: usize = 4048;

/// Bytes per frame.
pub const FRAME_BYTES: usize = 41;

/// Bit `i` of a block's payload.
pub open spec fn payload_bit(block: Seq<u8>, i: int) -> nat {
    bitstream::stream_bit(framing::payload(block), i as nat)
}

/// Where the first frame of a block starts, in payload bits. The header counts words from
/// the start of the block; a count that points into the header leaves the payload out.
pub open spec fn first_bit(block: Seq<u8>) -> int {
    if block[1] < 3 {
        4048
    } else {
        16 * (block[1] - 3) + block[0] / 16
    }
}

/// How many bits of a frame at `pos` lie in the block itself.
pub open spec fn own_bits(pos: int) -> int {
    if 4048 - pos < 328 {
        4048 - pos
    } else {
        328
    }
}

/// Bit `j` of the frame that starts in block `bi` at `pos`. What lies behind the last
/// block reads as zero.
pub open spec fn frame_bit(blocks: Seq<Seq<u8>>, bi: int, pos: int, j: int) -> nat {
    if j < own_bits(pos) {
        payload_bit(blocks[bi], pos + j)
    } else if bi + 1 < blocks.len() {
        payload_bit(blocks[bi + 1], j - own_bits(pos))
    } else {
        0
    }
}

/// Byte `k` of a frame, first bit highest.
pub open spec fn frame_byte(blocks: Seq<Seq<u8>>, bi: int, pos: int, k: int) -> u8 {
    (128 * frame_bit(blocks, bi, pos, 8 * k) + 64 * frame_bit(blocks, bi, pos, 8 * k + 1) + 32
        * frame_bit(blocks, bi, pos, 8 * k + 2) + 16 * frame_bit(blocks, bi, pos, 8 * k + 3) + 8
        * frame_bit(blocks, bi, pos, 8 * k + 4) + 4 * frame_bit(blocks, bi, pos, 8 * k + 5) + 2
        * frame_bit(blocks, bi, pos, 8 * k + 6) + frame_bit(blocks, bi, pos, 8 * k + 7)) as u8
}

/// The frame that starts in block `bi` at `pos`.
pub open spec fn frame(blocks: Seq<Seq<u8>>, bi: int, pos: int) -> Seq<u8> {
    Seq::new(41, |k: int| frame_byte(blocks, bi, pos, k))
}

/// Where the next frame of the block starts: at the bit at which this one ends. Where it
/// ends in the next block, that bit is counted from the start of the payload again.
pub open spec fn next_pos(blocks: Seq<Seq<u8>>, bi: int, pos: int) -> int {
    if own_bits(pos) == 328 {
        pos + 328
    } else if bi + 1 < blocks.len() {
        328 - own_bits(pos)
    } else {
        4048
    }
}

/// `n` frames of block `bi`, the first at `pos`.
pub open spec fn frames_from(blocks: Seq<Seq<u8>>, bi: int, pos: int, n: nat) -> Seq<Seq<u8>>
    decreases n,
{
    if n == 0 {
        Seq::empty()
    } else {
        seq![frame(blocks, bi, pos)] + frames_from(
            blocks,
            bi,
            next_pos(blocks, bi, pos),
            (n - 1) as nat,
        )
    }
}

/// The frames of the first `n` blocks.
pub open spec fn grundig_frames(blocks: Seq<Seq<u8>>, n: nat) -> Seq<Seq<u8>>
    decreases n,
{
    if n == 0 {
        Seq::empty()
    } else {
        let bi = n - 1;
        grundig_frames(blocks, bi as nat) + frames_from(
            blocks,
            bi,
            first_bit(blocks[bi]),
            framing::frame_count(blocks[bi]),
        )
    }
}

/// All frames of an audio region.
pub open spec fn region_frames(audio: Seq<u8>) -> Seq<Seq<u8>> {
    grundig_frames(framing::blocks(audio), framing::blocks(audio).len())
}

/// Bit `i`, or zero where there is none.
fn bit_or_zero(bits: &[u8], i: usize) -> (r: u8)
    requires
        forall|j: int| 0 <= j < bits@.len() ==> #[trigger] bits@[j] <= 1,
    ensures
        r == bytes::padded(bits@, i as int),
        r <= 1,
{
    if i < bits.len() {
        bits[i]
    } else {
        0
    }
}

/// Byte `k` of packed bits, first bit highest; missing bits are zero.
pub open spec fn packed_byte(bits: Seq<u8>, k: int) -> int {
    128 * bytes::padded(bits, 8 * k) + 64 * bytes::padded(bits, 8 * k + 1) + 32 * bytes::padded(
        bits,
        8 * k + 2,
    ) + 16 * bytes::padded(bits, 8 * k + 3) + 8 * bytes::padded(bits, 8 * k + 4) + 4
        * bytes::padded(bits, 8 * k + 5) + 2 * bytes::padded(bits, 8 * k + 6) + bytes::padded(
        bits,
        8 * k + 7,
    )
}

/// Bits packed into a frame of bytes.
pub open spec fn packed(bits: Seq<u8>) -> Seq<u8> {
    Seq::new(41, |k: int| packed_byte(bits, k) as u8)
}

/// Packs bits into a frame of bytes, first bit highest; missing bits are zero.
pub fn pack_frame(bits: &[u8]) -> (out: Vec<u8>)
    requires
        forall|j: int| 0 <= j < bits@.len() ==> #[trigger] bits@[j] <= 1,
    ensures
        out@ == packed(bits@),
        forall|k: int| 0 <= k < 41 ==> #[trigger] out@[k] == packed_byte(bits@, k),
{
    let mut out: Vec<u8> = Vec::new();
    let mut k: usize = 0;
    while k < FRAME_BYTES
        invariant
            k <= 41,
            forall|j: int| 0 <= j < bits@.len() ==> #[trigger] bits@[j] <= 1,
            out@.len() == k,
            forall|i: int|
                0 <= i < k ==> #[trigger] out@[i] == packed_byte(bits@, i),
        decreases 41 - k,
    {
        let i: usize = 8 * k;
        let high: u8 = 128 * bit_or_zero(bits, i) + 64 * bit_or_zero(bits, i + 1) + 32
            * bit_or_zero(bits, i + 2) + 16 * bit_or_zero(bits, i + 3);
        let low: u8 = 8 * bit_or_zero(bits, i + 4) + 4 * bit_or_zero(bits, i + 5) + 2
            * bit_or_zero(bits, i + 6) + bit_or_zero(bits, i + 7);
        out.push(high + low);
        k += 1;
    }
    assert(out@ =~= packed(bits@));
    out
}

/// Reads the frame that starts in block `bi` at `pos`. Returns it, and where the next one
/// starts.
fn read_frame(blocks: &Vec<Vec<u8>>, bi: usize, pos: usize) -> (r: (Vec<u8>, usize))
    requires
        bi < blocks@.len(),
        pos <= 4048,
        forall|i: int| 0 <= i < blocks@.len() ==> (#[trigger] blocks@[i])@.len() == 512,
    ensures
        r.0@ == frame(bytes::contents(blocks@), bi as int, pos as int),
        r.1 == next_pos(bytes::contents(blocks@), bi as int, pos as int),
        r.1 <= 4048,
{
    let ghost list = bytes::contents(blocks@);
    assert(list[bi as int] == blocks@[bi as int]@);
    let mut bits: Vec<u8> = Vec::new();
    let own: usize = if BLOCK_BITS - pos < FRAME_BITS {
        BLOCK_BITS - pos
    } else {
        FRAME_BITS
    };
    let here: &[u8] = slice_subrange(
        blocks[bi].as_slice(),
        framing::BLOCK_HEADER_SIZE,
        framing::BLOCK_SIZE,
    );
    let mut i: usize = 0;
    while i < own
        invariant
            i <= own,
            own == own_bits(pos as int),
            pos <= 4048,
            list == bytes::contents(blocks@),
            bi < blocks@.len(),
            here@ == framing::payload(list[bi as int]),
            bits@.len() == i,
            forall|j: int|
                0 <= j < i ==> #[trigger] bits@[j] <= 1 && bits@[j] == frame_bit(
                    list,
                    bi as int,
                    pos as int,
                    j,
                ),
        decreases own - i,
    {
        bits.push(bitstream::bit_at(here, pos + i));
        i += 1;
    }
    let mut end: usize = pos + own;
    if own < FRAME_BITS && bi < blocks.len() - 1 {
        assert(list[bi + 1] == blocks@[bi + 1]@);
        let next: &[u8] = slice_subrange(
            blocks[bi + 1].as_slice(),
            framing::BLOCK_HEADER_SIZE,
            framing::BLOCK_SIZE,
        );
        let mut i: usize = 0;
        while i < FRAME_BITS - own
            invariant
                i <= 328 - own,
                own == own_bits(pos as int),
                own < 328,
                pos <= 4048,
                list == bytes::contents(blocks@),
                bi + 1 < blocks@.len(),
                next@ == framing::payload(list[bi + 1]),
                bits@.len() == own + i,
                forall|j: int|
                    0 <= j < own + i ==> #[trigger] bits@[j] <= 1 && bits@[j] == frame_bit(
                        list,
                        bi as int,
                        pos as int,
                        j,
                    ),
            decreases 328 - own - i,
        {
            bits.push(bitstream::bit_at(next, i));
            i += 1;
        }
        end = FRAME_BITS - own;
    }
    let out: Vec<u8> = pack_frame(bits.as_slice());
    proof {
        assert forall|j: int| 0 <= j < 328 implies bytes::padded(bits@, j) == frame_bit(
            list,
            bi as int,
            pos as int,
            j,
        ) by {
            if j < bits@.len() {
                assert(bits@[j] <= 1);
            }
        }
        assert forall|k: int| 0 <= k < 41 implies #[trigger] out@[k] == frame_byte(
            list,
            bi as int,
            pos as int,
            k,
        ) by {
            assert(bytes::padded(bits@, 8 * k) == frame_bit(list, bi as int, pos as int, 8 * k));
            assert(bytes::padded(bits@, 8 * k + 1) == frame_bit(
                list,
                bi as int,
                pos as int,
                8 * k + 1,
            ));
        }
        assert(out@ =~= frame(list, bi as int, pos as int));
    }
    (out, end)
}

/// Demuxes an audio region, the part of the file after the header blocks, into frames of
/// 41 bytes. Returns the frames and their number.
pub fn demux_grundig(audio: &[u8]) -> (r: (Vec<Vec<u8>>, usize))
    ensures
        bytes::contents(r.0@) == region_frames(audio@),
        r.1 == framing::frame_total(framing::blocks(audio@)),
{
    let ghost list = framing::blocks(audio@);
    let nb: usize = audio.len() / framing::BLOCK_SIZE;
    let mut blocks: Vec<Vec<u8>> = Vec::new();
    let mut total_frames: usize = 0;
    let mut bi: usize = 0;
    while bi < nb
        invariant
            bi <= nb,
            nb == audio@.len() / 512,
            audio@.len() <= usize::MAX,
            list == framing::blocks(audio@),
            blocks@.len() == bi,
            forall|i: int| 0 <= i < bi ==> (#[trigger] blocks@[i])@ == list[i],
            total_frames == framing::frame_total(list.take(bi as int)),
        decreases nb - bi,
    {
        assert(512 * bi + 512 <= audio@.len());
        let start: usize = bi * framing::BLOCK_SIZE;
        proof {
            framing::lemma_frame_total_bound(list.take(bi as int));
            framing::lemma_frame_total_take(list, bi as int);
        }
        let block: Vec<u8> = bytes::copy_range(audio, start, start + framing::BLOCK_SIZE);
        assert(block@ =~= list[bi as int]);
        total_frames = total_frames + block[2] as usize;
        blocks.push(block);
        bi += 1;
    }
    assert(list.take(nb as int) =~= list);
    assert(bytes::contents(blocks@) =~= list);
    let mut frames: Vec<Vec<u8>> = Vec::new();
    let mut bi: usize = 0;
    assert(bytes::contents(frames@) =~= Seq::empty());
    while bi < nb
        invariant
            bi <= nb,
            nb == list.len(),
            blocks@.len() == nb,
            list == bytes::contents(blocks@),
            forall|i: int| 0 <= i < nb ==> (#[trigger] blocks@[i])@.len() == 512,
            bytes::contents(frames@) == grundig_frames(list, bi as nat),
        decreases nb - bi,
    {
        let ghost given = bytes::contents(frames@);
        assert(list[bi as int] == blocks@[bi as int]@);
        let b0: u8 = blocks[bi][0];
        let b1: u8 = blocks[bi][1];
        let mut pos: usize = if b1 < 3 {
            BLOCK_BITS
        } else {
            16 * (b1 as usize - 3) + b0 as usize / 16
        };
        let mut left: usize = blocks[bi][2] as usize;
        let ghost goal = given + frames_from(list, bi as int, pos as int, left as nat);
        while left > 0
            invariant
                bi < nb,
                blocks@.len() == nb,
                list == bytes::contents(blocks@),
                forall|i: int| 0 <= i < nb ==> (#[trigger] blocks@[i])@.len() == 512,
                pos <= 4048,
                bytes::contents(frames@) + frames_from(list, bi as int, pos as int, left as nat)
                    == goal,
            decreases left,
        {
            let ghost before = frames@;
            let ghost todo = frames_from(list, bi as int, pos as int, left as nat);
            let (out, end): (Vec<u8>, usize) = read_frame(&blocks, bi, pos);
            frames.push(out);
            pos = end;
            left -= 1;
            proof {
                bytes::lemma_contents_push(before, out);
                assert(bytes::contents(before) + todo =~= bytes::contents(frames@) + frames_from(
                    list,
                    bi as int,
                    pos as int,
                    left as nat,
                ));
            }
        }
        assert(bytes::contents(frames@) =~= goal);
        bi += 1;
    }
    (frames, total_frames)
}

/// Demuxes a Grundig file that comes in pieces: keeps them all until the end.
pub struct GrundigSpStreamDemuxer {
    header_size: usize,
    buf: Vec<u8>,
}

impl GrundigSpStreamDemuxer {
    /// The bytes before the audio region.
    pub closed spec fn header_size(self) -> nat {
        self.header_size as nat
    }

    /// Everything that came in.
    pub closed spec fn received(self) -> Seq<u8> {
        self.buf@
    }

    /// The frames of what came in.
    pub open spec fn frames(self) -> Seq<Seq<u8>> {
        if self.received().len() <= self.header_size() {
            Seq::empty()
        } else {
            region_frames(self.received().skip(self.header_size() as int))
        }
    }

    /// `header_blocks` is the first byte of the file, the number of header blocks.
    pub fn new(header_blocks: u8) -> (r: Self)
        ensures
            r.header_size() == 512 * header_blocks,
            r.received() == Seq::<u8>::empty(),
    {
        GrundigSpStreamDemuxer {
            header_size: header_blocks as usize * framing::BLOCK_SIZE,
            buf: Vec::new(),
        }
    }

    /// Takes more bytes of the file.
    pub fn push(&mut self, data: &[u8]) -> (r: Result<Vec<Vec<u8>>, DecodeError>)
        ensures
            final(self).header_size() == old(self).header_size(),
            final(self).received() == old(self).received() + data@,
            r matches Ok(frames) && frames@.len() == 0,
    {
        bytes::append(&mut self.buf, data);
        Ok(Vec::new())
    }

    /// Ends the input and returns all frames.
    pub fn finish(&mut self) -> (r: Result<Vec<Vec<u8>>, DecodeError>)
        ensures
            final(self).header_size() == old(self).header_size(),
            final(self).received() == old(self).received(),
            r matches Ok(frames) && bytes::contents(frames@) == old(self).frames(),
    {
        self.demux_all()
    }

    /// Ends the input and returns all frames.
    pub fn finish_lenient(&mut self) -> (r: Result<Vec<Vec<u8>>, DecodeError>)
        ensures
            final(self).header_size() == old(self).header_size(),
            final(self).received() == old(self).received(),
            r matches Ok(frames) && bytes::contents(frames@) == old(self).frames(),
    {
        self.demux_all()
    }

    fn demux_all(&mut self) -> (r: Result<Vec<Vec<u8>>, DecodeError>)
        ensures
            *final(self) == *old(self),
            r matches Ok(frames) && bytes::contents(frames@) == old(self).frames(),
    {
        if self.buf.len() <= self.header_size {
            let none: Vec<Vec<u8>> = Vec::new();
            assert(bytes::contents(none@) =~= Seq::empty());
            return Ok(none);
        }
        let audio: &[u8] = slice_subrange(self.buf.as_slice(), self.header_size, self.buf.len());
        assert(audio@ =~= self.buf@.skip(self.header_size as int));
        let (frames, _): (Vec<Vec<u8>>, usize) = demux_grundig(audio);
        Ok(frames)
    }
}

} // verus!
