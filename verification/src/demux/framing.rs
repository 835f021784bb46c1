//! Cutting a byte stream into a header and blocks of 512 bytes.
use crate::bytes;
use vstd::prelude::*;
use vstd::slice::slice_subrange;

verus! {

/// Bytes per block.
pub const BLOCK_SIZE: usize = 512;

/// Bytes at the start of each block that carry no payload.
pub const BLOCK_HEADER_SIZE: usize = 6;

/// Block `i` of the bytes after a header.
pub open spec fn block(tail: Seq<u8>, i: int) -> Seq<u8> {
    tail.subrange(512 * i, 512 * i + 512)
}

/// The whole blocks of the bytes after a header.
pub open spec fn blocks(tail: Seq<u8>) -> Seq<Seq<u8>> {
    Seq::new(tail.len() / 512, |i: int| block(tail, i))
}

/// The bytes after the last whole block.
pub open spec fn remainder(tail: Seq<u8>) -> Seq<u8> {
    tail.skip(512 * (tail.len() / 512) as int)
}

/// The bytes of a block after its own header.
pub open spec fn payload(block: Seq<u8>) -> Seq<u8> {
    block.subrange(6, 512)
}

/// The first byte of a block tells in its top bit which kind of read comes first.
pub open spec fn block_swap(block: Seq<u8>) -> bool {
    block[0] >= 0x80
}

/// The frames that start in a block.
pub open spec fn frame_count(block: Seq<u8>) -> nat {
    block[2] as nat
}

/// The frames that start in a list of blocks.
pub open spec fn frame_total(blocks: Seq<Seq<u8>>) -> nat
    decreases blocks.len(),
{
    if blocks.len() == 0 {
        0
    } else {
        frame_total(blocks.drop_last()) + frame_count(blocks.last())
    }
}

/// The state of a [`Framer`].
#[verifier::ext_equal]
pub struct Framing {
    pub header_size: nat,
    pub header_complete: bool,
    pub buf: Seq<u8>,
}

/// The state before any byte.
pub open spec fn start(header_size: nat) -> Framing {
    Framing { header_size, header_complete: false, buf: Seq::empty() }
}

/// The state once more bytes have come in.
pub open spec fn after(f: Framing, data: Seq<u8>) -> Framing {
    let all = f.buf + data;
    if f.header_complete {
        Framing { buf: remainder(all), ..f }
    } else if all.len() < f.header_size {
        Framing { buf: all, ..f }
    } else {
        Framing { header_complete: true, buf: remainder(all.skip(f.header_size as int)), ..f }
    }
}

/// The blocks that more bytes complete.
pub open spec fn cut(f: Framing, data: Seq<u8>) -> Seq<Seq<u8>> {
    let all = f.buf + data;
    if f.header_complete {
        blocks(all)
    } else if all.len() < f.header_size {
        Seq::empty()
    } else {
        blocks(all.skip(f.header_size as int))
    }
}

/// The state is one that a [`Framer`] can be in.
pub open spec fn valid(f: Framing) -> bool {
    &&& f.header_complete ==> f.buf.len() < 512
    &&& !f.header_complete ==> f.buf.len() < f.header_size || f.buf.len() == 0
}

pub proof fn lemma_blocks_split(x: Seq<u8>, y: Seq<u8>)
    ensures
        blocks(x + y) == blocks(x) + blocks(remainder(x) + y),
        remainder(x + y) == remainder(remainder(x) + y),
{
    let n = (x.len() / 512) as int;
    let rest = remainder(x);
    let later = rest + y;
    assert(rest.len() == x.len() - 512 * n);
    assert((x + y).len() / 512 == n + later.len() / 512);
    assert forall|i: int| 0 <= i < (x + y).len() / 512 implies #[trigger] blocks(x + y)[i] == (
    blocks(x) + blocks(later))[i] by {
        if i < n {
            assert(block(x + y, i) =~= block(x, i));
        } else {
            assert(block(x + y, i) =~= block(later, i - n));
        }
    }
    assert(blocks(x + y) =~= blocks(x) + blocks(later));
    assert(remainder(x + y) =~= remainder(later));
}

/// How a stream is chopped up does not matter: two pieces in turn leave the same state,
/// and complete the same blocks, as both at once.
pub proof fn law_pieces_make_no_difference(f: Framing, x: Seq<u8>, y: Seq<u8>)
    requires
        valid(f),
    ensures
        after(f, x + y) == after(after(f, x), y),
        cut(f, x + y) == cut(f, x) + cut(after(f, x), y),
{
    let all = f.buf + x;
    assert(f.buf + (x + y) =~= all + y);
    if f.header_complete {
        lemma_blocks_split(all, y);
    } else if all.len() < f.header_size {
        assert(cut(f, x + y) =~= cut(f, x) + cut(after(f, x), y));
    } else {
        let h = f.header_size as int;
        assert((all + y).skip(h) =~= all.skip(h) + y);
        lemma_blocks_split(all.skip(h), y);
    }
}

/// The bytes of a list of blocks, payloads only.
pub open spec fn payloads(blocks: Seq<Seq<u8>>) -> Seq<u8>
    decreases blocks.len(),
{
    if blocks.len() == 0 {
        Seq::empty()
    } else {
        payloads(blocks.drop_last()) + payload(blocks.last())
    }
}

pub proof fn lemma_frame_total_bound(blocks: Seq<Seq<u8>>)
    ensures
        frame_total(blocks) <= 255 * blocks.len(),
    decreases blocks.len(),
{
    if blocks.len() > 0 {
        lemma_frame_total_bound(blocks.drop_last());
    }
}

pub proof fn lemma_frame_total_take(blocks: Seq<Seq<u8>>, n: int)
    requires
        0 <= n < blocks.len(),
    ensures
        frame_total(blocks.take(n + 1)) == frame_total(blocks.take(n)) + frame_count(blocks[n]),
        payloads(blocks.take(n + 1)) == payloads(blocks.take(n)) + payload(blocks[n]),
{
    assert(blocks.take(n + 1).drop_last() =~= blocks.take(n));
}

/// What is missing when the input ends: the name of the part that is incomplete, if any.
pub open spec fn fault(
    f: Framing,
    awaited: nat,
    header: Seq<char>,
    block: Seq<char>,
    frame: Seq<char>,
) -> Option<Seq<char>> {
    if !f.header_complete {
        if f.buf.len() == 0 {
            None
        } else {
            Some(header)
        }
    } else if f.buf.len() > 0 {
        Some(block)
    } else if awaited > 0 {
        Some(frame)
    } else {
        None
    }
}

/// A list of pieces put together.
pub open spec fn joined(pieces: Seq<Seq<u8>>) -> Seq<u8>
    decreases pieces.len(),
{
    if pieces.len() == 0 {
        Seq::empty()
    } else {
        joined(pieces.drop_last()) + pieces.last()
    }
}

pub proof fn lemma_joined_one(piece: Seq<u8>)
    ensures
        joined(seq![piece]) == piece,
{
    let pieces = seq![piece];
    assert(pieces.drop_last() =~= Seq::<Seq<u8>>::empty());
    assert(joined(pieces.drop_last()) =~= Seq::<u8>::empty());
    assert(pieces.last() == piece);
    assert(Seq::<u8>::empty() + piece =~= piece);
}

/// The top bit of a byte.
pub fn top_bit(byte: u8) -> (r: bool)
    ensures
        r == (byte >= 0x80),
{
    let bit: u8 = (byte >> 7) & 1;
    assert((((byte >> 7) & 1) != 0) == (byte >= 0x80)) by (bit_vector);
    bit != 0
}

/// Cuts what it is given into blocks, after a header of known size.
pub struct Framer {
    header_size: usize,
    header_complete: bool,
    buf: Vec<u8>,
}

impl View for Framer {
    type V = Framing;

    closed spec fn view(&self) -> Framing {
        Framing {
            header_size: self.header_size as nat,
            header_complete: self.header_complete,
            buf: self.buf@,
        }
    }
}

impl Framer {
    pub fn new(header_size: usize) -> (r: Self)
        ensures
            r@ == start(header_size as nat),
            valid(r@),
    {
        Framer { header_size, header_complete: false, buf: Vec::new() }
    }

    /// Whether the whole header has come in.
    pub fn header_complete(&self) -> (r: bool)
        ensures
            r == self@.header_complete,
    {
        self.header_complete
    }

    /// Whether nothing waits for more bytes.
    pub fn is_empty(&self) -> (r: bool)
        ensures
            r == (self@.buf.len() == 0),
    {
        self.buf.is_empty()
    }

    /// Drops an unfinished block.
    pub fn clear(&mut self)
        ensures
            final(self)@ == (Framing { buf: Seq::<u8>::empty(), ..old(self)@ }),
    {
        self.buf.clear();
    }

    /// Takes more bytes and hands out the blocks that they complete.
    pub fn push(&mut self, data: &[u8]) -> (r: Vec<Vec<u8>>)
        requires
            valid(old(self)@),
        ensures
            valid(final(self)@),
            final(self)@ == after(old(self)@, data@),
            bytes::contents(r@) == cut(old(self)@, data@),
    {
        let mut out: Vec<Vec<u8>> = Vec::new();
        let mut offset: usize = 0;
        if !self.header_complete {
            let needed: usize = if self.header_size > self.buf.len() {
                self.header_size - self.buf.len()
            } else {
                0
            };
            let take: usize = if needed < data.len() {
                needed
            } else {
                data.len()
            };
            bytes::append(&mut self.buf, slice_subrange(data, 0, take));
            offset = take;
            if self.buf.len() < self.header_size {
                assert(self.buf@ =~= old(self).buf@ + data@);
                assert(bytes::contents(out@) =~= Seq::empty());
                return out;
            }
            self.header_complete = true;
            self.buf.clear();
        }
        bytes::append(&mut self.buf, slice_subrange(data, offset, data.len()));
        let ghost tail = self.buf@;
        proof {
            let all = old(self).buf@ + data@;
            if old(self).header_complete {
                assert(tail =~= all);
            } else {
                assert(tail =~= all.skip(self.header_size as int));
            }
            assert(tail.skip(0) =~= tail);
            assert(bytes::contents(out@) =~= blocks(tail).take(0));
        }
        let ghost mut n: int = 0;
        while self.buf.len() >= BLOCK_SIZE
            invariant
                0 <= n,
                512 * n <= tail.len(),
                self.buf@ == tail.skip(512 * n),
                bytes::contents(out@) == blocks(tail).take(n),
                self.header_complete,
                self.header_size == old(self).header_size,
            decreases self.buf@.len(),
        {
            let front: Vec<u8> = bytes::take_front(&mut self.buf, BLOCK_SIZE);
            proof {
                assert(front@ =~= block(tail, n));
                assert(self.buf@ =~= tail.skip(512 * (n + 1)));
                bytes::lemma_contents_push(out@, front);
                assert(blocks(tail).take(n + 1) =~= blocks(tail).take(n).push(block(tail, n)));
                n = n + 1;
            }
            out.push(front);
        }
        assert(n == tail.len() / 512);
        assert(blocks(tail).take(n) =~= blocks(tail));
        out
    }
}

} // verus!
