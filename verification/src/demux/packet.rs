//! SP packets: 42-byte packets cut from a byte stream in alternating reads.
//!
//! A plain read takes 42 bytes; the one after it takes 40, whose even bytes are moved
//! and whose second byte comes from the plain packet before.
use crate::bytes;
use vstd::prelude::*;

verus! {

/// Bytes per SP packet.
pub const SP_PACKET_SIZE: usize = 42;

/// Which kind of read comes next, and the byte that the last plain one left over.
#[derive(Clone, Copy)]
pub struct Swap {
    pub on: bool,
    pub byte: u8,
}

/// How many bytes the next read takes.
pub open spec fn need(on: bool) -> nat {
    if on {
        40
    } else {
        42
    }
}

/// The packet made of the bytes read. Missing bytes are zero.
pub open spec fn packet(sw: Swap, chunk: Seq<u8>) -> Seq<u8> {
    Seq::new(
        42,
        |i: int|
            if i == 40 {
                0
            } else if !sw.on {
                bytes::padded(chunk, i)
            } else if i == 1 {
                sw.byte
            } else if i % 2 == 0 {
                bytes::padded(chunk, i + 1)
            } else {
                bytes::padded(chunk, i - 3)
            },
    )
}

/// The swap state after a read.
pub open spec fn swap_after(sw: Swap, chunk: Seq<u8>) -> Swap {
    Swap {
        on: !sw.on,
        byte: if sw.on {
            sw.byte
        } else {
            bytes::padded(chunk, 40)
        },
    }
}

/// How much the next read takes from a stream.
pub open spec fn taken(sw: Swap, stream: Seq<u8>) -> int {
    if stream.len() < need(sw.on) {
        stream.len() as int
    } else {
        need(sw.on) as int
    }
}

/// What is left after `n` packets: the stream, the swap state, and the packets.
pub struct Extracted {
    pub stream: Seq<u8>,
    pub swap: Swap,
    pub packets: Seq<Seq<u8>>,
}

/// Cuts `n` packets from the front of a stream, padding with zeros at its end.
pub open spec fn extract(stream: Seq<u8>, sw: Swap, n: nat) -> Extracted
    decreases n,
{
    if n == 0 {
        Extracted { stream, swap: sw, packets: Seq::empty() }
    } else {
        let chunk = stream.take(taken(sw, stream));
        let later = extract(
            stream.skip(taken(sw, stream)),
            swap_after(sw, chunk),
            (n - 1) as nat,
        );
        Extracted { packets: seq![packet(sw, chunk)] + later.packets, ..later }
    }
}

/// Where the packet `k` reads from, counted in bytes of the stream.
pub open spec fn packet_start(on: bool, k: nat) -> nat
    decreases k,
{
    if k == 0 {
        0
    } else {
        need(on) + packet_start(!on, (k - 1) as nat)
    }
}

/// `n` packets can be cut from `len` bytes without a read that starts past the end.
pub open spec fn packets_fit(len: nat, on: bool, n: nat) -> bool {
    n == 0 || packet_start(on, (n - 1) as nat) <= len
}

/// How many of the awaited packets a stream of `len` bytes holds in full.
pub open spec fn ready(len: nat, on: bool, awaited: nat) -> nat
    decreases awaited,
{
    if awaited == 0 || len < need(on) {
        0
    } else {
        1 + ready((len - need(on)) as nat, !on, (awaited - 1) as nat)
    }
}

pub proof fn lemma_ready(len: nat, on: bool, awaited: nat)
    ensures
        ready(len, on, awaited) <= awaited,
        packet_start(on, ready(len, on, awaited)) <= len,
    decreases awaited,
{
    if awaited > 0 && len >= need(on) {
        lemma_ready((len - need(on)) as nat, !on, (awaited - 1) as nat);
    }
}

/// Packets are cut one after the other: `a + b` at once are `a`, then `b`.
pub proof fn lemma_extract_split(stream: Seq<u8>, sw: Swap, a: nat, b: nat)
    ensures
        ({
            let first = extract(stream, sw, a);
            let second = extract(first.stream, first.swap, b);
            extract(stream, sw, a + b) == Extracted {
                packets: first.packets + second.packets,
                ..second
            }
        }),
    decreases a,
{
    let first = extract(stream, sw, a);
    let second = extract(first.stream, first.swap, b);
    if a == 0 {
        assert(first.packets + second.packets =~= second.packets);
    } else {
        let chunk = stream.take(taken(sw, stream));
        let rest = stream.skip(taken(sw, stream));
        lemma_extract_split(rest, swap_after(sw, chunk), (a - 1) as nat, b);
        let tail = extract(rest, swap_after(sw, chunk), (a - 1) as nat);
        assert((a + b - 1) as nat == (a - 1) as nat + b);
        assert(seq![packet(sw, chunk)] + (tail.packets + second.packets) =~= (seq![
            packet(sw, chunk),
        ] + tail.packets) + second.packets);
    }
}

pub proof fn lemma_packet_start(stream: Seq<u8>, sw: Swap, a: nat, b: nat)
    requires
        packet_start(sw.on, a) <= stream.len(),
    ensures
        extract(stream, sw, a).stream.len() == stream.len() - packet_start(sw.on, a),
        packet_start(sw.on, a + b) == packet_start(sw.on, a) + packet_start(
            extract(stream, sw, a).swap.on,
            b,
        ),
    decreases a,
{
    if a > 0 {
        let chunk = stream.take(taken(sw, stream));
        lemma_packet_start(
            stream.skip(taken(sw, stream)),
            swap_after(sw, chunk),
            (a - 1) as nat,
            b,
        );
        assert((a + b - 1) as nat == (a - 1) as nat + b);
    }
}

/// Bytes that come in later do not change packets that are complete.
pub proof fn lemma_extract_more(stream: Seq<u8>, more: Seq<u8>, sw: Swap, n: nat)
    requires
        packet_start(sw.on, n) <= stream.len(),
    ensures
        extract(stream + more, sw, n) == (Extracted {
            stream: extract(stream, sw, n).stream + more,
            ..extract(stream, sw, n)
        }),
    decreases n,
{
    if n > 0 {
        let k = need(sw.on) as int;
        assert(taken(sw, stream) == k);
        assert(taken(sw, stream + more) == k);
        assert((stream + more).take(k) =~= stream.take(k));
        assert((stream + more).skip(k) =~= stream.skip(k) + more);
        lemma_extract_more(
            stream.skip(k),
            more,
            swap_after(sw, stream.take(k)),
            (n - 1) as nat,
        );
    }
}

/// Makes a packet of the bytes read and advances the swap state.
pub fn fill_sp_packet(sw: &mut Swap, chunk: &[u8]) -> (pkt: Vec<u8>)
    requires
        chunk@.len() <= need(old(sw).on),
    ensures
        pkt@ == packet(*old(sw), chunk@),
        *final(sw) == swap_after(*old(sw), chunk@),
{
    let mut buf: [u8; 43] = [0u8; 43];
    let count: usize = chunk.len();
    let base: usize = if sw.on {
        3
    } else {
        0
    };
    let mut i: usize = 0;
    while i < count
        invariant
            i <= count,
            count == chunk@.len(),
            base + count <= 43,
            base == 0 || base == 3,
            forall|j: int|
                0 <= j < 43 ==> #[trigger] buf@[j] == (if base <= j < base + i {
                    chunk@[j - base]
                } else {
                    0
                }),
        decreases count - i,
    {
        buf[base + i] = chunk[i];
        i += 1;
    }
    if sw.on {
        let ghost filled = buf@;
        let mut k: usize = 0;
        while k < SP_PACKET_SIZE - 2
            invariant
                k <= 40,
                k % 2 == 0,
                filled.len() == 43,
                forall|j: int|
                    0 <= j < 43 ==> #[trigger] buf@[j] == (if j < k && j % 2 == 0 {
                        filled[j + 4]
                    } else {
                        filled[j]
                    }),
            decreases 40 - k,
        {
            buf[k] = buf[k + 4];
            k += 2;
        }
        buf[1] = sw.byte;
    } else {
        sw.byte = buf[SP_PACKET_SIZE - 2];
    }
    buf[SP_PACKET_SIZE - 2] = 0;
    sw.on = !sw.on;
    let mut pkt: Vec<u8> = Vec::new();
    let mut i: usize = 0;
    while i < SP_PACKET_SIZE
        invariant
            i <= 42,
            pkt@.len() == i,
            forall|j: int| 0 <= j < i ==> #[trigger] pkt@[j] == buf@[j],
        decreases 42 - i,
    {
        pkt.push(buf[i]);
        i += 1;
    }
    assert(pkt@ =~= packet(*old(sw), chunk@));
    pkt
}

} // verus!
