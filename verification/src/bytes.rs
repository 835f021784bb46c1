//! Byte buffers.
use vstd::prelude::*;
use vstd::slice::{slice_subrange, slice_to_vec};

verus! {

/// The contents of a list of byte strings.
pub open spec fn contents(v: Seq<Vec<u8>>) -> Seq<Seq<u8>> {
    Seq::new(v.len(), |i: int| v[i]@)
}

/// Byte `i`, or zero beyond the end.
pub open spec fn padded(s: Seq<u8>, i: int) -> u8 {
    if 0 <= i < s.len() {
        s[i]
    } else {
        0
    }
}

/// Whether a byte string begins with four given bytes.
pub open spec fn begins_with(data: Seq<u8>, magic: Seq<u8>) -> bool {
    data.len() >= 4 && data.subrange(0, 4) == magic
}

/// Appends bytes to a buffer.
pub fn append(buf: &mut Vec<u8>, data: &[u8])
    ensures
        final(buf)@ == old(buf)@ + data@,
{
    buf.extend_from_slice(data);
    assert(buf@ =~= old(buf)@ + data@);
}

/// A copy of the bytes `i..j`.
pub fn copy_range(data: &[u8], i: usize, j: usize) -> (r: Vec<u8>)
    requires
        i <= j <= data@.len(),
    ensures
        r@ == data@.subrange(i as int, j as int),
{
    slice_to_vec(slice_subrange(data, i, j))
}

/// Takes the first `n` bytes out of a buffer.
pub fn take_front(buf: &mut Vec<u8>, n: usize) -> (front: Vec<u8>)
    requires
        n <= old(buf)@.len(),
    ensures
        front@ == old(buf)@.take(n as int),
        final(buf)@ == old(buf)@.skip(n as int),
{
    let mut rest: Vec<u8> = buf.split_off(n);
    core::mem::swap(&mut rest, buf);
    assert(rest@ =~= old(buf)@.take(n as int));
    assert(buf@ =~= old(buf)@.skip(n as int));
    rest
}

/// Whether a byte string begins with four given bytes.
pub fn has_magic(data: &[u8], magic: &[u8; 4]) -> (r: bool)
    ensures
        r == begins_with(data@, magic@),
{
    let r: bool = data.len() >= 4 && data[0] == magic[0] && data[1] == magic[1] && data[2]
        == magic[2] && data[3] == magic[3];
    proof {
        if r {
            assert(data@.subrange(0, 4) =~= magic@);
        } else if data@.len() >= 4 && data@.subrange(0, 4) == magic@ {
            let s = data@.subrange(0, 4);
            assert(s[0] == magic@[0] && s[1] == magic@[1] && s[2] == magic@[2] && s[3]
                == magic@[3]);
        }
    }
    r
}

/// Appends one byte string to a list.
pub proof fn lemma_contents_push(v: Seq<Vec<u8>>, x: Vec<u8>)
    ensures
        contents(v.push(x)) == contents(v).push(x@),
{
    assert(contents(v.push(x)) =~= contents(v).push(x@));
}

/// What is missing from a byte string counts as zeros.
pub proof fn law_missing_bytes_are_zero(s: Seq<u8>, i: int)
    ensures
        0 <= i < s.len() ==> padded(s, i) == s[i],
        i < 0 || i >= s.len() ==> padded(s, i) == 0,
{
}

/// A byte string begins with four bytes exactly where it has them at its front.
pub proof fn law_beginnings(data: Seq<u8>, magic: Seq<u8>)
    requires
        magic.len() == 4,
    ensures
        begins_with(data, magic) <==> data.len() >= 4 && data[0] == magic[0] && data[1] == magic[1]
            && data[2] == magic[2] && data[3] == magic[3],
{
    if data.len() >= 4 {
        let four = data.subrange(0, 4);
        assert(four =~= magic <==> (four[0] == magic[0] && four[1] == magic[1] && four[2]
            == magic[2] && four[3] == magic[3]));
    }
}

} // verus!
