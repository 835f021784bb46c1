//! Decryption of an encrypted DS2 file that comes in pieces.
use crate::bytes;
use crate::crypto::ds2_encrypted;
use crate::crypto::ds2_encrypted::{
    DecryptDescriptor, KeyMode, PayloadDecryptState, DS2_BLOCK_SIZE, DS2_HEADER_SIZE,
    ENCRYPTED_MAGIC, PLAIN_MAGIC,
};
use crate::crypto::ds2_laws;
use crate::demux::framing;
use crate::error::{DecodeError, Fault};
use vstd::prelude::*;
use vstd::slice::slice_subrange;

verus! {

/// What a decryptor remembers: the header bytes, the bytes of an unfinished block, and
/// the key once the header is complete and the password accepted.
#[verifier::ext_equal]
pub struct Decryptor {
    pub password: Seq<u8>,
    pub header: Seq<u8>,
    pub pending: Seq<u8>,
    pub open: Option<(KeyMode, Seq<u8>)>,
}

/// A decryptor that has seen nothing.
pub open spec fn new_decryptor(password: Seq<u8>) -> Decryptor {
    Decryptor { password, header: Seq::empty(), pending: Seq::empty(), open: None }
}

/// The state is one that a decryptor can be in.
pub open spec fn valid(s: Decryptor) -> bool {
    if s.open is Some {
        s.pending.len() < 512
    } else {
        s.pending.len() == 0
    }
}

/// Bytes for the blocks come in: the whole blocks are decrypted, the rest waits.
pub open spec fn with_blocks(s: Decryptor, mode: KeyMode, key: Seq<u8>, data: Seq<u8>) -> (
    Decryptor,
    Seq<u8>,
) {
    let all = s.pending + data;
    (
        Decryptor { pending: framing::remainder(all), open: Some((mode, key)), ..s },
        ds2_encrypted::opened_blocks(mode, key, framing::blocks(all)),
    )
}

/// The key that the header and the password give.
pub open spec fn header_key(header: Seq<u8>, password: Seq<u8>) -> Result<
    (KeyMode, Seq<u8>),
    Fault,
> {
    match ds2_encrypted::descriptor_of(header) {
        Err(fault) => Err(fault),
        Ok(d) => match ds2_encrypted::key_for(password, d) {
            Err(fault) => Err(fault),
            Ok(key) => Ok((d.mode, key)),
        },
    }
}

/// The state once more bytes have come in, and the plain bytes that they give.
pub open spec fn pushed(s: Decryptor, data: Seq<u8>) -> (Decryptor, Result<Seq<u8>, Fault>) {
    match s.open {
        Some((mode, key)) => {
            let (next, out) = with_blocks(s, mode, key, data);
            (next, Ok(out))
        },
        None => {
            let header = s.header + data;
            let waiting = Decryptor { header, ..s };
            if header.len() >= 4 && !bytes::begins_with(header, ENCRYPTED_MAGIC@) {
                (waiting, Err(ds2_encrypted::wrong_magic()))
            } else if header.len() < 0x600 {
                (waiting, Ok(Seq::empty()))
            } else {
                match header_key(header, s.password) {
                    Err(fault) => (waiting, Err(fault)),
                    Ok((mode, key)) => {
                        let (next, out) = with_blocks(
                            Decryptor { header: header.take(0x600), ..s },
                            mode,
                            key,
                            header.skip(0x600),
                        );
                        (next, Ok(ds2_encrypted::plain_header(header) + out))
                    },
                }
            }
        },
    }
}

/// What is missing when the input ends.
pub open spec fn fault(s: Decryptor) -> Option<Fault> {
    if s.open is None {
        if s.header.len() == 0 {
            None
        } else {
            Some(Fault::Truncated("encrypted DS2 header"@))
        }
    } else if s.pending.len() > 0 {
        Some(Fault::Truncated("encrypted DS2 block"@))
    } else {
        None
    }
}

/// Decrypts an encrypted DS2 file that comes in pieces.
pub struct EncryptedDs2BlockDecryptor {
    password: Vec<u8>,
    header_buf: Vec<u8>,
    block_buf: Vec<u8>,
    open: Option<(KeyMode, PayloadDecryptState)>,
}

impl View for EncryptedDs2BlockDecryptor {
    type V = Decryptor;

    closed spec fn view(&self) -> Decryptor {
        Decryptor {
            password: self.password@,
            header: self.header_buf@,
            pending: self.block_buf@,
            open: match self.open {
                Some((mode, state)) => Some((mode, state.key())),
                None => None,
            },
        }
    }
}

impl EncryptedDs2BlockDecryptor {
    /// The state is consistent.
    pub closed spec fn well_formed(self) -> bool {
        &&& valid(self@)
        &&& self.open matches Some((mode, state)) ==> state.valid()
    }

    pub fn new(password: &[u8]) -> (r: Self)
        ensures
            r.well_formed(),
            r@ == new_decryptor(password@),
    {
        let r: EncryptedDs2BlockDecryptor = EncryptedDs2BlockDecryptor {
            password: bytes::copy_range(password, 0, password.len()),
            header_buf: Vec::new(),
            block_buf: Vec::new(),
            open: None,
        };
        assert(r@ =~= new_decryptor(password@));
        r
    }

    /// Takes more bytes of the file and returns the plain bytes that they give.
    pub fn push(&mut self, data: &[u8]) -> (r: Result<Vec<u8>, DecodeError>)
        requires
            old(self).well_formed(),
        ensures
            final(self).well_formed(),
            match r {
                Ok(out) => pushed(old(self)@, data@) == (
                    final(self)@,
                    Ok::<Seq<u8>, Fault>(out@),
                ),
                Err(e) => pushed(old(self)@, data@) == (final(self)@, Err::<Seq<u8>, Fault>(e@)),
            },
    {
        let mut out: Vec<u8> = Vec::new();
        if let Some((mode, state)) = self.open {
            bytes::append(&mut self.block_buf, data);
            self.drain_full_blocks(mode, &state, &mut out);
            assert(self@ =~= with_blocks(old(self)@, mode, state.key(), data@).0);
            return Ok(out);
        }
        bytes::append(&mut self.header_buf, data);
        let ghost header = self.header_buf@;
        assert(self@ =~= (Decryptor { header, ..old(self)@ }));
        if self.header_buf.len() >= 4 && !bytes::has_magic(
            self.header_buf.as_slice(),
            &ENCRYPTED_MAGIC,
        ) {
            return Err(
                DecodeError::EncryptedDs2("expected encrypted DS2 magic \\x03enc".to_string()),
            );
        }
        if self.header_buf.len() < DS2_HEADER_SIZE {
            assert(out@ =~= Seq::empty());
            return Ok(out);
        }
        let descriptor: DecryptDescriptor = match ds2_encrypted::parse_decrypt_descriptor(
            self.header_buf.as_slice(),
        ) {
            Ok(d) => d,
            Err(e) => {
                return Err(e);
            },
        };
        let state: PayloadDecryptState = match ds2_encrypted::build_saved_state(
            self.password.as_slice(),
            &descriptor,
        ) {
            Ok(state) => state,
            Err(e) => {
                return Err(e);
            },
        };
        let mode: KeyMode = descriptor.key_mode;
        let magic: [u8; 4] = PLAIN_MAGIC;
        bytes::append(&mut out, magic.as_slice());
        bytes::append(&mut out, slice_subrange(self.header_buf.as_slice(), 4, DS2_HEADER_SIZE));
        let ghost head = out@;
        assert(head =~= ds2_encrypted::plain_header(header));
        let rest: Vec<u8> = self.header_buf.split_off(DS2_HEADER_SIZE);
        bytes::append(&mut self.block_buf, rest.as_slice());
        self.open = Some((mode, state));
        self.drain_full_blocks(mode, &state, &mut out);
        proof {
            let s = Decryptor { header: header.take(0x600), ..old(self)@ };
            assert(rest@ =~= header.skip(0x600));
            assert(self@ =~= with_blocks(s, mode, state.key(), header.skip(0x600)).0);
        }
        Ok(out)
    }

    /// Decrypts the whole blocks that have come in.
    fn drain_full_blocks(
        &mut self,
        mode: KeyMode,
        state: &PayloadDecryptState,
        out: &mut Vec<u8>,
    )
        requires
            state.valid(),
        ensures
            final(self).password == old(self).password,
            final(self).header_buf == old(self).header_buf,
            final(self).open == old(self).open,
            final(self).block_buf@ == framing::remainder(old(self).block_buf@),
            final(out)@ == old(out)@ + ds2_encrypted::opened_blocks(
                mode,
                state.key(),
                framing::blocks(old(self).block_buf@),
            ),
    {
        let ghost all = self.block_buf@;
        let ghost blocks = framing::blocks(all);
        let ghost given = out@;
        let ghost mut n: int = 0;
        assert(all.skip(0) =~= all);
        assert(given + ds2_encrypted::opened_blocks(mode, state.key(), blocks.take(0)) =~= given);
        while self.block_buf.len() >= DS2_BLOCK_SIZE
            invariant
                state.valid(),
                self.password == old(self).password,
                self.header_buf == old(self).header_buf,
                self.open == old(self).open,
                0 <= n,
                512 * n <= all.len(),
                blocks == framing::blocks(all),
                self.block_buf@ == all.skip(512 * n),
                out@ == given + ds2_encrypted::opened_blocks(mode, state.key(), blocks.take(n)),
            decreases self.block_buf@.len(),
        {
            let mut block: Vec<u8> = bytes::take_front(&mut self.block_buf, DS2_BLOCK_SIZE);
            proof {
                assert(block@ =~= blocks[n]);
                assert(self.block_buf@ =~= all.skip(512 * (n + 1)));
                assert(blocks.take(n + 1).drop_last() =~= blocks.take(n));
            }
            let done: Result<(), DecodeError> = ds2_encrypted::decrypt_record_in_place(
                state,
                mode,
                &mut block,
            );
            assert(done is Ok);
            out.append(&mut block);
            proof {
                n = n + 1;
                assert(out@ =~= given + ds2_encrypted::opened_blocks(
                    mode,
                    state.key(),
                    blocks.take(n),
                ));
            }
        }
        assert(n == all.len() / 512);
        assert(blocks.take(n) =~= blocks);
    }

    /// Ends the input. An unfinished header or block is an error.
    pub fn finish(&mut self) -> (r: Result<Vec<u8>, DecodeError>)
        ensures
            *final(self) == *old(self),
            match fault(old(self)@) {
                None => r matches Ok(out) && out@.len() == 0,
                Some(f) => r matches Err(e) && e@ == f,
            },
    {
        if self.open.is_none() {
            if self.header_buf.is_empty() {
                return Ok(Vec::new());
            }
            return Err(DecodeError::Truncated("encrypted DS2 header".to_string()));
        }
        if !self.block_buf.is_empty() {
            return Err(DecodeError::Truncated("encrypted DS2 block".to_string()));
        }
        Ok(Vec::new())
    }
}

/// The effect of a list of pieces, pushed one by one until one fails.
pub open spec fn fed(s: Decryptor, pieces: Seq<Seq<u8>>) -> (Decryptor, Result<Seq<u8>, Fault>)
    decreases pieces.len(),
{
    if pieces.len() == 0 {
        (s, Ok(Seq::empty()))
    } else {
        let (before, given) = fed(s, pieces.drop_last());
        match given {
            Err(fault) => (before, Err(fault)),
            Ok(first) => {
                let (after, last) = pushed(before, pieces.last());
                match last {
                    Err(fault) => (after, Err(fault)),
                    Ok(second) => (after, Ok(first + second)),
                }
            },
        }
    }
}

proof fn lemma_opened_split(mode: KeyMode, key: Seq<u8>, a: Seq<Seq<u8>>, b: Seq<Seq<u8>>)
    ensures
        ds2_encrypted::opened_blocks(mode, key, a + b) == ds2_encrypted::opened_blocks(mode, key, a)
            + ds2_encrypted::opened_blocks(mode, key, b),
    decreases b.len(),
{
    let first = ds2_encrypted::opened_blocks(mode, key, a);
    if b.len() == 0 {
        assert(a + b =~= a);
        assert(first + Seq::<u8>::empty() =~= first);
    } else {
        lemma_opened_split(mode, key, a, b.drop_last());
        assert((a + b).drop_last() =~= a + b.drop_last());
        let middle = ds2_encrypted::opened_blocks(mode, key, b.drop_last());
        let last = ds2_encrypted::opened_block(mode, key, b.last());
        assert((first + middle) + last =~= first + (middle + last));
    }
}

proof fn lemma_with_blocks_split(
    s: Decryptor,
    mode: KeyMode,
    key: Seq<u8>,
    x: Seq<u8>,
    y: Seq<u8>,
)
    ensures
        ({
            let (s1, out1) = with_blocks(s, mode, key, x);
            let (s2, out2) = with_blocks(s1, mode, key, y);
            with_blocks(s, mode, key, x + y) == (s2, out1 + out2)
        }),
{
    let all = s.pending + x;
    assert(s.pending + (x + y) =~= all + y);
    framing::lemma_blocks_split(all, y);
    lemma_opened_split(
        mode,
        key,
        framing::blocks(all),
        framing::blocks(framing::remainder(all) + y),
    );
}

/// A longer header says the same.
proof fn lemma_header_longer(header: Seq<u8>, more: Seq<u8>)
    requires
        header.len() >= 0x600,
    ensures
        ds2_encrypted::descriptor_of(header + more) == ds2_encrypted::descriptor_of(header),
        ds2_encrypted::plain_header(header + more) == ds2_encrypted::plain_header(header),
        (header + more).take(0x600) == header.take(0x600),
        (header + more).skip(0x600) == header.skip(0x600) + more,
{
    assert((header + more).subrange(0x148, 0x158) =~= header.subrange(0x148, 0x158));
    assert((header + more).subrange(4, 0x600) =~= header.subrange(4, 0x600));
    assert((header + more).take(0x600) =~= header.take(0x600));
    assert((header + more).skip(0x600) =~= header.skip(0x600) + more);
}

proof fn lemma_magic_longer(header: Seq<u8>, more: Seq<u8>)
    requires
        header.len() >= 4,
    ensures
        bytes::begins_with(header + more, ENCRYPTED_MAGIC@) == bytes::begins_with(
            header,
            ENCRYPTED_MAGIC@,
        ),
{
    assert((header + more).subrange(0, 4) =~= header.subrange(0, 4));
}

/// Two pieces in turn give what both at once give: the same plain bytes and state, or
/// the same fault.
pub proof fn law_pieces_make_no_difference(s: Decryptor, x: Seq<u8>, y: Seq<u8>)
    requires
        valid(s),
    ensures
        valid(pushed(s, x).0),
        match pushed(s, x).1 {
            Err(fault) => pushed(s, x + y).1 == Err::<Seq<u8>, Fault>(fault),
            Ok(first) => {
                let (s2, last) = pushed(pushed(s, x).0, y);
                match last {
                    Err(fault) => pushed(s, x + y) == (s2, Err::<Seq<u8>, Fault>(fault)),
                    Ok(second) => pushed(s, x + y) == (s2, Ok::<Seq<u8>, Fault>(first + second)),
                }
            },
        },
{
    match s.open {
        Some((mode, key)) => {
            lemma_with_blocks_split(s, mode, key, x, y);
        },
        None => {
            let header = s.header + x;
            assert(s.header + (x + y) =~= header + y);
            if header.len() >= 4 {
                lemma_magic_longer(header, y);
            }
            if header.len() < 0x600 {
                if header.len() < 4 || bytes::begins_with(header, ENCRYPTED_MAGIC@) {
                    let none = Seq::<u8>::empty();
                    if let Ok(second) = pushed(pushed(s, x).0, y).1 {
                        assert(none + second =~= second);
                    }
                }
            } else {
                lemma_header_longer(header, y);
                if let Ok((mode, key)) = header_key(header, s.password) {
                    let start = Decryptor { header: header.take(0x600), ..s };
                    lemma_with_blocks_split(start, mode, key, header.skip(0x600), y);
                    let (s1, out1) = with_blocks(start, mode, key, header.skip(0x600));
                    let (s2, out2) = with_blocks(s1, mode, key, y);
                    let head = ds2_encrypted::plain_header(header);
                    assert((head + out1) + out2 =~= head + (out1 + out2));
                }
            }
        },
    }
}

/// However a file is cut into pieces, the plain bytes, or the first fault, are those of
/// the file in one piece; where there is no fault, so is the state.
pub proof fn law_any_pieces_make_no_difference(s: Decryptor, pieces: Seq<Seq<u8>>)
    requires
        valid(s),
        pieces.len() > 0,
    ensures
        fed(s, pieces).1 == pushed(s, framing::joined(pieces)).1,
        fed(s, pieces).1 is Ok ==> fed(s, pieces).0 == pushed(s, framing::joined(pieces)).0
            && valid(fed(s, pieces).0),
    decreases pieces.len(),
{
    let before = pieces.drop_last();
    let y = pieces.last();
    if before.len() == 0 {
        assert(framing::joined(pieces) =~= y);
        assert(fed(s, before) == (s, Ok::<Seq<u8>, Fault>(Seq::empty())));
        law_pieces_make_no_difference(s, y, Seq::empty());
        if let Ok(second) = pushed(s, y).1 {
            assert(Seq::<u8>::empty() + second =~= second);
        }
    } else {
        law_any_pieces_make_no_difference(s, before);
        law_pieces_make_no_difference(s, framing::joined(before), y);
        if fed(s, before).1 is Ok {
            law_pieces_make_no_difference(fed(s, before).0, y, Seq::empty());
        }
    }
}

/// Pushing a whole file gives what decrypting it at once gives, up to the bytes after its
/// last whole block, which wait; a fault is the same fault. A password that is too long
/// together with a descriptor that is wrong is left out: the two report one each.
pub proof fn law_stream_matches_batch(data: Seq<u8>, password: Seq<u8>)
    requires
        data.len() >= 0x600,
        password.len() <= 16 || ds2_encrypted::descriptor_of(data) is Ok,
    ensures
        ({
            let (s, streamed) = pushed(new_decryptor(password), data);
            match ds2_encrypted::plain_file(data, password) {
                Err(fault) => streamed == Err::<Seq<u8>, Fault>(fault),
                Ok(plain) => {
                    &&& streamed matches Ok(out)
                    &&& plain == out + s.pending
                    &&& s.pending == framing::remainder(data.skip(0x600))
                    &&& fault(s) is None == (s.pending.len() == 0)
                },
            }
        }),
{
    assert(Seq::<u8>::empty() + data =~= data);
    assert(Seq::<u8>::empty() + data.skip(0x600) =~= data.skip(0x600));
}

/// Whatever pieces a file comes in, the decryptor gives what decrypting it at once gives, up
/// to its last whole block, and then the end is a fault exactly where bytes are left over;
/// a file that ends in its header gives nothing and a fault, no file gives nothing and none.
pub proof fn law_decryptor_matches_batch(data: Seq<u8>, password: Seq<u8>, pieces: Seq<Seq<u8>>)
    requires
        framing::joined(pieces) == data,
    ensures
        ({
            let (s, given) = fed(new_decryptor(password), pieces);
            let plain = ds2_encrypted::plain_file(data, password);
            let left = (data.len() - 0x600) % 512;
            &&& data.len() >= 0x600 ==> given is Ok == plain is Ok
            &&& data.len() >= 0x600 && given is Ok ==> {
                &&& given->Ok_0 == plain->Ok_0.take(data.len() - left)
                &&& fault(s) == (if left == 0 {
                    None
                } else {
                    Some(Fault::Truncated("encrypted DS2 block"@))
                })
            }
            &&& 0 < data.len() < 0x600 && given is Ok ==> {
                &&& given == Ok::<Seq<u8>, Fault>(Seq::empty())
                &&& fault(s) == Some(Fault::Truncated("encrypted DS2 header"@))
            }
            &&& data.len() == 0 ==> {
                &&& given == Ok::<Seq<u8>, Fault>(Seq::empty())
                &&& fault(s) is None
            }
        }),
{
    let start = new_decryptor(password);
    let (s, given) = fed(start, pieces);
    assert(start.header + data =~= data);
    if pieces.len() > 0 {
        law_any_pieces_make_no_difference(start, pieces);
    }
    if data.len() >= 0x600 {
        let tail = data.skip(0x600);
        let left = framing::remainder(tail);
        assert(left.len() == (data.len() - 0x600) % 512);
        if password.len() <= 16 || ds2_encrypted::descriptor_of(data) is Ok {
            law_stream_matches_batch(data, password);
        }
        if given is Ok {
            let plain = ds2_encrypted::plain_file(data, password)->Ok_0;
            let out = given->Ok_0;
            if let Some((mode, key)) = s.open {
                ds2_laws::law_file_shape_is_kept(mode, key, data);
            }
            assert(plain.len() == data.len());
            assert(out =~= plain.take(data.len() - left.len()));
        }
    }
}

/// What comes out first once the header is complete is the header of the plain file.
pub proof fn lemma_plain_first(password: Seq<u8>, data: Seq<u8>)
    requires
        data.len() >= 0x600,
    ensures
        pushed(new_decryptor(password), data).1 matches Ok(plain) ==> plain.len() >= 0x600
            && plain.take(4) == PLAIN_MAGIC@,
{
    let s = new_decryptor(password);
    assert(s.header + data =~= data);
    if let Ok(plain) = pushed(s, data).1 {
        let head = ds2_encrypted::plain_header(data);
        assert(head.len() == 0x600);
        assert(head.take(4) =~= PLAIN_MAGIC@);
        assert(plain.take(4) =~= head.take(4));
    }
}

} // verus!
