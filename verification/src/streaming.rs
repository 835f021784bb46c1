//! Files that come in pieces, encrypted or not.
use crate::bytes;
use crate::crypto::block_decryptor;
use crate::crypto::block_decryptor::{Decryptor, EncryptedDs2BlockDecryptor};
use crate::crypto::ds2_encrypted::ENCRYPTED_MAGIC;
use crate::demux::framing;
use crate::error::{DecodeError, Fault};
use vstd::prelude::*;

verus! {

/// What is known of the file so far.
enum Stage {
    Unknown,
    Plain,
    Encrypted(EncryptedDs2BlockDecryptor),
}

/// What is known of the file so far.
pub enum Known {
    Unknown,
    Plain,
    Encrypted(Decryptor),
}

/// What a [`DecryptStreamer`] remembers.
#[verifier::ext_equal]
pub struct Streamer {
    pub password: Option<Seq<u8>>,
    pub head: Seq<u8>,
    pub known: Known,
}

/// A streamer that has seen nothing.
pub open spec fn new_streamer(password: Option<Seq<u8>>) -> Streamer {
    Streamer { password, head: Seq::empty(), known: Known::Unknown }
}

/// An encrypted file without a password.
pub open spec fn no_password() -> Fault {
    Fault::EncryptedDs2("encrypted DS2 file, password required"@)
}

/// The state is one that a streamer can be in.
pub open spec fn valid(s: Streamer) -> bool {
    match s.known {
        Known::Encrypted(d) => block_decryptor::valid(d),
        _ => true,
    }
}

/// The state once more bytes have come in, and the plain bytes that they give.
pub open spec fn pushed(s: Streamer, data: Seq<u8>) -> (Streamer, Result<Seq<u8>, Fault>) {
    match s.known {
        Known::Plain => (s, Ok(data)),
        Known::Encrypted(d) => {
            let (next, out) = block_decryptor::pushed(d, data);
            (Streamer { known: Known::Encrypted(next), ..s }, out)
        },
        Known::Unknown => {
            let head = s.head + data;
            if head.len() < 4 {
                (Streamer { head, ..s }, Ok(Seq::empty()))
            } else if !bytes::begins_with(head, ENCRYPTED_MAGIC@) {
                (Streamer { head: Seq::empty(), known: Known::Plain, ..s }, Ok(head))
            } else {
                match s.password {
                    None => (Streamer { head, ..s }, Err(no_password())),
                    Some(password) => {
                        let (next, out) = block_decryptor::pushed(
                            block_decryptor::new_decryptor(password),
                            head,
                        );
                        (
                            Streamer {
                                head: Seq::empty(),
                                known: Known::Encrypted(next),
                                ..s
                            },
                            out,
                        )
                    },
                }
            }
        },
    }
}

/// The plain bytes that the end of the input gives.
pub open spec fn finished(s: Streamer) -> Result<Seq<u8>, Fault> {
    match s.known {
        Known::Unknown => Ok(s.head),
        Known::Plain => Ok(Seq::empty()),
        Known::Encrypted(d) => match block_decryptor::fault(d) {
            Some(fault) => Err(fault),
            None => Ok(Seq::empty()),
        },
    }
}

/// The state once the input has ended: what was held back is gone.
pub open spec fn ended(s: Streamer) -> Streamer {
    Streamer {
        head: if s.known is Unknown {
            Seq::empty()
        } else {
            s.head
        },
        ..s
    }
}

/// Turns a file that comes in pieces into plain container bytes. A file that is not
/// encrypted passes unchanged.
pub struct DecryptStreamer {
    password: Option<Vec<u8>>,
    head: Vec<u8>,
    stage: Stage,
}

impl View for DecryptStreamer {
    type V = Streamer;

    closed spec fn view(&self) -> Streamer {
        Streamer {
            password: match self.password {
                Some(p) => Some(p@),
                None => None,
            },
            head: self.head@,
            known: match self.stage {
                Stage::Unknown => Known::Unknown,
                Stage::Plain => Known::Plain,
                Stage::Encrypted(d) => Known::Encrypted(d@),
            },
        }
    }
}

/// The bytes of an optional password.
pub open spec fn password_bytes(password: Option<&[u8]>) -> Option<Seq<u8>> {
    match password {
        Some(p) => Some(p@),
        None => None,
    }
}

impl DecryptStreamer {
    /// The state is consistent.
    pub closed spec fn well_formed(self) -> bool {
        self.stage matches Stage::Encrypted(d) ==> d.well_formed()
    }

    pub fn new(password: Option<&[u8]>) -> (r: Self)
        ensures
            r.well_formed(),
            r@ == new_streamer(password_bytes(password)),
    {
        let kept: Option<Vec<u8>> = match password {
            Some(p) => {
                let v: Vec<u8> = bytes::copy_range(p, 0, p.len());
                assert(v@ =~= p@);
                Some(v)
            },
            None => None,
        };
        let r: DecryptStreamer = DecryptStreamer {
            password: kept,
            head: Vec::new(),
            stage: Stage::Unknown,
        };
        assert(r@ =~= new_streamer(password_bytes(password)));
        r
    }

    /// Takes more bytes of the file and returns the plain bytes that they give.
    pub fn push(&mut self, data: &[u8]) -> (r: Result<Vec<u8>, DecodeError>)
        requires
            old(self).well_formed(),
        ensures
            final(self).well_formed(),
            match r {
                Ok(out) => pushed(old(self)@, data@) == (
                    final(self)@,
                    Ok::<Seq<u8>, Fault>(out@),
                ),
                Err(e) => pushed(old(self)@, data@) == (final(self)@, Err::<Seq<u8>, Fault>(e@)),
            },
    {
        let mut stage: Stage = Stage::Unknown;
        core::mem::swap(&mut stage, &mut self.stage);
        match stage {
            Stage::Plain => {
                self.stage = Stage::Plain;
                let out: Vec<u8> = bytes::copy_range(data, 0, data.len());
                assert(out@ =~= data@);
                Ok(out)
            },
            Stage::Encrypted(mut decryptor) => {
                let r: Result<Vec<u8>, DecodeError> = decryptor.push(data);
                self.stage = Stage::Encrypted(decryptor);
                r
            },
            Stage::Unknown => {
                bytes::append(&mut self.head, data);
                if self.head.len() < 4 {
                    let none: Vec<u8> = Vec::new();
                    assert(none@ =~= Seq::empty());
                    return Ok(none);
                }
                let mut head: Vec<u8> = Vec::new();
                if !bytes::has_magic(self.head.as_slice(), &ENCRYPTED_MAGIC) {
                    core::mem::swap(&mut head, &mut self.head);
                    self.stage = Stage::Plain;
                    return Ok(head);
                }
                match &self.password {
                    None => {
                        Err(
                            DecodeError::EncryptedDs2(
                                "encrypted DS2 file, password required".to_string(),
                            ),
                        )
                    },
                    Some(password) => {
                        let mut decryptor: EncryptedDs2BlockDecryptor =
                            EncryptedDs2BlockDecryptor::new(password.as_slice());
                        core::mem::swap(&mut head, &mut self.head);
                        let r: Result<Vec<u8>, DecodeError> = decryptor.push(head.as_slice());
                        self.stage = Stage::Encrypted(decryptor);
                        r
                    },
                }
            },
        }
    }

    /// Ends the input and returns what was still held back.
    pub fn finish(&mut self) -> (r: Result<Vec<u8>, DecodeError>)
        ensures
            old(self).well_formed() ==> final(self).well_formed(),
            match r {
                Ok(out) => finished(old(self)@) == Ok::<Seq<u8>, Fault>(out@),
                Err(e) => finished(old(self)@) == Err::<Seq<u8>, Fault>(e@),
            },
            final(self)@ == ended(old(self)@),
    {
        let mut out: Vec<u8> = Vec::new();
        match &mut self.stage {
            Stage::Unknown => {
                core::mem::swap(&mut out, &mut self.head);
                Ok(out)
            },
            Stage::Plain => {
                assert(out@ =~= Seq::empty());
                Ok(out)
            },
            Stage::Encrypted(decryptor) => {
                let r: Result<Vec<u8>, DecodeError> = decryptor.finish();
                if let Ok(v) = &r {
                    assert(v@ =~= Seq::empty());
                }
                r
            },
        }
    }
}

/// Two pieces in turn give what both at once give: the same plain bytes and state, or
/// the same fault.
pub proof fn law_pieces_make_no_difference(s: Streamer, x: Seq<u8>, y: Seq<u8>)
    requires
        valid(s),
    ensures
        valid(pushed(s, x).0),
        match pushed(s, x).1 {
            Err(fault) => pushed(s, x + y).1 == Err::<Seq<u8>, Fault>(fault),
            Ok(first) => {
                let (s2, last) = pushed(pushed(s, x).0, y);
                match last {
                    Err(fault) => pushed(s, x + y) == (s2, Err::<Seq<u8>, Fault>(fault)),
                    Ok(second) => pushed(s, x + y) == (s2, Ok::<Seq<u8>, Fault>(first + second)),
                }
            },
        },
{
    match s.known {
        Known::Plain => {},
        Known::Encrypted(d) => {
            block_decryptor::law_pieces_make_no_difference(d, x, y);
        },
        Known::Unknown => {
            let head = s.head + x;
            assert(s.head + (x + y) =~= head + y);
            if head.len() < 4 {
                if let Ok(second) = pushed(pushed(s, x).0, y).1 {
                    assert(Seq::<u8>::empty() + second =~= second);
                }
                if (head + y).len() >= 4 {
                    if let Some(password) = s.password {
                        block_decryptor::law_pieces_make_no_difference(
                            block_decryptor::new_decryptor(password),
                            head + y,
                            Seq::empty(),
                        );
                    }
                }
            } else {
                assert((head + y).subrange(0, 4) =~= head.subrange(0, 4));
                if let Some(password) = s.password {
                    block_decryptor::law_pieces_make_no_difference(
                        block_decryptor::new_decryptor(password),
                        head,
                        y,
                    );
                }
            }
        },
    }
}

/// The effect of a list of pieces, pushed one by one until one fails.
pub open spec fn fed(s: Streamer, pieces: Seq<Seq<u8>>) -> (Streamer, Result<Seq<u8>, Fault>)
    decreases pieces.len(),
{
    if pieces.len() == 0 {
        (s, Ok(Seq::empty()))
    } else {
        let (before, given) = fed(s, pieces.drop_last());
        match given {
            Err(fault) => (before, Err(fault)),
            Ok(first) => {
                let (after, last) = pushed(before, pieces.last());
                match last {
                    Err(fault) => (after, Err(fault)),
                    Ok(second) => (after, Ok(first + second)),
                }
            },
        }
    }
}

/// However a file is cut into pieces, the plain bytes, or the first fault, are those of
/// the file in one piece; where there is no fault, so is the state.
pub proof fn law_any_pieces_make_no_difference(s: Streamer, pieces: Seq<Seq<u8>>)
    requires
        valid(s),
        pieces.len() > 0,
    ensures
        fed(s, pieces).1 == pushed(s, framing::joined(pieces)).1,
        fed(s, pieces).1 is Ok ==> fed(s, pieces).0 == pushed(s, framing::joined(pieces)).0
            && valid(fed(s, pieces).0),
    decreases pieces.len(),
{
    let before = pieces.drop_last();
    let y = pieces.last();
    if before.len() == 0 {
        assert(framing::joined(pieces) =~= y);
        assert(fed(s, before) == (s, Ok::<Seq<u8>, Fault>(Seq::empty())));
        law_pieces_make_no_difference(s, y, Seq::empty());
        if let Ok(second) = pushed(s, y).1 {
            assert(Seq::<u8>::empty() + second =~= second);
        }
    } else {
        law_any_pieces_make_no_difference(s, before);
        law_pieces_make_no_difference(s, framing::joined(before), y);
        if fed(s, before).1 is Ok {
            law_pieces_make_no_difference(fed(s, before).0, y, Seq::empty());
        }
    }
}

/// What was held back comes out once: after an end without a fault, another end gives
/// nothing, and more bytes are taken as before, those held back left out.
pub proof fn law_ending_twice_gives_nothing_more(s: Streamer, data: Seq<u8>)
    requires
        finished(s) is Ok,
    ensures
        finished(ended(s)) == Ok::<Seq<u8>, Fault>(Seq::empty()),
        ended(ended(s)) == ended(s),
        !(s.known is Unknown) ==> pushed(ended(s), data) == pushed(s, data),
        s.known is Unknown ==> pushed(ended(s), data) == pushed(
            new_streamer(s.password),
            data,
        ),
{
    assert(!(s.known is Unknown) ==> ended(s) =~= s);
    assert(s.known is Unknown ==> ended(s) == new_streamer(s.password));
}

} // verus!
