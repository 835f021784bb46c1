//! Decoder for the Olympus DSS / DS2 and Grundig DSS dictation formats.
//!
//! A file is decrypted where it is encrypted, cut into frames by the demuxer of its
//! format, and the frames go to the decoder of the format.
pub mod bitstream;
pub mod bytes;
pub mod cli;
pub mod codec;
pub mod crypto;
pub mod demux;
pub mod error;
pub mod file_laws;
pub mod streaming;
pub mod tables;
pub mod text;

use crate::codec::dss_sp;
use crate::codec::dss_sp::{DssSpDecoder, SpState};
use crate::crypto::block_decryptor;
use crate::crypto::ds2_encrypted;
use crate::crypto::ds2_encrypted::{DECRYPT_DESCRIPTOR_OFFSET, ENCRYPTED_MAGIC};
use crate::demux::ds2::{Ds2QpStreamDemuxer, Ds2SpStreamDemuxer};
use crate::demux::grundig::GrundigSpStreamDemuxer;
use crate::demux::AudioFormat;
use crate::error::{DecodeError, Fault};
use crate::streaming::DecryptStreamer;
use vstd::prelude::*;

verus! {

/// What the header of a file tells.
#[derive(Debug, Clone, Copy, PartialEq, Eq)]
pub struct FileInfo {
    /// The audio format.
    pub format: AudioFormat,
    /// How the file is encrypted.
    pub encryption: EncryptionInfo,
}

/// How a file is encrypted.
#[derive(Debug, Clone, Copy, PartialEq, Eq)]
pub enum EncryptionInfo {
    Plain,
    EncryptedDs2Aes128,
    EncryptedDs2Aes256,
    EncryptedUnknown(u16),
}

impl FileInfo {
    /// The samples per second that decoding gives.
    pub fn native_rate(&self) -> (r: u32)
        ensures
            r == demux::rate_of(self.format),
    {
        self.format.native_sample_rate()
    }
}

/// The encryption that a key mode stands for.
pub open spec fn encryption_of(mode: u16) -> EncryptionInfo {
    if mode == 1 {
        EncryptionInfo::EncryptedDs2Aes128
    } else if mode == 2 {
        EncryptionInfo::EncryptedDs2Aes256
    } else {
        EncryptionInfo::EncryptedUnknown(mode)
    }
}

/// What the header of a file tells.
pub open spec fn info_of(data: Seq<u8>) -> Result<FileInfo, Fault> {
    match demux::format_of(data) {
        None => Err(Fault::UnsupportedFormat(bytes::padded(data, 0))),
        Some(format) => if !bytes::begins_with(data, ENCRYPTED_MAGIC@) {
            Ok(FileInfo { format, encryption: EncryptionInfo::Plain })
        } else if data.len() < 0x148 {
            Err(Fault::EncryptedDs2("missing decrypt descriptor"@))
        } else {
            Ok(
                FileInfo {
                    format,
                    encryption: encryption_of(ds2_encrypted::le16(data[0x146], data[0x147])),
                },
            )
        },
    }
}

/// Reports the format and the encryption of a file.
pub fn inspect_bytes(data: &[u8]) -> (r: Result<FileInfo, DecodeError>)
    ensures
        match r {
            Ok(info) => info_of(data@) == Ok::<FileInfo, Fault>(info),
            Err(e) => info_of(data@) == Err::<FileInfo, Fault>(e@),
        },
{
    let format: AudioFormat = match demux::detect_format(data) {
        Some(format) => format,
        None => {
            return Err(DecodeError::UnsupportedFormat(first_byte(data)));
        },
    };
    if !bytes::has_magic(data, &ENCRYPTED_MAGIC) {
        return Ok(FileInfo { format, encryption: EncryptionInfo::Plain });
    }
    if data.len() < DECRYPT_DESCRIPTOR_OFFSET + 2 {
        return Err(DecodeError::EncryptedDs2("missing decrypt descriptor".to_string()));
    }
    let mode: u16 = data[DECRYPT_DESCRIPTOR_OFFSET] as u16 + 256
        * data[DECRYPT_DESCRIPTOR_OFFSET + 1] as u16;
    let encryption: EncryptionInfo = match mode {
        1 => EncryptionInfo::EncryptedDs2Aes128,
        2 => EncryptionInfo::EncryptedDs2Aes256,
        _ => EncryptionInfo::EncryptedUnknown(mode),
    };
    Ok(FileInfo { format, encryption })
}

/// The first byte, or zero.
fn first_byte(data: &[u8]) -> (r: u8)
    ensures
        r == bytes::padded(data@, 0),
{
    if data.len() > 0 {
        data[0]
    } else {
        0
    }
}

/// The plain container bytes of a file: an encrypted file decrypted, any other unchanged.
pub open spec fn plain_bytes(data: Seq<u8>, password: Option<Seq<u8>>) -> Result<Seq<u8>, Fault> {
    if !bytes::begins_with(data, ENCRYPTED_MAGIC@) {
        Ok(data)
    } else {
        match password {
            None => Err(streaming::no_password()),
            Some(p) => {
                let (s, out) = block_decryptor::pushed(block_decryptor::new_decryptor(p), data);
                match out {
                    Err(fault) => Err(fault),
                    Ok(plain) => match block_decryptor::fault(s) {
                        Some(fault) => Err(fault),
                        None => Ok(plain),
                    },
                }
            },
        }
    }
}

/// Turns the bytes of a file into plain container bytes. A file that is not encrypted is
/// returned unchanged; an encrypted DS2 file is decrypted.
pub fn decrypt_to_bytes(data: &[u8], password: Option<&[u8]>) -> (r: Result<Vec<u8>, DecodeError>)
    ensures
        match r {
            Ok(plain) => plain_bytes(data@, streaming::password_bytes(password)) == Ok::<
                Seq<u8>,
                Fault,
            >(plain@),
            Err(e) => plain_bytes(data@, streaming::password_bytes(password)) == Err::<
                Seq<u8>,
                Fault,
            >(e@),
        },
{
    let mut decryptor: DecryptStreamer = DecryptStreamer::new(password);
    assert(Seq::<u8>::empty() + data@ =~= data@);
    match decryptor.push(data) {
        Err(e) => Err(e),
        Ok(mut plain) => match decryptor.finish() {
            Err(e) => Err(e),
            Ok(rest) => {
                let ghost first = plain@;
                bytes::append(&mut plain, rest.as_slice());
                assert(plain@ =~= first || plain@ =~= rest@);
                Ok(plain)
            },
        },
    }
}

/// Where decrypting a whole encrypted file at once succeeds and no bytes are left after
/// its last block, turning it into plain bytes gives the same.
pub proof fn law_plain_bytes_are_the_decrypted_file(data: Seq<u8>, password: Seq<u8>)
    requires
        ds2_encrypted::plain_file(data, password) is Ok,
        demux::framing::remainder(data.skip(0x600)).len() == 0,
    ensures
        plain_bytes(data, Some(password)) == ds2_encrypted::plain_file(data, password),
{
    block_decryptor::law_stream_matches_batch(data, password);
    let (s, streamed) = block_decryptor::pushed(block_decryptor::new_decryptor(password), data);
    if let Ok(out) = streamed {
        assert(out + s.pending =~= out);
    }
}

/// Plain bytes are plain: turning them into plain bytes once more, with any password or
/// none, changes nothing.
pub proof fn law_plain_bytes_stay_as_they_are(
    data: Seq<u8>,
    password: Option<Seq<u8>>,
    out: Seq<u8>,
    other: Option<Seq<u8>>,
)
    requires
        plain_bytes(data, password) == Ok::<Seq<u8>, Fault>(out),
    ensures
        plain_bytes(out, other) == Ok::<Seq<u8>, Fault>(out),
{
    if bytes::begins_with(data, ENCRYPTED_MAGIC@) {
        let p = password->0;
        assert(block_decryptor::new_decryptor(p).header + data =~= data);
        assert(data.len() >= 0x600);
        block_decryptor::lemma_plain_first(p, data);
        assert(out.subrange(0, 4) =~= ds2_encrypted::PLAIN_MAGIC@);
        assert(ds2_encrypted::PLAIN_MAGIC@[1] != ENCRYPTED_MAGIC@[1]);
    }
}

/// The state of the DSS decoder after a list of packets.
pub open spec fn state_of(packets: Seq<Seq<u8>>) -> SpState
    decreases packets.len(),
{
    if packets.len() == 0 {
        dss_sp::initial_state()
    } else {
        dss_sp::state_after(state_of(packets.drop_last()), packets.last())
    }
}

/// The samples of a list of DSS packets.
pub open spec fn samples_of(packets: Seq<Seq<u8>>) -> Seq<int>
    decreases packets.len(),
{
    if packets.len() == 0 {
        Seq::empty()
    } else {
        samples_of(packets.drop_last()) + dss_sp::frame_output(
            state_of(packets.drop_last()),
            packets.last(),
        )
    }
}

/// Every DSS packet gives 264 samples.
pub proof fn law_264_samples_per_packet(packets: Seq<Seq<u8>>)
    ensures
        samples_of(packets).len() == 264 * packets.len(),
        state_of(packets).frames == packets.len(),
    decreases packets.len(),
{
    if packets.len() > 0 {
        law_264_samples_per_packet(packets.drop_last());
    }
}

/// What comes later does not change what was decoded before: the samples of a list of
/// packets begin with those of its first packets.
pub proof fn law_later_packets_change_nothing_before(first: Seq<Seq<u8>>, later: Seq<Seq<u8>>)
    ensures
        samples_of(first + later).len() >= samples_of(first).len(),
        samples_of(first + later).take(samples_of(first).len() as int) == samples_of(first),
    decreases later.len(),
{
    let all = first + later;
    if later.len() == 0 {
        assert(all =~= first);
        assert(samples_of(first).take(samples_of(first).len() as int) =~= samples_of(first));
    } else {
        law_later_packets_change_nothing_before(first, later.drop_last());
        assert(all.drop_last() =~= first + later.drop_last());
        let n = samples_of(first).len() as int;
        assert(samples_of(all).take(n) =~= samples_of(all.drop_last()).take(n));
    }
}

/// Decodes DSS packets in order.
pub fn decode_packets(packets: &Vec<Vec<u8>>) -> (out: Vec<i16>)
    requires
        forall|i: int| 0 <= i < packets@.len() ==> (#[trigger] packets@[i])@.len() >= 2,
    ensures
        out@.len() == 264 * packets@.len(),
        forall|k: int|
            0 <= k < out@.len() ==> #[trigger] out@[k] == samples_of(
                bytes::contents(packets@),
            )[k],
{
    let ghost list = bytes::contents(packets@);
    let mut decoder: DssSpDecoder = DssSpDecoder::new();
    let mut out: Vec<i16> = Vec::new();
    let mut i: usize = 0;
    while i < packets.len()
        invariant
            i <= packets@.len(),
            list == bytes::contents(packets@),
            forall|i: int| 0 <= i < packets@.len() ==> (#[trigger] packets@[i])@.len() >= 2,
            dss_sp::bounded(decoder@),
            decoder@ == state_of(list.take(i as int)),
            decoder@.frames == i,
            out@.len() == 264 * i,
            samples_of(list.take(i as int)).len() == out@.len(),
            forall|k: int|
                0 <= k < out@.len() ==> #[trigger] out@[k] == samples_of(list.take(i as int))[k],
        decreases packets@.len() - i,
    {
        proof {
            assert(list[i as int] == packets@[i as int]@);
            assert(list.take(i + 1).drop_last() =~= list.take(i as int));
        }
        let mut samples: Vec<i16> = decoder.decode_frame(packets[i].as_slice());
        out.append(&mut samples);
        i += 1;
    }
    assert(list.take(packets@.len() as int) =~= list);
    out
}

/// What decoding a DSS file gives.
pub open spec fn dss_samples(data: Seq<u8>) -> Result<Seq<int>, Fault> {
    if !demux::dss::is_dss(data) {
        Err(Fault::NotDss("<bytes>"@))
    } else {
        Ok(samples_of(demux::dss::dss_packets(demux::framing::blocks(demux::dss::body(data)))))
    }
}

/// Decodes a DSS file.
pub fn decode_dss(data: &[u8]) -> (r: Result<Vec<i16>, DecodeError>)
    requires
        demux::dss::is_dss(data@) ==> demux::dss::demuxable(data@),
    ensures
        match r {
            Err(e) => dss_samples(data@) == Err::<Seq<int>, Fault>(e@),
            Ok(out) => {
                &&& dss_samples(data@) matches Ok(samples)
                &&& out@.len() == samples.len()
                &&& forall|k: int| 0 <= k < out@.len() ==> #[trigger] out@[k] == samples[k]
            },
        },
{
    match demux::dss::demux_dss(data) {
        Err(e) => Err(e),
        Ok((packets, _)) => {
            proof {
                let blocks = demux::framing::blocks(demux::dss::body(data@));
                demux::dss::lemma_packet_len(
                    blocks,
                    demux::dss::stream_of(blocks),
                    demux::dss::first_swap(blocks),
                    0,
                    demux::framing::frame_total(blocks),
                );
                let list = bytes::contents(packets@);
                assert forall|i: int| 0 <= i < packets@.len() implies (
                #[trigger] packets@[i])@.len() >= 2 by {
                    assert(list[i] == packets@[i]@);
                }
                law_264_samples_per_packet(list);
            }
            Ok(decode_packets(&packets))
        },
    }
}

/// The frames of the plain bytes of a file, padded at the end where they are cut short.
pub open spec fn frames_in(format: AudioFormat, plain: Seq<u8>) -> Result<Seq<Seq<u8>>, Fault> {
    let ds2_blocks = demux::framing::blocks(demux::ds2::body(plain));
    match format {
        AudioFormat::DssSp => Ok(
            demux::dss::dss_packets(demux::framing::blocks(demux::dss::body(plain))),
        ),
        AudioFormat::GrundigSp => Ok(
            if plain.len() <= 512 * plain[0] {
                Seq::empty()
            } else {
                demux::grundig::region_frames(plain.skip(512 * plain[0] as int))
            },
        ),
        AudioFormat::Ds2Sp => if plain.len() < 0x600 {
            Err(Fault::Truncated("DS2 header"@))
        } else {
            Ok(demux::ds2::sp_packets(demux::ds2::body(plain)))
        },
        AudioFormat::Ds2Qp | AudioFormat::Ds2Qp7 => if plain.len() < 0x600 {
            Err(Fault::Truncated("DS2 header"@))
        } else {
            Ok(
                demux::ds2::qp_frames(
                    demux::framing::payloads(ds2_blocks),
                    demux::framing::frame_total(ds2_blocks),
                ),
            )
        },
    }
}

/// The plain bytes of which frames are made: an unfinished block of an encrypted file is
/// left out.
pub open spec fn usable_bytes(data: Seq<u8>, password: Option<Seq<u8>>) -> Result<Seq<u8>, Fault> {
    if !bytes::begins_with(data, ENCRYPTED_MAGIC@) {
        Ok(data)
    } else {
        match password {
            None => Err(streaming::no_password()),
            Some(p) => if data.len() < 0x600 {
                Err(Fault::Truncated("encrypted DS2 header"@))
            } else {
                block_decryptor::pushed(block_decryptor::new_decryptor(p), data).1
            },
        }
    }
}

/// The format and the frames of a file.
pub open spec fn file_frames(data: Seq<u8>, password: Option<Seq<u8>>) -> Result<
    (AudioFormat, Seq<Seq<u8>>),
    Fault,
> {
    match usable_bytes(data, password) {
        Err(fault) => Err(fault),
        Ok(plain) => match demux::format_of(plain) {
            None => Err(Fault::UnsupportedFormat(bytes::padded(data, 0))),
            Some(format) => match frames_in(format, plain) {
                Err(fault) => Err(fault),
                Ok(frames) => Ok((format, frames)),
            },
        },
    }
}

/// Decrypts what can be decrypted, leaving out an unfinished block at the end.
fn usable(data: &[u8], password: Option<&[u8]>) -> (r: Result<Vec<u8>, DecodeError>)
    ensures
        match r {
            Ok(plain) => usable_bytes(data@, streaming::password_bytes(password)) == Ok::<
                Seq<u8>,
                Fault,
            >(plain@),
            Err(e) => usable_bytes(data@, streaming::password_bytes(password)) == Err::<
                Seq<u8>,
                Fault,
            >(e@),
        },
{
    if data.len() < 0x600 && bytes::has_magic(data, &ENCRYPTED_MAGIC) && password.is_some() {
        return Err(DecodeError::Truncated("encrypted DS2 header".to_string()));
    }
    let mut decryptor: DecryptStreamer = DecryptStreamer::new(password);
    assert(Seq::<u8>::empty() + data@ =~= data@);
    match decryptor.push(data) {
        Err(e) => Err(e),
        Ok(plain) => {
            if data.len() < 4 {
                let whole: Vec<u8> = bytes::copy_range(data, 0, data.len());
                assert(whole@ =~= data@);
                Ok(whole)
            } else {
                Ok(plain)
            }
        },
    }
}

proof fn lemma_contents_append(a: Seq<Vec<u8>>, b: Seq<Vec<u8>>)
    ensures
        bytes::contents(a + b) == bytes::contents(a) + bytes::contents(b),
{
    assert(bytes::contents(a + b) =~= bytes::contents(a) + bytes::contents(b));
}

/// The frames of a plain DS2 SP file, padded at the end where they are cut short.
fn ds2_sp_frames(plain: &[u8]) -> (r: Result<Vec<Vec<u8>>, DecodeError>)
    requires
        plain@.len() > 0,
    ensures
        match r {
            Ok(frames) => frames_in(AudioFormat::Ds2Sp, plain@) == Ok::<Seq<Seq<u8>>, Fault>(
                bytes::contents(frames@),
            ),
            Err(e) => frames_in(AudioFormat::Ds2Sp, plain@) == Err::<Seq<Seq<u8>>, Fault>(e@),
        },
{
    let mut demuxer: Ds2SpStreamDemuxer = Ds2SpStreamDemuxer::new();
    proof {
        demux::ds2::lemma_sp_whole(plain@);
    }
    // The length fits a usize: that bounds the frames that `push` can be owed.
    let _: usize = plain.len();
    match demuxer.push(plain) {
        Err(e) => Err(e),
        Ok(mut frames) => match demuxer.finish_lenient() {
            Err(e) => Err(e),
            Ok(mut rest) => {
                proof {
                    lemma_contents_append(frames@, rest@);
                }
                frames.append(&mut rest);
                Ok(frames)
            },
        },
    }
}

/// The frames of a plain DS2 QP file, padded at the end where they are cut short.
fn ds2_qp_frames(plain: &[u8]) -> (r: Result<Vec<Vec<u8>>, DecodeError>)
    requires
        plain@.len() > 0,
    ensures
        match r {
            Ok(frames) => frames_in(AudioFormat::Ds2Qp, plain@) == Ok::<Seq<Seq<u8>>, Fault>(
                bytes::contents(frames@),
            ),
            Err(e) => frames_in(AudioFormat::Ds2Qp, plain@) == Err::<Seq<Seq<u8>>, Fault>(e@),
        },
{
    let mut demuxer: Ds2QpStreamDemuxer = Ds2QpStreamDemuxer::new();
    proof {
        demux::ds2::lemma_qp_whole(plain@);
    }
    // The length fits a usize: that bounds the frames that `push` can be owed.
    let _: usize = plain.len();
    match demuxer.push(plain) {
        Err(e) => Err(e),
        Ok(mut frames) => match demuxer.finish_lenient() {
            Err(e) => Err(e),
            Ok(mut rest) => {
                proof {
                    lemma_contents_append(frames@, rest@);
                }
                frames.append(&mut rest);
                Ok(frames)
            },
        },
    }
}

/// The format and the frames of a file, decrypted where it is encrypted. Frames that are
/// cut short at the end are padded with zeros.
pub fn demux_file(data: &[u8], password: Option<&[u8]>) -> (r: Result<
    (AudioFormat, Vec<Vec<u8>>),
    DecodeError,
>)
    requires
        demux::dss::is_dss(data@) ==> demux::dss::demuxable(data@),
    ensures
        match r {
            Ok((format, frames)) => file_frames(data@, streaming::password_bytes(password)) == Ok::<
                (AudioFormat, Seq<Seq<u8>>),
                Fault,
            >((format, bytes::contents(frames@))),
            Err(e) => file_frames(data@, streaming::password_bytes(password)) == Err::<
                (AudioFormat, Seq<Seq<u8>>),
                Fault,
            >(e@),
        },
{
    let plain: Vec<u8> = match usable(data, password) {
        Ok(plain) => plain,
        Err(e) => {
            return Err(e);
        },
    };
    proof {
        lemma_usable_keeps_dss(data@, streaming::password_bytes(password));
    }
    let format: AudioFormat = match demux::detect_format(plain.as_slice()) {
        Some(format) => format,
        None => {
            return Err(DecodeError::UnsupportedFormat(first_byte(data)));
        },
    };
    let frames: Result<Vec<Vec<u8>>, DecodeError> = match format {
        AudioFormat::DssSp => match demux::dss::demux_dss(plain.as_slice()) {
            Ok((packets, _)) => Ok(packets),
            Err(e) => Err(e),
        },
        AudioFormat::GrundigSp => {
            let mut demuxer: GrundigSpStreamDemuxer = GrundigSpStreamDemuxer::new(plain[0]);
            let pushed: Result<Vec<Vec<u8>>, DecodeError> = demuxer.push(plain.as_slice());
            assert(pushed is Ok);
            assert(Seq::<u8>::empty() + plain@ =~= plain@);
            demuxer.finish_lenient()
        },
        AudioFormat::Ds2Sp => ds2_sp_frames(plain.as_slice()),
        AudioFormat::Ds2Qp => ds2_qp_frames(plain.as_slice()),
        AudioFormat::Ds2Qp7 => ds2_qp_frames(plain.as_slice()),
    };
    match frames {
        Ok(frames) => Ok((format, frames)),
        Err(e) => Err(e),
    }
}

/// Plain bytes that start like a DSS file are the file itself.
proof fn lemma_usable_keeps_dss(data: Seq<u8>, password: Option<Seq<u8>>)
    ensures
        usable_bytes(data, password) matches Ok(plain) ==> (demux::dss::is_dss(plain) ==> plain
            == data),
{
    if bytes::begins_with(data, ENCRYPTED_MAGIC@) && data.len() >= 0x600 {
        if let Some(p) = password {
            block_decryptor::lemma_plain_first(p, data);
            if let Ok(plain) = usable_bytes(data, password) {
                assert(plain.take(4)[3] == ds2_encrypted::PLAIN_MAGIC@[3]);
            }
        }
    }
}

/// An encrypted file has the frames of the plain file that decrypting it gives.
pub proof fn law_decrypting_first_makes_no_difference(data: Seq<u8>, password: Seq<u8>)
    requires
        bytes::begins_with(data, ENCRYPTED_MAGIC@),
        plain_bytes(data, Some(password)) is Ok,
    ensures
        plain_bytes(data, Some(password)) matches Ok(plain) && file_frames(data, Some(password))
            == file_frames(plain, None),
{
    if let Ok(plain) = plain_bytes(data, Some(password)) {
        assert(Seq::<u8>::empty() + data =~= data);
        assert(data.len() >= 0x600);
        block_decryptor::lemma_plain_first(password, data);
        assert(plain.take(4)[1] == ds2_encrypted::PLAIN_MAGIC@[1]);
        assert(plain.subrange(0, 4)[1] == plain[1]);
        assert(!bytes::begins_with(plain, ENCRYPTED_MAGIC@));
        assert(plain.take(4)[0] == 3 && plain.take(4)[2] == 0x73 && plain.take(4)[3] == 0x32);
        assert(demux::format_of(plain) is Some);
    }
}

} // verus!
