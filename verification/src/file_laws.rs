//! What holds of whole files: how they are told apart, made plain, cut into frames and
//! decoded.
use crate::bytes;
use crate::codec::dss_sp;
use crate::crypto::block_decryptor;
use crate::crypto::ds2_encrypted;
use crate::crypto::ds2_encrypted::ENCRYPTED_MAGIC;
use crate::demux;
use crate::demux::container_laws;
use crate::demux::dss::{DssDemux, Input};
use crate::demux::dss_laws;
use crate::demux::framing;
use crate::demux::framing::Framing;
use crate::demux::grundig::GrundigSpStreamDemuxer;
use crate::demux::AudioFormat;
use crate::error::Fault;
use crate::streaming;
use crate::{
    dss_samples, file_frames, frames_in, info_of, law_264_samples_per_packet, plain_bytes, samples_of, state_of,
    usable_bytes, EncryptionInfo,
};
use vstd::prelude::*;

verus! {

// ---------------------------------------------------------------- recordings

/// A recording is decoded packet after packet, each by the same procedure: the first from the
/// state of a new decoder, every other from the state that the one before left, and each
/// gives its own 264 samples behind those of the packets before it.
pub proof fn law_recordings_are_decoded_packet_by_packet(packets: Seq<Seq<u8>>, i: int, k: int)
    requires
        0 <= i < packets.len(),
        0 <= k < 264,
    ensures
        state_of(packets.take(0)) == dss_sp::initial_state(),
        state_of(packets.take(i + 1)) == dss_sp::state_after(
            state_of(packets.take(i)),
            packets[i],
        ),
        samples_of(packets).len() == 264 * packets.len(),
        samples_of(packets)[264 * i + k] == dss_sp::frame_output(
            state_of(packets.take(i)),
            packets[i],
        )[k],
    decreases packets.len(),
{
    law_264_samples_per_packet(packets);
    assert(packets.take(i + 1).drop_last() =~= packets.take(i));
    assert(packets.take(i + 1).last() == packets[i]);
    let before = packets.drop_last();
    law_264_samples_per_packet(before);
    if i < before.len() {
        law_recordings_are_decoded_packet_by_packet(before, i, k);
        assert(before.take(i) =~= packets.take(i));
        assert(before[i] == packets[i]);
    } else {
        assert(before =~= packets.take(i));
    }
}

/// Decoding a DSS file gives 264 samples for every packet that the headers of its blocks
/// count, those of the packets in order; any other file is refused.
pub proof fn law_dss_files_are_decoded(data: Seq<u8>, i: int, k: int)
    ensures
        ({
            let region = data.skip(512 * data[0] as int);
            let count = container_laws::counted(region, region.len() / 512);
            let packets = demux::dss::dss_packets(framing::blocks(region));
            let dss = (0x64int, 0x73int, 0x73int);
            match dss_samples(data) {
                Ok(samples) => {
                    &&& begins(data, 2, dss) || begins(data, 3, dss)
                    &&& data.len() >= 512 * data[0] ==> samples.len() == 264 * count
                    &&& 0 <= i < packets.len() && 0 <= k < 264 ==> samples[264 * i + k]
                        == dss_sp::frame_output(state_of(packets.take(i)), packets[i])[k]
                },
                Err(fault) => {
                    &&& !begins(data, 2, dss) && !begins(data, 3, dss)
                    &&& fault == Fault::NotDss("<bytes>"@)
                },
            }
        }),
{
    if demux::dss::is_dss(data) {
        let region = data.skip(512 * data[0] as int);
        let packets = demux::dss::dss_packets(framing::blocks(region));
        law_264_samples_per_packet(packets);
        if data.len() >= 512 * data[0] {
            let trail = dss_laws::law_dss_files_that_can_be_demuxed(data);
        }
        if 0 <= i < packets.len() && 0 <= k < 264 {
            law_recordings_are_decoded_packet_by_packet(packets, i, k);
        }
    }
}

// ---------------------------------------------------------------- kinds of files

/// A file begins with a version byte and three letters.
pub open spec fn begins(data: Seq<u8>, version: int, letters: (int, int, int)) -> bool {
    &&& data.len() >= 4
    &&& data[0] == version
    &&& data[1] == letters.0
    &&& data[2] == letters.1
    &&& data[3] == letters.2
}

/// How the formats are told apart. `dss` behind a 2 or a 3 is DSS, behind a 6 Grundig;
/// `ds2`, or `enc` for an encrypted file, behind a 3 is DS2, whose first block says in its
/// fifth byte which quality it has. There is no other format.
pub proof fn law_formats_are_told_apart(data: Seq<u8>)
    ensures
        ({
            let dss = (0x64int, 0x73int, 0x73int);
            let ds2 = begins(data, 3, (0x64, 0x73, 0x32)) || begins(data, 3, (0x65, 0x6e, 0x63));
            let mode = if data.len() > 0x604 {
                data[0x604] as int
            } else {
                0
            };
            let format = demux::format_of(data);
            &&& format == Some(AudioFormat::DssSp) <==> begins(data, 2, dss) || begins(data, 3, dss)
            &&& format == Some(AudioFormat::GrundigSp) <==> begins(data, 6, dss)
            &&& format == Some(AudioFormat::Ds2Sp) <==> ds2 && mode < 6
            &&& format == Some(AudioFormat::Ds2Qp7) <==> ds2 && mode == 7
            &&& format == Some(AudioFormat::Ds2Qp) <==> ds2 && (mode == 6 || mode > 7)
            &&& format == Some(AudioFormat::DssSp) <==> demux::dss::is_dss(data)
        }),
        demux::rate_of(AudioFormat::DssSp) == 11025,
        demux::rate_of(AudioFormat::Ds2Sp) == 12000,
        demux::rate_of(AudioFormat::Ds2Qp) == 16000,
        demux::rate_of(AudioFormat::Ds2Qp7) == 16000,
        demux::rate_of(AudioFormat::GrundigSp) == 16000,
{
}

/// What is reported of a file: nothing of one in no format; the format and no encryption of
/// one that does not begin like an encrypted file; of one that does, the format and the key
/// mode at 0x146, where the file is long enough to hold it.
pub proof fn law_files_are_reported_as_they_are(data: Seq<u8>)
    ensures
        ({
            let mode = data[0x146] + 256 * data[0x147];
            let encrypted = begins(data, 3, (0x65, 0x6e, 0x63));
            match info_of(data) {
                Ok(info) => {
                    &&& demux::format_of(data) == Some(info.format)
                    &&& info.encryption is Plain <==> !encrypted
                    &&& encrypted ==> data.len() >= 0x148
                    &&& info.encryption is EncryptedDs2Aes128 <==> encrypted && mode == 1
                    &&& info.encryption is EncryptedDs2Aes256 <==> encrypted && mode == 2
                    &&& info.encryption matches EncryptionInfo::EncryptedUnknown(m) ==> encrypted
                        && m == mode && m != 1 && m != 2
                },
                Err(fault) => {
                    let first = if data.len() > 0 {
                        data[0]
                    } else {
                        0
                    };
                    &&& demux::format_of(data) is None ==> fault == Fault::UnsupportedFormat(first)
                    &&& demux::format_of(data) is Some ==> encrypted && data.len() < 0x148 && fault
                        == Fault::EncryptedDs2("missing decrypt descriptor"@)
                },
            }
        }),
{
    bytes::law_beginnings(data, ENCRYPTED_MAGIC@);
}

// ---------------------------------------------------------------- plain bytes

/// What making a file plain gives: a file that is not encrypted itself, whatever the
/// password; an encrypted one, where there is a password, the file is made of a header and
/// whole blocks, and decrypting it succeeds, what that gives. In every other case it fails.
pub proof fn law_plain_bytes_of_any_file(data: Seq<u8>, password: Option<Seq<u8>>)
    ensures
        ({
            let encrypted = begins(data, 3, (0x65, 0x6e, 0x63));
            match plain_bytes(data, password) {
                Ok(out) => {
                    &&& !encrypted ==> out == data
                    &&& encrypted ==> {
                        &&& password matches Some(p)
                        &&& (data.len() - 0x600) % 512 == 0
                        &&& ds2_encrypted::plain_file(data, p) == Ok::<Seq<u8>, Fault>(out)
                    }
                },
                Err(fault) => {
                    &&& encrypted
                    &&& password is None ==> fault == Fault::EncryptedDs2(
                        "encrypted DS2 file, password required"@,
                    )
                    &&& password is Some && data.len() < 0x600 ==> fault == Fault::Truncated(
                        "encrypted DS2 header"@,
                    )
                    &&& password matches Some(p) ==> {
                        ||| data.len() < 0x600
                        ||| ds2_encrypted::plain_file(data, p) is Err
                        ||| (data.len() - 0x600) % 512 != 0 && fault == Fault::Truncated(
                            "encrypted DS2 block"@,
                        )
                    }
                },
            }
        }),
{
    bytes::law_beginnings(data, ENCRYPTED_MAGIC@);
    if begins(data, 3, (0x65, 0x6e, 0x63)) {
        if let Some(p) = password {
            if data.len() < 0x600 {
                lemma_pushed_short(data, p);
            } else {
                lemma_pushed_whole(data, p);
            }
        }
    }
}

/// Pushing a file that ends in its header gives nothing, and its end is a fault.
proof fn lemma_pushed_short(data: Seq<u8>, p: Seq<u8>)
    requires
        begins(data, 3, (0x65, 0x6e, 0x63)),
        data.len() < 0x600,
    ensures
        ({
            let (s, given) = block_decryptor::pushed(block_decryptor::new_decryptor(p), data);
            &&& given is Ok
            &&& block_decryptor::fault(s) == Some(Fault::Truncated("encrypted DS2 header"@))
        }),
{
    bytes::law_beginnings(data, ENCRYPTED_MAGIC@);
    assert(block_decryptor::new_decryptor(p).header + data =~= data);
}

/// Pushing a file at once gives what decrypting it gives, up to its last whole block.
#[verifier::rlimit(40)]
proof fn lemma_pushed_whole(data: Seq<u8>, p: Seq<u8>)
    requires
        data.len() >= 0x600,
    ensures
        ({
            let (s, given) = block_decryptor::pushed(block_decryptor::new_decryptor(p), data);
            let plain = ds2_encrypted::plain_file(data, p);
            let left = (data.len() - 0x600) % 512;
            &&& given is Ok == plain is Ok
            &&& given is Ok ==> {
                &&& plain->Ok_0.len() == data.len()
                &&& given->Ok_0 == plain->Ok_0.take(data.len() - left)
                &&& block_decryptor::fault(s) == (if left == 0 {
                    None
                } else {
                    Some(Fault::Truncated("encrypted DS2 block"@))
                })
            }
        }),
{
    let start = block_decryptor::new_decryptor(p);
    let pieces = seq![data];
    framing::lemma_joined_one(data);
    block_decryptor::law_any_pieces_make_no_difference(start, pieces);
    block_decryptor::law_decryptor_matches_batch(data, p, pieces);
    lemma_decrypted_len(data, p);
}

proof fn lemma_decrypted_len(data: Seq<u8>, p: Seq<u8>)
    ensures
        ds2_encrypted::plain_file(data, p) matches Ok(out) ==> out.len() == data.len(),
{
    if let Ok(out) = ds2_encrypted::plain_file(data, p) {
        let d = ds2_encrypted::descriptor_of(data)->Ok_0;
        let key = ds2_encrypted::key_for(p, d)->Ok_0;
        crate::crypto::ds2_laws::law_file_shape_is_kept(d.mode, key, data);
    }
}

/// The bytes that frames are made of: a file that is not encrypted itself; of an encrypted
/// one what decrypting it gives, up to its last whole block.
pub proof fn law_usable_bytes_of_any_file(data: Seq<u8>, password: Option<Seq<u8>>)
    ensures
        ({
            let encrypted = begins(data, 3, (0x65, 0x6e, 0x63));
            match usable_bytes(data, password) {
                Ok(out) => {
                    &&& !encrypted ==> out == data
                    &&& encrypted ==> {
                        &&& password matches Some(p)
                        &&& data.len() >= 0x600
                        &&& ds2_encrypted::plain_file(data, p) matches Ok(plain)
                        &&& out == plain.take(data.len() - (data.len() - 0x600) % 512)
                    }
                },
                Err(fault) => {
                    &&& encrypted
                    &&& password is None ==> fault == Fault::EncryptedDs2(
                        "encrypted DS2 file, password required"@,
                    )
                    &&& password is Some && data.len() < 0x600 ==> fault == Fault::Truncated(
                        "encrypted DS2 header"@,
                    )
                    &&& password matches Some(p) ==> data.len() < 0x600
                        || ds2_encrypted::plain_file(data, p) is Err
                },
            }
        }),
{
    bytes::law_beginnings(data, ENCRYPTED_MAGIC@);
    if begins(data, 3, (0x65, 0x6e, 0x63)) {
        if let Some(p) = password {
            if data.len() < 0x600 {
                lemma_pushed_short(data, p);
            } else {
                lemma_pushed_whole(data, p);
            }
        }
    }
}

/// However a file is cut into pieces, streaming them gives its plain bytes, or the fault of
/// making it plain.
pub proof fn law_streaming_makes_files_plain(
    data: Seq<u8>,
    password: Option<Seq<u8>>,
    pieces: Seq<Seq<u8>>,
)
    requires
        framing::joined(pieces) == data,
    ensures
        ({
            let (s, given) = streaming::fed(streaming::new_streamer(password), pieces);
            match given {
                Err(fault) => plain_bytes(data, password) == Err::<Seq<u8>, Fault>(fault),
                Ok(first) => match streaming::finished(s) {
                    Err(fault) => plain_bytes(data, password) == Err::<Seq<u8>, Fault>(fault),
                    Ok(last) => plain_bytes(data, password) == Ok::<Seq<u8>, Fault>(first + last),
                },
            }
        }),
{
    let start = streaming::new_streamer(password);
    assert(start.head + data =~= data);
    let (s, given) = streaming::fed(start, pieces);
    if pieces.len() > 0 {
        streaming::law_any_pieces_make_no_difference(start, pieces);
    }
    if let Ok(first) = given {
        if let Ok(last) = streaming::finished(s) {
            assert(first + last =~= first || first + last =~= last);
        }
    }
}

// ---------------------------------------------------------------- frames

/// The frames of a plain file are those of its format's demuxer: of the body behind as many
/// blocks of header as the first byte says for DSS and Grundig, of the body behind 0x600
/// bytes for DS2, where the file has them.
pub proof fn law_frames_are_those_of_the_format(plain: Seq<u8>)
    requires
        plain.len() > 0,
    ensures
        ({
            let behind = plain.skip(512 * plain[0] as int);
            let body = plain.skip(0x600);
            let blocks = framing::blocks(body);
            &&& frames_in(AudioFormat::DssSp, plain) == Ok::<Seq<Seq<u8>>, Fault>(
                demux::dss::dss_packets(framing::blocks(behind)),
            )
            &&& frames_in(AudioFormat::GrundigSp, plain) matches Ok(frames)
            &&& plain.len() > 512 * plain[0] ==> frames == demux::grundig::region_frames(behind)
            &&& plain.len() <= 512 * plain[0] ==> frames.len() == 0
            &&& plain.len() >= 0x600 ==> frames_in(AudioFormat::Ds2Sp, plain) == Ok::<
                Seq<Seq<u8>>,
                Fault,
            >(demux::ds2::sp_packets(body))
            &&& plain.len() >= 0x600 ==> frames_in(AudioFormat::Ds2Qp, plain) == Ok::<
                Seq<Seq<u8>>,
                Fault,
            >(demux::ds2::qp_frames(framing::payloads(blocks), framing::frame_total(blocks)))
            &&& plain.len() < 0x600 ==> frames_in(AudioFormat::Ds2Sp, plain) == Err::<
                Seq<Seq<u8>>,
                Fault,
            >(Fault::Truncated("DS2 header"@)) && frames_in(AudioFormat::Ds2Qp, plain) == Err::<
                Seq<Seq<u8>>,
                Fault,
            >(Fault::Truncated("DS2 header"@))
            &&& frames_in(AudioFormat::Ds2Qp7, plain) == frames_in(AudioFormat::Ds2Qp, plain)
        }),
{
}

/// The frames of a file are those of the bytes that can be used of it, in their format.
pub proof fn law_files_have_the_frames_of_their_format(data: Seq<u8>, password: Option<Seq<u8>>)
    ensures
        match file_frames(data, password) {
            Ok((format, frames)) => {
                &&& usable_bytes(data, password) matches Ok(plain)
                &&& demux::format_of(plain) == Some(format)
                &&& frames_in(format, plain) == Ok::<Seq<Seq<u8>>, Fault>(frames)
            },
            Err(fault) => match usable_bytes(data, password) {
                Err(f) => fault == f,
                Ok(plain) => match demux::format_of(plain) {
                    None => fault == Fault::UnsupportedFormat(
                        if data.len() > 0 {
                            data[0]
                        } else {
                            0
                        },
                    ),
                    Some(format) => frames_in(format, plain) == Err::<Seq<Seq<u8>>, Fault>(fault),
                },
            },
        },
{
}

/// A framer that has seen nothing cuts what it is given into blocks behind its header, and
/// keeps what is left: everything, as long as the header is not complete.
pub proof fn law_framers_cut_behind_the_header(size: nat, data: Seq<u8>)
    ensures
        ({
            let f = framing::start(size);
            let after = framing::after(f, data);
            &&& data.len() < size ==> framing::cut(f, data).len() == 0 && after.buf == data
                && !after.header_complete
            &&& data.len() >= size ==> {
                &&& framing::cut(f, data) == framing::blocks(data.skip(size as int))
                &&& after.buf == data.skip(size + 512 * ((data.len() - size) / 512))
                &&& after.header_complete
            }
            &&& after.header_size == size
        }),
{
    let f = framing::start(size);
    assert(f.buf + data =~= data);
    if data.len() >= size {
        let tail = data.skip(size as int);
        assert(framing::remainder(tail) =~= data.skip(size + 512 * ((data.len() - size) / 512)));
    }
}

/// At the end of the input, what is missing is the header where it has begun and is not
/// complete, else the block that has begun, else the frames still awaited.
pub proof fn law_faults_name_what_is_missing(
    f: Framing,
    awaited: nat,
    header: Seq<char>,
    block: Seq<char>,
    frame: Seq<char>,
)
    ensures
        ({
            let fault = framing::fault(f, awaited, header, block, frame);
            &&& !f.header_complete && f.buf.len() > 0 ==> fault == Some(header)
            &&& f.header_complete && f.buf.len() > 0 ==> fault == Some(block)
            &&& f.header_complete && f.buf.len() == 0 && awaited > 0 ==> fault == Some(frame)
            &&& f.buf.len() == 0 && (awaited == 0 || !f.header_complete) ==> fault is None
        }),
{
}

/// A stream demuxer of a Grundig file gives, at the end, the frames of the file that came in.
pub proof fn law_grundig_streams_match_the_file(d: GrundigSpStreamDemuxer, file: Seq<u8>)
    requires
        file.len() > 0,
        d.header_size() == 512 * file[0],
        d.received() == file,
    ensures
        frames_in(AudioFormat::GrundigSp, file) == Ok::<Seq<Seq<u8>>, Fault>(d.frames()),
{
}

/// What is missing at the end of a DSS file: the header where it has begun, else the block
/// that has begun, else a frame of which bytes are missing.
pub proof fn law_dss_faults_name_what_is_missing(s: DssDemux)
    ensures
        ({
            let fault = demux::dss::dss_fault(s);
            let owed = demux::dss::dss_cut(s.dss, Input::Ended).state.awaited;
            let begun = s.framing.buf.len() > 0;
            let complete = s.framing.header_complete;
            &&& begun && !complete ==> fault == Some("DSS header"@)
            &&& begun && complete ==> fault == Some("DSS block"@)
            &&& !begun && complete && owed > 0 ==> fault == Some("DSS SP frame"@)
            &&& !begun && (!complete || owed == 0) ==> fault is None
        }),
{
}

} // verus!
