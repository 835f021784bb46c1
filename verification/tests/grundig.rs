use dss_codec::codec::grundig_sp::{
    history_source, next_noise, pulse_positions, resample_plan, unpack_bits, unpack_frame,
    FrameReader,
};
use dss_codec::demux::grundig::{demux_grundig, pack_frame, GrundigSpStreamDemuxer};

fn block(b0: u8, b1: u8, frames: u8, pattern: u8) -> Vec<u8> {
    let mut data = vec![b0, b1, frames, 0xff, 0, 0xff];
    for i in 0..506usize {
        data.push(pattern.wrapping_add((i * 5) as u8));
    }
    data
}

fn fingerprint(frames: &[Vec<u8>]) -> u64 {
    let mut h: u64 = 0xcbf29ce484222325;
    for byte in frames.iter().flatten() {
        h = (h ^ *byte as u64).wrapping_mul(0x100000001b3);
    }
    h
}

#[test]
fn frames_run_on_into_the_next_block() {
    let mut audio = block(0, 3, 12, 1);
    audio.extend(block(0x80, 21, 12, 9));
    let (frames, total) = demux_grundig(&audio);
    assert_eq!(total, 24);
    assert_eq!(frames.len(), 24);
    // High byte of each word first.
    assert_eq!(&frames[0][..4], &[6, 1, 16, 11]);
    assert_eq!(frames[0].len(), 41);
    assert_eq!(fingerprint(&frames), 0x5756c43da273f920);
}

#[test]
fn an_offset_into_the_header_starts_in_the_next_block() {
    let mut audio = block(0x70, 0x10, 3, 1);
    audio.extend(block(0, 2, 2, 9));
    audio.extend(block(0, 2, 2, 77));
    let (frames, total) = demux_grundig(&audio);
    assert_eq!(total, 7);
    assert_eq!(fingerprint(&frames), 0x12767879bddbc7f2);
    // Behind the last block there is nothing.
    assert_eq!(frames[6], vec![0u8; 41]);
}

#[test]
fn frames_behind_the_last_block_are_zero() {
    let (frames, _) = demux_grundig(&block(0xf0, 0xff, 2, 1));
    assert_eq!(fingerprint(&frames), 0x444f1265e2cec4ad);
    assert_eq!(frames[1], vec![0u8; 41]);
    assert_eq!(demux_grundig(&[1, 2, 3]), (Vec::new(), 0));
}

#[test]
fn stream_demuxer_waits_for_the_end() {
    let mut file = vec![0u8; 6 * 512];
    file[..4].copy_from_slice(b"\x06dss");
    let audio = block(0, 3, 12, 1);
    file.extend_from_slice(&audio);
    let mut demuxer = GrundigSpStreamDemuxer::new(6);
    assert!(demuxer.finish().unwrap().is_empty());
    for chunk in file.chunks(100) {
        assert!(demuxer.push(chunk).unwrap().is_empty());
    }
    assert_eq!(demuxer.finish().unwrap(), demux_grundig(&audio).0);
    assert_eq!(demuxer.finish_lenient().unwrap(), demux_grundig(&audio).0);
}

#[test]
fn bits_are_unpacked_first_bit_highest() {
    let bits = unpack_bits(&[0xa5, 0x01]);
    assert_eq!(bits.len(), 328);
    assert_eq!(&bits[..17], &[1, 0, 1, 0, 0, 1, 0, 1, 0, 0, 0, 0, 0, 0, 0, 1, 0]);
    let mut reader = FrameReader::new(&bits);
    assert_eq!(reader.read(4), 0xa);
    assert_eq!(reader.read(12), 0x501);
    assert_eq!(reader.read(31), 0);
}

#[test]
fn decoder_sees_the_bits_of_the_blocks() {
    let (frames, _) = demux_grundig(&block(0, 3, 1, 1));
    let bits = unpack_bits(&frames[0]);
    // The first word is 0x0601.
    assert_eq!(&bits[..16], &[0, 0, 0, 0, 0, 1, 1, 0, 0, 0, 0, 0, 0, 0, 0, 1]);
}

#[test]
fn parameters_of_a_frame() {
    let widths = [5, 5, 4, 4, 4, 4, 4, 4, 3, 3, 3, 3, 3, 3];
    let mut bits = vec![0u8; 328];
    // The second reflection index is 31, the fourteenth 1.
    for slot in bits[5..10].iter_mut() {
        *slot = 1;
    }
    bits[51] = 1;
    // Subframe 1 starts at 52 + 63.
    let start = 52 + 63;
    bits[start + 4] = 1;
    for slot in bits[start + 5..start + 36].iter_mut() {
        *slot = 1;
    }
    bits[start + 36] = 1;
    bits[start + 42] = 1;
    bits[start + 62] = 1;
    // The pitch number is 150 + 151 * (47 + 48 * (1 + 48 * 2)).
    let number: u64 = 150 + 151 * (47 + 48 * (1 + 48 * 2));
    for k in 0..24 {
        bits[304 + k] = ((number >> (23 - k)) & 1) as u8;
    }
    let f = unpack_frame(&bits, &widths);
    assert_eq!(f.refl[1], 31);
    assert_eq!(f.refl[13], 1);
    assert_eq!(f.subframes.len(), 4);
    let s = &f.subframes[1];
    assert_eq!(s.gain, 1);
    assert_eq!(s.lead, 32);
    assert_eq!(s.pulses, [4, 0, 0, 0, 0, 0, 1]);
    // An index that is too high is the highest: the seven last places.
    assert_eq!(s.positions, vec![71, 70, 69, 68, 67, 66, 65]);
    assert_eq!(f.subframes[0].positions, vec![6, 5, 4, 3, 2, 1, 0]);
    assert_eq!(f.subframes[0].lag, 186);
    assert_eq!(f.subframes[1].lag, 186);
    assert_eq!(f.subframes[2].lag, 140);
    assert_eq!(f.subframes[3].lag, 119);
}

#[test]
fn pulses_and_history() {
    assert_eq!(pulse_positions(0), vec![6, 5, 4, 3, 2, 1, 0]);
    assert_eq!(pulse_positions(1), vec![7, 5, 4, 3, 2, 1, 0]);
    assert_eq!(history_source(36, 0), 151);
    assert_eq!(history_source(36, 71), 186);
    assert_eq!(history_source(186, 71), 72);
}

#[test]
fn noise_is_a_16_bit_sequence() {
    assert_eq!(next_noise(0), (0x103, 0x103));
    assert_eq!(next_noise(0x103), (0x101e, 0x101e));
    assert_eq!(next_noise(0xffff), (0xfefa, -262));
}

#[test]
fn resampler_makes_four_of_three() {
    assert!(resample_plan(0).is_empty());
    assert_eq!(
        resample_plan(3),
        vec![(206, 0), (206, 3), (207, 2), (208, 1)]
    );
    assert_eq!(resample_plan(288).len(), 384);
    assert_eq!(resample_plan(1).len(), 2);
}

#[test]
fn packing_and_unpacking_undo_each_other() {
    let frame: Vec<u8> = (0..41usize).map(|i| (i * 37 + 11) as u8).collect();
    assert_eq!(pack_frame(&unpack_bits(&frame)), frame);

    let bits: Vec<u8> = (0..328usize).map(|i| (i % 3 == 1) as u8).collect();
    assert_eq!(unpack_bits(&pack_frame(&bits)), bits);
    assert_eq!(&pack_frame(&bits)[..3], &[0b0100_1001, 0b0010_0100, 0b1001_0010]);
    let mut padded = bits[..13].to_vec();
    padded.resize(328, 0);
    assert_eq!(unpack_bits(&pack_frame(&bits[..13])), padded);
}

#[test]
fn frames_count_as_41_bytes() {
    let frame: Vec<u8> = (0..60usize).map(|i| (i * 29 + 5) as u8).collect();
    assert_eq!(unpack_bits(&frame), unpack_bits(&frame[..41]));
    let mut padded = frame[..7].to_vec();
    padded.resize(41, 0);
    assert_eq!(unpack_bits(&frame[..7]), unpack_bits(&padded));
}

#[test]
fn resampling_a_beginning_is_the_beginning() {
    let whole = resample_plan(50);
    assert_eq!(whole.len(), 67);
    for first in 0..50 {
        let plan = resample_plan(first);
        assert_eq!(plan.len(), (4 * first + 2) / 3);
        assert_eq!(plan, whole[..plan.len()]);
        assert!(whole[plan.len()..].iter().all(|step| step.0 >= 0xce + first));
    }
}
