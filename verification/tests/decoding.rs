use dss_codec::bitstream::BitstreamReader;
use dss_codec::codec::common::{comb, decode_combinatorial_index, pitch_window_start};
use dss_codec::codec::ds2_qp::{adaptive_source, unpack_frame};
use dss_codec::codec::dss_sp::DssSpDecoder;
use dss_codec::{decode_dss, decode_packets};

fn noise_packets(seed: u32, n: usize) -> Vec<Vec<u8>> {
    let mut x = seed;
    let mut packets = Vec::new();
    for _ in 0..n {
        let mut packet = Vec::new();
        for _ in 0..42 {
            x = x.wrapping_mul(1103515245).wrapping_add(12345) & 0x7fffffff;
            packet.push((x >> 16) as u8);
        }
        packets.push(packet);
    }
    packets
}

fn fingerprint(samples: &[i16]) -> u64 {
    let mut h: u64 = 0xcbf29ce484222325;
    for s in samples {
        h = (h ^ (*s as u16) as u64).wrapping_mul(0x100000001b3);
    }
    h
}

#[test]
fn repacked_streams_decode_to_known_samples() {
    let mut packets = noise_packets(1, 12);
    packets[0][0] &= 0x7f;
    let out = decode_packets(&packets);
    assert_eq!(out.len(), 12 * 264);
    assert_eq!(
        &out[264 * 11..264 * 11 + 8],
        &[1502, 4345, 2665, 3950, 1842, -5952, -393, 6923]
    );
    assert_eq!(fingerprint(&out), 0x04a85029beeda8ac);
}

#[test]
fn combinatorial_streams_decode_to_known_samples() {
    let mut packets = noise_packets(2, 12);
    packets[0][0] |= 0x81;
    let out = decode_packets(&packets);
    assert_eq!(&out[..8], &[0, -1, 1, 1, -9, 5, 18, 7]);
    assert_eq!(fingerprint(&out), 0x0f182be36de69436);

    let mut packets = noise_packets(7, 12);
    packets[0][0] |= 0x81;
    let out = decode_packets(&packets);
    assert_eq!(
        &out[264 * 11..264 * 11 + 8],
        &[-255, -978, -354, -2000, -4180, -5203, -4591, -6014]
    );
    assert_eq!(fingerprint(&out), 0x64db1bf063cdfd27);
}

#[test]
fn quiet_packets_are_modulated_against_the_least_energy() {
    let packets = vec![vec![0u8; 42]; 3];
    let out = decode_packets(&packets);
    assert_eq!(&out[..16], &[0, -1, 0, -1, -1, -1, -1, 0, -1, -1, -1, -1, -2, -1, -1, -1]);
    assert_eq!(&out[600..612], &[-8, 1, -4, -2, 0, -3, 0, -4, 0, -3, 0, -2]);
    assert_eq!(fingerprint(&out), 0x5ead26b817731c72);
}

#[test]
fn packets_decode_one_after_the_other() {
    let packets = noise_packets(5, 3);
    let mut decoder = DssSpDecoder::new();
    let mut out = Vec::new();
    for packet in &packets {
        out.extend(decoder.decode_frame(packet));
    }
    assert_eq!(out, decode_packets(&packets));
    assert!(decode_packets(&Vec::new()).is_empty());
}

#[test]
fn a_dss_file_decodes_packet_by_packet() {
    let mut data = vec![0u8; 1024];
    data[..4].copy_from_slice(b"\x02dss");
    let mut block = vec![0u8; 512];
    block[2] = 3;
    for (i, byte) in block[6..].iter_mut().enumerate() {
        *byte = (i * 37) as u8;
    }
    data.extend_from_slice(&block);
    let (packets, _) = dss_codec::demux::dss::demux_dss(&data).unwrap();
    let out = decode_dss(&data).unwrap();
    assert_eq!(out.len(), 3 * 264);
    assert_eq!(out, decode_packets(&packets));
    assert!(decode_dss(b"RIFF").is_err());
}

#[test]
fn bits_come_from_little_endian_words_high_bit_first() {
    let mut reader = BitstreamReader::new(&[0x34, 0x12, 0x78, 0x56, 0xff]);
    assert_eq!(reader.read_bits(4), 1);
    assert_eq!(reader.read_bits(12), 0x234);
    assert_eq!(reader.read_bits_u64(16), 0x5678);
    // The last byte is no whole word.
    assert_eq!(reader.read_bits(8), 0);
}

#[test]
fn binomials() {
    assert_eq!(comb(72, 7), 1473109704);
    assert_eq!(comb(64, 11), 743595781824);
    assert_eq!(comb(5, 0), 1);
    assert_eq!(comb(3, 4), 0);
}

#[test]
fn combinatorial_indices() {
    assert_eq!(
        decode_combinatorial_index(0, 72, 7),
        vec![6, 5, 4, 3, 2, 1, 0]
    );
    assert_eq!(
        decode_combinatorial_index(1473109703, 72, 7),
        vec![71, 70, 69, 68, 67, 66, 65]
    );
    // Coding the positions again gives the index back.
    for index in [1u64, 77, 123456789, 1473109702] {
        let places = decode_combinatorial_index(index, 72, 7);
        let mut sum: u128 = 0;
        for (i, p) in places.iter().enumerate() {
            sum += comb(*p, 7 - i);
        }
        assert_eq!(sum, index as u128);
    }
}

#[test]
fn pitch_windows() {
    assert_eq!(pitch_window_start(36), 36);
    assert_eq!(pitch_window_start(59), 36);
    assert_eq!(pitch_window_start(60), 37);
    assert_eq!(pitch_window_start(162), 139);
    assert_eq!(pitch_window_start(163), 139);
}

#[test]
fn qp_frame_parameters() {
    let f = unpack_frame(&[0xff; 56]);
    assert_eq!(f.refl, [127, 127, 63, 63, 31, 31, 31, 31, 31, 15, 15, 15, 15, 7, 7, 7]);
    assert_eq!(f.subframes.len(), 4);
    for s in &f.subframes {
        assert_eq!(s.pitch, 300);
        assert_eq!(s.pitch_gain, 63);
        assert_eq!(s.gain, 63);
        assert_eq!(s.pulses, [7; 11]);
        // An index beyond the codebook fills the last place first.
        assert_eq!(s.positions[0], 63);
        assert_eq!(s.positions.len(), 11);
    }
    let f = unpack_frame(&[]);
    assert_eq!(f.refl, [0; 16]);
    assert_eq!(f.subframes[3].pitch, 45);
    assert_eq!(f.subframes[3].positions, vec![10, 9, 8, 7, 6, 5, 4, 3, 2, 1, 0]);
    // The lowest bit of the first word is bit 15: the last but one of the third index.
    let mut frame = [0u8; 56];
    frame[0] = 1;
    assert_eq!(unpack_frame(&frame).refl[2], 16);
}

#[test]
fn qp_pitch_repeats_short_lags() {
    assert_eq!(adaptive_source(45, 0), 319);
    assert_eq!(adaptive_source(45, 46), 320);
    assert_eq!(adaptive_source(300, 63), 127);
}

#[test]
fn ds2_sp_frame_parameters() {
    let f = dss_codec::codec::ds2_sp::unpack_frame(&[0xff; 42]);
    assert_eq!(f.refl, [31, 31, 15, 15, 15, 15, 15, 15, 7, 7, 7, 7, 7, 7]);
    assert_eq!(f.subframes[3].pitch_gain, 31);
    assert_eq!(f.subframes[3].gain, 63);
    assert_eq!(f.subframes[3].pulses, [7; 7]);
    assert_eq!(f.subframes[3].positions[0], 71);
    // 0xffffff = 58 + 151 * (35 + 48 * (10 + 48 * 48)), and 48 counts as 47.
    let lags: Vec<usize> = f.subframes.iter().map(|s| s.pitch).collect();
    assert_eq!(lags, dss_codec::codec::ds2_sp::decode_combined_pitch(0xffffff).to_vec());
    assert_eq!(lags, vec![94, 106, 93, 117]);
}

#[test]
fn ds2_sp_pitch_windows() {
    let pitch = dss_codec::codec::ds2_sp::decode_combined_pitch;
    assert_eq!(pitch(0), [36, 36, 36, 36]);
    assert_eq!(pitch(150), [186, 140, 117, 94]);
    assert_eq!(pitch(150 + 151 * 47), [186, 187, 140, 117]);
    assert_eq!(dss_codec::codec::ds2_sp::adaptive_source(36, 71), 257);
    assert_eq!(dss_codec::codec::ds2_sp::adaptive_source(187, 0), 71);
}
