use dss_codec::codec::pulses::{
    decode_pulse_pos_alt, decode_pulse_pos_table, decode_pulse_positions, PulseMode,
};
use dss_codec::codec::q15::{clip16, clip_sinc_pcm, formula, scale_vec, vec_mult};
use dss_codec::decode_packets;
use dss_codec::demux::framing::{top_bit, Framer};
use dss_codec::demux::packet::{fill_sp_packet, Swap};

#[test]
fn clips_differ_at_the_bottom() {
    assert_eq!(clip16(40000), 32767);
    assert_eq!(clip16(-40000), -32768);
    assert_eq!(clip_sinc_pcm(-32768), -32768);
    assert_eq!(clip_sinc_pcm(-32769), -32767);
    assert_eq!(clip_sinc_pcm(32768), 32767);
    assert_eq!(clip_sinc_pcm(5), 5);
}

#[test]
fn fixed_point_products_round() {
    assert_eq!(formula(100, 16384, 3), 102);
    assert_eq!(formula(-1, 0, 0), -1);
    assert_eq!(formula(0, -32768, 1), -1);
}

#[test]
fn scaling_shifts_both_ways() {
    let mut v = [5i64, -5, 0];
    scale_vec(&mut v, 3);
    assert_eq!(v, [40, -40, 0]);
    scale_vec(&mut v, -4);
    assert_eq!(v, [2, -3, 0]);
    scale_vec(&mut v, 0);
    assert_eq!(v, [2, -3, 0]);
}

#[test]
fn weights_leave_the_first_coefficient() {
    let src = [8192i64; 15];
    let mut weights = [16384i16; 15];
    weights[2] = 1;
    let out = vec_mult(&src, &weights);
    assert_eq!(out[0], 8192);
    assert_eq!(out[1], 4096);
    assert_eq!(out[2], 0);
}

#[test]
fn table_and_walk_place_one_apart() {
    for index in [100u32, 123456789, 1473109703] {
        let mut table = [0usize; 7];
        decode_pulse_pos_table(index, &mut table);
        let mut walk = [9usize; 7];
        let ok = decode_pulse_pos_alt(index, &mut walk);
        assert_eq!(ok, table[6] > 0);
        if ok {
            for i in 0..7 {
                assert_eq!(walk[i] + 1, table[i]);
            }
        }
    }
    let mut table = [0usize; 7];
    decode_pulse_pos_table(1473109703, &mut table);
    assert_eq!(table, [71, 70, 69, 68, 67, 66, 65]);
    let mut walk = [9usize; 7];
    assert!(!decode_pulse_pos_alt(0, &mut walk));
}

#[test]
fn pulse_routing_follows_the_mode() {
    let fresh = PulseMode {
        table_decode: true,
        table_latch: false,
    };
    // A combinatorial packet uses the table.
    let mut mode = fresh;
    assert_eq!(decode_pulse_positions(0, false, &mut mode), [6, 5, 4, 3, 2, 1, 0]);
    assert!(mode.table_decode && !mode.table_latch);
    // A repacked one tries the walk and latches the table when it fails.
    let mut mode = fresh;
    assert_eq!(
        decode_pulse_positions(1473109703, true, &mut mode),
        [70, 69, 68, 67, 66, 65, 64]
    );
    assert!(!mode.table_latch);
    assert_eq!(decode_pulse_positions(0, true, &mut mode), [6, 5, 4, 3, 2, 1, 0]);
    assert!(mode.table_latch);
    assert_eq!(
        decode_pulse_positions(1473109703, true, &mut mode),
        [71, 70, 69, 68, 67, 66, 65]
    );
    // An index that is too high is clamped and clears both flags.
    assert_eq!(
        decode_pulse_positions(2000000000, true, &mut mode),
        [70, 69, 68, 67, 66, 65, 64]
    );
    assert!(!mode.table_decode && !mode.table_latch);
    // Without the table a combinatorial packet places nothing.
    assert_eq!(decode_pulse_positions(77, false, &mut mode), [0; 7]);
}

#[test]
fn framers_do_not_care_about_pieces() {
    let data: Vec<u8> = (0..1600usize).map(|i| i as u8).collect();
    let mut whole = Framer::new(10);
    let expected = whole.push(&data);
    assert_eq!(expected.len(), 3);
    assert_eq!(expected[0], data[10..522].to_vec());
    for size in [1, 9, 10, 11, 512, 600] {
        let mut framer = Framer::new(10);
        assert!(!framer.header_complete());
        let mut blocks = Vec::new();
        for chunk in data.chunks(size) {
            blocks.extend(framer.push(chunk));
        }
        assert_eq!(blocks, expected);
        assert!(framer.header_complete());
        assert!(!framer.is_empty());
        framer.clear();
        assert!(framer.is_empty());
    }
}

#[test]
fn packets_are_filled_by_the_swap_state() {
    assert!(top_bit(0x80));
    assert!(!top_bit(0x7f));
    let mut sw = Swap { on: false, byte: 7 };
    let plain = fill_sp_packet(&mut sw, &[1, 2, 3]);
    assert_eq!(plain.len(), 42);
    assert_eq!(&plain[..4], &[1, 2, 3, 0]);
    assert!(sw.on);
    assert_eq!(sw.byte, 0);
    sw.byte = 99;
    let swapped = fill_sp_packet(&mut sw, &[1, 2, 3, 4, 5, 6]);
    assert_eq!(&swapped[..9], &[2, 99, 4, 1, 6, 3, 0, 5, 0]);
    assert!(!sw.on);
    assert_eq!(sw.byte, 99);
}

#[test]
fn later_packets_change_nothing_before() {
    let packets: Vec<Vec<u8>> = (0..3u8)
        .map(|k| (0..42u8).map(|i| i.wrapping_mul(29).wrapping_add(k)).collect())
        .collect();
    let all = decode_packets(&packets);
    let first = decode_packets(&packets[..2].to_vec());
    assert_eq!(&all[..528], &first[..]);
    assert_eq!(all.len(), 792);
}
