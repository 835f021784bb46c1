use dss_codec::demux::dss::{demux_dss, try_demux_dss, DssSpStreamDemuxer};
use dss_codec::demux::framing::{BLOCK_HEADER_SIZE, BLOCK_SIZE};
use dss_codec::error::DecodeError;

fn make_dss_block(swap: u8, byte1: u8, frame_count: u8, payload_pattern: u8) -> [u8; BLOCK_SIZE] {
    let mut block = [0u8; BLOCK_SIZE];
    block[0] = swap << 7;
    block[1] = byte1;
    block[2] = frame_count;
    for (i, byte) in block[BLOCK_HEADER_SIZE..].iter_mut().enumerate() {
        *byte = payload_pattern.wrapping_add(i as u8);
    }
    block
}

fn make_header() -> Vec<u8> {
    let mut data = vec![0u8; 2 * BLOCK_SIZE];
    data[0] = 2;
    data[1..4].copy_from_slice(b"dss");
    data
}

fn collect_frames(
    demuxer: &mut DssSpStreamDemuxer,
    data: &[u8],
    chunk_size: usize,
) -> Vec<Vec<u8>> {
    let mut frames = Vec::new();
    for chunk in data.chunks(chunk_size) {
        frames.extend(demuxer.push(chunk).unwrap());
    }
    frames.extend(demuxer.finish().unwrap());
    frames
}

fn fingerprint(frames: &[Vec<u8>]) -> u64 {
    let mut h: u64 = 0xcbf29ce484222325;
    for byte in frames.iter().flatten() {
        h = (h ^ *byte as u64).wrapping_mul(0x100000001b3);
    }
    h
}

#[test]
fn test_dss_stream_demux_matches_batch() {
    let mut data = vec![0u8; 2 * BLOCK_SIZE];
    data[0] = 2;
    data[1..4].copy_from_slice(b"dss");
    data.extend_from_slice(&make_dss_block(0, 0, 3, 0x20));

    let (expected, _) = demux_dss(&data).unwrap();
    let mut demuxer = DssSpStreamDemuxer::new(2);
    let actual = collect_frames(&mut demuxer, &data, 149);

    assert_eq!(actual, expected);
}

#[test]
fn test_dss_stream_demux_empty_block_reset_matches_batch() {
    let mut data = vec![0u8; 2 * BLOCK_SIZE];
    data[0] = 2;
    data[1..4].copy_from_slice(b"dss");
    data.extend_from_slice(&make_dss_block(0, 0, 13, 0x10));
    data.extend_from_slice(&make_dss_block(1, 17, 0, 0x80));
    data.extend_from_slice(&make_dss_block(1, 0, 1, 0xC0));

    let (expected, _) = demux_dss(&data).unwrap();
    let mut demuxer = DssSpStreamDemuxer::new(2);
    let actual = collect_frames(&mut demuxer, &data, 127);

    assert_eq!(actual, expected);
}

#[test]
fn test_dss_stream_demux_truncated_frame() {
    let mut data = vec![0u8; 2 * BLOCK_SIZE];
    data[0] = 2;
    data[1..4].copy_from_slice(b"dss");
    data.extend_from_slice(&make_dss_block(0, 0, 20, 0x30));

    let mut demuxer = DssSpStreamDemuxer::new(2);
    for chunk in data.chunks(211) {
        let _ = demuxer.push(chunk).unwrap();
    }

    let err = demuxer.finish().unwrap_err();
    assert!(matches!(err, DecodeError::Truncated(_)));
}

#[test]
fn batch_packets_are_the_known_ones() {
    let mut data = make_header();
    data.extend_from_slice(&make_dss_block(0, 0, 13, 0x10));
    data.extend_from_slice(&make_dss_block(1, 17, 0, 0x80));
    data.extend_from_slice(&make_dss_block(1, 0, 1, 0xC0));
    let (packets, total) = demux_dss(&data).unwrap();
    assert_eq!(total, 14);
    assert_eq!(fingerprint(&packets), 0x54451a0b8dc0dd06);
    assert_eq!(&packets[13][..6], &[157, 154, 193, 156, 195, 192]);
}

#[test]
fn batch_resets_the_swap_state_at_the_end_of_a_group() {
    // 13 packets take 534 bytes, 28 of them from the empty block.
    let mut data = make_header();
    data.extend_from_slice(&make_dss_block(0, 0, 13, 0x10));
    data.extend_from_slice(&make_dss_block(0, 17, 0, 0x80));
    data.extend_from_slice(&make_dss_block(0, 0, 3, 0xC0));
    let (packets, _) = demux_dss(&data).unwrap();
    assert_eq!(fingerprint(&packets), 0x67e1d7b05b285e36);
    assert_eq!(&packets[15][..6], &[18, 19, 20, 21, 22, 23]);

    // A stream that is drained at the reset keeps it.
    for size in [1, 127, 512, 5000] {
        let mut demuxer = DssSpStreamDemuxer::new(2);
        assert_eq!(collect_frames(&mut demuxer, &data, size), packets);
    }
}

#[test]
fn stream_keeps_a_reset_where_it_is_drained() {
    let mut data = make_header();
    data.extend_from_slice(&make_dss_block(0, 0, 13, 0x10));
    data.extend_from_slice(&make_dss_block(0, 17, 0, 0x80));
    data.extend_from_slice(&make_dss_block(0, 0, 1, 0xC0));
    let (packets, total) = demux_dss(&data).unwrap();
    assert_eq!(total, 14);
    let mut demuxer = DssSpStreamDemuxer::new(2);
    let frames = demuxer.push(&data).unwrap();
    assert_eq!(frames, packets);
    for i in 0..40 {
        assert_eq!(frames[13][i], 0xC0 + i as u8);
    }
    assert_eq!(frames[13][40], 0);
    assert_eq!(frames[13][41], 0xE9);
    assert!(demuxer.finish().unwrap().is_empty());
}

#[test]
fn stream_drops_resets_inside_a_packet() {
    let mut data = make_header();
    data.extend_from_slice(&make_dss_block(0, 0, 12, 0x10));
    data.extend_from_slice(&make_dss_block(0, 8, 0, 0x80));
    data.extend_from_slice(&make_dss_block(1, 0, 12, 0xC0));
    let (packets, _) = demux_dss(&data).unwrap();
    assert_eq!(fingerprint(&packets), 0xbc0d6fd9736f77a1);
    for size in [1, 127, 5000] {
        let mut demuxer = DssSpStreamDemuxer::new(2);
        let mut frames = Vec::new();
        for chunk in data.chunks(size) {
            frames.extend(demuxer.push(chunk).unwrap());
        }
        frames.extend(demuxer.finish_lenient().unwrap());
        assert_eq!(frames, packets);
    }
}

#[test]
fn stream_holds_a_frame_back_until_its_reset_is_known() {
    // The fourteenth frame starts at the end of the first empty block.
    let mut data = make_header();
    data.extend_from_slice(&make_dss_block(0, 0, 14, 0x10));
    data.extend_from_slice(&make_dss_block(0, 17, 0, 0x80));
    data.extend_from_slice(&make_dss_block(0, 24, 0, 0x90));
    let ended = data.clone();
    data.extend_from_slice(&make_dss_block(0, 0, 1, 0xC0));

    let (packets, _) = demux_dss(&data).unwrap();
    let mut demuxer = DssSpStreamDemuxer::new(2);
    let mut frames = demuxer.push(&ended).unwrap();
    assert_eq!(frames.len(), 13);
    frames.extend(demuxer.push(&data[ended.len()..]).unwrap());
    assert_eq!(frames, packets);
    assert_eq!(&frames[13][..4], &[0x90, 0x91, 0x92, 0x93]);
    assert!(demuxer.finish().unwrap().is_empty());

    // Without a later block with frames, there is no reset.
    let (packets, _) = demux_dss(&ended).unwrap();
    let mut demuxer = DssSpStreamDemuxer::new(2);
    let mut frames = demuxer.push(&ended).unwrap();
    let held = demuxer.finish().unwrap();
    assert_eq!(held.len(), 1);
    frames.extend(held);
    assert_eq!(frames, packets);
    assert_eq!(frames[13][0], 0x91);
    assert!(demuxer.finish().unwrap().is_empty());
}

#[test]
fn a_fault_at_the_end_leaves_held_frames_for_a_lenient_end() {
    let mut data = make_header();
    data.extend_from_slice(&make_dss_block(0, 0, 15, 0x10));
    data.extend_from_slice(&make_dss_block(0, 17, 0, 0x80));
    data.extend_from_slice(&make_dss_block(0, 24, 0, 0x90));
    let (packets, _) = demux_dss(&data).unwrap();
    let mut demuxer = DssSpStreamDemuxer::new(2);
    let mut frames = demuxer.push(&data).unwrap();
    assert_eq!(frames.len(), 13);
    assert_eq!(
        demuxer.finish().unwrap_err(),
        DecodeError::Truncated("DSS SP frame".to_string())
    );
    frames.extend(demuxer.finish_lenient().unwrap());
    assert_eq!(frames, packets);
}

#[test]
fn empty_blocks_at_the_start_reset_in_both() {
    let mut data = make_header();
    data.extend_from_slice(&make_dss_block(1, 0, 0, 0x10));
    data.extend_from_slice(&make_dss_block(0, 3, 0, 0x30));
    data.extend_from_slice(&make_dss_block(0, 0, 5, 0x80));
    let (packets, _) = demux_dss(&data).unwrap();
    assert_eq!(fingerprint(&packets), 0x6fbeac402f07bd26);
    let mut demuxer = DssSpStreamDemuxer::new(2);
    assert_eq!(collect_frames(&mut demuxer, &data, 31), packets);
}

#[test]
fn lenient_end_pads_and_matches_batch() {
    let mut data = make_header();
    data.extend_from_slice(&make_dss_block(0, 0, 13, 0x30));
    let (packets, _) = demux_dss(&data).unwrap();
    assert_eq!(fingerprint(&packets), 0x2463cf2e2b003726);
    for size in [1, 7, 512, 5000] {
        let mut demuxer = DssSpStreamDemuxer::new(2);
        let mut frames = Vec::new();
        for chunk in data.chunks(size) {
            frames.extend(demuxer.push(chunk).unwrap());
        }
        assert_eq!(frames.len(), 12);
        frames.extend(demuxer.finish_lenient().unwrap());
        assert_eq!(frames, packets);
    }
}

#[test]
fn dss_faults_name_what_is_missing() {
    assert!(matches!(
        demux_dss(b"\x04dss"),
        Err(DecodeError::NotDss(name)) if name == "<bytes>"
    ));
    assert!(matches!(demux_dss(b"\x02ds"), Err(DecodeError::NotDss(_))));

    let mut demuxer = DssSpStreamDemuxer::new(2);
    assert!(demuxer.finish().unwrap().is_empty());
    assert!(demuxer.finish_lenient().unwrap().is_empty());
    demuxer.push(&make_header()[..5]).unwrap();
    assert_eq!(
        demuxer.finish().unwrap_err(),
        DecodeError::Truncated("DSS header".to_string())
    );
    assert_eq!(
        demuxer.finish_lenient().unwrap_err(),
        DecodeError::Truncated("DSS header".to_string())
    );
    demuxer.push(&make_header()[5..]).unwrap();
    demuxer.push(&[0]).unwrap();
    assert_eq!(
        demuxer.finish().unwrap_err(),
        DecodeError::Truncated("DSS block".to_string())
    );
}

#[test]
fn files_that_cannot_be_demuxed_are_told_apart() {
    let mut data = make_header();
    assert!(try_demux_dss(&data).is_none());
    assert!(try_demux_dss(&data[..100]).is_none());
    // 13 packets start inside the stream, the fourteenth does not.
    data.extend_from_slice(&make_dss_block(0, 0, 14, 0x30));
    assert!(try_demux_dss(&data).is_none());
    data[2 * BLOCK_SIZE + 2] = 13;
    assert_eq!(try_demux_dss(&data).unwrap().1, 13);
    assert!(try_demux_dss(b"\x05dss").is_none());
}
