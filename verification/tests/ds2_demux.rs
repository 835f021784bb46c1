use dss_codec::codec::ds2_qp::split_frames;
use dss_codec::demux::ds2::{
    demux_ds2, DemuxedDs2, Ds2QpStreamDemuxer, Ds2SpStreamDemuxer, DS2_HEADER_SIZE,
    DS2_QP_FRAME_SIZE,
};
use dss_codec::demux::framing::{BLOCK_HEADER_SIZE, BLOCK_SIZE};
use dss_codec::error::DecodeError;

fn make_ds2_file(mode: u8, frame_count: u8, payload_pattern: u8) -> Vec<u8> {
    let mut data = vec![0u8; DS2_HEADER_SIZE];
    data[..4].copy_from_slice(b"\x03ds2");

    let mut block = [0u8; BLOCK_SIZE];
    block[2] = frame_count;
    block[4] = mode;
    for (i, byte) in block[BLOCK_HEADER_SIZE..].iter_mut().enumerate() {
        *byte = payload_pattern.wrapping_add(i as u8);
    }

    data.extend_from_slice(&block);
    data
}

#[test]
fn test_ds2_sp_stream_demux_matches_batch() {
    let data = make_ds2_file(0, 4, 0x10);
    let expected = match demux_ds2(&data).unwrap() {
        DemuxedDs2::Sp { packets, .. } => packets,
        _ => panic!("expected DS2 SP packets"),
    };

    let mut demuxer = Ds2SpStreamDemuxer::new();
    let mut actual = Vec::new();
    for chunk in data.chunks(137) {
        actual.extend(demuxer.push(chunk).unwrap());
    }
    actual.extend(demuxer.finish().unwrap());

    assert_eq!(actual, expected);
}

#[test]
fn test_ds2_qp_stream_demux_matches_batch() {
    let data = make_ds2_file(6, 3, 0x40);
    let expected = match demux_ds2(&data).unwrap() {
        DemuxedDs2::Qp {
            stream,
            total_frames,
        } => stream[..total_frames * DS2_QP_FRAME_SIZE]
            .chunks(DS2_QP_FRAME_SIZE)
            .map(|chunk| chunk.to_vec())
            .collect::<Vec<_>>(),
        _ => panic!("expected DS2 QP stream"),
    };

    let mut demuxer = Ds2QpStreamDemuxer::new();
    let mut actual = Vec::new();
    for chunk in data.chunks(113) {
        actual.extend(demuxer.push(chunk).unwrap());
    }
    actual.extend(demuxer.finish().unwrap());

    assert_eq!(actual, expected);
}

#[test]
fn test_ds2_qp_stream_demux_truncated_frame() {
    let data = make_ds2_file(6, 10, 0x55);
    let mut demuxer = Ds2QpStreamDemuxer::new();
    for chunk in data.chunks(97) {
        let _ = demuxer.push(chunk).unwrap();
    }

    let err = demuxer.finish().unwrap_err();
    assert!(matches!(err, DecodeError::Truncated(_)));
}

#[test]
fn sp_packets_alternate_between_plain_and_swapped_reads() {
    let data = make_ds2_file(0, 2, 0);
    let packets = match demux_ds2(&data).unwrap() {
        DemuxedDs2::Sp {
            packets,
            total_frames,
        } => {
            assert_eq!(total_frames, 2);
            packets
        }
        _ => panic!("expected packets"),
    };
    // The plain packet is the first 42 bytes, with byte 40 taken out.
    let mut plain: Vec<u8> = (0..42).collect();
    plain[40] = 0;
    assert_eq!(packets[0], plain);
    // The next 40 bytes start at 42; byte 1 is the one taken out before.
    assert_eq!(&packets[1][..6], &[43, 40, 45, 42, 47, 44]);
    assert_eq!(packets[1][39], 78);
    assert_eq!(packets[1][40], 0);
    assert_eq!(packets[1][41], 80);
}

#[test]
fn a_set_top_bit_starts_with_a_swapped_read() {
    let mut data = make_ds2_file(1, 1, 0);
    data[DS2_HEADER_SIZE] = 0x80;
    match demux_ds2(&data).unwrap() {
        DemuxedDs2::Sp { packets, .. } => {
            assert_eq!(&packets[0][..6], &[1, 0, 3, 0, 5, 2]);
        }
        _ => panic!("expected packets"),
    }
}

#[test]
fn sp_lenient_end_pads_and_matches_batch() {
    // 13 packets start inside 506 bytes; the last one is cut short.
    let data = make_ds2_file(0, 13, 0x21);
    let expected = match demux_ds2(&data).unwrap() {
        DemuxedDs2::Sp { packets, .. } => packets,
        _ => panic!("expected packets"),
    };
    let mut demuxer = Ds2SpStreamDemuxer::new();
    let mut actual = Vec::new();
    for chunk in data.chunks(1) {
        actual.extend(demuxer.push(chunk).unwrap());
    }
    assert_eq!(actual.len(), 12);
    assert_eq!(
        demuxer.finish().unwrap_err(),
        DecodeError::Truncated("DS2 SP frame".to_string())
    );
    actual.extend(demuxer.finish_lenient().unwrap());
    assert_eq!(actual, expected);
    assert!(demuxer.finish().unwrap().is_empty());
}

#[test]
fn qp_lenient_end_pads_and_matches_batch() {
    let data = make_ds2_file(7, 10, 0x55);
    let (stream, total) = match demux_ds2(&data).unwrap() {
        DemuxedDs2::Qp {
            stream,
            total_frames,
        } => (stream, total_frames),
        _ => panic!("expected stream"),
    };
    assert_eq!(stream.len(), 506);
    let mut demuxer = Ds2QpStreamDemuxer::new();
    let mut actual = demuxer.push(&data).unwrap();
    assert_eq!(actual.len(), 9);
    actual.extend(demuxer.finish_lenient().unwrap());
    assert_eq!(actual.len(), 10);
    assert_eq!(actual[9][1], stream[505]);
    assert_eq!(&actual[9][2..], &[0u8; 54]);
    assert_eq!(actual, split_frames(&stream, total));
}

#[test]
fn split_frames_reads_whole_words_only() {
    let frames = split_frames(&[1, 2, 3], 1);
    assert_eq!(&frames[0][..4], &[1, 2, 0, 0]);
    assert_eq!(frames[0].len(), 56);
}

#[test]
fn ds2_faults_name_what_is_missing() {
    assert!(matches!(
        demux_ds2(b"\x03dss"),
        Err(DecodeError::NotDs2(name)) if name == "<bytes>"
    ));
    assert!(matches!(demux_ds2(b"\x03ds"), Err(DecodeError::NotDs2(_))));

    let data = make_ds2_file(0, 1, 0);
    let mut sp = Ds2SpStreamDemuxer::new();
    assert!(sp.finish().unwrap().is_empty());
    assert!(sp.finish_lenient().unwrap().is_empty());
    sp.push(&data[..10]).unwrap();
    assert_eq!(
        sp.finish().unwrap_err(),
        DecodeError::Truncated("DS2 header".to_string())
    );
    assert_eq!(
        sp.finish_lenient().unwrap_err(),
        DecodeError::Truncated("DS2 header".to_string())
    );
    sp.push(&data[10..DS2_HEADER_SIZE + 3]).unwrap();
    assert_eq!(
        sp.finish().unwrap_err(),
        DecodeError::Truncated("DS2 block".to_string())
    );

    let mut qp = Ds2QpStreamDemuxer::new();
    assert!(qp.finish().unwrap().is_empty());
    qp.push(&data[..10]).unwrap();
    assert_eq!(
        qp.finish().unwrap_err(),
        DecodeError::Truncated("DS2 header".to_string())
    );
    qp.push(&data[10..DS2_HEADER_SIZE + 3]).unwrap();
    assert_eq!(
        qp.finish().unwrap_err(),
        DecodeError::Truncated("DS2 block".to_string())
    );
    // A lenient end drops the unfinished block.
    assert!(qp.finish_lenient().unwrap().is_empty());
    assert!(qp.finish().unwrap().is_empty());
}
