use dss_codec::cli::{
    decrypted_name, describe, output_name, resolve_password, uses_output_file, Description,
};
use dss_codec::crypto::ds2_encrypted::{
    decrypt_encrypted_ds2, KeyMode, DECRYPT_DESCRIPTOR_OFFSET, ENCRYPTED_MAGIC,
};
use dss_codec::demux::{detect_format, AudioFormat};
use dss_codec::error::DecodeError;
use dss_codec::streaming::DecryptStreamer;
use dss_codec::text::{decimal, hex4};
use dss_codec::{
    decrypt_to_bytes, demux_file, inspect_bytes, EncryptionInfo, FileInfo,
};
use std::path::PathBuf;

fn encrypted_ds2(mode: u16, format_type: u8) -> Vec<u8> {
    let mut data = vec![0u8; 0x800];
    data[..4].copy_from_slice(&ENCRYPTED_MAGIC);
    data[DECRYPT_DESCRIPTOR_OFFSET..DECRYPT_DESCRIPTOR_OFFSET + 2]
        .copy_from_slice(&mode.to_le_bytes());
    data[0x604] = format_type;
    data
}

fn sample_128() -> Vec<u8> {
    let desc: [u8; 22] = [
        0x01, 0x00, 0xEA, 0x89, 0x41, 0x86, 0x20, 0x9E, 0x20, 0xF3, 0xCD, 0x63, 0xF4, 0xD9, 0x34,
        0xF0, 0xD3, 0x8D, 0x10, 0xC9, 0xD2, 0x06,
    ];
    let mut data = vec![0u8; 0x800];
    data[..4].copy_from_slice(&ENCRYPTED_MAGIC);
    data[DECRYPT_DESCRIPTOR_OFFSET..DECRYPT_DESCRIPTOR_OFFSET + 22].copy_from_slice(&desc);
    data[0x602] = 2;
    for (i, byte) in data[0x606..].iter_mut().enumerate() {
        *byte = (i * 11) as u8;
    }
    data
}

#[test]
fn inspect_bytes_reports_encryption_and_format() {
    assert_eq!(
        inspect_bytes(&encrypted_ds2(1, 6)).unwrap(),
        FileInfo {
            format: AudioFormat::Ds2Qp,
            encryption: EncryptionInfo::EncryptedDs2Aes128,
        }
    );
    assert_eq!(
        inspect_bytes(&encrypted_ds2(2, 7)).unwrap(),
        FileInfo {
            format: AudioFormat::Ds2Qp7,
            encryption: EncryptionInfo::EncryptedDs2Aes256,
        }
    );
    assert_eq!(
        inspect_bytes(&encrypted_ds2(99, 0)).unwrap().encryption,
        EncryptionInfo::EncryptedUnknown(99)
    );
}

#[test]
fn inspect_faults() {
    assert_eq!(
        inspect_bytes(b"RIFF").unwrap_err(),
        DecodeError::UnsupportedFormat(b'R')
    );
    assert_eq!(
        inspect_bytes(&[]).unwrap_err(),
        DecodeError::UnsupportedFormat(0)
    );
    assert_eq!(
        inspect_bytes(&encrypted_ds2(1, 0)[..0x147]).unwrap_err(),
        DecodeError::EncryptedDs2("missing decrypt descriptor".to_string())
    );
    let info = inspect_bytes(b"\x02dss").unwrap();
    assert_eq!(info.encryption, EncryptionInfo::Plain);
    assert_eq!(info.native_rate(), 11025);
}

#[test]
fn formats_are_detected() {
    assert_eq!(detect_format(b"\x02dss"), Some(AudioFormat::DssSp));
    assert_eq!(detect_format(b"\x03dss"), Some(AudioFormat::DssSp));
    assert_eq!(detect_format(b"\x06dss"), Some(AudioFormat::GrundigSp));
    assert_eq!(detect_format(b"\x05dss"), None);
    assert_eq!(detect_format(b"\x03ds2"), Some(AudioFormat::Ds2Sp));
    assert_eq!(detect_format(b"\x02ds2"), None);
    assert_eq!(detect_format(b"dss"), None);
    let mut data = vec![0u8; 0x605];
    data[..4].copy_from_slice(b"\x03ds2");
    for (mode, format, rate) in [
        (0u8, AudioFormat::Ds2Sp, 12000u32),
        (5, AudioFormat::Ds2Sp, 12000),
        (6, AudioFormat::Ds2Qp, 16000),
        (7, AudioFormat::Ds2Qp7, 16000),
        (8, AudioFormat::Ds2Qp, 16000),
    ] {
        data[0x604] = mode;
        assert_eq!(detect_format(&data), Some(format));
        assert_eq!(format.native_sample_rate(), rate);
    }
    assert_eq!(AudioFormat::GrundigSp.native_sample_rate(), 16000);
}

#[test]
fn plain_files_pass_unchanged() {
    for data in [b"".to_vec(), b"\x03".to_vec(), b"\x02dss and more".to_vec()] {
        assert_eq!(decrypt_to_bytes(&data, None).unwrap(), data);
        assert_eq!(decrypt_to_bytes(&data, Some(b"1234")).unwrap(), data);
        let mut streamer = DecryptStreamer::new(None);
        let mut out = Vec::new();
        for chunk in data.chunks(1) {
            out.extend(streamer.push(chunk).unwrap());
        }
        out.extend(streamer.finish().unwrap());
        assert_eq!(out, data);
    }
}

#[test]
fn encrypted_files_are_decrypted() {
    let data = sample_128();
    let plain = decrypt_to_bytes(&data, Some(b"1234")).unwrap();
    assert_eq!(plain, decrypt_encrypted_ds2(&data, b"1234").unwrap());
    assert_eq!(&plain[..4], b"\x03ds2");
    for size in [1, 3, 700] {
        let mut streamer = DecryptStreamer::new(Some(b"1234"));
        let mut out = Vec::new();
        for chunk in data.chunks(size) {
            out.extend(streamer.push(chunk).unwrap());
        }
        out.extend(streamer.finish().unwrap());
        assert_eq!(out, plain);
    }
    assert_eq!(
        decrypt_to_bytes(&data, None).unwrap_err(),
        DecodeError::EncryptedDs2("encrypted DS2 file, password required".to_string())
    );
    assert!(matches!(
        decrypt_to_bytes(&data, Some(b"9999")),
        Err(DecodeError::EncryptedDs2(_))
    ));
    assert_eq!(
        decrypt_to_bytes(&data[..0x700], Some(b"1234")).unwrap_err(),
        DecodeError::Truncated("encrypted DS2 block".to_string())
    );
    assert_eq!(
        decrypt_to_bytes(&data[..0x100], Some(b"1234")).unwrap_err(),
        DecodeError::Truncated("encrypted DS2 header".to_string())
    );
}

#[test]
fn decrypted_files_stay_as_they_are() {
    let plain = decrypt_to_bytes(&sample_128(), Some(b"1234")).unwrap();
    assert_eq!(decrypt_to_bytes(&plain, None).unwrap(), plain);
    assert_eq!(decrypt_to_bytes(&plain, Some(b"1234")).unwrap(), plain);
    assert_eq!(decrypt_to_bytes(&plain, Some(b"9999")).unwrap(), plain);
}

#[test]
fn frames_of_an_encrypted_file_are_those_of_the_plain_one() {
    let data = sample_128();
    let plain = decrypt_to_bytes(&data, Some(b"1234")).unwrap();
    let (format, frames) = demux_file(&data, Some(b"1234")).unwrap();
    assert_eq!(format, AudioFormat::Ds2Sp);
    assert_eq!(frames.len(), 2);
    assert_eq!(frames, demux_file(&plain, None).unwrap().1);
    // An unfinished block is left out.
    assert!(demux_file(&data[..0x700], Some(b"1234")).unwrap().1.is_empty());
    assert_eq!(
        demux_file(&data[..0x100], Some(b"1234")).unwrap_err(),
        DecodeError::Truncated("encrypted DS2 header".to_string())
    );
    assert!(demux_file(&data, None).is_err());
}

#[test]
fn frames_by_format() {
    let mut qp = vec![0u8; 0x800];
    qp[..4].copy_from_slice(b"\x03ds2");
    qp[0x602] = 10;
    qp[0x604] = 6;
    let (format, frames) = demux_file(&qp, None).unwrap();
    assert_eq!(format, AudioFormat::Ds2Qp);
    assert_eq!(frames.len(), 10);
    assert_eq!(frames[9].len(), 56);

    let mut grundig = vec![0u8; 7 * 512];
    grundig[..4].copy_from_slice(b"\x06dss");
    grundig[6 * 512 + 1] = 3;
    grundig[6 * 512 + 2] = 4;
    let (format, frames) = demux_file(&grundig, None).unwrap();
    assert_eq!(format, AudioFormat::GrundigSp);
    assert_eq!(frames.len(), 4);

    let mut dss = vec![0u8; 3 * 512];
    dss[..4].copy_from_slice(b"\x02dss");
    dss[1026] = 5;
    let (format, frames) = demux_file(&dss, None).unwrap();
    assert_eq!(format, AudioFormat::DssSp);
    assert_eq!(frames.len(), 5);

    assert_eq!(
        demux_file(b"\x03ds2", None).unwrap_err(),
        DecodeError::Truncated("DS2 header".to_string())
    );
    assert_eq!(
        demux_file(b"xyz", None).unwrap_err(),
        DecodeError::UnsupportedFormat(b'x')
    );
}

#[test]
fn resolve_password_prefers_cli_over_env() {
    assert_eq!(
        resolve_password(Some("cli-secret"), Some("env-secret")),
        Some(b"cli-secret".to_vec())
    );
}

#[test]
fn resolve_password_falls_back_to_env() {
    assert_eq!(
        resolve_password(None, Some("env-secret")),
        Some(b"env-secret".to_vec())
    );
    assert_eq!(resolve_password(None, None), None);
}

#[test]
fn make_decrypt_output_path_appends_decrypted_suffix() {
    let input = PathBuf::from("sample.ds2");
    let stem = input.file_stem().unwrap().to_str().unwrap();
    let ext = input.extension().and_then(|ext| ext.to_str());
    assert_eq!(
        input.with_file_name(decrypted_name(stem, ext)),
        PathBuf::from("sample.decrypted.ds2")
    );
}

#[test]
fn names_of_outputs() {
    assert_eq!(decrypted_name("take", None), "take.decrypted.bin");
    assert_eq!(output_name("take", "wav"), "take.wav");
    assert!(uses_output_file(true, 1));
    assert!(!uses_output_file(true, 2));
    assert!(!uses_output_file(false, 1));
}

#[test]
fn files_are_described() {
    assert!(matches!(
        describe(&sample_128()),
        Description::Encrypted(KeyMode::Aes128)
    ));
    assert!(matches!(
        describe(b"\x03enc"),
        Description::EncryptedFault(DecodeError::EncryptedDs2(_))
    ));
    assert!(matches!(
        describe(b"\x06dss"),
        Description::Known(AudioFormat::GrundigSp, 16000)
    ));
    assert!(matches!(describe(b"RIFF"), Description::Unknown));
}

#[test]
fn numbers_as_text() {
    assert_eq!(decimal(0), "0");
    assert_eq!(decimal(10), "10");
    assert_eq!(decimal(65535), "65535");
    assert_eq!(hex4(0), "0000");
    assert_eq!(hex4(0xbeef), "beef");
}

#[test]
fn errors_as_text() {
    assert_eq!(
        DecodeError::UnsupportedFormat(82).message(),
        "unsupported format: 82"
    );
    assert_eq!(
        DecodeError::Truncated("DS2 block".to_string()).message(),
        "truncated file: DS2 block"
    );
    assert_eq!(
        DecodeError::NotDss("<bytes>".to_string()).message(),
        "not a DSS file: <bytes>"
    );
    assert_eq!(
        DecodeError::NotDs2("<bytes>".to_string()).message(),
        "not a DS2 file: <bytes>"
    );
    assert_eq!(
        DecodeError::EncryptedDs2("x".to_string()).message(),
        "encrypted DS2: x"
    );
}
