use dss_codec::crypto::aes::{gf_mul, RoundKeys};
use dss_codec::crypto::block_decryptor::EncryptedDs2BlockDecryptor;
use dss_codec::crypto::ds2_encrypted::{
    accept_key, build_saved_state, debug_decrypt_block, decrypt_body_self_rekey,
    decrypt_encrypted_ds2, decrypt_record_in_place, decrypt_with_state, derive_key_128,
    derive_key_256, mix_password, parse_decrypt_descriptor, split_digest_128, split_digest_256,
    swap_adjacent_bytes, DecryptDescriptor, KeyMode, PayloadDecryptState,
    DECRYPT_DESCRIPTOR_OFFSET, DECRYPT_DESCRIPTOR_SIZE, DS2_BLOCK_SIZE, DS2_HEADER_SIZE,
    ENCRYPTED_MAGIC, PLAIN_MAGIC, SAVED_STATE_SIZE,
};
use dss_codec::error::DecodeError;

const DESC_128: [u8; 22] = [
    0x01, 0x00, 0xEA, 0x89, 0x41, 0x86, 0x20, 0x9E, 0x20, 0xF3, 0xCD, 0x63, 0xF4, 0xD9, 0x34, 0xF0,
    0xD3, 0x8D, 0x10, 0xC9, 0xD2, 0x06,
];
const DESC_256: [u8; 22] = [
    0x02, 0x00, 0x23, 0xBC, 0xB6, 0xA9, 0x99, 0x81, 0x20, 0x83, 0x39, 0xF3, 0xA4, 0xC3, 0xBF, 0x41,
    0xEE, 0x5A, 0xA7, 0xA8, 0x2A, 0x12,
];

fn encrypted_header(desc: &[u8; 22]) -> Vec<u8> {
    let mut input = vec![0u8; DS2_HEADER_SIZE];
    input[..4].copy_from_slice(&ENCRYPTED_MAGIC);
    input[DECRYPT_DESCRIPTOR_OFFSET..DECRYPT_DESCRIPTOR_OFFSET + DECRYPT_DESCRIPTOR_SIZE]
        .copy_from_slice(desc);
    input
}

fn some_block() -> Vec<u8> {
    (0..512usize).map(|i| (7 * i + 3) as u8).collect()
}

fn fingerprint(data: &[u8]) -> u64 {
    let mut h: u64 = 0xcbf29ce484222325;
    for byte in data {
        h = (h ^ *byte as u64).wrapping_mul(0x100000001b3);
    }
    h
}

fn text_of(e: DecodeError) -> String {
    match e {
        DecodeError::EncryptedDs2(text) => text,
        other => panic!("unexpected {:?}", other),
    }
}

#[test]
fn parse_descriptor_128() {
    let mut header = [0u8; DS2_HEADER_SIZE];
    header[DECRYPT_DESCRIPTOR_OFFSET..DECRYPT_DESCRIPTOR_OFFSET + DECRYPT_DESCRIPTOR_SIZE]
        .copy_from_slice(&DESC_128);
    let desc = parse_decrypt_descriptor(&header).unwrap();
    assert_eq!(desc.key_mode, KeyMode::Aes128);
    assert_eq!(desc.expected_check_word, 0xC910);
    assert_eq!(
        desc.aux_16,
        [
            0xEA, 0x89, 0x41, 0x86, 0x20, 0x9E, 0x20, 0xF3, 0xCD, 0x63, 0xF4, 0xD9, 0x34, 0xF0,
            0xD3, 0x8D
        ]
    );
}

#[test]
fn derive_128_matches_known_sample_descriptor() {
    let (key, check) = derive_key_128(
        b"1234",
        &[
            0xEA, 0x89, 0x41, 0x86, 0x20, 0x9E, 0x20, 0xF3, 0xCD, 0x63, 0xF4, 0xD9, 0x34, 0xF0,
            0xD3, 0x8D,
        ],
    )
    .unwrap();
    assert_eq!(check, 0xC910);
    assert_eq!(
        key,
        [
            0xb9, 0x47, 0x69, 0xd3, 0xda, 0x48, 0x00, 0x59, 0x8e, 0x0e, 0x91, 0x31, 0x32, 0x53,
            0xff, 0x68
        ]
    );
}

#[test]
fn derive_256_matches_known_sample_descriptor() {
    let (key, check) = derive_key_256(
        b"1234",
        &[
            0x23, 0xBC, 0xB6, 0xA9, 0x99, 0x81, 0x20, 0x83, 0x39, 0xF3, 0xA4, 0xC3, 0xBF, 0x41,
            0xEE, 0x5A,
        ],
    )
    .unwrap();
    assert_eq!(check, 0xA8A7);
    assert_eq!(&key[..4], &[0x15, 0x7b, 0xa7, 0x6f]);
    assert_eq!(&key[28..], &[0xd4, 0x2f, 0xc9, 0xf1]);
}

#[test]
fn build_saved_state_accepts_known_128_password() {
    let mut header = [0u8; DS2_HEADER_SIZE];
    header[DECRYPT_DESCRIPTOR_OFFSET..DECRYPT_DESCRIPTOR_OFFSET + DECRYPT_DESCRIPTOR_SIZE]
        .copy_from_slice(&DESC_128);
    let desc = parse_decrypt_descriptor(&header).unwrap();
    let state = match build_saved_state(b"1234", &desc) {
        Ok(state) => state,
        Err(e) => panic!("{:?}", e),
    };
    assert_eq!(fingerprint(&state.saved(SAVED_STATE_SIZE)), 0x6bd25f731e313930);
}

#[test]
fn build_saved_state_accepts_known_256_password() {
    let mut header = [0u8; DS2_HEADER_SIZE];
    header[DECRYPT_DESCRIPTOR_OFFSET..DECRYPT_DESCRIPTOR_OFFSET + DECRYPT_DESCRIPTOR_SIZE]
        .copy_from_slice(&DESC_256);
    let desc = parse_decrypt_descriptor(&header).unwrap();
    let state = match build_saved_state(b"1234", &desc) {
        Ok(state) => state,
        Err(e) => panic!("{:?}", e),
    };
    assert_eq!(fingerprint(&state.saved(SAVED_STATE_SIZE)), 0xdf6808cf235f9d7d);
}

#[test]
fn encrypted_stream_decryptor_waits_for_full_header() {
    let mut input = vec![0u8; DS2_HEADER_SIZE];
    input[..4].copy_from_slice(&ENCRYPTED_MAGIC);
    input[DECRYPT_DESCRIPTOR_OFFSET..DECRYPT_DESCRIPTOR_OFFSET + DECRYPT_DESCRIPTOR_SIZE]
        .copy_from_slice(&DESC_128);

    let mut decryptor = EncryptedDs2BlockDecryptor::new(b"1234");
    assert!(decryptor.push(&input[..128]).unwrap().is_empty());
    let plain = decryptor.push(&input[128..]).unwrap();
    assert_eq!(&plain[..4], &PLAIN_MAGIC);
    assert_eq!(plain.len(), DS2_HEADER_SIZE);
}

#[test]
fn encrypted_stream_decryptor_rejects_wrong_password_after_header() {
    let mut input = vec![0u8; DS2_HEADER_SIZE];
    input[..4].copy_from_slice(&ENCRYPTED_MAGIC);
    input[DECRYPT_DESCRIPTOR_OFFSET..DECRYPT_DESCRIPTOR_OFFSET + DECRYPT_DESCRIPTOR_SIZE]
        .copy_from_slice(&DESC_128);

    let mut decryptor = EncryptedDs2BlockDecryptor::new(b"9999");
    let err = decryptor.push(&input).unwrap_err();
    assert!(matches!(err, DecodeError::EncryptedDs2(_)));
    assert_eq!(
        text_of(err),
        "password rejected by descriptor check: expected 0xc910, computed 0xeef8"
    );
}

#[test]
fn encrypted_stream_decryptor_finish_rejects_truncated_header() {
    let mut decryptor = EncryptedDs2BlockDecryptor::new(b"1234");
    let _ = decryptor.push(b"\x03enc").unwrap();
    let err = decryptor.finish().unwrap_err();
    assert!(matches!(err, DecodeError::Truncated(_)));
}

#[test]
fn encrypted_stream_decryptor_finish_rejects_truncated_block() {
    let mut input = vec![0u8; DS2_HEADER_SIZE];
    input[..4].copy_from_slice(&ENCRYPTED_MAGIC);
    input[DECRYPT_DESCRIPTOR_OFFSET..DECRYPT_DESCRIPTOR_OFFSET + DECRYPT_DESCRIPTOR_SIZE]
        .copy_from_slice(&DESC_128);

    let mut decryptor = EncryptedDs2BlockDecryptor::new(b"1234");
    let _ = decryptor.push(&input).unwrap();
    let _ = decryptor.push(&[0u8; 10]).unwrap();
    let err = decryptor.finish().unwrap_err();
    assert!(matches!(err, DecodeError::Truncated(_)));
}

#[test]
fn aes_decrypts_the_standard_vectors() {
    let key: Vec<u8> = (0u8..32).collect();
    let plain: Vec<u8> = (0u8..16).map(|i| 0x11 * i).collect();
    let vectors: [(usize, [u8; 16]); 3] = [
        (
            16,
            [
                0x69, 0xc4, 0xe0, 0xd8, 0x6a, 0x7b, 0x04, 0x30, 0xd8, 0xcd, 0xb7, 0x80, 0x70, 0xb4,
                0xc5, 0x5a,
            ],
        ),
        (
            24,
            [
                0xdd, 0xa9, 0x7c, 0xa4, 0x86, 0x4c, 0xdf, 0xe0, 0x6e, 0xaf, 0x70, 0xa0, 0xec, 0x0d,
                0x71, 0x91,
            ],
        ),
        (
            32,
            [
                0x8e, 0xa2, 0xb7, 0xca, 0x51, 0x67, 0x45, 0xbf, 0xea, 0xfc, 0x49, 0x90, 0x4b, 0x49,
                0x60, 0x89,
            ],
        ),
    ];
    for (len, cipher) in vectors {
        let keys = RoundKeys::expand(&key[..len]).unwrap_or_else(|e| panic!("{:?}", e));
        assert_eq!(keys.round_count(), len / 4 + 6);
        assert_eq!(keys.byte(0), 0);
        assert_eq!(keys.decrypt_block(&cipher).unwrap().to_vec(), plain);
    }
}

#[test]
fn aes_refuses_other_lengths() {
    let err = match RoundKeys::expand(&[0u8; 17]) {
        Err(e) => e,
        Ok(_) => panic!("a key of 17 bytes"),
    };
    assert_eq!(text_of(err), "unsupported AES key length 17");
    let keys = match RoundKeys::expand(&[0u8; 16]) {
        Ok(keys) => keys,
        Err(e) => panic!("{:?}", e),
    };
    assert_eq!(
        text_of(keys.decrypt_block(&[0u8; 15]).unwrap_err()),
        "AES block decrypt requires 16-byte input"
    );
}

#[test]
fn field_products() {
    assert_eq!(gf_mul(0x57, 0x83), 0xc1);
    assert_eq!(gf_mul(0x57, 0x13), 0xfe);
    assert_eq!(gf_mul(0xff, 1), 0xff);
    assert_eq!(gf_mul(0xff, 0), 0);
}

#[test]
fn known_block_decrypts_under_both_key_lengths() {
    for (desc, block_print, saved_print, post_print, first, second) in [
        (
            DESC_128,
            0x7b9ffc73fcd0dd6bu64,
            0x6bd25f731e313930u64,
            0xb7f1b3db857068f8u64,
            [253u8, 193, 55, 221],
            [51u8, 231, 191, 32],
        ),
        (
            DESC_256,
            0x460d2694f76bb223,
            0xdf6808cf235f9d7d,
            0x080088a83dc2f985,
            [230, 72, 6, 147],
            [143, 71, 114, 214],
        ),
    ] {
        let mut file = encrypted_header(&desc);
        file.extend(some_block());
        file.extend(some_block());
        let plain = decrypt_encrypted_ds2(&file, b"1234").unwrap();
        assert_eq!(plain.len(), file.len());
        assert_eq!(&plain[..4], &PLAIN_MAGIC);
        assert_eq!(&plain[4..DS2_HEADER_SIZE], &file[4..DS2_HEADER_SIZE]);
        let block = &plain[DS2_HEADER_SIZE..DS2_HEADER_SIZE + DS2_BLOCK_SIZE];
        assert_eq!(fingerprint(block), block_print);
        assert_eq!(&block[..6], &some_block()[..6]);
        assert_eq!(&block[502..], &some_block()[502..]);
        assert_eq!(block, &plain[DS2_HEADER_SIZE + DS2_BLOCK_SIZE..]);

        let trace = debug_decrypt_block(&file, b"1234", 1).unwrap();
        assert_eq!(trace.final_block, block);
        assert_eq!(fingerprint(&trace.saved_state), saved_print);
        assert_eq!(fingerprint(&trace.swapped_body), 0x2dd7a196ca262415);
        assert_eq!(fingerprint(&trace.post_rekey_state_prefix), post_print);
        assert_eq!(&trace.first_decrypted_16[..4], &first);
        assert_eq!(&trace.second_decrypted_16[..4], &second);
        assert_eq!(trace.post_rekey_state_prefix.len(), 96);
    }
}

#[test]
fn stream_and_batch_decrypt_alike() {
    let mut file = encrypted_header(&DESC_256);
    file.extend(some_block());
    file.extend(some_block().into_iter().rev());
    let plain = decrypt_encrypted_ds2(&file, b"1234").unwrap();
    for size in [1, 100, 513, 5000] {
        let mut decryptor = EncryptedDs2BlockDecryptor::new(b"1234");
        let mut out = Vec::new();
        for chunk in file.chunks(size) {
            out.extend(decryptor.push(chunk).unwrap());
        }
        out.extend(decryptor.finish().unwrap());
        assert_eq!(out, plain);
    }
}

#[test]
fn bytes_after_the_last_block_stay_in_batch_and_wait_in_stream() {
    let mut file = encrypted_header(&DESC_128);
    file.extend(some_block());
    file.extend([9u8; 20]);
    let plain = decrypt_encrypted_ds2(&file, b"1234").unwrap();
    assert_eq!(&plain[plain.len() - 20..], &[9u8; 20]);
    let mut decryptor = EncryptedDs2BlockDecryptor::new(b"1234");
    let out = decryptor.push(&file).unwrap();
    assert_eq!(out, &plain[..plain.len() - 20]);
    assert_eq!(
        decryptor.finish().unwrap_err(),
        DecodeError::Truncated("encrypted DS2 block".to_string())
    );
}

#[test]
fn batch_faults_in_order() {
    let long = [b'x'; 17];
    assert_eq!(
        decrypt_encrypted_ds2(&[0u8; 10], &long).unwrap_err(),
        DecodeError::Truncated("encrypted DS2 header".to_string())
    );
    let mut file = encrypted_header(&DESC_128);
    file[0] = 2;
    assert_eq!(
        text_of(decrypt_encrypted_ds2(&file, &long).unwrap_err()),
        "expected encrypted DS2 magic \\x03enc"
    );
    file[0] = 3;
    file[DECRYPT_DESCRIPTOR_OFFSET] = 0x39;
    file[DECRYPT_DESCRIPTOR_OFFSET + 1] = 0x30;
    assert_eq!(
        text_of(decrypt_encrypted_ds2(&file, &long).unwrap_err()),
        "password longer than 16 bytes is not supported by current prototype"
    );
    assert_eq!(
        text_of(decrypt_encrypted_ds2(&file, b"1234").unwrap_err()),
        "unsupported encrypted DS2 key mode 12345"
    );
    let file = encrypted_header(&DESC_128);
    assert_eq!(
        text_of(decrypt_encrypted_ds2(&file, b"9999").unwrap_err()),
        "password rejected by descriptor check: expected 0xc910, computed 0xeef8"
    );
    assert_eq!(
        text_of(parse_decrypt_descriptor(&file[..0x15b]).unwrap_err()),
        "missing decrypt descriptor"
    );
}

#[test]
fn stream_faults() {
    let mut decryptor = EncryptedDs2BlockDecryptor::new(b"1234");
    assert!(decryptor.finish().unwrap().is_empty());
    assert_eq!(
        text_of(decryptor.push(b"\x03ds2").unwrap_err()),
        "expected encrypted DS2 magic \\x03enc"
    );
    let long = [b'x'; 17];
    let mut decryptor = EncryptedDs2BlockDecryptor::new(&long);
    assert_eq!(
        text_of(decryptor.push(&encrypted_header(&DESC_128)).unwrap_err()),
        "password longer than 16 bytes is not supported by current prototype"
    );
    let mut desc = DESC_128;
    desc[0] = 3;
    let mut decryptor = EncryptedDs2BlockDecryptor::new(&long);
    assert_eq!(
        text_of(decryptor.push(&encrypted_header(&desc)).unwrap_err()),
        "unsupported encrypted DS2 key mode 3"
    );
}

#[test]
fn trace_faults() {
    let mut file = encrypted_header(&DESC_128);
    assert_eq!(
        debug_decrypt_block(&file, b"1234", 0).unwrap_err(),
        DecodeError::Truncated("encrypted DS2 block".to_string())
    );
    file.extend(some_block());
    assert_eq!(
        debug_decrypt_block(&file, b"1234", 1).unwrap_err(),
        DecodeError::Truncated("encrypted DS2 block index".to_string())
    );
    assert!(debug_decrypt_block(&file, b"1234", 0).is_ok());
    assert!(debug_decrypt_block(&file, b"9999", 0).is_err());
    file[3] = 0;
    assert_eq!(
        text_of(debug_decrypt_block(&file, b"1234", 0).unwrap_err()),
        "expected encrypted DS2 magic \\x03enc"
    );
}

#[test]
fn pairs_are_swapped_and_swapped_back() {
    let mut data = vec![1, 2, 3, 4, 5];
    swap_adjacent_bytes(&mut data);
    assert_eq!(data, [2, 1, 4, 3, 5]);
    swap_adjacent_bytes(&mut data);
    assert_eq!(data, [1, 2, 3, 4, 5]);
}

#[test]
fn passwords_are_mixed_with_the_salt() {
    let salt: [u8; 16] = [0xf0; 16];
    assert_eq!(
        mix_password(b"\x01\x02", &salt).unwrap(),
        [
            0xf1, 0xf2, 0xf0, 0xf0, 0xf0, 0xf0, 0xf0, 0xf0, 0xf0, 0xf0, 0xf0, 0xf0, 0xf0, 0xf0,
            0xf0, 0xf0
        ]
    );
    assert!(mix_password(&[0u8; 16], &salt).is_ok());
    assert!(mix_password(&[0u8; 17], &salt).is_err());
}

#[test]
fn digests_hold_a_key_and_a_check_word() {
    let mut digest = [0u8; 48];
    for (i, byte) in digest.iter_mut().enumerate() {
        *byte = i as u8;
    }
    let mut short = [0u8; 20];
    short.copy_from_slice(&digest[..20]);
    let (key, check) = split_digest_128(&short);
    assert_eq!(key.to_vec(), digest[..16].to_vec());
    assert_eq!(check, 0x1110);
    let (key, check) = split_digest_256(&digest);
    assert_eq!(key.to_vec(), digest[..32].to_vec());
    assert_eq!(check, 0x2120);
}

#[test]
fn keys_are_accepted_by_their_check_word() {
    let desc = DecryptDescriptor {
        key_mode: KeyMode::Aes128,
        aux_16: [0; 16],
        expected_check_word: 0x00ab,
    };
    assert!(accept_key(&desc, &[0u8; 16], 0x00ab).is_ok());
    let err = match accept_key(&desc, &[0u8; 16], 0xffff) {
        Err(e) => e,
        Ok(_) => panic!("accepted"),
    };
    assert_eq!(
        text_of(err),
        "password rejected by descriptor check: expected 0x00ab, computed 0xffff"
    );
    let err = match accept_key(&desc, &[0u8; 5], 0x00ab) {
        Err(e) => e,
        Ok(_) => panic!("accepted"),
    };
    assert_eq!(text_of(err), "unsupported AES key length 5");
}

#[test]
fn bodies_and_records_have_fixed_lengths() {
    let mut state = match PayloadDecryptState::new(&[1u8; 16]) {
        Ok(state) => state,
        Err(e) => panic!("{:?}", e),
    };
    let mut body = vec![0u8; 17];
    assert_eq!(
        text_of(decrypt_body_self_rekey(&mut body, &mut state, KeyMode::Aes128).unwrap_err()),
        "transformed body length 17 is not a multiple of 16"
    );
    let mut record = vec![0u8; 100];
    assert_eq!(
        text_of(decrypt_record_in_place(&state, KeyMode::Aes128, &mut record).unwrap_err()),
        "expected 512-byte DS2 record, got 100 bytes"
    );
    let file = vec![7u8; 0x600 + 512];
    let out = decrypt_with_state(&file, &state, KeyMode::Aes128);
    assert_eq!(out.len(), file.len());
    assert_ne!(out[0x606..], file[0x606..]);
}

#[test]
fn bodies_can_be_decrypted_in_turn() {
    for (mode, key_len) in [(KeyMode::Aes128, 16), (KeyMode::Aes256, 32)] {
        let key: Vec<u8> = (0..key_len).map(|i| (i * 11 + 1) as u8).collect();
        let start = PayloadDecryptState::new(&key).unwrap();
        let data: Vec<u8> = (0..96usize).map(|i| (i * 13 + 7) as u8).collect();
        let mut whole = data.clone();
        let mut state = start;
        decrypt_body_self_rekey(&mut whole, &mut state, mode).unwrap();
        for cut in [0, 16, 48, 96] {
            let mut first = data[..cut].to_vec();
            let mut second = data[cut..].to_vec();
            let mut in_turn = start;
            decrypt_body_self_rekey(&mut first, &mut in_turn, mode).unwrap();
            decrypt_body_self_rekey(&mut second, &mut in_turn, mode).unwrap();
            first.extend(second);
            assert_eq!(first, whole);
            assert_eq!(in_turn.saved(SAVED_STATE_SIZE), state.saved(SAVED_STATE_SIZE));
        }
    }
}

#[test]
fn traces_show_the_decrypted_file() {
    for (desc, password) in [(&DESC_128, &b"1234"[..]), (&DESC_256, &b"1234"[..])] {
        let mut data = encrypted_header(desc);
        for _ in 0..3 {
            data.extend(some_block());
        }
        data[DS2_HEADER_SIZE + DS2_BLOCK_SIZE + 9] ^= 0x55;
        data.extend_from_slice(b"rest");
        let out = decrypt_encrypted_ds2(&data, password).unwrap();
        let state = debug_decrypt_block(&data, password, 0).unwrap().saved_state;
        for k in 0..3 {
            let at = DS2_HEADER_SIZE + DS2_BLOCK_SIZE * k;
            let trace = debug_decrypt_block(&data, password, k).unwrap();
            assert_eq!(trace.final_block, out[at..at + DS2_BLOCK_SIZE]);
            assert_eq!(trace.saved_state, state);
            let mut body = data[at + 6..at + 502].to_vec();
            swap_adjacent_bytes(&mut body);
            assert_eq!(trace.swapped_body, body);
            let mut first = trace.first_decrypted_16.to_vec();
            swap_adjacent_bytes(&mut first);
            assert_eq!(first, out[at + 6..at + 22]);
            let mut second = trace.second_decrypted_16.to_vec();
            swap_adjacent_bytes(&mut second);
            assert_eq!(second, out[at + 22..at + 38]);
        }
        assert!(debug_decrypt_block(&data, password, 3).is_err());
    }
}

#[test]
fn any_pieces_decrypt_up_to_the_last_whole_block() {
    let mut data = encrypted_header(&DESC_128);
    data.extend(some_block());
    data.extend(some_block());
    for extra in [0, 1, 511] {
        let mut file = data.clone();
        file.extend_from_slice(&some_block()[..extra]);
        let plain = decrypt_encrypted_ds2(&file, b"1234").unwrap();
        for size in [1, 7, 512, 5000] {
            let mut decryptor = EncryptedDs2BlockDecryptor::new(b"1234");
            let mut out = Vec::new();
            for piece in file.chunks(size) {
                out.extend(decryptor.push(piece).unwrap());
            }
            assert_eq!(out, plain[..data.len()]);
            if extra == 0 {
                assert!(decryptor.finish().unwrap().is_empty());
            } else {
                assert_eq!(
                    decryptor.finish().unwrap_err(),
                    DecodeError::Truncated("encrypted DS2 block".to_string())
                );
            }
        }
    }
    let mut decryptor = EncryptedDs2BlockDecryptor::new(b"1234");
    assert!(decryptor.finish().unwrap().is_empty());
    assert!(decryptor.push(&ENCRYPTED_MAGIC).unwrap().is_empty());
    assert_eq!(
        decryptor.finish().unwrap_err(),
        DecodeError::Truncated("encrypted DS2 header".to_string())
    );
}
