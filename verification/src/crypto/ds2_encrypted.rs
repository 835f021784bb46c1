//! Encrypted DS2 files.
//!
//! The header names the key length and holds a salt and a check word. Each block is
//! decrypted on its own: the 496 bytes after the block header, with the bytes of every
//! pair swapped, are 31 AES blocks, and the key of each is made of the last round key of
//! the one before.
use crate::bytes;
use crate::crypto::aes;
use crate::crypto::aes::RoundKeys;
use crate::crypto::digest;
use crate::demux::framing;
use crate::error::{DecodeError, Fault};
use crate::text;
use vstd::prelude::*;
use vstd::slice::slice_subrange;
use vstd::string::*;

verus! {

pub const ENCRYPTED_MAGIC: [u8; 4] = [0x03, 0x65, 0x6e, 0x63];

pub const PLAIN_MAGIC: [u8; 4] = [0x03, 0x64, 0x73, 0x32];

pub const DS2_HEADER_SIZE: usize = 0x600;

pub const DS2_BLOCK_SIZE: usize = 0x200;

pub const DS2_BLOCK_HEADER_SIZE: usize = 6;

pub const DECRYPT_DESCRIPTOR_OFFSET: usize = 0x146;

pub const DECRYPT_DESCRIPTOR_SIZE: usize = 22;

pub const TRANSFORMED_BODY_SIZE: usize = 0x1f0;

/// Bytes of a saved decryption state.
pub const SAVED_STATE_SIZE: usize = 0x12c;

/// The key length of an encrypted file.
#[derive(Debug, Clone, Copy, PartialEq, Eq)]
pub enum KeyMode {
    Aes128,
    Aes256,
}

/// What the header of an encrypted file says about its key.
#[derive(Debug, Clone, PartialEq, Eq)]
pub struct DecryptDescriptor {
    pub key_mode: KeyMode,
    pub aux_16: [u8; 16],
    pub expected_check_word: u16,
}

/// The steps of decrypting one block.
#[derive(Debug, Clone, PartialEq, Eq)]
pub struct DebugDecryptTrace {
    pub mode: KeyMode,
    pub expected_check_word: u16,
    pub saved_state: Vec<u8>,
    pub swapped_body: Vec<u8>,
    pub first_decrypted_16: [u8; 16],
    pub second_decrypted_16: [u8; 16],
    pub post_rekey_state_prefix: Vec<u8>,
    pub final_block: Vec<u8>,
}

/// A [`DecryptDescriptor`] with its salt as a sequence.
pub struct Descriptor {
    pub mode: KeyMode,
    pub salt: Seq<u8>,
    pub check: u16,
}

impl View for DecryptDescriptor {
    type V = Descriptor;

    open spec fn view(&self) -> Descriptor {
        Descriptor {
            mode: self.key_mode,
            salt: self.aux_16@,
            check: self.expected_check_word,
        }
    }
}

/// Two bytes as a number, low byte first.
pub open spec fn le16(low: u8, high: u8) -> u16 {
    (low + 256 * high) as u16
}

/// What the header of a file says about its key.
pub open spec fn descriptor_of(data: Seq<u8>) -> Result<Descriptor, Fault> {
    if data.len() < 0x146 + 22 {
        Err(Fault::EncryptedDs2("missing decrypt descriptor"@))
    } else {
        let mode = le16(data[0x146], data[0x147]);
        let salt = data.subrange(0x148, 0x158);
        let check = le16(data[0x158], data[0x159]);
        if mode == 1 {
            Ok(Descriptor { mode: KeyMode::Aes128, salt, check })
        } else if mode == 2 {
            Ok(Descriptor { mode: KeyMode::Aes256, salt, check })
        } else {
            Err(
                Fault::EncryptedDs2(
                    "unsupported encrypted DS2 key mode "@ + text::decimal_of(mode as nat),
                ),
            )
        }
    }
}

/// A password and a salt mixed: the password, padded with zeros, added to the salt.
pub open spec fn mixed(password: Seq<u8>, salt: Seq<u8>) -> Seq<u8> {
    Seq::new(16, |i: int| bytes::padded(password, i) ^ salt[i])
}

/// The digest that a key is taken from.
pub open spec fn key_digest(mode: KeyMode, password: Seq<u8>, salt: Seq<u8>) -> Seq<u8> {
    match mode {
        KeyMode::Aes128 => digest::sha1_digest(mixed(password, salt)),
        KeyMode::Aes256 => digest::sha384_digest(mixed(password, salt)),
    }
}

/// The bytes of a key.
pub open spec fn key_len(mode: KeyMode) -> int {
    match mode {
        KeyMode::Aes128 => 16,
        KeyMode::Aes256 => 32,
    }
}

/// The key that a digest begins with.
pub open spec fn digest_key(mode: KeyMode, digest: Seq<u8>) -> Seq<u8> {
    digest.take(key_len(mode))
}

/// The check word that follows the key in a digest.
pub open spec fn digest_check(mode: KeyMode, digest: Seq<u8>) -> u16 {
    le16(digest[key_len(mode)], digest[key_len(mode) + 1])
}

/// A password that is too long.
pub open spec fn long_password() -> Fault {
    Fault::EncryptedDs2("password longer than 16 bytes is not supported by current prototype"@)
}

/// A check word that is not the expected one.
pub open spec fn rejected(expected: u16, computed: u16) -> Fault {
    Fault::EncryptedDs2(
        "password rejected by descriptor check: expected 0x"@ + text::hex4_of(expected as nat)
            + ", computed 0x"@ + text::hex4_of(computed as nat),
    )
}

/// Why a key is not accepted: its check word is not the expected one, or else AES has no
/// keys of its length.
pub open spec fn accept_fault(expected: u16, len: nat, computed: u16) -> Option<Fault> {
    if computed != expected {
        Some(rejected(expected, computed))
    } else {
        aes::key_fault(len)
    }
}

/// The fault of a body that is not made of whole AES blocks.
pub open spec fn body_fault(len: nat) -> Option<Fault> {
    if len % 16 == 0 {
        None
    } else {
        Some(
            Fault::EncryptedDs2(
                "transformed body length "@ + text::decimal_of(len)
                    + " is not a multiple of 16"@,
            ),
        )
    }
}

/// The fault of a record that is not a block.
pub open spec fn record_fault(len: nat) -> Option<Fault> {
    if len == 512 {
        None
    } else {
        Some(
            Fault::EncryptedDs2(
                "expected 512-byte DS2 record, got "@ + text::decimal_of(len) + " bytes"@,
            ),
        )
    }
}

/// The key that a password gives, where the check word agrees.
pub open spec fn key_for(password: Seq<u8>, d: Descriptor) -> Result<Seq<u8>, Fault> {
    if password.len() > 16 {
        Err(long_password())
    } else {
        let digest = key_digest(d.mode, password, d.salt);
        if digest_check(d.mode, digest) != d.check {
            Err(rejected(d.check, digest_check(d.mode, digest)))
        } else {
            Ok(digest_key(d.mode, digest))
        }
    }
}

/// The bytes of every pair swapped; the last of an odd number stays.
pub open spec fn swapped(s: Seq<u8>) -> Seq<u8> {
    Seq::new(
        s.len(),
        |i: int|
            if i % 2 == 1 {
                s[i - 1]
            } else if i + 1 < s.len() {
                s[i + 1]
            } else {
                s[i]
            },
    )
}

/// The key after one AES block: the last round key, for long keys followed by its words
/// in the order 1, 0, 3, 2.
pub open spec fn next_key(mode: KeyMode, key: Seq<u8>) -> Seq<u8> {
    let last = aes::last_round_key(key);
    match mode {
        KeyMode::Aes128 => last,
        KeyMode::Aes256 => last + last.subrange(4, 8) + last.subrange(0, 4) + last.subrange(12, 16)
            + last.subrange(8, 12),
    }
}

/// The key of AES block `n`.
pub open spec fn chunk_key(mode: KeyMode, key: Seq<u8>, n: nat) -> Seq<u8>
    decreases n,
{
    if n == 0 {
        key
    } else {
        next_key(mode, chunk_key(mode, key, (n - 1) as nat))
    }
}

/// AES block `n` of a body.
pub open spec fn chunk(body: Seq<u8>, n: int) -> Seq<u8> {
    body.subrange(16 * n, 16 * n + 16)
}

/// A body decrypted, AES block by AES block.
pub open spec fn opened_body(mode: KeyMode, key: Seq<u8>, body: Seq<u8>) -> Seq<u8> {
    Seq::new(
        body.len(),
        |i: int|
            aes::decrypted(chunk_key(mode, key, (i / 16) as nat), chunk(body, i / 16))[i % 16],
    )
}

/// The last AES block of a decrypted body, or the one before where there is none.
pub open spec fn last_chunk(plain: Seq<u8>, before: Seq<u8>) -> Seq<u8> {
    if plain.len() < 16 {
        before
    } else {
        chunk(plain, plain.len() / 16 - 1)
    }
}

/// The part of a block that is encrypted.
pub open spec fn block_body(block: Seq<u8>) -> Seq<u8> {
    block.subrange(6, 502)
}

/// A block decrypted.
#[verifier::opaque]
pub open spec fn opened_block(mode: KeyMode, key: Seq<u8>, block: Seq<u8>) -> Seq<u8> {
    block.take(6) + swapped(opened_body(mode, key, swapped(block_body(block)))) + block.skip(502)
}

/// A list of blocks decrypted and put together.
pub open spec fn opened_blocks(mode: KeyMode, key: Seq<u8>, blocks: Seq<Seq<u8>>) -> Seq<u8>
    decreases blocks.len(),
{
    if blocks.len() == 0 {
        Seq::empty()
    } else {
        opened_blocks(mode, key, blocks.drop_last()) + opened_block(mode, key, blocks.last())
    }
}

/// The header of the plain file.
pub open spec fn plain_header(data: Seq<u8>) -> Seq<u8> {
    PLAIN_MAGIC@ + data.subrange(4, 0x600)
}

/// A file decrypted under a key. What follows the last whole block stays as it is.
pub open spec fn opened_file(mode: KeyMode, key: Seq<u8>, data: Seq<u8>) -> Seq<u8> {
    let tail = data.skip(0x600);
    plain_header(data) + opened_blocks(mode, key, framing::blocks(tail)) + framing::remainder(tail)
}

/// A file that does not start like an encrypted one.
pub open spec fn wrong_magic() -> Fault {
    Fault::EncryptedDs2("expected encrypted DS2 magic \\x03enc"@)
}

/// What decrypting a whole file gives.
pub open spec fn plain_file(data: Seq<u8>, password: Seq<u8>) -> Result<Seq<u8>, Fault> {
    if data.len() < 0x600 {
        Err(Fault::Truncated("encrypted DS2 header"@))
    } else if !bytes::begins_with(data, ENCRYPTED_MAGIC@) {
        Err(wrong_magic())
    } else if password.len() > 16 {
        Err(long_password())
    } else {
        match descriptor_of(data) {
            Err(fault) => Err(fault),
            Ok(d) => match key_for(password, d) {
                Err(fault) => Err(fault),
                Ok(key) => Ok(opened_file(d.mode, key, data)),
            },
        }
    }
}

/// The bytes in which a decryption state is saved: the current AES block, the round
/// keys, the number of rounds, flags, and an index.
pub open spec fn saved_bytes(key: Seq<u8>, current: Seq<u8>) -> Seq<u8> {
    Seq::new(
        0x12c,
        |i: int|
            if i < 0x10 {
                0
            } else if i < 0x20 {
                current[i - 0x10]
            } else if i < 0x120 {
                aes::expanded(key)[i - 0x20]
            } else if i == 0x120 {
                aes::rounds_for(key.len()) as u8
            } else if i == 0x124 {
                0x12
            } else if i == 0x128 {
                0x10
            } else {
                0
            },
    )
}

/// Reads the descriptor in the header of an encrypted file.
pub fn parse_decrypt_descriptor(data: &[u8]) -> (r: Result<DecryptDescriptor, DecodeError>)
    ensures
        match r {
            Ok(d) => descriptor_of(data@) == Ok::<Descriptor, Fault>(d@),
            Err(e) => descriptor_of(data@) == Err::<Descriptor, Fault>(e@),
        },
{
    if data.len() < DECRYPT_DESCRIPTOR_OFFSET + DECRYPT_DESCRIPTOR_SIZE {
        return Err(DecodeError::EncryptedDs2("missing decrypt descriptor".to_string()));
    }
    let base: usize = DECRYPT_DESCRIPTOR_OFFSET;
    let mode: u16 = data[base] as u16 + 256 * data[base + 1] as u16;
    let key_mode: KeyMode = if mode == 1 {
        KeyMode::Aes128
    } else if mode == 2 {
        KeyMode::Aes256
    } else {
        let number: String = text::decimal(mode as usize);
        return Err(
            DecodeError::EncryptedDs2(
                "unsupported encrypted DS2 key mode ".to_string().concat(number.as_str()),
            ),
        );
    };
    let mut aux_16: [u8; 16] = [0u8; 16];
    let mut i: usize = 0;
    while i < 16
        invariant
            i <= 16,
            base == 0x146,
            data@.len() >= 0x146 + 22,
            forall|j: int| 0 <= j < i ==> #[trigger] aux_16@[j] == data@[0x148 + j],
        decreases 16 - i,
    {
        aux_16[i] = data[base + 2 + i];
        i += 1;
    }
    assert(aux_16@ =~= data@.subrange(0x148, 0x158));
    Ok(
        DecryptDescriptor {
            key_mode,
            aux_16,
            expected_check_word: data[base + 18] as u16 + 256 * data[base + 19] as u16,
        },
    )
}

/// Mixes a password with the salt.
pub fn mix_password(password: &[u8], aux_16: &[u8; 16]) -> (r: Result<[u8; 16], DecodeError>)
    ensures
        match r {
            Ok(m) => password@.len() <= 16 && m@ == mixed(password@, aux_16@),
            Err(e) => password@.len() > 16 && e@ == long_password(),
        },
{
    if password.len() > 16 {
        return Err(
            DecodeError::EncryptedDs2(
                "password longer than 16 bytes is not supported by current prototype".to_string(),
            ),
        );
    }
    let mut m: [u8; 16] = [0u8; 16];
    let mut i: usize = 0;
    while i < 16
        invariant
            i <= 16,
            password@.len() <= 16,
            forall|j: int|
                0 <= j < i ==> #[trigger] m@[j] == bytes::padded(password@, j) ^ aux_16@[j],
        decreases 16 - i,
    {
        let byte: u8 = if i < password.len() {
            password[i]
        } else {
            0
        };
        m[i] = byte ^ aux_16[i];
        i += 1;
    }
    assert(m@ =~= mixed(password@, aux_16@));
    Ok(m)
}

/// The key and the check word in a SHA-1 digest.
pub fn split_digest_128(digest: &[u8; 20]) -> (r: ([u8; 16], u16))
    ensures
        r.0@ == digest_key(KeyMode::Aes128, digest@),
        r.1 == digest_check(KeyMode::Aes128, digest@),
{
    let mut key: [u8; 16] = [0u8; 16];
    let mut i: usize = 0;
    while i < 16
        invariant
            i <= 16,
            forall|j: int| 0 <= j < i ==> #[trigger] key@[j] == digest@[j],
        decreases 16 - i,
    {
        key[i] = digest[i];
        i += 1;
    }
    assert(key@ =~= digest@.take(16));
    (key, digest[16] as u16 + 256 * digest[17] as u16)
}

/// The key and the check word in a SHA-384 digest.
pub fn split_digest_256(digest: &[u8; 48]) -> (r: ([u8; 32], u16))
    ensures
        r.0@ == digest_key(KeyMode::Aes256, digest@),
        r.1 == digest_check(KeyMode::Aes256, digest@),
{
    let mut key: [u8; 32] = [0u8; 32];
    let mut i: usize = 0;
    while i < 32
        invariant
            i <= 32,
            forall|j: int| 0 <= j < i ==> #[trigger] key@[j] == digest@[j],
        decreases 32 - i,
    {
        key[i] = digest[i];
        i += 1;
    }
    assert(key@ =~= digest@.take(32));
    (key, digest[32] as u16 + 256 * digest[33] as u16)
}

/// The key and the check word that a password gives for a short key.
pub fn derive_key_128(password: &[u8], aux_16: &[u8; 16]) -> (r: Result<
    ([u8; 16], u16),
    DecodeError,
>)
    ensures
        match r {
            Ok((key, check)) => {
                let digest = key_digest(KeyMode::Aes128, password@, aux_16@);
                &&& password@.len() <= 16
                &&& key@ == digest_key(KeyMode::Aes128, digest)
                &&& check == digest_check(KeyMode::Aes128, digest)
            },
            Err(e) => password@.len() > 16 && e@ == long_password(),
        },
{
    let m: [u8; 16] = match mix_password(password, aux_16) {
        Ok(m) => m,
        Err(e) => {
            return Err(e);
        },
    };
    let d: [u8; 20] = digest::sha1(m.as_slice());
    Ok(split_digest_128(&d))
}

/// The key and the check word that a password gives for a long key.
pub fn derive_key_256(password: &[u8], aux_16: &[u8; 16]) -> (r: Result<
    ([u8; 32], u16),
    DecodeError,
>)
    ensures
        match r {
            Ok((key, check)) => {
                let digest = key_digest(KeyMode::Aes256, password@, aux_16@);
                &&& password@.len() <= 16
                &&& key@ == digest_key(KeyMode::Aes256, digest)
                &&& check == digest_check(KeyMode::Aes256, digest)
            },
            Err(e) => password@.len() > 16 && e@ == long_password(),
        },
{
    let m: [u8; 16] = match mix_password(password, aux_16) {
        Ok(m) => m,
        Err(e) => {
            return Err(e);
        },
    };
    let d: [u8; 48] = digest::sha384(m.as_slice());
    Ok(split_digest_256(&d))
}

/// What decryption of a block starts from.
#[derive(Clone, Copy)]
pub struct PayloadDecryptState {
    current: [u8; 16],
    keys: RoundKeys,
    key: Ghost<Seq<u8>>,
}

impl PayloadDecryptState {
    /// The key in use.
    pub closed spec fn key(self) -> Seq<u8> {
        self.key@
    }

    /// The AES block decrypted last.
    pub closed spec fn current(self) -> Seq<u8> {
        self.current@
    }

    /// The round keys are those of the key.
    pub closed spec fn valid(self) -> bool {
        self.keys.expands(self.key@)
    }

    /// The state with a key of 16, 24 or 32 bytes, before any block.
    pub fn new(key: &[u8]) -> (r: Result<PayloadDecryptState, DecodeError>)
        ensures
            match r {
                Ok(state) => {
                    &&& aes::is_key_len(key@.len())
                    &&& state.valid()
                    &&& state.key() == key@
                    &&& state.current() == Seq::new(16, |i: int| 0u8)
                },
                Err(e) => aes::key_fault(key@.len()) == Some(e@),
            },
    {
        match RoundKeys::expand(key) {
            Ok(keys) => {
                let state: PayloadDecryptState = PayloadDecryptState {
                    current: [0u8; 16],
                    keys,
                    key: Ghost(key@),
                };
                assert(state.current() =~= Seq::new(16, |i: int| 0u8));
                Ok(state)
            },
            Err(e) => Err(e),
        }
    }

    /// Byte `i` of the saved form.
    fn saved_byte(&self, i: usize) -> (r: u8)
        requires
            self.valid(),
            i < 0x12c,
        ensures
            r == saved_bytes(self.key(), self.current())[i as int],
    {
        if i < 0x10 {
            0
        } else if i < 0x20 {
            self.current[i - 0x10]
        } else if i < 0x120 {
            self.keys.byte(i - 0x20)
        } else if i == 0x120 {
            self.keys.round_count() as u8
        } else if i == 0x124 {
            0x12
        } else if i == 0x128 {
            0x10
        } else {
            0
        }
    }

    /// The first `n` bytes of the saved form.
    pub fn saved(&self, n: usize) -> (r: Vec<u8>)
        requires
            self.valid(),
            n <= 0x12c,
        ensures
            r@ == saved_bytes(self.key(), self.current()).take(n as int),
    {
        let mut out: Vec<u8> = Vec::new();
        let mut i: usize = 0;
        while i < n
            invariant
                self.valid(),
                i <= n <= 0x12c,
                out@.len() == i,
                forall|j: int|
                    0 <= j < i ==> #[trigger] out@[j] == saved_bytes(self.key(), self.current())[j],
            decreases n - i,
        {
            out.push(self.saved_byte(i));
            i += 1;
        }
        assert(out@ =~= saved_bytes(self.key(), self.current()).take(n as int));
        out
    }

    /// The key for the next AES block.
    fn rekey_source(&self, mode: KeyMode) -> (r: Vec<u8>)
        requires
            self.valid(),
        ensures
            r@ == next_key(mode, self.key()),
            aes::is_key_len(r@.len()),
    {
        let start: usize = 16 * self.keys.round_count();
        let ghost last = aes::last_round_key(self.key());
        let mut out: Vec<u8> = Vec::new();
        let mut i: usize = 0;
        while i < 16
            invariant
                i <= 16,
                self.valid(),
                start == 16 * aes::rounds_for(self.key().len()),
                start <= 224,
                last == aes::last_round_key(self.key()),
                out@.len() == i,
                forall|j: int| 0 <= j < i ==> #[trigger] out@[j] == last[j],
            decreases 16 - i,
        {
            out.push(self.keys.byte(start + i));
            i += 1;
        }
        match mode {
            KeyMode::Aes128 => {
                assert(out@ =~= next_key(mode, self.key()));
            },
            KeyMode::Aes256 => {
                let mut i: usize = 16;
                while i < 32
                    invariant
                        16 <= i <= 32,
                        out@.len() == i,
                        last.len() == 16,
                        forall|j: int| 0 <= j < 16 ==> #[trigger] out@[j] == last[j],
                        forall|j: int|
                            16 <= j < i ==> #[trigger] out@[j] == last[if (j / 4) % 2 == 0 {
                                j - 12
                            } else {
                                j - 20
                            }],
                    decreases 32 - i,
                {
                    let from: usize = if (i / 4) % 2 == 0 {
                        i - 12
                    } else {
                        i - 20
                    };
                    let byte: u8 = out[from];
                    out.push(byte);
                    i += 1;
                }
                assert(out@ =~= next_key(mode, self.key()));
            },
        }
        out
    }

    /// Decrypts one AES block and moves on to the next key.
    fn decrypt_chunk(&mut self, mode: KeyMode, ciphertext: &[u8])
        requires
            old(self).valid(),
            ciphertext@.len() == 16,
        ensures
            final(self).valid(),
            final(self).key() == next_key(mode, old(self).key()),
            final(self).current() == aes::decrypted(old(self).key(), ciphertext@),
    {
        if let Ok(plaintext) = self.keys.decrypt_block(ciphertext) {
            self.current = plaintext;
        }
        let source: Vec<u8> = self.rekey_source(mode);
        if let Ok(keys) = RoundKeys::expand(source.as_slice()) {
            self.keys = keys;
            self.key = Ghost(source@);
        }
    }
}

/// Swaps the bytes of every pair.
pub fn swap_adjacent_bytes(data: &mut Vec<u8>)
    ensures
        final(data)@ == swapped(old(data)@),
{
    let ghost s = data@;
    let n: usize = data.len();
    let mut i: usize = 0;
    while n - i >= 2
        invariant
            i <= n,
            n == s.len() == data@.len(),
            i % 2 == 0,
            forall|j: int| 0 <= j < i ==> #[trigger] data@[j] == swapped(s)[j],
            forall|j: int| i <= j < n ==> #[trigger] data@[j] == s[j],
        decreases n - i,
    {
        let first: u8 = data[i];
        let second: u8 = data[i + 1];
        data[i] = second;
        data[i + 1] = first;
        i += 2;
    }
    assert(data@ =~= swapped(s));
}

/// Decrypts a body in place, AES block by AES block.
pub fn decrypt_body_self_rekey(
    body: &mut Vec<u8>,
    state: &mut PayloadDecryptState,
    key_mode: KeyMode,
) -> (r: Result<(), DecodeError>)
    requires
        old(state).valid(),
    ensures
        final(state).valid(),
        match r {
            Ok(_) => {
                let n = old(body)@.len() / 16;
                &&& body_fault(old(body)@.len()) is None
                &&& final(body)@ == opened_body(key_mode, old(state).key(), old(body)@)
                &&& final(state).key() == chunk_key(key_mode, old(state).key(), n)
                &&& final(state).current() == last_chunk(final(body)@, old(state).current())
            },
            Err(e) => {
                &&& body_fault(old(body)@.len()) == Some(e@)
                &&& *final(body) == *old(body)
                &&& *final(state) == *old(state)
            },
        },
{
    let len: usize = body.len();
    if len % 16 != 0 {
        let number: String = text::decimal(len);
        return Err(
            DecodeError::EncryptedDs2(
                "transformed body length ".to_string().concat(number.as_str()).concat(
                    " is not a multiple of 16",
                ),
            ),
        );
    }
    let ghost data = body@;
    let ghost key = state.key();
    let mut n: usize = 0;
    while n < len / 16
        invariant
            n <= len / 16,
            len % 16 == 0,
            len == data.len() == body@.len(),
            state.valid(),
            state.key() == chunk_key(key_mode, key, n as nat),
            n == 0 ==> state.current() == old(state).current(),
            n > 0 ==> state.current() == chunk(body@, n - 1),
            forall|j: int|
                0 <= j < 16 * n ==> #[trigger] body@[j] == opened_body(key_mode, key, data)[j],
            forall|j: int| 16 * n <= j < len ==> #[trigger] body@[j] == data[j],
        decreases len / 16 - n,
    {
        let ghost before = body@;
        state.decrypt_chunk(
            key_mode,
            slice_subrange(body.as_slice(), 16 * n, 16 * n + 16),
        );
        assert(before.subrange(16 * n, 16 * n + 16) =~= chunk(data, n as int));
        let ghost plain = aes::decrypted(chunk_key(key_mode, key, n as nat), chunk(data, n as int));
        let mut i: usize = 0;
        while i < 16
            invariant
                i <= 16,
                n < len / 16,
                len % 16 == 0,
                len == before.len() == body@.len(),
                state.current() == plain,
                plain.len() == 16,
                forall|j: int|
                    0 <= j < len ==> #[trigger] body@[j] == (if 16 * n <= j < 16 * n + i {
                        plain[j - 16 * n]
                    } else {
                        before[j]
                    }),
            decreases 16 - i,
        {
            let byte: u8 = state.current[i];
            body[16 * n + i] = byte;
            i += 1;
        }
        proof {
            assert forall|j: int| 0 <= j < 16 * (n + 1) implies #[trigger] body@[j] == opened_body(
                key_mode,
                key,
                data,
            )[j] by {
                if j >= 16 * n {
                    assert(j / 16 == n && j % 16 == j - 16 * n);
                } else {
                    assert(body@[j] == before[j]);
                }
            }
            assert(chunk(body@, n as int) =~= plain);
        }
        n += 1;
    }
    assert(body@ =~= opened_body(key_mode, key, data));
    Ok(())
}

/// The state with a key whose check word is the expected one.
pub fn accept_key(descriptor: &DecryptDescriptor, key: &[u8], computed_check_word: u16) -> (r:
    Result<PayloadDecryptState, DecodeError>)
    ensures
        match r {
            Ok(state) => {
                &&& accept_fault(
                    descriptor.expected_check_word,
                    key@.len(),
                    computed_check_word,
                ) is None
                &&& state.valid()
                &&& state.key() == key@
                &&& state.current() == Seq::new(16, |i: int| 0u8)
            },
            Err(e) => accept_fault(
                descriptor.expected_check_word,
                key@.len(),
                computed_check_word,
            ) == Some(e@),
        },
{
    if computed_check_word != descriptor.expected_check_word {
        let expected: String = text::hex4(descriptor.expected_check_word);
        let computed: String = text::hex4(computed_check_word);
        return Err(
            DecodeError::EncryptedDs2(
                "password rejected by descriptor check: expected 0x".to_string().concat(
                    expected.as_str(),
                ).concat(", computed 0x").concat(computed.as_str()),
            ),
        );
    }
    PayloadDecryptState::new(key)
}

/// The state that a password gives, where the check word agrees.
pub fn build_saved_state(password: &[u8], descriptor: &DecryptDescriptor) -> (r: Result<
    PayloadDecryptState,
    DecodeError,
>)
    ensures
        match r {
            Ok(state) => {
                &&& key_for(password@, descriptor@) == Ok::<Seq<u8>, Fault>(state.key())
                &&& state.valid()
                &&& state.current() == Seq::new(16, |i: int| 0u8)
            },
            Err(e) => key_for(password@, descriptor@) == Err::<Seq<u8>, Fault>(e@),
        },
{
    match descriptor.key_mode {
        KeyMode::Aes128 => match derive_key_128(password, &descriptor.aux_16) {
            Ok((key, check)) => accept_key(descriptor, key.as_slice(), check),
            Err(e) => Err(e),
        },
        KeyMode::Aes256 => match derive_key_256(password, &descriptor.aux_16) {
            Ok((key, check)) => accept_key(descriptor, key.as_slice(), check),
            Err(e) => Err(e),
        },
    }
}

/// Decrypts one block of a file in place.
pub fn decrypt_record_in_place(
    saved_state: &PayloadDecryptState,
    key_mode: KeyMode,
    record: &mut Vec<u8>,
) -> (r: Result<(), DecodeError>)
    requires
        saved_state.valid(),
    ensures
        match r {
            Ok(_) => {
                &&& record_fault(old(record)@.len()) is None
                &&& final(record)@ == opened_block(key_mode, saved_state.key(), old(record)@)
            },
            Err(e) => {
                &&& *final(record) == *old(record)
                &&& record_fault(old(record)@.len()) == Some(e@)
            },
        },
{
    if record.len() != DS2_BLOCK_SIZE {
        let number: String = text::decimal(record.len());
        return Err(
            DecodeError::EncryptedDs2(
                "expected 512-byte DS2 record, got ".to_string().concat(number.as_str()).concat(
                    " bytes",
                ),
            ),
        );
    }
    let ghost block = record@;
    let mut rest: Vec<u8> = record.split_off(DS2_BLOCK_HEADER_SIZE);
    let mut trailer: Vec<u8> = rest.split_off(TRANSFORMED_BODY_SIZE);
    assert(rest@ =~= block_body(block));
    assert(trailer@ =~= block.skip(502));
    assert(record@ =~= block.take(6));
    swap_adjacent_bytes(&mut rest);
    let mut state: PayloadDecryptState = *saved_state;
    let done: Result<(), DecodeError> = decrypt_body_self_rekey(&mut rest, &mut state, key_mode);
    assert(done is Ok);
    swap_adjacent_bytes(&mut rest);
    record.append(&mut rest);
    record.append(&mut trailer);
    proof {
        reveal(opened_block);
    }
    assert(record@ =~= opened_block(key_mode, saved_state.key(), block));
    Ok(())
}

/// Decrypts a file whose key is known.
pub fn decrypt_with_state(
    data: &[u8],
    saved_state: &PayloadDecryptState,
    key_mode: KeyMode,
) -> (out: Vec<u8>)
    requires
        saved_state.valid(),
        data@.len() >= 0x600,
    ensures
        out@ == opened_file(key_mode, saved_state.key(), data@),
{
    let ghost tail = data@.skip(0x600);
    let ghost blocks = framing::blocks(tail);
    let mut out: Vec<u8> = Vec::new();
    let magic: [u8; 4] = PLAIN_MAGIC;
    bytes::append(&mut out, magic.as_slice());
    bytes::append(&mut out, slice_subrange(data, 4, DS2_HEADER_SIZE));
    let ghost head = plain_header(data@);
    assert(out@ =~= head + opened_blocks(key_mode, saved_state.key(), blocks.take(0)));
    let mut offset: usize = DS2_HEADER_SIZE;
    let ghost mut n: int = 0;
    while data.len() - offset >= DS2_BLOCK_SIZE
        invariant
            saved_state.valid(),
            tail == data@.skip(0x600),
            blocks == framing::blocks(tail),
            0 <= n,
            offset == 0x600 + 512 * n,
            offset <= data@.len(),
            out@ == head + opened_blocks(key_mode, saved_state.key(), blocks.take(n)),
        decreases data@.len() - offset,
    {
        let mut block: Vec<u8> = bytes::copy_range(data, offset, offset + DS2_BLOCK_SIZE);
        proof {
            assert(block@ =~= blocks[n]);
            assert(blocks.take(n + 1).drop_last() =~= blocks.take(n));
        }
        let done: Result<(), DecodeError> = decrypt_record_in_place(
            saved_state,
            key_mode,
            &mut block,
        );
        assert(done is Ok);
        let ghost before = out@;
        out.append(&mut block);
        offset += DS2_BLOCK_SIZE;
        proof {
            n = n + 1;
            assert(out@ =~= head + opened_blocks(key_mode, saved_state.key(), blocks.take(n)));
        }
    }
    assert(n == tail.len() / 512);
    assert(blocks.take(n) =~= blocks);
    bytes::append(&mut out, slice_subrange(data, offset, data.len()));
    assert(data@.subrange(offset as int, data@.len() as int) =~= framing::remainder(tail));
    out
}

/// Decrypts an encrypted file.
pub fn decrypt_encrypted_ds2(data: &[u8], password: &[u8]) -> (r: Result<Vec<u8>, DecodeError>)
    ensures
        match r {
            Ok(plain) => plain_file(data@, password@) == Ok::<Seq<u8>, Fault>(plain@),
            Err(e) => plain_file(data@, password@) == Err::<Seq<u8>, Fault>(e@),
        },
{
    if data.len() < DS2_HEADER_SIZE {
        return Err(DecodeError::Truncated("encrypted DS2 header".to_string()));
    }
    if !bytes::has_magic(data, &ENCRYPTED_MAGIC) {
        return Err(
            DecodeError::EncryptedDs2("expected encrypted DS2 magic \\x03enc".to_string()),
        );
    }
    if password.len() > 16 {
        return Err(
            DecodeError::EncryptedDs2(
                "password longer than 16 bytes is not supported by current prototype".to_string(),
            ),
        );
    }
    let descriptor: DecryptDescriptor = match parse_decrypt_descriptor(data) {
        Ok(d) => d,
        Err(e) => {
            return Err(e);
        },
    };
    match build_saved_state(password, &descriptor) {
        Ok(saved_state) => Ok(decrypt_with_state(data, &saved_state, descriptor.key_mode)),
        Err(e) => Err(e),
    }
}

/// The trace of one block shows how it is decrypted under a key.
pub open spec fn traces(t: DebugDecryptTrace, d: Descriptor, key: Seq<u8>, block: Seq<u8>) -> bool {
    let body = opened_body(d.mode, key, swapped(block_body(block)));
    &&& t.mode == d.mode
    &&& t.expected_check_word == d.check
    &&& t.saved_state@ == saved_bytes(key, Seq::new(16, |i: int| 0u8))
    &&& t.swapped_body@ == swapped(block_body(block))
    &&& t.first_decrypted_16@ == chunk(body, 0)
    &&& t.second_decrypted_16@ == chunk(body, 1)
    &&& t.post_rekey_state_prefix@ == saved_bytes(
        chunk_key(d.mode, key, 31),
        chunk(body, 30),
    ).take(96)
    &&& t.final_block@ == opened_block(d.mode, key, block)
}

/// The first fault on the way to a trace of block `index`, or its descriptor and key.
pub open spec fn trace_key(data: Seq<u8>, password: Seq<u8>, index: nat) -> Result<
    (Descriptor, Seq<u8>),
    Fault,
> {
    if data.len() < 0x800 {
        Err(Fault::Truncated("encrypted DS2 block"@))
    } else if !bytes::begins_with(data, ENCRYPTED_MAGIC@) {
        Err(wrong_magic())
    } else {
        match descriptor_of(data) {
            Err(fault) => Err(fault),
            Ok(d) => match key_for(password, d) {
                Err(fault) => Err(fault),
                Ok(key) => if 0x600 + 512 * index + 512 > data.len() {
                    Err(Fault::Truncated("encrypted DS2 block index"@))
                } else {
                    Ok((d, key))
                },
            },
        }
    }
}

/// Decrypts one block and records the steps.
pub fn debug_decrypt_block(data: &[u8], password: &[u8], block_index: usize) -> (r: Result<
    DebugDecryptTrace,
    DecodeError,
>)
    requires
        0x600 + 512 * block_index + 512 <= usize::MAX,
    ensures
        match r {
            Ok(t) => {
                &&& trace_key(data@, password@, block_index as nat) matches Ok((d, key))
                &&& traces(t, d, key, framing::block(data@.skip(0x600), block_index as int))
            },
            Err(e) => trace_key(data@, password@, block_index as nat) == Err::<
                (Descriptor, Seq<u8>),
                Fault,
            >(e@),
        },
{
    if data.len() < DS2_HEADER_SIZE + DS2_BLOCK_SIZE {
        return Err(DecodeError::Truncated("encrypted DS2 block".to_string()));
    }
    if !bytes::has_magic(data, &ENCRYPTED_MAGIC) {
        return Err(
            DecodeError::EncryptedDs2("expected encrypted DS2 magic \\x03enc".to_string()),
        );
    }
    let descriptor: DecryptDescriptor = match parse_decrypt_descriptor(data) {
        Ok(d) => d,
        Err(e) => {
            return Err(e);
        },
    };
    let mode: KeyMode = descriptor.key_mode;
    let saved_state: PayloadDecryptState = match build_saved_state(password, &descriptor) {
        Ok(state) => state,
        Err(e) => {
            return Err(e);
        },
    };
    let offset: usize = DS2_HEADER_SIZE + block_index * DS2_BLOCK_SIZE;
    if data.len() - DS2_BLOCK_SIZE < offset {
        return Err(DecodeError::Truncated("encrypted DS2 block index".to_string()));
    }
    let ghost block = framing::block(data@.skip(0x600), block_index as int);
    let mut final_block: Vec<u8> = bytes::copy_range(data, offset, offset + DS2_BLOCK_SIZE);
    assert(final_block@ =~= block);
    let mut swapped_body: Vec<u8> = bytes::copy_range(
        final_block.as_slice(),
        DS2_BLOCK_HEADER_SIZE,
        DS2_BLOCK_HEADER_SIZE + TRANSFORMED_BODY_SIZE,
    );
    swap_adjacent_bytes(&mut swapped_body);
    let mut state: PayloadDecryptState = saved_state;
    let mut core_body: Vec<u8> = bytes::copy_range(
        swapped_body.as_slice(),
        0,
        swapped_body.len(),
    );
    assert(core_body@ =~= swapped_body@);
    let done: Result<(), DecodeError> = decrypt_body_self_rekey(&mut core_body, &mut state, mode);
    assert(done is Ok);
    let recorded: Result<(), DecodeError> = decrypt_record_in_place(
        &saved_state,
        mode,
        &mut final_block,
    );
    assert(recorded is Ok);
    let first_decrypted_16: [u8; 16] = first_16(core_body.as_slice(), 0);
    let second_decrypted_16: [u8; 16] = first_16(core_body.as_slice(), 16);
    let whole: Vec<u8> = saved_state.saved(SAVED_STATE_SIZE);
    assert(whole@ =~= saved_bytes(saved_state.key(), saved_state.current()));
    Ok(
        DebugDecryptTrace {
            mode,
            expected_check_word: descriptor.expected_check_word,
            saved_state: whole,
            swapped_body,
            first_decrypted_16,
            second_decrypted_16,
            post_rekey_state_prefix: state.saved(96),
            final_block,
        },
    )
}

/// The 16 bytes from a position on.
fn first_16(data: &[u8], from: usize) -> (r: [u8; 16])
    requires
        from + 16 <= data@.len(),
    ensures
        r@ == data@.subrange(from as int, from + 16),
{
    let len: usize = data.len();
    let mut r: [u8; 16] = [0u8; 16];
    let mut i: usize = 0;
    while i < 16
        invariant
            i <= 16,
            from + 16 <= len == data@.len(),
            forall|j: int| 0 <= j < i ==> #[trigger] r@[j] == data@[from + j],
        decreases 16 - i,
    {
        r[i] = data[from + i];
        i += 1;
    }
    assert(r@ =~= data@.subrange(from as int, from + 16));
    r
}

} // verus!
