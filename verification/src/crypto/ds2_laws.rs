//! What holds of encrypted DS2 files.
use crate::bytes;
use crate::crypto::aes;
use crate::crypto::aes_laws;
use crate::crypto::ds2_encrypted;
use crate::crypto::digest;
use crate::crypto::ds2_encrypted::{
    DebugDecryptTrace, Descriptor, KeyMode, ENCRYPTED_MAGIC, PLAIN_MAGIC,
};
use crate::demux::framing;
use crate::error::Fault;
use crate::text;
use vstd::prelude::*;

verus! {

/// Swapping the bytes of every pair twice changes nothing.
pub proof fn law_swapping_twice_changes_nothing(s: Seq<u8>)
    ensures
        ds2_encrypted::swapped(ds2_encrypted::swapped(s)) == s,
{
    assert(ds2_encrypted::swapped(ds2_encrypted::swapped(s)) =~= s);
}

/// Decrypting a block keeps its length, its header and the ten bytes at its end.
pub proof fn law_block_frame_is_kept(mode: KeyMode, key: Seq<u8>, block: Seq<u8>)
    requires
        block.len() == 512,
    ensures
        ({
            let plain = ds2_encrypted::opened_block(mode, key, block);
            &&& plain.len() == 512
            &&& plain.take(6) == block.take(6)
            &&& plain.skip(502) == block.skip(502)
        }),
{
    reveal(ds2_encrypted::opened_block);
    let plain = ds2_encrypted::opened_block(mode, key, block);
    assert(plain.take(6) =~= block.take(6));
    assert(plain.skip(502) =~= block.skip(502));
}

proof fn lemma_blocks_len(mode: KeyMode, key: Seq<u8>, blocks: Seq<Seq<u8>>)
    requires
        forall|i: int| 0 <= i < blocks.len() ==> (#[trigger] blocks[i]).len() == 512,
    ensures
        ds2_encrypted::opened_blocks(mode, key, blocks).len() == 512 * blocks.len(),
    decreases blocks.len(),
{
    if blocks.len() > 0 {
        let earlier = blocks.drop_last();
        assert forall|i: int| 0 <= i < earlier.len() implies (#[trigger] earlier[i]).len()
            == 512 by {
            assert(earlier[i] == blocks[i]);
        }
        lemma_blocks_len(mode, key, earlier);
        assert(blocks.last() == blocks[blocks.len() - 1]);
        law_block_frame_is_kept(mode, key, blocks.last());
    }
}

/// Decrypting a file keeps its length and, but for the first four bytes, its header;
/// those become the mark of a plain file.
pub proof fn law_file_shape_is_kept(mode: KeyMode, key: Seq<u8>, data: Seq<u8>)
    requires
        data.len() >= 0x600,
    ensures
        ({
            let plain = ds2_encrypted::opened_file(mode, key, data);
            &&& plain.len() == data.len()
            &&& plain.take(4) == PLAIN_MAGIC@
            &&& plain.subrange(4, 0x600) == data.subrange(4, 0x600)
        }),
{
    let tail = data.skip(0x600);
    let blocks = framing::blocks(tail);
    assert forall|i: int| 0 <= i < blocks.len() implies (#[trigger] blocks[i]).len() == 512 by {}
    lemma_blocks_len(mode, key, blocks);
    let plain = ds2_encrypted::opened_file(mode, key, data);
    assert(plain.take(4) =~= PLAIN_MAGIC@);
    assert(plain.subrange(4, 0x600) =~= data.subrange(4, 0x600));
}

/// A body encrypted, AES block by AES block.
pub open spec fn sealed_body(mode: KeyMode, key: Seq<u8>, body: Seq<u8>) -> Seq<u8> {
    Seq::new(
        body.len(),
        |i: int|
            aes_laws::encrypted(
                ds2_encrypted::chunk_key(mode, key, (i / 16) as nat),
                ds2_encrypted::chunk(body, i / 16),
            )[i % 16],
    )
}

/// A block encrypted.
pub open spec fn sealed_block(mode: KeyMode, key: Seq<u8>, block: Seq<u8>) -> Seq<u8> {
    block.take(6) + ds2_encrypted::swapped(
        sealed_body(mode, key, ds2_encrypted::swapped(ds2_encrypted::block_body(block))),
    ) + block.skip(502)
}

proof fn lemma_chunk_key_len(mode: KeyMode, key: Seq<u8>, n: nat)
    requires
        aes::is_key_len(key.len()),
    ensures
        aes::is_key_len(ds2_encrypted::chunk_key(mode, key, n).len()),
    decreases n,
{
    if n > 0 {
        lemma_chunk_key_len(mode, key, (n - 1) as nat);
    }
}

proof fn lemma_body_comes_back(mode: KeyMode, key: Seq<u8>, body: Seq<u8>)
    requires
        aes::is_key_len(key.len()),
        body.len() % 16 == 0,
    ensures
        ds2_encrypted::opened_body(mode, key, sealed_body(mode, key, body)) == body,
{
    let sealed = sealed_body(mode, key, body);
    let back = ds2_encrypted::opened_body(mode, key, sealed);
    assert forall|i: int| 0 <= i < body.len() implies #[trigger] back[i] == body[i] by {
        let n = i / 16;
        let k = ds2_encrypted::chunk_key(mode, key, n as nat);
        let plain = ds2_encrypted::chunk(body, n);
        lemma_chunk_key_len(mode, key, n as nat);
        assert(16 * n + 16 <= body.len());
        assert forall|j: int| 0 <= j < 16 implies #[trigger] ds2_encrypted::chunk(sealed, n)[j]
            == aes_laws::encrypted(k, plain)[j] by {
            assert((16 * n + j) / 16 == n && (16 * n + j) % 16 == j);
        }
        assert(ds2_encrypted::chunk(sealed, n) =~= aes_laws::encrypted(k, plain));
        aes_laws::law_decryption_undoes_encryption(k, plain);
    }
    assert(back =~= body);
}

/// Decrypting a block undoes encrypting it under the same key.
pub proof fn law_opening_undoes_sealing(mode: KeyMode, key: Seq<u8>, block: Seq<u8>)
    requires
        aes::is_key_len(key.len()),
        block.len() == 512,
    ensures
        ds2_encrypted::opened_block(mode, key, sealed_block(mode, key, block)) == block,
{
    reveal(ds2_encrypted::opened_block);
    let body = ds2_encrypted::block_body(block);
    let sealed = sealed_block(mode, key, block);
    let inner = sealed_body(mode, key, ds2_encrypted::swapped(body));
    assert(ds2_encrypted::block_body(sealed) =~= ds2_encrypted::swapped(inner));
    law_swapping_twice_changes_nothing(inner);
    lemma_body_comes_back(mode, key, ds2_encrypted::swapped(body));
    law_swapping_twice_changes_nothing(body);
    assert(sealed.take(6) =~= block.take(6));
    assert(sealed.skip(502) =~= block.skip(502));
    assert(ds2_encrypted::opened_block(mode, key, sealed) =~= block);
}

proof fn lemma_chunk_key_later(mode: KeyMode, key: Seq<u8>, a: nat, b: nat)
    ensures
        ds2_encrypted::chunk_key(mode, key, a + b) == ds2_encrypted::chunk_key(
            mode,
            ds2_encrypted::chunk_key(mode, key, a),
            b,
        ),
    decreases b,
{
    if b > 0 {
        lemma_chunk_key_later(mode, key, a, (b - 1) as nat);
        assert((a + b - 1) as nat == a + (b - 1) as nat);
    }
}

/// Decrypting a body in two parts, the second from the state that the first leaves, gives
/// the bytes, the key and the last AES block of decrypting it at once.
pub proof fn law_bodies_can_be_decrypted_in_turn(
    mode: KeyMode,
    key: Seq<u8>,
    current: Seq<u8>,
    a: Seq<u8>,
    b: Seq<u8>,
)
    requires
        a.len() % 16 == 0,
        b.len() % 16 == 0,
    ensures
        ({
            let middle = ds2_encrypted::chunk_key(mode, key, a.len() / 16);
            let first = ds2_encrypted::opened_body(mode, key, a);
            let second = ds2_encrypted::opened_body(mode, middle, b);
            let whole = ds2_encrypted::opened_body(mode, key, a + b);
            &&& whole == first + second
            &&& ds2_encrypted::chunk_key(mode, key, (a + b).len() / 16)
                == ds2_encrypted::chunk_key(mode, middle, b.len() / 16)
            &&& ds2_encrypted::last_chunk(whole, current) == ds2_encrypted::last_chunk(
                second,
                ds2_encrypted::last_chunk(first, current),
            )
        }),
{
    let n = a.len() / 16;
    let middle = ds2_encrypted::chunk_key(mode, key, n);
    let first = ds2_encrypted::opened_body(mode, key, a);
    let second = ds2_encrypted::opened_body(mode, middle, b);
    let whole = ds2_encrypted::opened_body(mode, key, a + b);
    assert forall|i: int| 0 <= i < whole.len() implies #[trigger] whole[i] == (first
        + second)[i] by {
        if i < a.len() {
            assert(ds2_encrypted::chunk(a + b, i / 16) =~= ds2_encrypted::chunk(a, i / 16));
        } else {
            let j = i - a.len();
            assert(i / 16 == n + j / 16 && i % 16 == j % 16);
            assert(ds2_encrypted::chunk(a + b, i / 16) =~= ds2_encrypted::chunk(b, j / 16));
            lemma_chunk_key_later(mode, key, n, (j / 16) as nat);
        }
    }
    assert(whole =~= first + second);
    assert((a + b).len() / 16 == n + b.len() / 16);
    lemma_chunk_key_later(mode, key, n, b.len() / 16);
    if b.len() >= 16 {
        assert(ds2_encrypted::last_chunk(whole, current) =~= ds2_encrypted::last_chunk(
            second,
            ds2_encrypted::last_chunk(first, current),
        ));
    } else {
        assert(whole =~= first);
    }
}

proof fn lemma_blocks_stay_in_place(mode: KeyMode, key: Seq<u8>, blocks: Seq<Seq<u8>>, k: int)
    requires
        0 <= k < blocks.len(),
        forall|i: int| 0 <= i < blocks.len() ==> (#[trigger] blocks[i]).len() == 512,
    ensures
        512 * k + 512 <= ds2_encrypted::opened_blocks(mode, key, blocks).len(),
        ds2_encrypted::opened_blocks(mode, key, blocks).subrange(512 * k, 512 * k + 512)
            == ds2_encrypted::opened_block(mode, key, blocks[k]),
    decreases blocks.len(),
{
    lemma_blocks_len(mode, key, blocks);
    let earlier = blocks.drop_last();
    assert forall|i: int| 0 <= i < earlier.len() implies (#[trigger] earlier[i]).len() == 512 by {
        assert(earlier[i] == blocks[i]);
    }
    lemma_blocks_len(mode, key, earlier);
    let before = ds2_encrypted::opened_blocks(mode, key, earlier);
    let all = ds2_encrypted::opened_blocks(mode, key, blocks);
    if k < earlier.len() {
        lemma_blocks_stay_in_place(mode, key, earlier, k);
        assert(all.subrange(512 * k, 512 * k + 512) =~= before.subrange(512 * k, 512 * k + 512));
    } else {
        law_block_frame_is_kept(mode, key, blocks[k]);
        assert(all.subrange(512 * k, 512 * k + 512) =~= ds2_encrypted::opened_block(
            mode,
            key,
            blocks[k],
        ));
    }
}

proof fn lemma_file_holds_block(mode: KeyMode, key: Seq<u8>, data: Seq<u8>, k: nat)
    requires
        0x600 + 512 * (k + 1) <= data.len(),
    ensures
        ds2_encrypted::opened_file(mode, key, data).subrange(
            0x600 + 512 * k as int,
            0x600 + 512 * k as int + 512,
        ) == ds2_encrypted::opened_block(mode, key, framing::block(data.skip(0x600), k as int)),
{
    let at = 512 * k as int;
    let tail = data.skip(0x600);
    let blocks = framing::blocks(tail);
    assert forall|i: int| 0 <= i < blocks.len() implies (#[trigger] blocks[i]).len() == 512 by {}
    lemma_blocks_stay_in_place(mode, key, blocks, k as int);
    let opened = ds2_encrypted::opened_blocks(mode, key, blocks);
    let head = ds2_encrypted::plain_header(data);
    assert(head.len() == 0x600);
    assert((head + opened + framing::remainder(tail)).subrange(0x600 + at, 0x600 + at + 512)
        =~= opened.subrange(at, at + 512));
}

proof fn lemma_swapped_part(body: Seq<u8>, from: int, to: int)
    requires
        0 <= from <= to <= body.len(),
        from % 2 == 0,
        to % 2 == 0,
    ensures
        ds2_encrypted::swapped(body).subrange(from, to) == ds2_encrypted::swapped(
            body.subrange(from, to),
        ),
{
    assert(ds2_encrypted::swapped(body).subrange(from, to) =~= ds2_encrypted::swapped(
        body.subrange(from, to),
    ));
}

/// The AES blocks of a body stand in the decrypted block with the bytes of pairs swapped.
proof fn lemma_block_holds_body(mode: KeyMode, key: Seq<u8>, block: Seq<u8>, n: int)
    requires
        block.len() == 512,
        0 <= n < 31,
    ensures
        ds2_encrypted::chunk(
            ds2_encrypted::opened_body(
                mode,
                key,
                ds2_encrypted::swapped(ds2_encrypted::block_body(block)),
            ),
            n,
        ) == ds2_encrypted::swapped(
            ds2_encrypted::opened_block(mode, key, block).subrange(6 + 16 * n, 22 + 16 * n),
        ),
{
    let body = ds2_encrypted::opened_body(
        mode,
        key,
        ds2_encrypted::swapped(ds2_encrypted::block_body(block)),
    );
    reveal(ds2_encrypted::opened_block);
    let plain = ds2_encrypted::opened_block(mode, key, block);
    assert(body.len() == 496);
    assert(plain.subrange(6 + 16 * n, 22 + 16 * n) =~= ds2_encrypted::swapped(body).subrange(
        16 * n,
        16 * n + 16,
    ));
    lemma_swapped_part(body, 16 * n, 16 * n + 16);
    law_swapping_twice_changes_nothing(ds2_encrypted::chunk(body, n));
}

/// The trace of a block shows how the whole file is decrypted: for every whole block there
/// is one; it ends in the block as it stands in the decrypted file, the two AES blocks it
/// shows are there with the bytes of every pair swapped, and the body it starts from is that
/// of the encrypted file with the bytes of every pair swapped.
pub proof fn law_traces_show_the_decrypted_file(
    data: Seq<u8>,
    password: Seq<u8>,
    out: Seq<u8>,
    k: nat,
    t: DebugDecryptTrace,
)
    requires
        ds2_encrypted::plain_file(data, password) == Ok::<Seq<u8>, Fault>(out),
        0x600 + 512 * (k + 1) <= data.len(),
    ensures
        ({
            let at = 0x600 + 512 * k as int;
            let block = framing::block(data.skip(0x600), k as int);
            &&& ds2_encrypted::trace_key(data, password, k) matches Ok((d, key))
            &&& ds2_encrypted::traces(t, d, key, block) ==> {
                &&& t.final_block@ == out.subrange(at, at + 512)
                &&& t.swapped_body@ == ds2_encrypted::swapped(data.subrange(at + 6, at + 502))
                &&& t.first_decrypted_16@ == ds2_encrypted::swapped(
                    out.subrange(at + 6, at + 22),
                )
                &&& t.second_decrypted_16@ == ds2_encrypted::swapped(
                    out.subrange(at + 22, at + 38),
                )
            }
        }),
{
    let at = 0x600 + 512 * k as int;
    let block = framing::block(data.skip(0x600), k as int);
    if let Ok((d, key)) = ds2_encrypted::trace_key(data, password, k) {
        let plain = ds2_encrypted::opened_block(d.mode, key, block);
        law_block_frame_is_kept(d.mode, key, block);
        law_file_shape_is_kept(d.mode, key, data);
        lemma_file_holds_block(d.mode, key, data, k);
        lemma_block_holds_body(d.mode, key, block, 0);
        lemma_block_holds_body(d.mode, key, block, 1);
        assert(ds2_encrypted::block_body(block) =~= data.subrange(at + 6, at + 502));
        assert(out.subrange(at + 6, at + 22) =~= plain.subrange(6, 22)) by {
            assert(plain == out.subrange(at, at + 512));
        }
        assert(out.subrange(at + 22, at + 38) =~= plain.subrange(22, 38)) by {
            assert(plain == out.subrange(at, at + 512));
        }
    }
}

/// Every block of a file is decrypted from the same state.
pub proof fn law_every_block_starts_from_the_same_state(
    data: Seq<u8>,
    password: Seq<u8>,
    k: nat,
    t: DebugDecryptTrace,
    other: nat,
    u: DebugDecryptTrace,
)
    requires
        ds2_encrypted::trace_key(data, password, k) matches Ok((d, key)) && ds2_encrypted::traces(
            t,
            d,
            key,
            framing::block(data.skip(0x600), k as int),
        ),
        ds2_encrypted::trace_key(data, password, other) matches Ok((d, key))
            && ds2_encrypted::traces(u, d, key, framing::block(data.skip(0x600), other as int)),
    ensures
        t.saved_state@ == u.saved_state@,
        t.mode == u.mode,
        t.expected_check_word == u.expected_check_word,
{
}

/// Every byte of a password of at most 16 bytes counts: taking the salt off the mixed block
/// again leaves the password, and zeros behind it.
pub proof fn law_every_byte_of_a_password_counts(password: Seq<u8>, salt: Seq<u8>, i: int)
    requires
        password.len() <= 16,
        0 <= i < 16,
    ensures
        ds2_encrypted::mixed(password, salt).len() == 16,
        i < password.len() ==> ds2_encrypted::mixed(password, salt)[i] ^ salt[i] == password[i],
        i >= password.len() ==> ds2_encrypted::mixed(password, salt)[i] ^ salt[i] == 0,
{
    let s = salt[i];
    let p = if i < password.len() {
        password[i]
    } else {
        0
    };
    assert((p ^ s) ^ s == p) by (bit_vector);
}

/// For one salt, two passwords of the same length that mix alike are equal.
pub proof fn law_passwords_that_mix_alike_are_equal(a: Seq<u8>, b: Seq<u8>, salt: Seq<u8>)
    requires
        a.len() == b.len() <= 16,
        ds2_encrypted::mixed(a, salt) == ds2_encrypted::mixed(b, salt),
    ensures
        a == b,
{
    assert forall|i: int| 0 <= i < a.len() implies a[i] == b[i] by {
        law_every_byte_of_a_password_counts(a, salt, i);
        law_every_byte_of_a_password_counts(b, salt, i);
    }
    assert(a =~= b);
}

/// The descriptor of a file is what stands at 0x146: the key mode, low byte first, the salt,
/// and the check word, low byte first. There are two modes; with any other, and in a file
/// that ends before the descriptor does, there is none.
pub proof fn law_descriptors_are_read_as_written(
    data: Seq<u8>,
    mode: int,
    salt: Seq<u8>,
    check: int,
)
    requires
        data.len() >= 0x15c,
        mode == data[0x146] + 256 * data[0x147],
        salt == data.subrange(0x148, 0x158),
        check == data[0x158] + 256 * data[0x159],
    ensures
        mode == 1 ==> (ds2_encrypted::descriptor_of(data) matches Ok(d) && d.mode == KeyMode::Aes128
            && d.salt == salt && d.check == check),
        mode == 2 ==> (ds2_encrypted::descriptor_of(data) matches Ok(d) && d.mode == KeyMode::Aes256
            && d.salt == salt && d.check == check),
        mode != 1 && mode != 2 ==> ds2_encrypted::descriptor_of(data) is Err,
        forall|n: int|
            0 <= n < 0x15c ==> ds2_encrypted::descriptor_of(#[trigger] data.take(n)) is Err,
{
}

/// The digest that decides: SHA-1 of the mixed block for short keys, SHA-384 for long ones.
pub open spec fn deciding_digest(password: Seq<u8>, d: Descriptor) -> Seq<u8> {
    if d.mode is Aes128 {
        digest::sha1_digest(ds2_encrypted::mixed(password, d.salt))
    } else {
        digest::sha384_digest(ds2_encrypted::mixed(password, d.salt))
    }
}

/// A password opens a file exactly where it has at most 16 bytes and the two bytes behind
/// the key in its digest are the check word, low byte first. The key is what the digest
/// begins with: 16 bytes, or 32 for the long mode.
pub proof fn law_passwords_open_by_their_check_word(password: Seq<u8>, d: Descriptor)
    ensures
        ({
            let n = if d.mode is Aes128 {
                16int
            } else {
                32int
            };
            let found = deciding_digest(password, d);
            match ds2_encrypted::key_for(password, d) {
                Ok(key) => {
                    &&& password.len() <= 16
                    &&& found[n] + 256 * found[n + 1] == d.check
                    &&& key == found.take(n)
                },
                Err(_) => password.len() > 16 || found[n] + 256 * found[n + 1] != d.check,
            }
        }),
{
}

/// The key moves on after every AES block: for short keys the last round key, for long keys
/// that and behind it its words again, each pair of words the other way round.
pub proof fn law_keys_move_on(mode: KeyMode, key: Seq<u8>, n: nat, i: int)
    requires
        aes::is_key_len(key.len()),
        0 <= i < 16,
    ensures
        ({
            let before = ds2_encrypted::chunk_key(mode, key, n);
            let last = aes::last_round_key(before);
            let after = ds2_encrypted::chunk_key(mode, key, n + 1);
            let word = i / 4;
            let other = if word % 2 == 0 {
                word + 1
            } else {
                word - 1
            };
            &&& ds2_encrypted::chunk_key(mode, key, 0) == key
            &&& after.len() == (if mode is Aes128 {
                16int
            } else {
                32int
            })
            &&& after[i] == last[i]
            &&& mode is Aes256 ==> after[16 + i] == last[4 * other + i % 4]
        }),
{
    lemma_chunk_key_len(mode, key, n);
    let word = i / 4;
    assert(word == 0 || word == 1 || word == 2 || word == 3);
}

/// Each AES block of a body is decrypted on its own, with the key of its number.
pub proof fn law_bodies_are_decrypted_block_by_block(
    mode: KeyMode,
    key: Seq<u8>,
    body: Seq<u8>,
    n: int,
)
    requires
        0 <= n,
        16 * n + 16 <= body.len(),
        aes::is_key_len(key.len()),
    ensures
        ds2_encrypted::opened_body(mode, key, body).len() == body.len(),
        ds2_encrypted::opened_body(mode, key, body).subrange(16 * n, 16 * n + 16)
            == aes::decrypted(
            ds2_encrypted::chunk_key(mode, key, n as nat),
            body.subrange(16 * n, 16 * n + 16),
        ),
{
    let out = ds2_encrypted::opened_body(mode, key, body).subrange(16 * n, 16 * n + 16);
    let plain = aes::decrypted(
        ds2_encrypted::chunk_key(mode, key, n as nat),
        body.subrange(16 * n, 16 * n + 16),
    );
    assert forall|j: int| 0 <= j < 16 implies #[trigger] out[j] == plain[j] by {
        assert((16 * n + j) / 16 == n && (16 * n + j) % 16 == j);
    }
    assert(out =~= plain);
}

/// A block is decrypted in 31 AES blocks behind its header, the bytes of every pair swapped
/// before and after; AES block `n` has the key of that number, whatever the block.
pub proof fn law_blocks_are_decrypted_in_31_parts(
    mode: KeyMode,
    key: Seq<u8>,
    block: Seq<u8>,
    n: int,
)
    requires
        block.len() == 512,
        aes::is_key_len(key.len()),
        0 <= n < 31,
    ensures
        ds2_encrypted::swapped(
            ds2_encrypted::opened_block(mode, key, block).subrange(6 + 16 * n, 22 + 16 * n),
        ) == aes::decrypted(
            ds2_encrypted::chunk_key(mode, key, n as nat),
            ds2_encrypted::swapped(block.subrange(6 + 16 * n, 22 + 16 * n)),
        ),
{
    let body = ds2_encrypted::block_body(block);
    lemma_block_holds_body(mode, key, block, n);
    law_bodies_are_decrypted_block_by_block(mode, key, ds2_encrypted::swapped(body), n);
    lemma_swapped_part(body, 16 * n, 16 * n + 16);
    assert(body.subrange(16 * n, 16 * n + 16) =~= block.subrange(6 + 16 * n, 22 + 16 * n));
}

/// Swapping gives every byte of a pair the place of the other; the last byte of an odd
/// number stays.
pub proof fn law_swapping_exchanges_pairs(s: Seq<u8>, i: int)
    requires
        0 <= i,
        2 * i < s.len(),
    ensures
        ds2_encrypted::swapped(s).len() == s.len(),
        2 * i + 1 < s.len() ==> ds2_encrypted::swapped(s)[2 * i] == s[2 * i + 1]
            && ds2_encrypted::swapped(s)[2 * i + 1] == s[2 * i],
        2 * i + 1 == s.len() ==> ds2_encrypted::swapped(s)[2 * i] == s[2 * i],
{
}

/// Every whole block of a file is decrypted in its place, all with the same key, and what
/// follows the last one stays as it is.
pub proof fn law_files_are_decrypted_block_by_block(
    mode: KeyMode,
    key: Seq<u8>,
    data: Seq<u8>,
    k: nat,
)
    requires
        data.len() >= 0x600,
    ensures
        ({
            let at = 0x600 + 512 * k as int;
            let end = data.len() - (data.len() - 0x600) % 512;
            let plain = ds2_encrypted::opened_file(mode, key, data);
            &&& plain.len() == data.len()
            &&& at + 512 <= data.len() ==> plain.subrange(at, at + 512)
                == ds2_encrypted::opened_block(mode, key, data.subrange(at, at + 512))
            &&& plain.skip(end) == data.skip(end)
        }),
{
    let at = 0x600 + 512 * k as int;
    let end = data.len() - (data.len() - 0x600) % 512;
    let plain = ds2_encrypted::opened_file(mode, key, data);
    let tail = data.skip(0x600);
    let blocks = framing::blocks(tail);
    law_file_shape_is_kept(mode, key, data);
    if at + 512 <= data.len() {
        lemma_file_holds_block(mode, key, data, k);
        assert(framing::block(tail, k as int) =~= data.subrange(at, at + 512));
    }
    assert forall|i: int| 0 <= i < blocks.len() implies (#[trigger] blocks[i]).len() == 512 by {}
    lemma_blocks_len(mode, key, blocks);
    assert(framing::remainder(tail) =~= data.skip(end));
    assert(plain.skip(end) =~= framing::remainder(tail));
}

/// A file is decrypted exactly where it has a whole header that begins with the mark of an
/// encrypted file, the password has at most 16 bytes, and it opens the file's descriptor;
/// and then with that key.
pub proof fn law_files_open_to_their_password(data: Seq<u8>, password: Seq<u8>)
    ensures
        ({
            let marked = data.len() >= 0x600 && data[0] == 3 && data[1] == 0x65 && data[2] == 0x6e
                && data[3] == 0x63;
            match ds2_encrypted::plain_file(data, password) {
                Ok(out) => {
                    &&& marked
                    &&& ds2_encrypted::descriptor_of(data) matches Ok(d)
                    &&& ds2_encrypted::key_for(password, d) matches Ok(key)
                    &&& out == ds2_encrypted::opened_file(d.mode, key, data)
                },
                Err(_) => !marked || ds2_encrypted::descriptor_of(data) is Err
                    || ds2_encrypted::key_for(
                    password,
                    ds2_encrypted::descriptor_of(data)->Ok_0,
                ) is Err,
            }
        }),
{
    if data.len() >= 0x600 {
        let four = data.subrange(0, 4);
        let magic = ENCRYPTED_MAGIC@;
        assert(four =~= magic <==> (four[0] == magic[0] && four[1] == magic[1] && four[2]
            == magic[2] && four[3] == magic[3]));
    }
}

/// The saved form of a decryption state: 16 zeros, the current AES block, the expanded key,
/// the number of rounds, and two marks; the rest is zero.
pub proof fn law_saved_states_hold_block_and_keys(key: Seq<u8>, current: Seq<u8>, i: int)
    requires
        aes::is_key_len(key.len()),
        0 <= i,
    ensures
        ({
            let saved = ds2_encrypted::saved_bytes(key, current);
            &&& saved.len() == 300
            &&& i < 16 ==> saved[i] == 0
            &&& i < 16 ==> saved[16 + i] == current[i]
            &&& i < 256 ==> saved[32 + i] == aes::expanded(key)[i]
            &&& saved[288] == key.len() / 4 + 6
            &&& saved[292] == 0x12
            &&& saved[296] == 0x10
            &&& 288 < i < 300 && i != 292 && i != 296 ==> saved[i] == 0
        }),
{
}

/// The number between two parts of a text.
proof fn lemma_number_between(before: Seq<char>, n: nat, after: Seq<char>)
    ensures
        ({
            let text = before + text::decimal_of(n) + after;
            text::number_in(text.subrange(before.len() as int, text.len() - after.len()), 10) == n
        }),
{
    let text = before + text::decimal_of(n) + after;
    text::law_decimals_stand_for_their_number(n);
    assert(text.subrange(before.len() as int, text.len() - after.len()) =~= text::decimal_of(n));
}

/// Lengths that are refused: keys that do not have 16, 24 or 32 bytes, AES blocks that do not
/// have 16, bodies that are no multiple of 16, and records that do not have 512. But for
/// AES blocks, the text of the fault holds the length.
pub proof fn law_lengths_that_are_refused(n: nat)
    ensures
        aes::key_fault(n) is None <==> n == 16 || n == 24 || n == 32,
        aes::block_fault(n) is None <==> n == 16,
        ds2_encrypted::body_fault(n) is None <==> n % 16 == 0,
        ds2_encrypted::record_fault(n) is None <==> n == 512,
        aes::block_fault(n) matches Some(f) ==> f is EncryptedDs2,
        aes::key_fault(n) matches Some(f) ==> (f matches Fault::EncryptedDs2(t)
            && text::number_in(t.skip(27), 10) == n),
        ds2_encrypted::body_fault(n) matches Some(f) ==> (f matches Fault::EncryptedDs2(t)
            && text::number_in(t.subrange(24, t.len() - 24), 10) == n),
        ds2_encrypted::record_fault(n) matches Some(f) ==> (f matches Fault::EncryptedDs2(t)
            && text::number_in(t.subrange(34, t.len() - 6), 10) == n),
{
    reveal_strlit("unsupported AES key length ");
    reveal_strlit("transformed body length ");
    reveal_strlit(" is not a multiple of 16");
    reveal_strlit("expected 512-byte DS2 record, got ");
    reveal_strlit(" bytes");
    let digits = text::decimal_of(n);
    text::law_decimals_stand_for_their_number(n);
    assert(("unsupported AES key length "@ + digits).skip(27) =~= digits);
    lemma_number_between("transformed body length "@, n, " is not a multiple of 16"@);
    lemma_number_between("expected 512-byte DS2 record, got "@, n, " bytes"@);
}

/// A key is accepted exactly where the check word is the expected one and AES has keys of
/// its length; where the check word is another, the text of the fault holds both words.
pub proof fn law_keys_are_accepted_by_their_check_word(expected: u16, len: nat, computed: u16)
    ensures
        ({
            let fault = ds2_encrypted::accept_fault(expected, len, computed);
            &&& fault is None <==> computed == expected && (len == 16 || len == 24 || len == 32)
            &&& computed == expected ==> fault == aes::key_fault(len)
            &&& computed != expected ==> {
                &&& fault matches Some(Fault::EncryptedDs2(t))
                &&& t.len() == 71
                &&& text::number_in(t.subrange(50, 54), 16) == expected
                &&& text::number_in(t.subrange(67, 71), 16) == computed
            }
        }),
{
    law_rejections_name_both_words(expected, computed);
}

/// The text of a rejection holds the expected check word and the computed one.
pub proof fn law_rejections_name_both_words(expected: u16, computed: u16)
    ensures
        ds2_encrypted::rejected(expected, computed) matches Fault::EncryptedDs2(t) && t.len() == 71
            && text::number_in(t.subrange(50, 54), 16) == expected && text::number_in(
            t.subrange(67, 71),
            16,
        ) == computed,
{
    reveal_strlit("password rejected by descriptor check: expected 0x");
    reveal_strlit(", computed 0x");
    text::law_four_hex_digits_stand_for_their_number(expected as nat);
    text::law_four_hex_digits_stand_for_their_number(computed as nat);
    if let Fault::EncryptedDs2(t) = ds2_encrypted::rejected(expected, computed) {
        assert(t.subrange(50, 54) =~= text::hex4_of(expected as nat));
        assert(t.subrange(67, 71) =~= text::hex4_of(computed as nat));
    }
}

/// Why a file is not decrypted, the first reason counting: its header is not complete, it
/// does not begin like an encrypted file, the password is too long, there is no such key
/// mode, or the check word of the password is not the one in the file.
pub proof fn law_files_are_refused_for_the_first_reason(data: Seq<u8>, password: Seq<u8>)
    ensures
        ({
            let marked = data[0] == 3 && data[1] == 0x65 && data[2] == 0x6e && data[3] == 0x63;
            let mode = data[0x146] + 256 * data[0x147];
            let check = data[0x158] + 256 * data[0x159];
            let plain = ds2_encrypted::plain_file(data, password);
            &&& data.len() < 0x600 ==> plain == Err::<Seq<u8>, Fault>(
                Fault::Truncated("encrypted DS2 header"@),
            )
            &&& data.len() >= 0x600 && !marked ==> plain == Err::<Seq<u8>, Fault>(
                Fault::EncryptedDs2("expected encrypted DS2 magic \\x03enc"@),
            )
            &&& data.len() >= 0x600 && marked && password.len() > 16 ==> plain == Err::<
                Seq<u8>,
                Fault,
            >(
                Fault::EncryptedDs2(
                    "password longer than 16 bytes is not supported by current prototype"@,
                ),
            )
            &&& data.len() >= 0x600 && marked && password.len() <= 16 && mode != 1 && mode != 2
                ==> {
                &&& plain matches Err(Fault::EncryptedDs2(t))
                &&& text::number_in(t.skip(35), 10) == mode
            }
            &&& data.len() >= 0x600 && marked && password.len() <= 16 && (mode == 1 || mode == 2)
                && plain is Err ==> {
                &&& plain matches Err(Fault::EncryptedDs2(t))
                &&& t.len() == 71
                &&& text::number_in(t.subrange(50, 54), 16) == check
                &&& text::number_in(t.subrange(67, 71), 16) != check
            }
        }),
{
    reveal_strlit("unsupported encrypted DS2 key mode ");
    bytes::law_beginnings(data, ENCRYPTED_MAGIC@);
    if data.len() >= 0x600 {
        let mode = data[0x146] + 256 * data[0x147];
        let digits = text::decimal_of(mode as nat);
        text::law_decimals_stand_for_their_number(mode as nat);
        assert(("unsupported encrypted DS2 key mode "@ + digits).skip(35) =~= digits);
        if let Ok(d) = ds2_encrypted::descriptor_of(data) {
            let found = ds2_encrypted::digest_check(
                d.mode,
                ds2_encrypted::key_digest(d.mode, password, d.salt),
            );
            law_rejections_name_both_words(d.check, found);
        }
    }
}

/// What a body leaves behind: its last AES block, or, where it has none, the block before.
pub proof fn law_the_last_block_is_left_behind(plain: Seq<u8>, before: Seq<u8>)
    requires
        plain.len() % 16 == 0,
    ensures
        plain.len() == 0 ==> ds2_encrypted::last_chunk(plain, before) == before,
        plain.len() > 0 ==> ds2_encrypted::last_chunk(plain, before) == plain.skip(
            plain.len() - 16,
        ),
{
    if plain.len() > 0 {
        assert(ds2_encrypted::last_chunk(plain, before) =~= plain.skip(plain.len() - 16));
    }
}

/// The states that a trace shows. Before the block: no AES block yet, and the expanded key of
/// the file. After it: the last AES block, as it stands in the decrypted block with the bytes
/// of every pair swapped, and the first 64 bytes of the expanded key that comes next.
pub proof fn law_traces_show_the_states(
    t: DebugDecryptTrace,
    d: Descriptor,
    key: Seq<u8>,
    block: Seq<u8>,
    i: int,
)
    requires
        ds2_encrypted::traces(t, d, key, block),
        aes::is_key_len(key.len()),
        block.len() == 512,
        0 <= i,
    ensures
        ({
            let plain = ds2_encrypted::opened_block(d.mode, key, block);
            let next = ds2_encrypted::chunk_key(d.mode, key, 31);
            &&& t.mode == d.mode
            &&& t.expected_check_word == d.check
            &&& t.saved_state@.len() == 300
            &&& i < 32 ==> t.saved_state@[i] == 0
            &&& i < 256 ==> t.saved_state@[32 + i] == aes::expanded(key)[i]
            &&& t.post_rekey_state_prefix@.len() == 96
            &&& i < 16 ==> t.post_rekey_state_prefix@[i] == 0
            &&& i < 16 ==> t.post_rekey_state_prefix@[16 + i] == ds2_encrypted::swapped(
                plain.subrange(486, 502),
            )[i]
            &&& i < 64 ==> t.post_rekey_state_prefix@[32 + i] == aes::expanded(next)[i]
        }),
{
    lemma_block_holds_body(d.mode, key, block, 30);
}

/// There is a trace of every whole block of a file that can be decrypted, and of no other:
/// a file without a block, a password that does not open it, and a block behind the end are
/// refused.
pub proof fn law_whole_blocks_can_be_traced(data: Seq<u8>, password: Seq<u8>, k: nat)
    ensures
        ({
            let whole = 0x600 + 512 * k + 512 <= data.len();
            let found = ds2_encrypted::trace_key(data, password, k);
            &&& found is Ok <==> whole && ds2_encrypted::plain_file(data, password) is Ok
            &&& data.len() < 0x800 ==> found == Err::<(Descriptor, Seq<u8>), Fault>(
                Fault::Truncated("encrypted DS2 block"@),
            )
            &&& data.len() >= 0x800 && !whole && ds2_encrypted::plain_file(data, password) is Ok
                ==> found == Err::<(Descriptor, Seq<u8>), Fault>(
                Fault::Truncated("encrypted DS2 block index"@),
            )
        }),
{
}

} // verus!
