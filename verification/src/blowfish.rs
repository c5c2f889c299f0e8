//! The Blowfish block cipher in ECB mode, applied to buffers eight bytes at a
//! time. A block of eight bytes is read as two 32-bit words, each stored with
//! its lowest byte first.

pub mod tables;

use vstd::prelude::*;
use crate::blowfish::tables::{INITIAL_P, INITIAL_S};
use crate::bytes::{
    le_bytes, le_value, push_bytes, push_u32_le, read_u32_le, lemma_le_bytes_len,
    lemma_le_bytes_of_value, lemma_le_roundtrip, lemma_pow256_values,
};
use crate::error::{Error, Pk2Result};

verus! {

/// Shortest key, in bytes, that the cipher accepts.
pub const MIN_KEY_LEN: usize = 4;

/// Longest key, in bytes, that the cipher accepts.
pub const MAX_KEY_LEN: usize = 56;

/// Number of Feistel rounds.
pub const ROUNDS: usize = 16;

/// Number of bytes that the cipher transforms at once.
pub const BLOCK_LEN: usize = 8;

/// The subkeys of a cipher: 18 round keys and four substitution boxes of 256
/// words each, the boxes one after the other.
pub struct BlowfishView {
    pub p: Seq<u32>,
    pub s: Seq<u32>,
}

impl BlowfishView {
    /// Whether there are 18 round keys and four boxes of 256 words.
    pub open spec fn wf(self) -> bool {
        self.p.len() == 18 && self.s.len() == 1024
    }
}

/// The round function: the four bytes of `x`, highest first, each pick a word
/// from one box; the words are added, combined by exclusive or, and added.
#[verifier::opaque]
pub open spec fn round_f(s: Seq<u32>, x: u32) -> u32 {
    let a = (x / 0x100_0000) as int;
    let b = ((x / 0x1_0000) % 0x100) as int;
    let c = ((x / 0x100) % 0x100) as int;
    let d = (x % 0x100) as int;
    (s[a].wrapping_add(s[256 + b]) ^ s[512 + c]).wrapping_add(s[768 + d])
}

/// One round with round key `k`, the swap of the halves included.
pub open spec fn round(v: BlowfishView, state: (u32, u32), k: int) -> (u32, u32) {
    let mixed = state.0 ^ v.p[k];
    (state.1 ^ round_f(v.s, mixed), mixed)
}

/// The two halves after the first `n` rounds of an encryption.
pub open spec fn enc_state(v: BlowfishView, l: u32, r: u32, n: nat) -> (u32, u32)
    decreases n,
{
    if n == 0 {
        (l, r)
    } else {
        round(v, enc_state(v, l, r, (n - 1) as nat), n - 1)
    }
}

/// The encryption of the block with halves `l` and `r`.
pub open spec fn encrypt_words(v: BlowfishView, l: u32, r: u32) -> (u32, u32) {
    let t = enc_state(v, l, r, 16);
    (t.1 ^ v.p[17], t.0 ^ v.p[16])
}

/// The two halves after the first `n` rounds of a decryption, which takes
/// the round keys from the last down.
pub open spec fn dec_state(v: BlowfishView, l: u32, r: u32, n: nat) -> (u32, u32)
    decreases n,
{
    if n == 0 {
        (l, r)
    } else {
        round(v, dec_state(v, l, r, (n - 1) as nat), 18 - n)
    }
}

/// The decryption of the block with halves `l` and `r`.
pub open spec fn decrypt_words(v: BlowfishView, l: u32, r: u32) -> (u32, u32) {
    let t = dec_state(v, l, r, 16);
    (t.1 ^ v.p[0], t.0 ^ v.p[1])
}

/// The two halves of a block of eight bytes.
pub open spec fn words_of(chunk: Seq<u8>) -> (u32, u32) {
    (le_value(chunk.subrange(0, 4)) as u32, le_value(chunk.subrange(4, 8)) as u32)
}

/// The eight bytes of a block with the given halves.
pub open spec fn bytes_of(words: (u32, u32)) -> Seq<u8> {
    le_bytes(words.0 as nat, 4) + le_bytes(words.1 as nat, 4)
}

/// The encryption of a block of eight bytes.
pub open spec fn encrypt_chunk(v: BlowfishView, chunk: Seq<u8>) -> Seq<u8> {
    bytes_of(encrypt_words(v, words_of(chunk).0, words_of(chunk).1))
}

/// The decryption of a block of eight bytes.
pub open spec fn decrypt_chunk(v: BlowfishView, chunk: Seq<u8>) -> Seq<u8> {
    bytes_of(decrypt_words(v, words_of(chunk).0, words_of(chunk).1))
}

/// The encryption of a buffer: each whole block of eight bytes encrypted by
/// itself, and what is left at the end, fewer than eight bytes, unchanged.
#[verifier::opaque]
pub open spec fn spec_encrypt(v: BlowfishView, buf: Seq<u8>) -> Seq<u8>
    decreases buf.len(),
{
    if buf.len() < 8 {
        buf
    } else {
        encrypt_chunk(v, buf.subrange(0, 8)) + spec_encrypt(v, buf.subrange(8, buf.len() as int))
    }
}

/// The decryption of a buffer: each whole block of eight bytes decrypted by
/// itself, and what is left at the end, fewer than eight bytes, unchanged.
#[verifier::opaque]
pub open spec fn spec_decrypt(v: BlowfishView, buf: Seq<u8>) -> Seq<u8>
    decreases buf.len(),
{
    if buf.len() < 8 {
        buf
    } else {
        decrypt_chunk(v, buf.subrange(0, 8)) + spec_decrypt(v, buf.subrange(8, buf.len() as int))
    }
}

/// Word `i` of the key: four of its bytes from position `4 * i` on, the key
/// taken round and round, the first byte highest.
pub open spec fn key_word(key: Seq<u8>, i: int) -> u32 {
    let n = key.len() as int;
    (((key[(4 * i) % n] as int * 0x100 + key[(4 * i + 1) % n] as int) * 0x100 + key[(4 * i + 2)
        % n] as int) * 0x100 + key[(4 * i + 3) % n] as int) as u32
}

/// The state of the key schedule: the subkeys so far, and the block that was
/// encrypted last.
pub struct ScheduleState {
    pub v: BlowfishView,
    pub l: u32,
    pub r: u32,
}

/// The start of the key schedule: the initial subkeys with the key mixed into
/// the round keys, and a block of zeros.
pub open spec fn schedule_start(key: Seq<u8>) -> ScheduleState {
    ScheduleState {
        v: BlowfishView {
            p: Seq::new(18, |i: int| INITIAL_P[i] ^ key_word(key, i)),
            s: Seq::new(1024, |i: int| INITIAL_S[i]),
        },
        l: 0,
        r: 0,
    }
}

/// Step `n` of the key schedule: the last block is encrypted again under the
/// subkeys so far, and its halves replace the next two subkeys: round keys in
/// the first nine steps, words of the boxes after that.
pub open spec fn schedule_step(st: ScheduleState, n: int) -> ScheduleState {
    let (l, r) = encrypt_words(st.v, st.l, st.r);
    if n < 9 {
        ScheduleState {
            v: BlowfishView { p: st.v.p.update(2 * n, l).update(2 * n + 1, r), s: st.v.s },
            l,
            r,
        }
    } else {
        ScheduleState {
            v: BlowfishView {
                p: st.v.p,
                s: st.v.s.update(2 * (n - 9), l).update(2 * (n - 9) + 1, r),
            },
            l,
            r,
        }
    }
}

/// The state of the key schedule after `n` steps.
pub open spec fn schedule_state(key: Seq<u8>, n: nat) -> ScheduleState
    decreases n,
{
    if n == 0 {
        schedule_start(key)
    } else {
        schedule_step(schedule_state(key, (n - 1) as nat), n - 1)
    }
}

/// The subkeys that the key schedule derives from `key`: the state after all
/// of its 521 steps.
pub open spec fn spec_schedule(key: Seq<u8>) -> BlowfishView {
    schedule_state(key, 521).v
}

/// Whether the cipher accepts a key of `len` bytes.
pub open spec fn valid_key_len(len: nat) -> bool {
    MIN_KEY_LEN <= len <= MAX_KEY_LEN
}

proof fn lemma_xor_cancel(a: u32, b: u32)
    by (bit_vector)
    ensures
        (a ^ b) ^ b == a,
{
}

proof fn lemma_xor_unmask(x: u32, f: u32, p: u32)
    by (bit_vector)
    ensures
        ((x ^ f) ^ p) ^ f == x ^ p,
{
}

/// The rounds of a decryption undo the rounds of the encryption one by one,
/// from the last.
proof fn lemma_dec_tracks_enc(v: BlowfishView, l: u32, r: u32, k: nat)
    requires
        k <= 16,
    ensures
        ({
            let c = encrypt_words(v, l, r);
            let e = enc_state(v, l, r, (16 - k) as nat);
            dec_state(v, c.0, c.1, k) == (e.1 ^ v.p[17 - k], e.0 ^ v.p[16 - k])
        }),
    decreases k,
{
    if k > 0 {
        let j = (k - 1) as nat;
        lemma_dec_tracks_enc(v, l, r, j);
        let m = (16 - j) as nat;
        let before = enc_state(v, l, r, (m - 1) as nat);
        let e = enc_state(v, l, r, m);
        let mixed = before.0 ^ v.p[m - 1];
        let f = round_f(v.s, mixed);
        assert(e == (before.1 ^ f, mixed));
        lemma_xor_cancel(e.1, v.p[m as int + 1]);
        lemma_xor_unmask(before.1, f, v.p[m as int]);
    }
}

/// Decrypting the encryption of a block gives the block.
pub proof fn lemma_decrypt_encrypt_words(v: BlowfishView, l: u32, r: u32)
    ensures
        ({
            let c = encrypt_words(v, l, r);
            decrypt_words(v, c.0, c.1) == (l, r)
        }),
{
    lemma_dec_tracks_enc(v, l, r, 16);
    lemma_xor_cancel(l, v.p[0]);
    lemma_xor_cancel(r, v.p[1]);
}

/// The rounds of an encryption undo the rounds of the decryption one by one,
/// from the last.
proof fn lemma_enc_tracks_dec(v: BlowfishView, l: u32, r: u32, k: nat)
    requires
        k <= 16,
    ensures
        ({
            let c = decrypt_words(v, l, r);
            let e = dec_state(v, l, r, (16 - k) as nat);
            enc_state(v, c.0, c.1, k) == (e.1 ^ v.p[k as int], e.0 ^ v.p[k as int + 1])
        }),
    decreases k,
{
    if k > 0 {
        let j = (k - 1) as nat;
        lemma_enc_tracks_dec(v, l, r, j);
        let m = (16 - j) as nat;
        let before = dec_state(v, l, r, (m - 1) as nat);
        let e = dec_state(v, l, r, m);
        let mixed = before.0 ^ v.p[18 - m];
        let f = round_f(v.s, mixed);
        assert(e == (before.1 ^ f, mixed));
        lemma_xor_cancel(e.1, v.p[j as int]);
        lemma_xor_unmask(before.1, f, v.p[j as int + 1]);
    }
}

/// Encrypting the decryption of a block gives the block.
pub proof fn lemma_encrypt_decrypt_words(v: BlowfishView, l: u32, r: u32)
    ensures
        ({
            let c = decrypt_words(v, l, r);
            encrypt_words(v, c.0, c.1) == (l, r)
        }),
{
    lemma_enc_tracks_dec(v, l, r, 16);
    lemma_xor_cancel(l, v.p[17]);
    lemma_xor_cancel(r, v.p[16]);
}

proof fn lemma_words_bytes(words: (u32, u32))
    ensures
        bytes_of(words).len() == 8,
        words_of(bytes_of(words)) == words,
{
    lemma_pow256_values();
    lemma_le_bytes_len(words.0 as nat, 4);
    lemma_le_bytes_len(words.1 as nat, 4);
    lemma_le_roundtrip(words.0 as nat, 4);
    lemma_le_roundtrip(words.1 as nat, 4);
    assert(bytes_of(words).subrange(0, 4) =~= le_bytes(words.0 as nat, 4));
    assert(bytes_of(words).subrange(4, 8) =~= le_bytes(words.1 as nat, 4));
}

proof fn lemma_bytes_words(chunk: Seq<u8>)
    requires
        chunk.len() == 8,
    ensures
        bytes_of(words_of(chunk)) == chunk,
{
    lemma_pow256_values();
    let low = chunk.subrange(0, 4);
    let high = chunk.subrange(4, 8);
    crate::bytes::lemma_le_value_bound(low);
    crate::bytes::lemma_le_value_bound(high);
    lemma_le_bytes_of_value(low);
    lemma_le_bytes_of_value(high);
    assert(low + high =~= chunk);
}

/// An encrypted buffer is as long as the buffer.
pub proof fn lemma_encrypt_len(v: BlowfishView, buf: Seq<u8>)
    ensures
        spec_encrypt(v, buf).len() == buf.len(),
    decreases buf.len(),
{
    reveal(spec_encrypt);
    reveal(spec_decrypt);
    if buf.len() >= 8 {
        let w = words_of(buf.subrange(0, 8));
        lemma_words_bytes(encrypt_words(v, w.0, w.1));
        lemma_encrypt_len(v, buf.subrange(8, buf.len() as int));
    }
}

/// A decrypted buffer is as long as the buffer.
pub proof fn lemma_decrypt_len(v: BlowfishView, buf: Seq<u8>)
    ensures
        spec_decrypt(v, buf).len() == buf.len(),
    decreases buf.len(),
{
    reveal(spec_encrypt);
    reveal(spec_decrypt);
    if buf.len() >= 8 {
        let w = words_of(buf.subrange(0, 8));
        lemma_words_bytes(decrypt_words(v, w.0, w.1));
        lemma_decrypt_len(v, buf.subrange(8, buf.len() as int));
    }
}

/// Decrypting an encrypted buffer gives the buffer.
pub proof fn lemma_decrypt_encrypt(v: BlowfishView, buf: Seq<u8>)
    ensures
        spec_decrypt(v, spec_encrypt(v, buf)) == buf,
    decreases buf.len(),
{
    reveal(spec_encrypt);
    reveal(spec_decrypt);
    if buf.len() >= 8 {
        let head = buf.subrange(0, 8);
        let tail = buf.subrange(8, buf.len() as int);
        let w = words_of(head);
        let c = encrypt_words(v, w.0, w.1);
        let enc = spec_encrypt(v, buf);
        lemma_words_bytes(c);
        lemma_encrypt_len(v, tail);
        lemma_decrypt_encrypt(v, tail);
        lemma_decrypt_encrypt_words(v, w.0, w.1);
        lemma_bytes_words(head);
        assert(enc.subrange(0, 8) =~= bytes_of(c));
        assert(enc.subrange(8, enc.len() as int) =~= spec_encrypt(v, tail));
        assert(head + tail =~= buf);
    }
}

/// Encrypting a decrypted buffer gives the buffer.
pub proof fn lemma_encrypt_decrypt(v: BlowfishView, buf: Seq<u8>)
    ensures
        spec_encrypt(v, spec_decrypt(v, buf)) == buf,
    decreases buf.len(),
{
    reveal(spec_encrypt);
    reveal(spec_decrypt);
    if buf.len() >= 8 {
        let head = buf.subrange(0, 8);
        let tail = buf.subrange(8, buf.len() as int);
        let w = words_of(head);
        let c = decrypt_words(v, w.0, w.1);
        let dec = spec_decrypt(v, buf);
        lemma_words_bytes(c);
        lemma_decrypt_len(v, tail);
        lemma_encrypt_decrypt(v, tail);
        lemma_encrypt_decrypt_words(v, w.0, w.1);
        lemma_bytes_words(head);
        assert(dec.subrange(0, 8) =~= bytes_of(c));
        assert(dec.subrange(8, dec.len() as int) =~= spec_decrypt(v, tail));
        assert(head + tail =~= buf);
    }
}

/// Blocks are encrypted one by one: the encryption of two buffers in a row,
/// the first of them a whole number of blocks, is the two encryptions in a
/// row.
pub proof fn lemma_encrypt_concat(v: BlowfishView, a: Seq<u8>, b: Seq<u8>)
    requires
        a.len() % 8 == 0,
    ensures
        spec_encrypt(v, a + b) == spec_encrypt(v, a) + spec_encrypt(v, b),
    decreases a.len(),
{
    reveal(spec_encrypt);
    reveal(spec_decrypt);
    if a.len() == 0 {
        assert(a + b =~= b);
        assert(spec_encrypt(v, a) + spec_encrypt(v, b) =~= spec_encrypt(v, b));
    } else {
        let whole = a + b;
        let rest = a.subrange(8, a.len() as int);
        lemma_encrypt_concat(v, rest, b);
        assert(whole.subrange(0, 8) =~= a.subrange(0, 8));
        assert(whole.subrange(8, whole.len() as int) =~= rest + b);
        assert(spec_encrypt(v, whole) =~= spec_encrypt(v, a) + spec_encrypt(v, b));
    }
}

/// Blocks are decrypted one by one: the decryption of two buffers in a row,
/// the first of them a whole number of blocks, is the two decryptions in a
/// row.
pub proof fn lemma_decrypt_concat(v: BlowfishView, a: Seq<u8>, b: Seq<u8>)
    requires
        a.len() % 8 == 0,
    ensures
        spec_decrypt(v, a + b) == spec_decrypt(v, a) + spec_decrypt(v, b),
    decreases a.len(),
{
    reveal(spec_encrypt);
    reveal(spec_decrypt);
    if a.len() == 0 {
        assert(a + b =~= b);
        assert(spec_decrypt(v, a) + spec_decrypt(v, b) =~= spec_decrypt(v, b));
    } else {
        let whole = a + b;
        let rest = a.subrange(8, a.len() as int);
        lemma_decrypt_concat(v, rest, b);
        assert(whole.subrange(0, 8) =~= a.subrange(0, 8));
        assert(whole.subrange(8, whole.len() as int) =~= rest + b);
        assert(spec_decrypt(v, whole) =~= spec_decrypt(v, a) + spec_decrypt(v, b));
    }
}

/// The halves of the block at `i` are the two words read at `i` and `i + 4`.
proof fn lemma_block_words(buf: Seq<u8>, i: int)
    requires
        0 <= i,
        i + 8 <= buf.len(),
    ensures
        words_of(buf.subrange(i, i + 8)) == (
            le_value(buf.subrange(i, i + 4)) as u32,
            le_value(buf.subrange(i + 4, i + 8)) as u32,
        ),
{
    let chunk = buf.subrange(i, i + 8);
    assert(chunk.subrange(0, 4) =~= buf.subrange(i, i + 4));
    assert(chunk.subrange(4, 8) =~= buf.subrange(i + 4, i + 8));
}

/// The encryption of the first `i + 8` bytes is that of the first `i` bytes
/// and the encryption of the block that follows them.
proof fn lemma_encrypt_step(v: BlowfishView, buf: Seq<u8>, i: int)
    requires
        0 <= i,
        i % 8 == 0,
        i + 8 <= buf.len(),
    ensures
        spec_encrypt(v, buf.subrange(0, i + 8)) == spec_encrypt(v, buf.subrange(0, i))
            + encrypt_chunk(v, buf.subrange(i, i + 8)),
{
    let done = buf.subrange(0, i);
    let chunk = buf.subrange(i, i + 8);
    lemma_encrypt_concat(v, done, chunk);
    assert(done + chunk =~= buf.subrange(0, i + 8));
    lemma_encrypt_one(v, chunk);
}

proof fn lemma_encrypt_one(v: BlowfishView, chunk: Seq<u8>)
    requires
        chunk.len() == 8,
    ensures
        spec_encrypt(v, chunk) == encrypt_chunk(v, chunk),
{
    reveal(spec_encrypt);
    let rest = chunk.subrange(8, 8);
    assert(spec_encrypt(v, rest) =~= Seq::<u8>::empty());
    assert(chunk.subrange(0, 8) =~= chunk);
    assert(encrypt_chunk(v, chunk) + Seq::<u8>::empty() =~= encrypt_chunk(v, chunk));
}

/// The encryption of a buffer is that of its whole blocks, and then what is
/// left of it.
proof fn lemma_encrypt_finish(v: BlowfishView, buf: Seq<u8>, i: int)
    requires
        0 <= i <= buf.len(),
        i % 8 == 0,
        buf.len() - i < 8,
    ensures
        spec_encrypt(v, buf) == spec_encrypt(v, buf.subrange(0, i)) + buf.subrange(
            i,
            buf.len() as int,
        ),
{
    reveal(spec_encrypt);
    let done = buf.subrange(0, i);
    let rest = buf.subrange(i, buf.len() as int);
    lemma_encrypt_concat(v, done, rest);
    assert(done + rest =~= buf);
}

/// The decryption of the first `i + 8` bytes is that of the first `i` bytes
/// and the decryption of the block that follows them.
proof fn lemma_decrypt_step(v: BlowfishView, buf: Seq<u8>, i: int)
    requires
        0 <= i,
        i % 8 == 0,
        i + 8 <= buf.len(),
    ensures
        spec_decrypt(v, buf.subrange(0, i + 8)) == spec_decrypt(v, buf.subrange(0, i))
            + decrypt_chunk(v, buf.subrange(i, i + 8)),
{
    let done = buf.subrange(0, i);
    let chunk = buf.subrange(i, i + 8);
    lemma_decrypt_concat(v, done, chunk);
    assert(done + chunk =~= buf.subrange(0, i + 8));
    lemma_decrypt_one(v, chunk);
}

proof fn lemma_decrypt_one(v: BlowfishView, chunk: Seq<u8>)
    requires
        chunk.len() == 8,
    ensures
        spec_decrypt(v, chunk) == decrypt_chunk(v, chunk),
{
    reveal(spec_decrypt);
    let rest = chunk.subrange(8, 8);
    assert(spec_decrypt(v, rest) =~= Seq::<u8>::empty());
    assert(chunk.subrange(0, 8) =~= chunk);
    assert(decrypt_chunk(v, chunk) + Seq::<u8>::empty() =~= decrypt_chunk(v, chunk));
}

/// The decryption of a buffer is that of its whole blocks, and then what is
/// left of it.
proof fn lemma_decrypt_finish(v: BlowfishView, buf: Seq<u8>, i: int)
    requires
        0 <= i <= buf.len(),
        i % 8 == 0,
        buf.len() - i < 8,
    ensures
        spec_decrypt(v, buf) == spec_decrypt(v, buf.subrange(0, i)) + buf.subrange(
            i,
            buf.len() as int,
        ),
{
    reveal(spec_decrypt);
    let done = buf.subrange(0, i);
    let rest = buf.subrange(i, buf.len() as int);
    lemma_decrypt_concat(v, done, rest);
    assert(done + rest =~= buf);
}

proof fn lemma_encrypt_nothing(v: BlowfishView)
    ensures
        spec_encrypt(v, Seq::<u8>::empty()) == Seq::<u8>::empty(),
        spec_decrypt(v, Seq::<u8>::empty()) == Seq::<u8>::empty(),
{
    reveal(spec_encrypt);
    reveal(spec_decrypt);
}

/// A Blowfish cipher with the subkeys of one key.
pub struct Blowfish {
    p: Vec<u32>,
    s: Vec<u32>,
}

impl View for Blowfish {
    type V = BlowfishView;

    closed spec fn view(&self) -> BlowfishView {
        BlowfishView { p: self.p@, s: self.s@ }
    }
}

impl Blowfish {
    #[verifier::type_invariant]
    spec fn inv(self) -> bool {
        self.p@.len() == 18 && self.s@.len() == 1024
    }

    fn f(&self, x: u32) -> (r: u32)
        ensures
            r == round_f(self@.s, x),
    {
        proof {
            use_type_invariant(self);
            reveal(round_f);
        }
        let a = (x / 0x100_0000) as usize;
        let b = ((x / 0x1_0000) % 0x100) as usize;
        let c = ((x / 0x100) % 0x100) as usize;
        let d = (x % 0x100) as usize;
        (self.s[a].wrapping_add(self.s[256 + b]) ^ self.s[512 + c]).wrapping_add(self.s[768 + d])
    }

    fn encrypt_block(&self, l: u32, r: u32) -> (c: (u32, u32))
        ensures
            c == encrypt_words(self@, l, r),
    {
        proof {
            use_type_invariant(self);
        }
        let mut left: u32 = l;
        let mut right: u32 = r;
        let mut i: usize = 0;
        while i < ROUNDS
            invariant
                i <= ROUNDS,
                self.p@.len() == 18,
                (left, right) == enc_state(self@, l, r, i as nat),
            decreases ROUNDS - i,
        {
            let mixed = left ^ self.p[i];
            left = right ^ self.f(mixed);
            right = mixed;
            i += 1;
        }
        (right ^ self.p[17], left ^ self.p[16])
    }

    fn decrypt_block(&self, l: u32, r: u32) -> (c: (u32, u32))
        ensures
            c == decrypt_words(self@, l, r),
    {
        proof {
            use_type_invariant(self);
        }
        let mut left: u32 = l;
        let mut right: u32 = r;
        let mut i: usize = 0;
        while i < ROUNDS
            invariant
                i <= ROUNDS,
                self.p@.len() == 18,
                (left, right) == dec_state(self@, l, r, i as nat),
            decreases ROUNDS - i,
        {
            let mixed = left ^ self.p[17 - i];
            left = right ^ self.f(mixed);
            right = mixed;
            i += 1;
        }
        (right ^ self.p[0], left ^ self.p[1])
    }

    fn word_of_key(key: &[u8], i: usize) -> (r: u32)
        requires
            key@.len() > 0,
            i < 18,
        ensures
            r == key_word(key@, i as int),
    {
        let n = key.len();
        let k0 = key[(4 * i) % n] as u32;
        let k1 = key[(4 * i + 1) % n] as u32;
        let k2 = key[(4 * i + 2) % n] as u32;
        let k3 = key[(4 * i + 3) % n] as u32;
        ((k0 * 0x100 + k1) * 0x100 + k2) * 0x100 + k3
    }

    /// The cipher for `key`, or `InvalidKey` where the key is shorter than 4
    /// or longer than 56 bytes.
    pub fn new(key: &[u8]) -> (r: Pk2Result<Self>)
        ensures
            match r {
                Ok(cipher) => valid_key_len(key@.len()) && cipher@ == spec_schedule(key@)
                    && cipher@.wf(),
                Err(e) => !valid_key_len(key@.len()) && e == Error::InvalidKey,
            },
    {
        if key.len() < MIN_KEY_LEN || key.len() > MAX_KEY_LEN {
            return Err(Error::InvalidKey);
        }
        let mut p: Vec<u32> = Vec::new();
        let mut i: usize = 0;
        while i < 18
            invariant
                i <= 18,
                key@.len() > 0,
                p@.len() == i,
                forall|j: int| 0 <= j < i ==> p@[j] == INITIAL_P[j] ^ key_word(key@, j),
            decreases 18 - i,
        {
            p.push(INITIAL_P[i] ^ Self::word_of_key(key, i));
            i += 1;
        }
        let mut s: Vec<u32> = Vec::new();
        let mut i: usize = 0;
        while i < 1024
            invariant
                i <= 1024,
                s@.len() == i,
                forall|j: int| 0 <= j < i ==> s@[j] == INITIAL_S[j],
            decreases 1024 - i,
        {
            s.push(INITIAL_S[i]);
            i += 1;
        }
        let mut cipher = Blowfish { p, s };
        assert(cipher@.p =~= schedule_start(key@).v.p);
        assert(cipher@.s =~= schedule_start(key@).v.s);
        let mut l: u32 = 0;
        let mut r: u32 = 0;
        let mut n: usize = 0;
        while n < 521
            invariant
                n <= 521,
                cipher.p@.len() == 18,
                cipher.s@.len() == 1024,
                (ScheduleState { v: cipher@, l, r }) == schedule_state(key@, n as nat),
            decreases 521 - n,
        {
            let c = cipher.encrypt_block(l, r);
            l = c.0;
            r = c.1;
            if n < 9 {
                cipher.p[2 * n] = l;
                cipher.p[2 * n + 1] = r;
            } else {
                cipher.s[2 * (n - 9)] = l;
                cipher.s[2 * (n - 9) + 1] = r;
            }
            n += 1;
        }
        Ok(cipher)
    }

    /// Encrypts `buf` in place, block by block. What is left behind the last
    /// whole block stays as it is.
    pub fn encrypt(&self, buf: &mut Vec<u8>)
        ensures
            final(buf)@ == spec_encrypt(self@, old(buf)@),
            final(buf)@.len() == old(buf)@.len(),
    {
        let mut out: Vec<u8> = Vec::new();
        let mut i: usize = 0;
        let len = buf.len();
        proof {
            assert(buf@.subrange(0, 0) =~= Seq::<u8>::empty());
            lemma_encrypt_nothing(self@);
            lemma_encrypt_len(self@, buf@);
        }
        while len - i >= BLOCK_LEN
            invariant
                i <= len,
                i % 8 == 0,
                len == buf@.len(),
                buf@ == old(buf)@,
                out@ == spec_encrypt(self@, buf@.subrange(0, i as int)),
            decreases len - i,
        {
            let l = read_u32_le(buf.as_slice(), i);
            let r = read_u32_le(buf.as_slice(), i + 4);
            let c = self.encrypt_block(l, r);
            let ghost before = out@;
            push_u32_le(&mut out, c.0);
            push_u32_le(&mut out, c.1);
            proof {
                lemma_block_words(buf@, i as int);
                lemma_encrypt_step(self@, buf@, i as int);
                assert(out@ =~= before + bytes_of(c));
            }
            i += 8;
        }
        push_bytes(&mut out, vstd::slice::slice_subrange(buf.as_slice(), i, len));
        proof {
            lemma_encrypt_finish(self@, buf@, i as int);
        }
        *buf = out;
    }

    /// Decrypts `buf` in place, block by block. What is left behind the last
    /// whole block stays as it is.
    pub fn decrypt(&self, buf: &mut Vec<u8>)
        ensures
            final(buf)@ == spec_decrypt(self@, old(buf)@),
            final(buf)@.len() == old(buf)@.len(),
    {
        let mut out: Vec<u8> = Vec::new();
        let mut i: usize = 0;
        let len = buf.len();
        proof {
            assert(buf@.subrange(0, 0) =~= Seq::<u8>::empty());
            lemma_encrypt_nothing(self@);
            lemma_decrypt_len(self@, buf@);
        }
        while len - i >= BLOCK_LEN
            invariant
                i <= len,
                i % 8 == 0,
                len == buf@.len(),
                buf@ == old(buf)@,
                out@ == spec_decrypt(self@, buf@.subrange(0, i as int)),
            decreases len - i,
        {
            let l = read_u32_le(buf.as_slice(), i);
            let r = read_u32_le(buf.as_slice(), i + 4);
            let c = self.decrypt_block(l, r);
            let ghost before = out@;
            push_u32_le(&mut out, c.0);
            push_u32_le(&mut out, c.1);
            proof {
                lemma_block_words(buf@, i as int);
                lemma_decrypt_step(self@, buf@, i as int);
                assert(out@ =~= before + bytes_of(c));
            }
            i += 8;
        }
        push_bytes(&mut out, vstd::slice::slice_subrange(buf.as_slice(), i, len));
        proof {
            lemma_decrypt_finish(self@, buf@, i as int);
        }
        *buf = out;
    }
}

} // verus!
