//! MD4 with an explicit initial state and logical length.

use vstd::prelude::*;
use crate::common::{AsBytes, Endian};
use crate::hasher::{
    block_at, concat_bytes, le_bytes32, le_word, lemma_le_word_of_bytes, length_fits, md_padding_64,
    md_padding_spec, md_process, read_le_word, rotate_left, rotl, wadd,
};

verus! {

/// The chaining state `(a, b, c, d)`.
pub type Md4State = (u32, u32, u32, u32);

/// The initial state of a standalone hash.
pub open spec fn md4_iv() -> Md4State {
    (0x67452301u32, 0xEFCDAB89u32, 0x98BADCFEu32, 0x10325476u32)
}

pub open spec fn spec_f(x: u32, y: u32, z: u32) -> u32 {
    (x & y) | (!x & z)
}

pub open spec fn spec_g(x: u32, y: u32, z: u32) -> u32 {
    (x & y) | (x & z) | (y & z)
}

pub open spec fn spec_h(x: u32, y: u32, z: u32) -> u32 {
    x ^ y ^ z
}

/// Which of the sixteen block words step `i` (of 48) adds: in order in the
/// first round, by columns (0, 4, 8, 12, 1, ...) in the second, and in
/// bit-reversed order (0, 8, 4, 12, 2, ...) in the third.
pub open spec fn word_index(i: nat) -> nat {
    if i < 16 {
        i
    } else if i < 32 {
        let j = (i - 16) as nat;
        (j % 4) * 4 + j / 4
    } else {
        let j = (i - 32) as nat;
        (j % 2) * 8 + ((j / 2) % 2) * 4 + ((j / 4) % 2) * 2 + j / 8
    }
}

/// Left rotation of step `i`: 3, 7, 11, 19 in the first round; 3, 5, 9, 13
/// in the second; 3, 9, 11, 15 in the third, in turn.
pub open spec fn shift(i: nat) -> u32 {
    if i < 16 {
        seq![3u32, 7, 11, 19][(i % 4) as int]
    } else if i < 32 {
        seq![3u32, 5, 9, 13][(i % 4) as int]
    } else {
        seq![3u32, 9, 11, 15][(i % 4) as int]
    }
}

/// Additive constant of step `i`.
pub open spec fn round_constant(i: nat) -> u32 {
    if i < 16 {
        0
    } else if i < 32 {
        0x5A827999
    } else {
        0x6ED9EBA1
    }
}

/// The boolean function of step `i`, applied to `(b, c, d)`.
pub open spec fn mix(i: nat, b: u32, c: u32, d: u32) -> u32 {
    if i < 16 {
        spec_f(b, c, d)
    } else if i < 32 {
        spec_g(b, c, d)
    } else {
        spec_h(b, c, d)
    }
}

/// One step: `a` takes the rotated sum, then the registers turn so that the
/// next step updates what was `d`.
pub open spec fn md4_step(st: Md4State, i: nat, w: Seq<u32>) -> Md4State {
    let (a, b, c, d) = st;
    let a2 = rotl(
        wadd(wadd(wadd(a, mix(i, b, c, d)), w[word_index(i) as int]), round_constant(i)),
        shift(i),
    );
    (d, a2, b, c)
}

/// The state after the first `n` steps on block words `w`.
pub open spec fn md4_steps(st: Md4State, w: Seq<u32>, n: nat) -> Md4State
    decreases n,
{
    if n == 0 {
        st
    } else {
        md4_step(md4_steps(st, w, (n - 1) as nat), (n - 1) as nat, w)
    }
}

/// The compression function: 48 steps, then each word adds its value from
/// before the block.
pub open spec fn md4_compress(st: Md4State, w: Seq<u32>) -> Md4State {
    let r = md4_steps(st, w, 48);
    (wadd(r.0, st.0), wadd(r.1, st.1), wadd(r.2, st.2), wadd(r.3, st.3))
}

/// The sixteen little-endian words of a 64-byte block.
pub open spec fn md4_block_words(block: Seq<u8>) -> Seq<u32> {
    Seq::new(16, |j: int| le_word(block, 4 * j))
}

/// The compression function on a block of bytes.
pub open spec fn md4_compressor() -> spec_fn(Md4State, Seq<u8>) -> Md4State {
    |st: Md4State, block: Seq<u8>| md4_compress(st, md4_block_words(block))
}

/// The state after `message` with little-endian padding for a logical
/// length of `total_length` bytes, from the state `iv`.
pub open spec fn md4_state(message: Seq<u8>, total_length: nat, iv: Md4State) -> Md4State {
    md_process(md4_compressor(), iv, message + md_padding_spec(64, total_length, Endian::Little), 0)
}

/// The sixteen digest bytes of a state: each word little-endian, `a` first.
pub open spec fn md4_digest_bytes(st: Md4State) -> Seq<u8> {
    le_bytes32(st.0) + le_bytes32(st.1) + le_bytes32(st.2) + le_bytes32(st.3)
}

/// The digest that `hash_core` returns.
pub open spec fn md4_digest(message: Seq<u8>, total_length: nat, iv: Md4State) -> Seq<u8> {
    md4_digest_bytes(md4_state(message, total_length, iv))
}

/// The MD4 digest of `message`.
pub open spec fn md4_hash(message: Seq<u8>) -> Seq<u8> {
    md4_digest(message, message.len(), md4_iv())
}

/// The state that a digest was written from: its words, little-endian.
pub open spec fn md4_state_of(digest: Seq<u8>) -> Md4State {
    (le_word(digest, 0), le_word(digest, 4), le_word(digest, 8), le_word(digest, 12))
}

/// A digest read back as words gives the state it was written from.
pub proof fn lemma_md4_state_of_digest(st: Md4State)
    ensures
        md4_state_of(md4_digest_bytes(st)) == st,
{
    let d = md4_digest_bytes(st);
    assert(d.subrange(0, 4) =~= le_bytes32(st.0));
    lemma_le_word_of_bytes(d, 0, st.0);
    assert(d.subrange(4, 8) =~= le_bytes32(st.1));
    lemma_le_word_of_bytes(d, 4, st.1);
    assert(d.subrange(8, 12) =~= le_bytes32(st.2));
    lemma_le_word_of_bytes(d, 8, st.2);
    assert(d.subrange(12, 16) =~= le_bytes32(st.3));
    lemma_le_word_of_bytes(d, 12, st.3);
}

#[allow(non_snake_case)]
fn F(x: u32, y: u32, z: u32) -> (r: u32)
    ensures
        r == spec_f(x, y, z),
{
    (x & y) | ((!x) & z)
}

#[allow(non_snake_case)]
fn G(x: u32, y: u32, z: u32) -> (r: u32)
    ensures
        r == spec_g(x, y, z),
{
    (x & y) | (x & z) | (y & z)
}

#[allow(non_snake_case)]
fn H(x: u32, y: u32, z: u32) -> (r: u32)
    ensures
        r == spec_h(x, y, z),
{
    x ^ y ^ z
}

/// Word index, rotation and constant of step `i`.
fn step_params(i: usize) -> (r: (usize, u32, u32))
    requires
        i < 48,
    ensures
        r.0 == word_index(i as nat),
        r.0 < 16,
        r.1 == shift(i as nat),
        0 < r.1 < 32,
        r.2 == round_constant(i as nat),
{
    let q: usize = i % 4;
    if i < 16 {
        let s: u32 = if q == 0 { 3 } else if q == 1 { 7 } else if q == 2 { 11 } else { 19 };
        (i, s, 0)
    } else if i < 32 {
        let j: usize = i - 16;
        let s: u32 = if q == 0 { 3 } else if q == 1 { 5 } else if q == 2 { 9 } else { 13 };
        ((j % 4) * 4 + j / 4, s, 0x5A827999)
    } else {
        let j: usize = i - 32;
        let s: u32 = if q == 0 { 3 } else if q == 1 { 9 } else if q == 2 { 11 } else { 15 };
        ((j % 2) * 8 + ((j / 2) % 2) * 4 + ((j / 4) % 2) * 2 + j / 8, s, 0x6ED9EBA1)
    }
}

/// `a` becomes `rotl(a + mixed + word + constant, s)`, the sums modulo 2^32.
fn round(a: &mut u32, mixed: u32, word: u32, s: u32, constant: u32)
    ensures
        *final(a) == rotl(wadd(wadd(wadd(*old(a), mixed), word), constant), s),
{
    *a = rotate_left((*a).wrapping_add(mixed).wrapping_add(word).wrapping_add(constant), s);
}

fn compress(st: Md4State, w: &Vec<u32>) -> (r: Md4State)
    requires
        w@.len() == 16,
    ensures
        r == md4_compress(st, w@),
{
    let (mut a, mut b, mut c, mut d) = st;
    let mut i: usize = 0;
    while i < 48
        invariant
            i <= 48,
            w@.len() == 16,
            (a, b, c, d) == md4_steps(st, w@, i as nat),
        decreases 48 - i,
    {
        let (k, s, constant) = step_params(i);
        let mixed = if i < 16 {
            F(b, c, d)
        } else if i < 32 {
            G(b, c, d)
        } else {
            H(b, c, d)
        };
        round(&mut a, mixed, w[k], s, constant);
        let t = d;
        d = c;
        c = b;
        b = a;
        a = t;
        i = i + 1;
    }
    (a.wrapping_add(st.0), b.wrapping_add(st.1), c.wrapping_add(st.2), d.wrapping_add(st.3))
}

fn block_words(s: &Vec<u8>, pos: usize) -> (w: Vec<u32>)
    requires
        pos + 64 <= usize::MAX,
    ensures
        w@ == md4_block_words(block_at(s@, pos as int)),
{
    let mut w: Vec<u32> = Vec::new();
    let mut j: usize = 0;
    while j < 16
        invariant
            j <= 16,
            pos + 64 <= usize::MAX,
            w@.len() == j,
            forall|k: int| 0 <= k < j ==> w@[k] == le_word(s@, pos + 4 * k),
        decreases 16 - j,
    {
        w.push(read_le_word(s, pos + 4 * j));
        j = j + 1;
    }
    assert(w@ =~= md4_block_words(block_at(s@, pos as int)));
    w
}

fn process(s: &Vec<u8>, iv: Md4State) -> (r: Md4State)
    requires
        s@.len() + 64 <= usize::MAX,
    ensures
        r == md_process(md4_compressor(), iv, s@, 0),
{
    let mut st = iv;
    let mut pos: usize = 0;
    while pos < s.len()
        invariant
            pos <= s@.len() + 64,
            s@.len() + 64 <= usize::MAX,
            md_process(md4_compressor(), iv, s@, 0) == md_process(md4_compressor(), st, s@, pos as int),
        decreases s@.len() + 64 - pos,
    {
        let w = block_words(s, pos);
        st = compress(st, &w);
        pos = pos + 64;
    }
    st
}

fn digest_bytes(st: Md4State) -> (r: [u8; 16])
    ensures
        r@ == md4_digest_bytes(st),
{
    let (a, b, c, d) = st;
    let r = [
        a as u8, (a >> 8u32) as u8, (a >> 16u32) as u8, (a >> 24u32) as u8,
        b as u8, (b >> 8u32) as u8, (b >> 16u32) as u8, (b >> 24u32) as u8,
        c as u8, (c >> 8u32) as u8, (c >> 16u32) as u8, (c >> 24u32) as u8,
        d as u8, (d >> 8u32) as u8, (d >> 16u32) as u8, (d >> 24u32) as u8,
    ];
    assert(r@ =~= md4_digest_bytes(st));
    r
}

/// MD4 of `message` resumed from the state `iv`, padded as if the whole
/// message were `total_length` bytes long.
pub fn hash_core<T>(message: T, total_length: usize, iv: (u32, u32, u32, u32)) -> (r: [u8; 16]) where
    T: AsBytes,

    requires
        length_fits(total_length as nat),
        message.bytes_view().len() + 256 <= usize::MAX,
    ensures
        r@ == md4_digest(message.bytes_view(), total_length as nat, iv),
{
    let bytes = message.as_bytes();
    let processed = concat_bytes(bytes, md_padding_64(total_length, Endian::Little));
    digest_bytes(process(&processed, iv))
}

/// MD4 of `message` from the standard initial state.
pub fn default<T>(message: T) -> (r: [u8; 16]) where
    T: AsBytes,

    requires
        length_fits(message.bytes_view().len()),
        message.bytes_view().len() + 256 <= usize::MAX,
    ensures
        r@ == md4_hash(message.bytes_view()),
{
    hash_core(message, message.as_bytes().len(), (0x67452301, 0xEFCDAB89, 0x98BADCFE, 0x10325476))
}

/// The standalone hash is the resumable one started from the standard
/// initial state with the message's own length.
pub proof fn lemma_md4_default_is_core(message: Seq<u8>)
    ensures
        md4_hash(message) == md4_digest(message, message.len(), md4_iv()),
{
}

/// Hashing the same bytes twice gives the same digest, whatever the state
/// and length it resumes from.
pub proof fn lemma_md4_deterministic(a: Seq<u8>, b: Seq<u8>, total_length: nat, iv: Md4State)
    requires
        a == b,
    ensures
        md4_digest(a, total_length, iv) == md4_digest(b, total_length, iv),
        md4_hash(a) == md4_hash(b),
        md4_digest(a, total_length, iv).len() == 16,
{
}

} // verus!
