//! SHA-1 with an explicit initial state and logical length.

use vstd::prelude::*;
use crate::common::{AsBytes, Endian};
use crate::hasher::{
    be_bytes32, be_word, block_at, concat_bytes, lemma_be_word_of_bytes, length_fits, md_padding_64,
    md_padding_spec, md_process, read_be_word, rotate_left, rotl, wadd,
};

verus! {

/// The chaining state `(h0, h1, h2, h3, h4)`.
pub type Sha1State = (u32, u32, u32, u32, u32);

/// The initial state of a standalone hash.
pub open spec fn sha1_iv() -> Sha1State {
    (0x67452301u32, 0xEFCDAB89u32, 0x98BADCFEu32, 0x10325476u32, 0xC3D2E1F0u32)
}

/// Word `i` (of 80) of the message schedule of a block whose sixteen
/// big-endian words are `w`.
pub open spec fn schedule(w: Seq<u32>, i: nat) -> u32
    decreases i,
{
    if i < 16 {
        w[i as int]
    } else {
        rotl(
            schedule(w, (i - 3) as nat) ^ schedule(w, (i - 8) as nat) ^ schedule(w, (i - 14) as nat)
                ^ schedule(w, (i - 16) as nat),
            1,
        )
    }
}

/// The boolean function of step `t`, by `t / 20`: choose, parity, majority,
/// parity.
pub open spec fn round_function(t: nat, b: u32, c: u32, d: u32) -> u32 {
    let round = t / 20;
    if round == 0 {
        (b & c) ^ (!b & d)
    } else if round == 2 {
        (b & c) ^ (b & d) ^ (c & d)
    } else {
        b ^ c ^ d
    }
}

/// The additive constant of step `t`, by `t / 20`.
pub open spec fn round_constant(t: nat) -> u32 {
    let round = t / 20;
    if round == 0 {
        0x5A827999
    } else if round == 1 {
        0x6ED9EBA1
    } else if round == 2 {
        0x8F1BBCDC
    } else {
        0xCA62C1D6
    }
}

/// Step `t` with schedule word `wt`.
pub open spec fn sha1_step(st: Sha1State, t: nat, wt: u32) -> Sha1State {
    let (a, b, c, d, e) = st;
    let temp = wadd(
        wadd(wadd(wadd(rotl(a, 5), round_function(t, b, c, d)), e), round_constant(t)),
        wt,
    );
    (temp, a, rotl(b, 30), c, d)
}

/// The working state after the first `n` steps on block words `w`.
pub open spec fn sha1_steps(st: Sha1State, w: Seq<u32>, n: nat) -> Sha1State
    decreases n,
{
    if n == 0 {
        st
    } else {
        let t = (n - 1) as nat;
        sha1_step(sha1_steps(st, w, t), t, schedule(w, t))
    }
}

/// The compression function: 80 steps, then each word adds its value from
/// before the block.
pub open spec fn sha1_compress(st: Sha1State, w: Seq<u32>) -> Sha1State {
    let r = sha1_steps(st, w, 80);
    (wadd(st.0, r.0), wadd(st.1, r.1), wadd(st.2, r.2), wadd(st.3, r.3), wadd(st.4, r.4))
}

/// The sixteen big-endian words of a 64-byte block.
pub open spec fn sha1_block_words(block: Seq<u8>) -> Seq<u32> {
    Seq::new(16, |j: int| be_word(block, 4 * j))
}

/// The compression function on a block of bytes.
pub open spec fn sha1_compressor() -> spec_fn(Sha1State, Seq<u8>) -> Sha1State {
    |st: Sha1State, block: Seq<u8>| sha1_compress(st, sha1_block_words(block))
}

/// The state after `message` with big-endian padding for a logical length
/// of `total_length` bytes, from the state `iv`.
pub open spec fn sha1_state(message: Seq<u8>, total_length: nat, iv: Sha1State) -> Sha1State {
    md_process(sha1_compressor(), iv, message + md_padding_spec(64, total_length, Endian::Big), 0)
}

/// The twenty digest bytes of a state: each word big-endian, `h0` first.
pub open spec fn sha1_digest_bytes(st: Sha1State) -> Seq<u8> {
    be_bytes32(st.0) + be_bytes32(st.1) + be_bytes32(st.2) + be_bytes32(st.3) + be_bytes32(st.4)
}

/// The digest that `hash_core` returns.
pub open spec fn sha1_digest(message: Seq<u8>, total_length: nat, iv: Sha1State) -> Seq<u8> {
    sha1_digest_bytes(sha1_state(message, total_length, iv))
}

/// The SHA-1 digest of `message`.
pub open spec fn sha1_hash(message: Seq<u8>) -> Seq<u8> {
    sha1_digest(message, message.len(), sha1_iv())
}

/// The state that a digest was written from: its words, big-endian.
pub open spec fn sha1_state_of(digest: Seq<u8>) -> Sha1State {
    (be_word(digest, 0), be_word(digest, 4), be_word(digest, 8), be_word(digest, 12), be_word(digest, 16))
}

/// A digest read back as words gives the state it was written from.
pub proof fn lemma_sha1_state_of_digest(st: Sha1State)
    ensures
        sha1_state_of(sha1_digest_bytes(st)) == st,
{
    let d = sha1_digest_bytes(st);
    assert(d.subrange(0, 4) =~= be_bytes32(st.0));
    lemma_be_word_of_bytes(d, 0, st.0);
    assert(d.subrange(4, 8) =~= be_bytes32(st.1));
    lemma_be_word_of_bytes(d, 4, st.1);
    assert(d.subrange(8, 12) =~= be_bytes32(st.2));
    lemma_be_word_of_bytes(d, 8, st.2);
    assert(d.subrange(12, 16) =~= be_bytes32(st.3));
    lemma_be_word_of_bytes(d, 12, st.3);
    assert(d.subrange(16, 20) =~= be_bytes32(st.4));
    lemma_be_word_of_bytes(d, 16, st.4);
}

/// The eighty schedule words of a block.
fn expand(w: &Vec<u32>) -> (x: Vec<u32>)
    requires
        w@.len() == 16,
    ensures
        x@.len() == 80,
        forall|i: int| 0 <= i < 80 ==> x@[i] == schedule(w@, i as nat),
{
    let mut x: Vec<u32> = Vec::new();
    let mut i: usize = 0;
    while i < 80
        invariant
            i <= 80,
            w@.len() == 16,
            x@.len() == i,
            forall|k: int| 0 <= k < i ==> x@[k] == schedule(w@, k as nat),
        decreases 80 - i,
    {
        if i < 16 {
            x.push(w[i]);
        } else {
            let v = x[i - 3] ^ x[i - 8] ^ x[i - 14] ^ x[i - 16];
            x.push(rotate_left(v, 1));
        }
        i = i + 1;
    }
    x
}

fn compress(st: Sha1State, w: &Vec<u32>) -> (r: Sha1State)
    requires
        w@.len() == 16,
    ensures
        r == sha1_compress(st, w@),
{
    let x = expand(w);
    let (h0, h1, h2, h3, h4) = st;
    let (mut a, mut b, mut c, mut d, mut e) = st;
    let mut i: usize = 0;
    while i < 80
        invariant
            i <= 80,
            w@.len() == 16,
            x@.len() == 80,
            forall|k: int| 0 <= k < 80 ==> x@[k] == schedule(w@, k as nat),
            (a, b, c, d, e) == sha1_steps(st, w@, i as nat),
        decreases 80 - i,
    {
        let round: usize = i / 20;
        let f: u32;
        let k: u32;
        if round == 0 {
            f = (b & c) ^ ((!b) & d);
            k = 0x5A827999;
        } else if round == 1 {
            f = b ^ c ^ d;
            k = 0x6ED9EBA1;
        } else if round == 2 {
            f = (b & c) ^ (b & d) ^ (c & d);
            k = 0x8F1BBCDC;
        } else {
            f = b ^ c ^ d;
            k = 0xCA62C1D6;
        }
        let temp = rotate_left(a, 5).wrapping_add(f).wrapping_add(e).wrapping_add(k).wrapping_add(
            x[i],
        );
        e = d;
        d = c;
        c = rotate_left(b, 30);
        b = a;
        a = temp;
        i = i + 1;
    }
    (
        h0.wrapping_add(a),
        h1.wrapping_add(b),
        h2.wrapping_add(c),
        h3.wrapping_add(d),
        h4.wrapping_add(e),
    )
}

fn block_words(s: &Vec<u8>, pos: usize) -> (w: Vec<u32>)
    requires
        pos + 64 <= usize::MAX,
    ensures
        w@ == sha1_block_words(block_at(s@, pos as int)),
{
    let mut w: Vec<u32> = Vec::new();
    let mut j: usize = 0;
    while j < 16
        invariant
            j <= 16,
            pos + 64 <= usize::MAX,
            w@.len() == j,
            forall|k: int| 0 <= k < j ==> w@[k] == be_word(s@, pos + 4 * k),
        decreases 16 - j,
    {
        w.push(read_be_word(s, pos + 4 * j));
        j = j + 1;
    }
    assert(w@ =~= sha1_block_words(block_at(s@, pos as int)));
    w
}

fn process(s: &Vec<u8>, iv: Sha1State) -> (r: Sha1State)
    requires
        s@.len() + 64 <= usize::MAX,
    ensures
        r == md_process(sha1_compressor(), iv, s@, 0),
{
    let mut st = iv;
    let mut pos: usize = 0;
    while pos < s.len()
        invariant
            pos <= s@.len() + 64,
            s@.len() + 64 <= usize::MAX,
            md_process(sha1_compressor(), iv, s@, 0) == md_process(sha1_compressor(), st, s@, pos as int),
        decreases s@.len() + 64 - pos,
    {
        let w = block_words(s, pos);
        st = compress(st, &w);
        pos = pos + 64;
    }
    st
}

fn digest_bytes(st: Sha1State) -> (r: [u8; 20])
    ensures
        r@ == sha1_digest_bytes(st),
{
    let (a, b, c, d, e) = st;
    let r = [
        (a >> 24u32) as u8, (a >> 16u32) as u8, (a >> 8u32) as u8, a as u8,
        (b >> 24u32) as u8, (b >> 16u32) as u8, (b >> 8u32) as u8, b as u8,
        (c >> 24u32) as u8, (c >> 16u32) as u8, (c >> 8u32) as u8, c as u8,
        (d >> 24u32) as u8, (d >> 16u32) as u8, (d >> 8u32) as u8, d as u8,
        (e >> 24u32) as u8, (e >> 16u32) as u8, (e >> 8u32) as u8, e as u8,
    ];
    assert(r@ =~= sha1_digest_bytes(st));
    r
}

/// SHA-1 of `message` resumed from the state `iv`, padded as if the whole
/// message were `total_length` bytes long.
pub fn hash_core<T>(message: T, total_length: usize, iv: (u32, u32, u32, u32, u32)) -> (r: [u8; 20]) where
    T: AsBytes,

    requires
        length_fits(total_length as nat),
        message.bytes_view().len() + 256 <= usize::MAX,
    ensures
        r@ == sha1_digest(message.bytes_view(), total_length as nat, iv),
{
    let bytes = message.as_bytes();
    let processed = concat_bytes(bytes, md_padding_64(total_length, Endian::Big));
    digest_bytes(process(&processed, iv))
}

/// SHA-1 of `message` from the standard initial state.
pub fn default<T>(message: T) -> (r: [u8; 20]) where
    T: AsBytes,

    requires
        length_fits(message.bytes_view().len()),
        message.bytes_view().len() + 256 <= usize::MAX,
    ensures
        r@ == sha1_hash(message.bytes_view()),
{
    hash_core(
        message,
        message.as_bytes().len(),
        (0x67452301, 0xEFCDAB89, 0x98BADCFE, 0x10325476, 0xC3D2E1F0),
    )
}

/// The standalone hash is the resumable one started from the standard
/// initial state with the message's own length.
pub proof fn lemma_sha1_default_is_core(message: Seq<u8>)
    ensures
        sha1_hash(message) == sha1_digest(message, message.len(), sha1_iv()),
{
}

/// Hashing the same bytes twice gives the same digest, whatever the state
/// and length it resumes from.
pub proof fn lemma_sha1_deterministic(a: Seq<u8>, b: Seq<u8>, total_length: nat, iv: Sha1State)
    requires
        a == b,
    ensures
        sha1_digest(a, total_length, iv) == sha1_digest(b, total_length, iv),
        sha1_hash(a) == sha1_hash(b),
        sha1_digest(a, total_length, iv).len() == 20,
{
}

} // verus!
