pub mod md4;
pub mod sha1;

use sha2::{Digest, Sha512};
use vstd::prelude::*;
pub use crate::common::{AsBytes, Endian};
use crate::hasher::md4::md4_hash;
use crate::hasher::sha1::sha1_hash;

verus! {

/// The eight bytes of `x` in the given byte order.
pub open spec fn u64_bytes(x: u64, endian: Endian) -> Seq<u8> {
    match endian {
        Endian::Big => seq![
            (x >> 56) as u8, (x >> 48) as u8, (x >> 40) as u8, (x >> 32) as u8,
            (x >> 24) as u8, (x >> 16) as u8, (x >> 8) as u8, x as u8,
        ],
        Endian::Little => seq![
            x as u8, (x >> 8) as u8, (x >> 16) as u8, (x >> 24) as u8,
            (x >> 32) as u8, (x >> 40) as u8, (x >> 48) as u8, (x >> 56) as u8,
        ],
    }
}

/// Number of zero bytes between the marker byte and the length field.
pub open spec fn zeros_to_pad(block_size: nat, message_length: nat) -> nat {
    let remainder = (message_length + 1 + 8) % block_size;
    if remainder > 0 {
        (block_size - remainder) as nat
    } else {
        0
    }
}

/// Merkle–Damgård padding of a message of `message_length` bytes: the marker
/// byte 0x80, `zeros_to_pad` zero bytes, then the length in bits as eight
/// bytes in the given order.
pub open spec fn md_padding_spec(block_size: nat, message_length: nat, endian: Endian) -> Seq<u8> {
    seq![0x80u8] + Seq::new(zeros_to_pad(block_size, message_length), |i: int| 0u8)
        + u64_bytes((message_length * 8) as u64, endian)
}

/// A block size that the padding supports.
pub open spec fn is_block_size(block_size: nat) -> bool {
    block_size == 64 || block_size == 128
}

/// A message length whose length in bits fits in the 64-bit length field.
pub open spec fn length_fits(message_length: nat) -> bool {
    message_length * 8 <= u64::MAX
}

/// Byte `i` of `s`, reading zero past either end.
pub open spec fn byte_at(s: Seq<u8>, i: int) -> u8 {
    if 0 <= i < s.len() {
        s[i]
    } else {
        0
    }
}

/// The 64-byte block at `pos` in `s`, zero past its end.
pub open spec fn block_at(s: Seq<u8>, pos: int) -> Seq<u8> {
    Seq::new(64, |t: int| byte_at(s, pos + t))
}

/// The state after compressing each 64-byte block of `s` from `pos` on, in
/// order; a short last block reads as if filled with zeros.
pub open spec fn md_process<S>(compress: spec_fn(S, Seq<u8>) -> S, st: S, s: Seq<u8>, pos: int) -> S
    decreases s.len() + 64 - pos,
{
    if pos >= s.len() {
        st
    } else {
        md_process(compress, compress(st, block_at(s, pos)), s, pos + 64)
    }
}

/// The 32-bit word whose little-endian bytes start at `p` in `s`.
pub open spec fn le_word(s: Seq<u8>, p: int) -> u32 {
    (byte_at(s, p) as u32) | ((byte_at(s, p + 1) as u32) << 8u32) | ((byte_at(s, p + 2) as u32)
        << 16u32) | ((byte_at(s, p + 3) as u32) << 24u32)
}

/// The 32-bit word whose big-endian bytes start at `p` in `s`.
pub open spec fn be_word(s: Seq<u8>, p: int) -> u32 {
    ((byte_at(s, p) as u32) << 24u32) | ((byte_at(s, p + 1) as u32) << 16u32) | ((byte_at(s, p + 2)
        as u32) << 8u32) | (byte_at(s, p + 3) as u32)
}

/// The four bytes of `x`, least significant first.
pub open spec fn le_bytes32(x: u32) -> Seq<u8> {
    seq![x as u8, (x >> 8u32) as u8, (x >> 16u32) as u8, (x >> 24u32) as u8]
}

/// The four bytes of `x`, most significant first.
pub open spec fn be_bytes32(x: u32) -> Seq<u8> {
    seq![(x >> 24u32) as u8, (x >> 16u32) as u8, (x >> 8u32) as u8, x as u8]
}

/// Addition modulo 2^32.
pub open spec fn wadd(x: u32, y: u32) -> u32 {
    vstd::wrapping::u32_specs::wrapping_add(x, y)
}

/// `x` rotated left by `s` bits; only `s % 32` counts, and a rotation by a
/// multiple of 32 gives `x` back.
pub open spec fn rotl(x: u32, s: u32) -> u32 {
    let k = s % 32;
    if k == 0 {
        x
    } else {
        (x << k) | (x >> ((32 - k) as u32))
    }
}

pub(crate) fn rotate_left(x: u32, s: u32) -> (r: u32)
    ensures
        r == rotl(x, s),
{
    let k: u32 = s % 32;
    if k == 0 {
        x
    } else {
        (x << k) | (x >> (32 - k))
    }
}

pub(crate) fn read_byte(s: &Vec<u8>, i: usize) -> (r: u8)
    ensures
        r == byte_at(s@, i as int),
{
    if i < s.len() {
        s[i]
    } else {
        0
    }
}

pub(crate) fn read_le_word(s: &Vec<u8>, p: usize) -> (r: u32)
    requires
        p + 3 <= usize::MAX,
    ensures
        r == le_word(s@, p as int),
{
    let b0 = read_byte(s, p) as u32;
    let b1 = read_byte(s, p + 1) as u32;
    let b2 = read_byte(s, p + 2) as u32;
    let b3 = read_byte(s, p + 3) as u32;
    b0 | (b1 << 8u32) | (b2 << 16u32) | (b3 << 24u32)
}

pub(crate) fn read_be_word(s: &Vec<u8>, p: usize) -> (r: u32)
    requires
        p + 3 <= usize::MAX,
    ensures
        r == be_word(s@, p as int),
{
    let b0 = read_byte(s, p) as u32;
    let b1 = read_byte(s, p + 1) as u32;
    let b2 = read_byte(s, p + 2) as u32;
    let b3 = read_byte(s, p + 3) as u32;
    (b0 << 24u32) | (b1 << 16u32) | (b2 << 8u32) | b3
}

/// `message` followed by `padding`, in a buffer of its own.
pub(crate) fn concat_bytes(message: &[u8], padding: Vec<u8>) -> (r: Vec<u8>)
    ensures
        r@ == message@ + padding@,
{
    let mut r = vstd::slice::slice_to_vec(message);
    let mut tail = padding;
    r.append(&mut tail);
    r
}

/// Blocks read from `p + r` past the end of `p` are the blocks of `r`.
pub proof fn lemma_process_shift<S>(
    compress: spec_fn(S, Seq<u8>) -> S,
    st: S,
    p: Seq<u8>,
    r: Seq<u8>,
    j: int,
)
    requires
        j >= 0,
    ensures
        md_process(compress, st, p + r, p.len() + j) == md_process(compress, st, r, j),
    decreases r.len() + 64 - j,
{
    if j < r.len() {
        assert(block_at(p + r, p.len() + j) =~= block_at(r, j));
        lemma_process_shift(compress, compress(st, block_at(r, j)), p, r, j + 64);
    }
}

/// Hashing `p + r`, where `p` is a whole number of blocks, is hashing `p`
/// and then resuming on `r` from the state that `p` left.
pub proof fn lemma_process_split<S>(
    compress: spec_fn(S, Seq<u8>) -> S,
    st: S,
    p: Seq<u8>,
    r: Seq<u8>,
    pos: int,
)
    requires
        p.len() % 64 == 0,
        pos % 64 == 0,
        0 <= pos <= p.len(),
    ensures
        md_process(compress, st, p + r, pos) == md_process(
            compress,
            md_process(compress, st, p, pos),
            r,
            0,
        ),
    decreases p.len() - pos,
{
    if pos == p.len() {
        lemma_process_shift(compress, st, p, r, 0);
    } else {
        assert(block_at(p + r, pos) =~= block_at(p, pos));
        lemma_process_split(compress, compress(st, block_at(p, pos)), p, r, pos + 64);
    }
}

/// A message followed by its padding fills whole blocks, and the padding
/// starts with the marker byte 0x80.
pub proof fn lemma_padding_fills_blocks(block_size: nat, message_length: nat, endian: Endian)
    requires
        is_block_size(block_size),
    ensures
        (message_length + md_padding_spec(block_size, message_length, endian).len()) % block_size
            == 0,
        md_padding_spec(block_size, message_length, endian)[0] == 0x80u8,
{
    let pad = md_padding_spec(block_size, message_length, endian);
    assert(pad.len() == 9 + zeros_to_pad(block_size, message_length));
    assert(pad[0] == 0x80u8);
}

proof fn lemma_le_bits(x: u32)
    by (bit_vector)
    ensures
        ((x as u8) as u32) | ((((x >> 8u32) as u8) as u32) << 8u32) | ((((x >> 16u32) as u8) as u32)
            << 16u32) | ((((x >> 24u32) as u8) as u32) << 24u32) == x,
{
}

proof fn lemma_be_bits(x: u32)
    by (bit_vector)
    ensures
        ((((x >> 24u32) as u8) as u32) << 24u32) | ((((x >> 16u32) as u8) as u32) << 16u32) | ((((x
            >> 8u32) as u8) as u32) << 8u32) | ((x as u8) as u32) == x,
{
}

/// Reading back a word that was written little-endian at `p` gives it.
pub proof fn lemma_le_word_of_bytes(d: Seq<u8>, p: int, x: u32)
    requires
        0 <= p,
        p + 4 <= d.len(),
        d.subrange(p, p + 4) == le_bytes32(x),
    ensures
        le_word(d, p) == x,
{
    assert(d.subrange(p, p + 4)[0] == d[p]);
    assert(d.subrange(p, p + 4)[1] == d[p + 1]);
    assert(d.subrange(p, p + 4)[2] == d[p + 2]);
    assert(d.subrange(p, p + 4)[3] == d[p + 3]);
    lemma_le_bits(x);
}

/// Reading back a word that was written big-endian at `p` gives it.
pub proof fn lemma_be_word_of_bytes(d: Seq<u8>, p: int, x: u32)
    requires
        0 <= p,
        p + 4 <= d.len(),
        d.subrange(p, p + 4) == be_bytes32(x),
    ensures
        be_word(d, p) == x,
{
    assert(d.subrange(p, p + 4)[0] == d[p]);
    assert(d.subrange(p, p + 4)[1] == d[p + 1]);
    assert(d.subrange(p, p + 4)[2] == d[p + 2]);
    assert(d.subrange(p, p + 4)[3] == d[p + 3]);
    lemma_be_bits(x);
}

/// Why `md_padding` refused its arguments.
#[derive(Clone, Copy, Debug, PartialEq, Eq, Structural)]
pub enum PaddingError {
    /// The block size is neither 64 nor 128.
    UnsupportedBlockSize,
    /// The length in bits does not fit in 64 bits.
    LengthTooLarge,
}

fn u64_to_bytes(x: u64, endian: Endian) -> (r: [u8; 8])
    ensures
        r@ == u64_bytes(x, endian),
{
    let r = match endian {
        Endian::Big => [
            (x >> 56) as u8, (x >> 48) as u8, (x >> 40) as u8, (x >> 32) as u8,
            (x >> 24) as u8, (x >> 16) as u8, (x >> 8) as u8, x as u8,
        ],
        Endian::Little => [
            x as u8, (x >> 8) as u8, (x >> 16) as u8, (x >> 24) as u8,
            (x >> 32) as u8, (x >> 40) as u8, (x >> 48) as u8, (x >> 56) as u8,
        ],
    };
    assert(r@ =~= u64_bytes(x, endian));
    r
}

fn padding_unchecked(block_size: usize, message_length: usize, endian: Endian) -> (r: Vec<u8>)
    requires
        is_block_size(block_size as nat),
        length_fits(message_length as nat),
    ensures
        r@ == md_padding_spec(block_size as nat, message_length as nat, endian),
{
    let length_in_bits: u64 = (message_length as u64) * 8;
    let length_bytes = u64_to_bytes(length_in_bits, endian);

    let remainder: u64 = ((message_length as u64) + 1 + 8) % (block_size as u64);
    let mut zeros: usize = 0;
    if remainder > 0 {
        zeros = block_size - (remainder as usize);
    }

    let mut r: Vec<u8> = vec![0x80u8];
    let mut i: usize = 0;
    while i < zeros
        invariant
            i <= zeros,
            r@ =~= seq![0x80u8] + Seq::new(i as nat, |j: int| 0u8),
        decreases zeros - i,
    {
        r.push(0u8);
        i = i + 1;
    }
    let mut j: usize = 0;
    while j < 8
        invariant
            j <= 8,
            zeros == zeros_to_pad(block_size as nat, message_length as nat),
            r@ =~= seq![0x80u8] + Seq::new(zeros as nat, |k: int| 0u8) + length_bytes@.take(j as int),
        decreases 8 - j,
    {
        r.push(length_bytes[j]);
        j = j + 1;
    }
    assert(length_bytes@.take(8) =~= length_bytes@);
    r
}

/// Merkle–Damgård padding for a message of `message_length` bytes with blocks
/// of `block_size` bytes; refuses a block size other than 64 or 128.
pub fn md_padding(block_size: usize, message_length: usize, endian: Endian) -> (r: Result<
    Vec<u8>,
    PaddingError,
>)
    ensures
        !is_block_size(block_size as nat) ==> r == Err::<Vec<u8>, PaddingError>(
            PaddingError::UnsupportedBlockSize,
        ),
        is_block_size(block_size as nat) && !length_fits(message_length as nat) ==> r == Err::<
            Vec<u8>,
            PaddingError,
        >(PaddingError::LengthTooLarge),
        is_block_size(block_size as nat) && length_fits(message_length as nat) ==> r is Ok
            && r->Ok_0@ == md_padding_spec(block_size as nat, message_length as nat, endian),
{
    if block_size != 64 && block_size != 128 {
        return Err(PaddingError::UnsupportedBlockSize);
    }
    if message_length as u64 > u64::MAX / 8 {
        return Err(PaddingError::LengthTooLarge);
    }
    Ok(padding_unchecked(block_size, message_length, endian))
}

/// Padding with 64-byte blocks, as MD4 and SHA-1 use it.
pub fn md_padding_64(message_length: usize, endian: Endian) -> (r: Vec<u8>)
    requires
        length_fits(message_length as nat),
    ensures
        r@ == md_padding_spec(64, message_length as nat, endian),
{
    padding_unchecked(64, message_length, endian)
}

/// Padding with 128-byte blocks, as hashes on 64-bit words use it.
pub fn md_padding_128(message_length: usize, endian: Endian) -> (r: Vec<u8>)
    requires
        length_fits(message_length as nat),
    ensures
        r@ == md_padding_spec(128, message_length as nat, endian),
{
    padding_unchecked(128, message_length, endian)
}

/// The SHA-1 digest of `message`.
pub fn sha1<T>(message: T) -> (r: [u8; 20]) where
    T: AsBytes,

    requires
        length_fits(message.bytes_view().len()),
        message.bytes_view().len() + 256 <= usize::MAX,
    ensures
        r@ == sha1_hash(message.bytes_view()),
{
    sha1::default(message)
}

/// The MD4 digest of `message`.
pub fn md4<T>(message: T) -> (r: [u8; 16]) where
    T: AsBytes,

    requires
        length_fits(message.bytes_view().len()),
        message.bytes_view().len() + 256 <= usize::MAX,
    ensures
        r@ == md4_hash(message.bytes_view()),
{
    md4::default(message)
}

/// The SHA-512 digest of `bytes`.
pub uninterp spec fn sha512_of(bytes: Seq<u8>) -> Seq<u8>;

/// Relies on sha2's `Sha512::digest`: the SHA-512 digest of the input, a
/// `GenericArray` of 64 bytes.
#[verifier::external_body]
fn sha512_digest(bytes: &[u8]) -> (r: Vec<u8>)
    ensures
        r@ == sha512_of(bytes@),
        r@.len() == 64,
{
    Sha512::digest(bytes).to_vec()
}

/// The first `min(n, 6)` bytes of `digest` taken from its end, last byte
/// first (fewer if `digest` is shorter).
pub open spec fn reversed_prefix(digest: Seq<u8>, n: nat) -> Seq<u8> {
    let k = if n < 6 { n } else { 6 };
    let k = if k < digest.len() { k } else { digest.len() };
    Seq::new(k, |i: int| digest[digest.len() - 1 - i])
}

/// At most six bytes of `digest`, read from its end.
pub fn truncate_reversed(digest: &Vec<u8>, n: usize) -> (r: Vec<u8>)
    ensures
        r@ == reversed_prefix(digest@, n as nat),
{
    let mut count: usize = n;
    if count > 6 {
        count = 6;
    }
    if count > digest.len() {
        count = digest.len();
    }
    let mut r: Vec<u8> = Vec::new();
    let mut i: usize = 0;
    while i < count
        invariant
            i <= count,
            count <= digest@.len(),
            count == reversed_prefix(digest@, n as nat).len(),
            r@ =~= reversed_prefix(digest@, n as nat).take(i as int),
        decreases count - i,
    {
        r.push(digest[digest.len() - 1 - i]);
        i = i + 1;
    }
    r
}

/// The last `min(n, 6)` bytes of the SHA-512 digest of `bytes`, last byte
/// first.
pub fn sha512_n(bytes: &[u8], n: usize) -> (r: Vec<u8>)
    ensures
        r@ == reversed_prefix(sha512_of(bytes@), n as nat),
        r@.len() == if n < 6 { n } else { 6 },
{
    let digest = sha512_digest(bytes);
    truncate_reversed(&digest, n)
}

} // verus!
