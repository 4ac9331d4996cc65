//! Length extension against secret-prefix MACs `H(key ‖ message)`: from the
//! MAC of a known message, the MAC of `message ‖ glue ‖ suffix` under the
//! same unknown key, where `glue` is the padding that the hash appended
//! after `key ‖ message`.

use vstd::prelude::*;
use crate::common::Endian;
use crate::hasher::{
    concat_bytes, lemma_padding_fills_blocks, lemma_process_split, length_fits, md_padding_64,
    md_padding_spec, md_process, read_be_word, read_le_word,
};
use crate::hasher::md4::{
    lemma_md4_state_of_digest, md4_compressor, md4_digest, md4_hash, md4_state_of, Md4State,
};
use crate::hasher::sha1::{
    lemma_sha1_state_of_digest, sha1_compressor, sha1_digest, sha1_hash, sha1_state_of, Sha1State,
};
use crate::hasher::{md4, sha1};

verus! {

/// Why a forgery was not produced.
#[derive(Clone, Copy, Debug, PartialEq, Eq, Structural)]
pub enum ForgeError {
    /// The intercepted MAC is not as long as the hash's digest.
    DigestLength,
    /// No key length in the range gave a MAC that the oracle confirmed.
    SearchExhausted,
}

/// A forged MAC that the oracle confirmed.
#[derive(Debug)]
pub struct Forgery<const N: usize> {
    /// The key length guessed.
    pub key_length: usize,
    /// What follows the key in the forged message: the known message, the
    /// glue padding, then the suffix.
    pub message: Vec<u8>,
    /// The MAC computed without the key.
    pub forged_mac: [u8; N],
    /// The oracle's MAC of the key followed by `message`.
    pub oracle_mac: [u8; N],
}

/// What follows a key of `key_length` bytes in the forged message: the known
/// message, the padding the hash put after `key ‖ message`, then the suffix.
pub open spec fn extended_message(
    message: Seq<u8>,
    suffix: Seq<u8>,
    key_length: nat,
    endian: Endian,
) -> Seq<u8> {
    message + md_padding_spec(64, key_length + message.len(), endian) + suffix
}

/// The SHA-1 MAC forged for a key of `key_length` bytes.
pub open spec fn sha1_forged_mac(mac: Seq<u8>, message: Seq<u8>, suffix: Seq<u8>, key_length: nat) -> Seq<u8> {
    sha1_digest(
        suffix,
        key_length + extended_message(message, suffix, key_length, Endian::Big).len(),
        sha1_state_of(mac),
    )
}

/// The MD4 MAC forged for a key of `key_length` bytes.
pub open spec fn md4_forged_mac(mac: Seq<u8>, message: Seq<u8>, suffix: Seq<u8>, key_length: nat) -> Seq<u8> {
    md4_digest(
        suffix,
        key_length + extended_message(message, suffix, key_length, Endian::Little).len(),
        md4_state_of(mac),
    )
}

/// Length extension on SHA-1: resuming from the MAC of `key ‖ message` with
/// the true key length gives the MAC of `key` followed by the extended
/// message.
pub proof fn lemma_sha1_length_extension(key: Seq<u8>, message: Seq<u8>, suffix: Seq<u8>)
    ensures
        sha1_forged_mac(sha1_hash(key + message), message, suffix, key.len()) == sha1_hash(
            key + extended_message(message, suffix, key.len(), Endian::Big),
        ),
{
    let k = key.len();
    let km = key + message;
    let glue = md_padding_spec(64, k + message.len(), Endian::Big);
    let p = km + glue;
    lemma_padding_fills_blocks(64, km.len(), Endian::Big);
    let st = md_process(sha1_compressor(), sha1::sha1_iv(), p, 0);
    lemma_sha1_state_of_digest(st);
    let ext = extended_message(message, suffix, k, Endian::Big);
    let total = k + ext.len();
    let rest = suffix + md_padding_spec(64, total, Endian::Big);
    assert((key + ext) + md_padding_spec(64, total, Endian::Big) =~= p + rest);
    lemma_process_split(sha1_compressor(), sha1::sha1_iv(), p, rest, 0);
}

/// Length extension on MD4: resuming from the MAC of `key ‖ message` with
/// the true key length gives the MAC of `key` followed by the extended
/// message.
pub proof fn lemma_md4_length_extension(key: Seq<u8>, message: Seq<u8>, suffix: Seq<u8>)
    ensures
        md4_forged_mac(md4_hash(key + message), message, suffix, key.len()) == md4_hash(
            key + extended_message(message, suffix, key.len(), Endian::Little),
        ),
{
    let k = key.len();
    let km = key + message;
    let glue = md_padding_spec(64, k + message.len(), Endian::Little);
    let p = km + glue;
    lemma_padding_fills_blocks(64, km.len(), Endian::Little);
    let st = md_process(md4_compressor(), md4::md4_iv(), p, 0);
    lemma_md4_state_of_digest(st);
    let ext = extended_message(message, suffix, k, Endian::Little);
    let total = k + ext.len();
    let rest = suffix + md_padding_spec(64, total, Endian::Little);
    assert((key + ext) + md_padding_spec(64, total, Endian::Little) =~= p + rest);
    lemma_process_split(md4_compressor(), md4::md4_iv(), p, rest, 0);
}

/// Whether two digests hold the same bytes.
fn same_digest<const N: usize>(a: &[u8; N], b: &[u8; N]) -> (r: bool)
    ensures
        r == (a@ == b@),
{
    let mut i: usize = 0;
    while i < N
        invariant
            i <= N,
            a@.len() == N,
            b@.len() == N,
            forall|k: int| 0 <= k < i ==> a@[k] == b@[k],
        decreases N - i,
    {
        if a[i] != b[i] {
            return false;
        }
        i = i + 1;
    }
    assert(a@ =~= b@);
    true
}

/// `oracle` answers every query `d` with the SHA-1 MAC of `key ‖ d`.
pub open spec fn sha1_oracle_keyed<O: Fn(&Vec<u8>) -> [u8; 20]>(oracle: O, key: Seq<u8>) -> bool {
    forall|d: Vec<u8>, o: [u8; 20]| #[trigger] oracle.ensures((&d,), o) ==> o@ == sha1_hash(key + d@)
}

/// The oracle answered the extended message for a key of `key_length`
/// bytes with a MAC other than the forged one.
pub open spec fn sha1_rejected<O: Fn(&Vec<u8>) -> [u8; 20]>(
    oracle: O,
    mac: Seq<u8>,
    message: Seq<u8>,
    suffix: Seq<u8>,
    key_length: nat,
) -> bool {
    exists|d: Vec<u8>, o: [u8; 20]|
        #[trigger] oracle.ensures((&d,), o) && d@ == extended_message(
            message,
            suffix,
            key_length,
            Endian::Big,
        ) && o@ != sha1_forged_mac(mac, message, suffix, key_length)
}

/// An oracle keyed with `key` never rejects the guess of the true key length.
pub proof fn lemma_sha1_keyed_oracle_confirms<O: Fn(&Vec<u8>) -> [u8; 20]>(
    oracle: O,
    key: Seq<u8>,
    message: Seq<u8>,
    suffix: Seq<u8>,
)
    requires
        sha1_oracle_keyed(oracle, key),
    ensures
        !sha1_rejected(oracle, sha1_hash(key + message), message, suffix, key.len()),
{
    lemma_sha1_length_extension(key, message, suffix);
}

/// The SHA-1 chaining state that `mac` was written from; a MAC of another
/// length than 20 bytes is refused.
pub fn sha1_state_from_mac(mac: &[u8]) -> (r: Result<Sha1State, ForgeError>)
    ensures
        mac@.len() == 20 ==> r == Ok::<Sha1State, ForgeError>(sha1_state_of(mac@)),
        mac@.len() != 20 ==> r == Err::<Sha1State, ForgeError>(ForgeError::DigestLength),
{
    if mac.len() != 20 {
        return Err(ForgeError::DigestLength);
    }
    let v = vstd::slice::slice_to_vec(mac);
    Ok(
        (
            read_be_word(&v, 0),
            read_be_word(&v, 4),
            read_be_word(&v, 8),
            read_be_word(&v, 12),
            read_be_word(&v, 16),
        ),
    )
}

/// For a key of `key_length` bytes: the MAC forged by resuming SHA-1 from
/// `state` on `suffix`, and the extended message it authenticates.
pub fn sha1_extend(state: Sha1State, message: &[u8], suffix: &[u8], key_length: usize) -> (r: (
    [u8; 20],
    Vec<u8>,
))
    requires
        key_length + message@.len() + suffix@.len() + 256 <= usize::MAX,
        length_fits((key_length + message@.len() + suffix@.len() + 256) as nat),
    ensures
        r.1@ == extended_message(message@, suffix@, key_length as nat, Endian::Big),
        r.0@ == sha1_digest(suffix@, (key_length + r.1@.len()) as nat, state),
{
    let glue = md_padding_64(key_length + message.len(), Endian::Big);
    let mut data = concat_bytes(message, glue);
    let mut tail = vstd::slice::slice_to_vec(suffix);
    data.append(&mut tail);
    let total = key_length + data.len();
    let forged = sha1::hash_core(suffix, total, state);
    (forged, data)
}

/// Searches key lengths `min_key_length..=max_key_length` in increasing
/// order for one whose forged SHA-1 MAC `oracle` confirms, and returns the
/// first.
pub fn forge_sha1<O: Fn(&Vec<u8>) -> [u8; 20]>(
    mac: &[u8],
    message: &[u8],
    suffix: &[u8],
    min_key_length: usize,
    max_key_length: usize,
    oracle: O,
) -> (r: Result<Forgery<20>, ForgeError>)
    requires
        forall|d: &Vec<u8>| oracle.requires((d,)),
        max_key_length + message@.len() + suffix@.len() + 256 <= usize::MAX,
        length_fits((max_key_length + message@.len() + suffix@.len() + 256) as nat),
    ensures
        mac@.len() != 20 <==> r == Err::<Forgery<20>, ForgeError>(ForgeError::DigestLength),
        r is Ok ==> {
            let f = r->Ok_0;
            &&& min_key_length <= f.key_length <= max_key_length
            &&& f.message@ == extended_message(message@, suffix@, f.key_length as nat, Endian::Big)
            &&& f.forged_mac@ == sha1_forged_mac(mac@, message@, suffix@, f.key_length as nat)
            &&& oracle.ensures((&f.message,), f.oracle_mac)
            &&& f.forged_mac@ == f.oracle_mac@
            &&& forall|j: nat|
                min_key_length <= j < f.key_length ==> #[trigger] sha1_rejected(
                    oracle,
                    mac@,
                    message@,
                    suffix@,
                    j,
                )
        },
        r == Err::<Forgery<20>, ForgeError>(ForgeError::SearchExhausted) ==> mac@.len() == 20
            && forall|j: nat|
            min_key_length <= j <= max_key_length ==> #[trigger] sha1_rejected(
                oracle,
                mac@,
                message@,
                suffix@,
                j,
            ),
        forall|key: Seq<u8>|
            #[trigger] sha1_oracle_keyed(oracle, key) && min_key_length <= key.len()
                <= max_key_length && mac@ == sha1_hash(key + message@) ==> r is Ok
                && r->Ok_0.key_length <= key.len(),
{
    let state = match sha1_state_from_mac(mac) {
        Ok(st) => st,
        Err(e) => {
            return Err(e);
        },
    };
    let mut g: usize = min_key_length;
    while g <= max_key_length
        invariant
            min_key_length <= g,
            forall|d: &Vec<u8>| oracle.requires((d,)),
            max_key_length + message@.len() + suffix@.len() + 256 <= usize::MAX,
            length_fits((max_key_length + message@.len() + suffix@.len() + 256) as nat),
            mac@.len() == 20,
            state == sha1_state_of(mac@),
            forall|j: nat|
                min_key_length <= j < g ==> #[trigger] sha1_rejected(
                    oracle,
                    mac@,
                    message@,
                    suffix@,
                    j,
                ),
        decreases max_key_length + 1 - g,
    {
        let (forged, data) = sha1_extend(state, message, suffix, g);
        let reply = oracle(&data);
        if same_digest(&forged, &reply) {
            proof {
                assert forall|key: Seq<u8>|
                    #[trigger] sha1_oracle_keyed(oracle, key) && min_key_length <= key.len()
                        <= max_key_length && mac@ == sha1_hash(key + message@) implies g
                    <= key.len() by {
                    lemma_sha1_keyed_oracle_confirms(oracle, key, message@, suffix@);
                }
            }
            return Ok(Forgery { key_length: g, message: data, forged_mac: forged, oracle_mac: reply });
        }
        assert(sha1_rejected(oracle, mac@, message@, suffix@, g as nat));
        g = g + 1;
    }
    proof {
        assert forall|key: Seq<u8>|
            #[trigger] sha1_oracle_keyed(oracle, key) && min_key_length <= key.len()
                <= max_key_length && mac@ == sha1_hash(key + message@) implies false by {
            lemma_sha1_keyed_oracle_confirms(oracle, key, message@, suffix@);
        }
    }
    Err(ForgeError::SearchExhausted)
}

/// `oracle` answers every query `d` with the MD4 MAC of `key ‖ d`.
pub open spec fn md4_oracle_keyed<O: Fn(&Vec<u8>) -> [u8; 16]>(oracle: O, key: Seq<u8>) -> bool {
    forall|d: Vec<u8>, o: [u8; 16]| #[trigger] oracle.ensures((&d,), o) ==> o@ == md4_hash(key + d@)
}

/// The oracle answered the extended message for a key of `key_length`
/// bytes with a MAC other than the forged one.
pub open spec fn md4_rejected<O: Fn(&Vec<u8>) -> [u8; 16]>(
    oracle: O,
    mac: Seq<u8>,
    message: Seq<u8>,
    suffix: Seq<u8>,
    key_length: nat,
) -> bool {
    exists|d: Vec<u8>, o: [u8; 16]|
        #[trigger] oracle.ensures((&d,), o) && d@ == extended_message(
            message,
            suffix,
            key_length,
            Endian::Little,
        ) && o@ != md4_forged_mac(mac, message, suffix, key_length)
}

/// An oracle keyed with `key` never rejects the guess of the true key length.
pub proof fn lemma_md4_keyed_oracle_confirms<O: Fn(&Vec<u8>) -> [u8; 16]>(
    oracle: O,
    key: Seq<u8>,
    message: Seq<u8>,
    suffix: Seq<u8>,
)
    requires
        md4_oracle_keyed(oracle, key),
    ensures
        !md4_rejected(oracle, md4_hash(key + message), message, suffix, key.len()),
{
    lemma_md4_length_extension(key, message, suffix);
}

/// The MD4 chaining state that `mac` was written from; a MAC of another
/// length than 16 bytes is refused.
pub fn md4_state_from_mac(mac: &[u8]) -> (r: Result<Md4State, ForgeError>)
    ensures
        mac@.len() == 16 ==> r == Ok::<Md4State, ForgeError>(md4_state_of(mac@)),
        mac@.len() != 16 ==> r == Err::<Md4State, ForgeError>(ForgeError::DigestLength),
{
    if mac.len() != 16 {
        return Err(ForgeError::DigestLength);
    }
    let v = vstd::slice::slice_to_vec(mac);
    Ok(
        (
            read_le_word(&v, 0),
            read_le_word(&v, 4),
            read_le_word(&v, 8),
            read_le_word(&v, 12),
        ),
    )
}

/// For a key of `key_length` bytes: the MAC forged by resuming MD4 from
/// `state` on `suffix`, and the extended message it authenticates.
pub fn md4_extend(state: Md4State, message: &[u8], suffix: &[u8], key_length: usize) -> (r: (
    [u8; 16],
    Vec<u8>,
))
    requires
        key_length + message@.len() + suffix@.len() + 256 <= usize::MAX,
        length_fits((key_length + message@.len() + suffix@.len() + 256) as nat),
    ensures
        r.1@ == extended_message(message@, suffix@, key_length as nat, Endian::Little),
        r.0@ == md4_digest(suffix@, (key_length + r.1@.len()) as nat, state),
{
    let glue = md_padding_64(key_length + message.len(), Endian::Little);
    let mut data = concat_bytes(message, glue);
    let mut tail = vstd::slice::slice_to_vec(suffix);
    data.append(&mut tail);
    let total = key_length + data.len();
    let forged = md4::hash_core(suffix, total, state);
    (forged, data)
}

/// Searches key lengths `min_key_length..=max_key_length` in increasing
/// order for one whose forged MD4 MAC `oracle` confirms, and returns the
/// first.
pub fn forge_md4<O: Fn(&Vec<u8>) -> [u8; 16]>(
    mac: &[u8],
    message: &[u8],
    suffix: &[u8],
    min_key_length: usize,
    max_key_length: usize,
    oracle: O,
) -> (r: Result<Forgery<16>, ForgeError>)
    requires
        forall|d: &Vec<u8>| oracle.requires((d,)),
        max_key_length + message@.len() + suffix@.len() + 256 <= usize::MAX,
        length_fits((max_key_length + message@.len() + suffix@.len() + 256) as nat),
    ensures
        mac@.len() != 16 <==> r == Err::<Forgery<16>, ForgeError>(ForgeError::DigestLength),
        r is Ok ==> {
            let f = r->Ok_0;
            &&& min_key_length <= f.key_length <= max_key_length
            &&& f.message@ == extended_message(message@, suffix@, f.key_length as nat, Endian::Little)
            &&& f.forged_mac@ == md4_forged_mac(mac@, message@, suffix@, f.key_length as nat)
            &&& oracle.ensures((&f.message,), f.oracle_mac)
            &&& f.forged_mac@ == f.oracle_mac@
            &&& forall|j: nat|
                min_key_length <= j < f.key_length ==> #[trigger] md4_rejected(
                    oracle,
                    mac@,
                    message@,
                    suffix@,
                    j,
                )
        },
        r == Err::<Forgery<16>, ForgeError>(ForgeError::SearchExhausted) ==> mac@.len() == 16
            && forall|j: nat|
            min_key_length <= j <= max_key_length ==> #[trigger] md4_rejected(
                oracle,
                mac@,
                message@,
                suffix@,
                j,
            ),
        forall|key: Seq<u8>|
            #[trigger] md4_oracle_keyed(oracle, key) && min_key_length <= key.len()
                <= max_key_length && mac@ == md4_hash(key + message@) ==> r is Ok
                && r->Ok_0.key_length <= key.len(),
{
    let state = match md4_state_from_mac(mac) {
        Ok(st) => st,
        Err(e) => {
            return Err(e);
        },
    };
    let mut g: usize = min_key_length;
    while g <= max_key_length
        invariant
            min_key_length <= g,
            forall|d: &Vec<u8>| oracle.requires((d,)),
            max_key_length + message@.len() + suffix@.len() + 256 <= usize::MAX,
            length_fits((max_key_length + message@.len() + suffix@.len() + 256) as nat),
            mac@.len() == 16,
            state == md4_state_of(mac@),
            forall|j: nat|
                min_key_length <= j < g ==> #[trigger] md4_rejected(
                    oracle,
                    mac@,
                    message@,
                    suffix@,
                    j,
                ),
        decreases max_key_length + 1 - g,
    {
        let (forged, data) = md4_extend(state, message, suffix, g);
        let reply = oracle(&data);
        if same_digest(&forged, &reply) {
            proof {
                assert forall|key: Seq<u8>|
                    #[trigger] md4_oracle_keyed(oracle, key) && min_key_length <= key.len()
                        <= max_key_length && mac@ == md4_hash(key + message@) implies g
                    <= key.len() by {
                    lemma_md4_keyed_oracle_confirms(oracle, key, message@, suffix@);
                }
            }
            return Ok(Forgery { key_length: g, message: data, forged_mac: forged, oracle_mac: reply });
        }
        assert(md4_rejected(oracle, mac@, message@, suffix@, g as nat));
        g = g + 1;
    }
    proof {
        assert forall|key: Seq<u8>|
            #[trigger] md4_oracle_keyed(oracle, key) && min_key_length <= key.len()
                <= max_key_length && mac@ == md4_hash(key + message@) implies false by {
            lemma_md4_keyed_oracle_confirms(oracle, key, message@, suffix@);
        }
    }
    Err(ForgeError::SearchExhausted)
}

} // verus!
