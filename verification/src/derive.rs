//! Derivation of the storage slot a configured mapping entry occupies:
//! `keccak256(pad_left(key, 32) ++ big_endian_32(declared slot))`.

use vstd::prelude::*;

use crate::errors::DigestError;
use crate::hexstr::{hex_bytes, is_hex_seq, strip_0x};
use crate::word::Word;

verus! {

/// What Keccak-256 returns on a byte string.
pub uninterp spec fn keccak256_of(input: Seq<u8>) -> Seq<u8>;

/// Relies on `revm::primitives::keccak256`: the Keccak-256 digest, 32 bytes,
/// a function of the input bytes alone.
#[verifier::external_body]
fn keccak256_bytes(input: &Vec<u8>) -> (r: Vec<u8>)
    ensures
        r@ == keccak256_of(input@),
        r@.len() == 32,
{
    revm::primitives::keccak256(input.as_slice()).0.to_vec()
}

/// A key left-padded with zero bytes to exactly 32 bytes.
pub open spec fn left_pad32(key: Seq<u8>) -> Seq<u8>
    recommends
        key.len() <= 32,
{
    Seq::new((32 - key.len()) as nat, |i: int| 0u8) + key
}

/// The slot a mapping entry with this key lives in, given the mapping's
/// declared slot as 32 big-endian bytes.
pub open spec fn mapping_slot_of(key: Seq<u8>, declared: Seq<u8>) -> Seq<u8> {
    keccak256_of(left_pad32(key) + declared)
}

/// The bytes a configured hex key denotes, if it is well-formed hex.
pub open spec fn spec_key_bytes(s: Seq<char>) -> Option<Seq<u8>> {
    if is_hex_seq(strip_0x(s)) {
        Some(hex_bytes(strip_0x(s)))
    } else {
        None
    }
}

/// Padding a 32-byte key changes nothing: the key passes through unchanged.
pub proof fn lemma_pad_of_full_key_is_identity(key: Seq<u8>)
    requires
        key.len() == 32,
    ensures
        left_pad32(key) == key,
{
    assert(left_pad32(key) =~= key);
}

/// Slot derivation is deterministic: equal keys and equal declared slots
/// give the identical derived slot.
pub proof fn lemma_derivation_deterministic(
    key1: Seq<u8>,
    declared1: Seq<u8>,
    key2: Seq<u8>,
    declared2: Seq<u8>,
)
    requires
        key1 == key2,
        declared1 == declared2,
    ensures
        mapping_slot_of(key1, declared1) == mapping_slot_of(key2, declared2),
{
}

/// Left-pads decoded key bytes with zeros to exactly 32 bytes.
///
/// The key type's declared byte width only validates the key: a key longer
/// than 32 bytes, or longer than the width, is a `KeyTooLongError`, never a
/// silent truncation.
pub fn pad_key32(key: &Vec<u8>, width: u64) -> (r: Result<Vec<u8>, DigestError>)
    ensures
        match r {
            Ok(p) => key@.len() <= 32 && key@.len() <= width && p@ == left_pad32(key@),
            Err(e) => e == DigestError::KeyTooLongError && (key@.len() > 32 || key@.len()
                > width),
        },
{
    if key.len() > 32 || key.len() as u64 > width {
        return Err(DigestError::KeyTooLongError);
    }
    let pad = 32 - key.len();
    let mut out: Vec<u8> = Vec::new();
    let mut j: usize = 0;
    while j < pad
        invariant
            j <= pad,
            out@.len() == j,
            forall|i: int| 0 <= i < j ==> out@[i] == 0u8,
        decreases pad - j,
    {
        out.push(0u8);
        j += 1;
    }
    let mut k: usize = 0;
    let n = key.len();
    while k < n
        invariant
            k <= n,
            n == key@.len(),
            pad == 32 - n,
            out@.len() == pad + k,
            forall|i: int| 0 <= i < pad ==> out@[i] == 0u8,
            forall|i: int| 0 <= i < k ==> out@[pad + i] == key@[i],
        decreases n - k,
    {
        out.push(key[k]);
        k += 1;
    }
    proof {
        assert(out@ =~= left_pad32(key@));
    }
    Ok(out)
}

/// Derives the slot of one mapping entry: hashes the padded key followed by
/// the declared slot's 32 big-endian bytes.
pub fn derive_mapping_slot(padded_key: &Vec<u8>, declared: &Word) -> (r: Word)
    requires
        padded_key@.len() == 32,
        declared.wf(),
    ensures
        r.wf(),
        r@ == keccak256_of(padded_key@ + declared@),
{
    let mut input: Vec<u8> = Vec::new();
    let mut j: usize = 0;
    while j < 32
        invariant
            j <= 32,
            padded_key@.len() == 32,
            input@ =~= padded_key@.subrange(0, j as int),
        decreases 32 - j,
    {
        input.push(padded_key[j]);
        j += 1;
    }
    let mut k: usize = 0;
    while k < 32
        invariant
            k <= 32,
            padded_key@.len() == 32,
            declared.wf(),
            input@.len() == 32 + k,
            input@.subrange(0, 32) =~= padded_key@,
            input@.subrange(32, input@.len() as int) =~= declared@.subrange(0, k as int),
        decreases 32 - k,
    {
        input.push(declared.bytes[k]);
        k += 1;
    }
    proof {
        assert(input@.len() == 64);
        assert(declared@.subrange(0, 32) =~= declared@);
        assert forall|i: int| 0 <= i < 64 implies input@[i] == (padded_key@ + declared@)[i] by {
            if i < 32 {
                assert(input@.subrange(0, 32)[i] == input@[i]);
            } else {
                assert(input@.subrange(32, 64)[i - 32] == input@[i]);
            }
        }
        assert(input@ =~= padded_key@ + declared@);
    }
    let digest = keccak256_bytes(&input);
    Word { bytes: digest }
}

/// Decodes, validates and pads a configured hex key, then derives the slot
/// of its mapping entry.
pub fn derive_entry_slot(key_hex: &str, width: u64, declared: &Word) -> (r: Result<
    Word,
    DigestError,
>)
    requires
        declared.wf(),
    ensures
        match r {
            Ok(w) => {
                &&& spec_key_bytes(key_hex@) matches Some(kb)
                &&& kb.len() <= 32
                &&& kb.len() <= width
                &&& w.wf()
                &&& w@ == mapping_slot_of(kb, declared@)
            },
            Err(e) => match spec_key_bytes(key_hex@) {
                Some(kb) => e == DigestError::KeyTooLongError && (kb.len() > 32 || kb.len()
                    > width),
                None => e == DigestError::ConfigError,
            },
        },
{
    let key_bytes = match crate::hexstr::hex_decode(key_hex) {
        Ok(b) => b,
        Err(e) => {
            return Err(e);
        },
    };
    let padded = match pad_key32(&key_bytes, width) {
        Ok(p) => p,
        Err(e) => {
            return Err(e);
        },
    };
    Ok(derive_mapping_slot(&padded, declared))
}

} // verus!
