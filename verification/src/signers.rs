//! Who signed the empty steps that a header seals.
//!
//! The signer of an empty step is recovered from its signature over the
//! step's message: the Keccak-256 digest of the RLP list that holds the step
//! and the hash of the header's parent. A signature from which no key can be
//! recovered names no signer and is passed over.

use crate::address_set::AddressSet;
use crate::primitives::{
    lemma_be_value_bound, lemma_pow256_bounds, pow256, read_be, Address, Header, SealedEmptyStep,
    H256,
};
use vstd::prelude::*;

verus! {

/// The Keccak-256 digest of `data`, as `sp_io::hashing::keccak_256` computes
/// it.
pub uninterp spec fn keccak_256(data: Seq<u8>) -> Seq<u8>;

/// The 64-byte public key that `sp_io::crypto::secp256k1_ecdsa_recover`
/// recovers from a 65-byte signature over a 32-byte message, if it recovers
/// one.
pub uninterp spec fn secp256k1_recover(signature: Seq<u8>, message: Seq<u8>) -> Option<Seq<u8>>;

/// Calls `sp_io::hashing::keccak_256`. The digest is a function of the data
/// alone; nothing else is claimed of it.
#[verifier::external_body]
fn keccak(data: &[u8]) -> (r: [u8; 32])
    ensures
        r@ == keccak_256(data@),
{
    sp_io::hashing::keccak_256(data)
}

/// Calls `sp_io::crypto::secp256k1_ecdsa_recover` and drops the reason of a
/// failure. Whether a key is recovered, and which, is a function of the
/// signature and the message alone; nothing else is claimed of it.
#[verifier::external_body]
fn recover(signature: &[u8; 65], message: &[u8; 32]) -> (r: Option<[u8; 64]>)
    ensures
        match r {
            Some(public) => secp256k1_recover(signature@, message@) == Some(public@),
            None => secp256k1_recover(signature@, message@) is None,
        },
{
    sp_io::crypto::secp256k1_ecdsa_recover(signature, message).ok()
}

/// The base-256 digits of `x`, most significant first, without leading zeros.
pub open spec fn be_minimal(x: nat) -> Seq<u8>
    decreases x,
{
    if x == 0 {
        Seq::empty()
    } else {
        be_minimal(x / 256).push((x % 256) as u8)
    }
}

/// The RLP item of an unsigned number: the number itself where it is a
/// single byte below `0x80`, else its digits behind a byte that gives their
/// count.
pub open spec fn rlp_number(x: u64) -> Seq<u8> {
    if 0 < x < 0x80 {
        seq![x as u8]
    } else {
        seq![(0x80 + be_minimal(x as nat).len()) as u8] + be_minimal(x as nat)
    }
}

/// The RLP item of a 32-byte digest.
pub open spec fn rlp_digest(h: H256) -> Seq<u8> {
    seq![0xa0u8] + h.bytes()
}

/// The RLP list of a step and a parent hash.
pub open spec fn empty_step_rlp(step: u64, parent_hash: H256) -> Seq<u8> {
    let payload = rlp_number(step) + rlp_digest(parent_hash);
    seq![(0xc0 + payload.len()) as u8] + payload
}

/// The message that the signer of an empty step signs.
pub open spec fn empty_step_message(step: u64, parent_hash: H256) -> Seq<u8> {
    keccak_256(empty_step_rlp(step, parent_hash))
}

/// The address of a public key: the last twenty bytes of its digest.
pub open spec fn address_of_public(public: Seq<u8>) -> Address {
    Address::of_bytes(keccak_256(public).subrange(12, 32))
}

/// The signer of an empty step sealed in a header whose parent has the hash
/// `parent_hash`, if its signature yields one.
pub open spec fn step_signer(empty_step: SealedEmptyStep, parent_hash: H256) -> Option<Address> {
    match secp256k1_recover(
        empty_step.signature@,
        empty_step_message(empty_step.step, parent_hash),
    ) {
        Some(public) => Some(address_of_public(public)),
        None => None,
    }
}

/// The signers of the first `n` empty steps of `header`.
pub open spec fn signers_among(header: Header, n: int) -> Set<Address> {
    Set::new(
        |a: Address|
            exists|i: int|
                0 <= i < n && i < header.empty_steps@.len() && step_signer(
                    #[trigger] header.empty_steps@[i],
                    header.parent_hash,
                ) == Some(a),
    )
}

/// The signers of the empty steps of `header`.
pub open spec fn signers_of_empty_steps(header: Header) -> Set<Address> {
    signers_among(header, header.empty_steps@.len() as int)
}

/// A number below `256^n` has at most `n` digits.
pub proof fn lemma_be_minimal_len(x: nat, n: nat)
    requires
        x < pow256(n),
    ensures
        be_minimal(x).len() <= n,
    decreases n,
{
    if x > 0 {
        lemma_be_minimal_len(x / 256, (n - 1) as nat);
    }
}

/// The digits of `x`, most significant first, without leading zeros.
pub fn minimal_digits(x: u64) -> (r: Vec<u8>)
    ensures
        r@ == be_minimal(x as nat),
        r@.len() <= 8,
    decreases x,
{
    proof {
        lemma_pow256_bounds(8);
        lemma_be_minimal_len(x as nat, 8);
    }
    if x == 0 {
        Vec::new()
    } else {
        let mut out = minimal_digits(x / 256);
        out.push((x % 256) as u8);
        out
    }
}

/// Encodes the RLP list of a step and a parent hash.
pub fn encode_empty_step(step: u64, parent_hash: &H256) -> (r: Vec<u8>)
    ensures
        r@ == empty_step_rlp(step, *parent_hash),
{
    let mut number: Vec<u8> = Vec::new();
    if 0 < step && step < 0x80 {
        number.push(step as u8);
    } else {
        let mut digits = minimal_digits(step);
        number.push(0x80 + digits.len() as u8);
        number.append(&mut digits);
    }
    assert(number@ =~= rlp_number(step));
    let mut digest = parent_hash.to_bytes();
    let mut out: Vec<u8> = Vec::new();
    out.push(0xc0 + (number.len() + 33) as u8);
    out.append(&mut number);
    out.push(0xa0);
    out.append(&mut digest);
    assert(out@ =~= empty_step_rlp(step, *parent_hash));
    out
}

/// The address that the last twenty bytes of a digest spell.
pub fn address_from_digest(digest: &[u8; 32]) -> (r: Address)
    ensures
        r == Address::of_bytes(digest@.subrange(12, 32)),
{
    let s = digest.as_slice();
    let hi = read_be(s, 12, 16);
    let lo = read_be(s, 16, 32);
    proof {
        let tail = digest@.subrange(12, 32);
        assert(tail.subrange(0, 4) =~= digest@.subrange(12, 16));
        assert(tail.subrange(4, 20) =~= digest@.subrange(16, 32));
        lemma_be_value_bound(digest@.subrange(12, 16));
        lemma_pow256_bounds(4);
    }
    Address { hi: hi as u32, lo }
}

/// The address of a 64-byte public key.
pub fn public_to_address(public: &[u8; 64]) -> (r: Address)
    ensures
        r == address_of_public(public@),
{
    let digest = keccak(public.as_slice());
    address_from_digest(&digest)
}

/// The signer of `empty_step`, sealed in a header whose parent has the hash
/// `parent_hash`; `None` where its signature yields no key.
pub fn empty_step_signer(empty_step: &SealedEmptyStep, parent_hash: &H256) -> (r: Option<Address>)
    ensures
        r == step_signer(*empty_step, *parent_hash),
{
    let encoded = encode_empty_step(empty_step.step, parent_hash);
    let message = keccak(encoded.as_slice());
    match recover(&empty_step.signature, &message) {
        Some(public) => Some(public_to_address(&public)),
        None => None,
    }
}

/// The signers of the empty steps that `header` seals, each once.
pub fn empty_steps_signers(header: &Header) -> (r: AddressSet)
    ensures
        r@ == signers_of_empty_steps(*header),
{
    let mut signers = AddressSet::new();
    let mut i: usize = 0;
    assert(signers_among(*header, 0) =~= Set::<Address>::empty());
    while i < header.empty_steps.len()
        invariant
            i <= header.empty_steps@.len(),
            signers@ == signers_among(*header, i as int),
        decreases header.empty_steps@.len() - i,
    {
        let found = empty_step_signer(&header.empty_steps[i], &header.parent_hash);
        proof {
            let before = signers_among(*header, i as int);
            let after = signers_among(*header, i + 1);
            let added = step_signer(header.empty_steps@[i as int], header.parent_hash);
            assert forall|a: Address| after.contains(a) <==> (before.contains(a) || added == Some(
                a,
            )) by {
                if after.contains(a) {
                    let k = choose|k: int|
                        0 <= k < i + 1 && k < header.empty_steps@.len() && step_signer(
                            #[trigger] header.empty_steps@[k],
                            header.parent_hash,
                        ) == Some(a);
                    if k < i {
                        assert(before.contains(a));
                    }
                }
                if before.contains(a) {
                    let k = choose|k: int|
                        0 <= k < i && k < header.empty_steps@.len() && step_signer(
                            #[trigger] header.empty_steps@[k],
                            header.parent_hash,
                        ) == Some(a);
                    assert(0 <= k < i + 1);
                }
            }
            match added {
                Some(a) => {
                    assert(after =~= before.insert(a));
                },
                None => {
                    assert(after =~= before);
                },
            }
        }
        match found {
            Some(signer) => {
                signers.insert(signer);
            },
            None => {},
        }
        i = i + 1;
    }
    signers
}

} // verus!
