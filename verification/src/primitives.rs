//! Block identities, headers and validator addresses, and how their bytes
//! are read as big-endian numbers.

use vstd::prelude::*;

verus! {

/// 256 to the power `n`.
pub open spec fn pow256(n: nat) -> nat
    decreases n,
{
    if n == 0 {
        1
    } else {
        256 * pow256((n - 1) as nat)
    }
}

/// The number that `bytes` spell, most significant byte first.
pub open spec fn be_value(bytes: Seq<u8>) -> nat
    decreases bytes.len(),
{
    if bytes.len() == 0 {
        0
    } else {
        be_value(bytes.drop_last()) * 256 + bytes.last() as nat
    }
}

/// The last `n` base-256 digits of `x`, most significant first.
pub open spec fn be_bytes(x: nat, n: nat) -> Seq<u8>
    decreases n,
{
    if n == 0 {
        Seq::empty()
    } else {
        be_bytes(x / 256, (n - 1) as nat).push((x % 256) as u8)
    }
}

/// `pow256` never shrinks, and sixteen bytes make 128 bits.
pub proof fn lemma_pow256_bounds(n: nat)
    requires
        n <= 16,
    ensures
        0 < pow256(n) <= pow256(16),
        pow256(4) == 0x1_0000_0000,
        pow256(8) == 0x1_0000_0000_0000_0000,
        pow256(16) == 0x1_0000_0000_0000_0000_0000_0000_0000_0000,
    decreases 16 - n,
{
    reveal_with_fuel(pow256, 5);
    assert(pow256(4) == 0x1_0000_0000);
    assert(pow256(8) == 0x1_0000_0000 * pow256(4));
    assert(pow256(12) == 0x1_0000_0000 * pow256(8));
    assert(pow256(16) == 0x1_0000_0000 * pow256(12));
    if n < 16 {
        lemma_pow256_bounds(n + 1);
    }
}

/// A number of `n` bytes is below `256^n`.
pub proof fn lemma_be_value_bound(bytes: Seq<u8>)
    ensures
        be_value(bytes) < pow256(bytes.len()),
    decreases bytes.len(),
{
    if bytes.len() > 0 {
        lemma_be_value_bound(bytes.drop_last());
    }
}

/// Writing a number out in `n` bytes and reading it back gives the number,
/// as long as it fits in `n` bytes.
pub proof fn lemma_be_round_trip(x: nat, n: nat)
    requires
        x < pow256(n),
    ensures
        be_bytes(x, n).len() == n,
        be_value(be_bytes(x, n)) == x,
    decreases n,
{
    if n > 0 {
        lemma_be_round_trip(x / 256, (n - 1) as nat);
        let shorter = be_bytes(x / 256, (n - 1) as nat);
        assert(shorter.push((x % 256) as u8).drop_last() =~= shorter);
    }
}

/// Reading bytes and writing the number out again gives the bytes.
pub proof fn lemma_be_bytes_of_value(bytes: Seq<u8>)
    ensures
        be_bytes(be_value(bytes), bytes.len()) == bytes,
    decreases bytes.len(),
{
    if bytes.len() > 0 {
        let shorter = bytes.drop_last();
        lemma_be_bytes_of_value(shorter);
        let x = be_value(bytes);
        assert(x / 256 == be_value(shorter));
        assert(x % 256 == bytes.last() as nat);
        assert(shorter.push(bytes.last()) =~= bytes);
    }
}

/// Reads `bytes[from..to]`, at most sixteen bytes, as a big-endian number.
pub fn read_be(bytes: &[u8], from: usize, to: usize) -> (r: u128)
    requires
        from <= to <= bytes@.len(),
        to - from <= 16,
    ensures
        r == be_value(bytes@.subrange(from as int, to as int)),
{
    let mut acc: u128 = 0;
    let mut i: usize = from;
    while i < to
        invariant
            from <= i <= to <= bytes@.len(),
            to - from <= 16,
            acc == be_value(bytes@.subrange(from as int, i as int)),
        decreases to - i,
    {
        proof {
            let read = bytes@.subrange(from as int, i as int);
            let next = bytes@.subrange(from as int, i + 1);
            lemma_be_value_bound(read);
            lemma_pow256_bounds((i - from + 1) as nat);
            assert(next.drop_last() =~= read);
            assert(next.last() == bytes@[i as int]);
        }
        acc = acc * 256 + bytes[i] as u128;
        i = i + 1;
    }
    acc
}

/// Writes the last `n` base-256 digits of `x`, most significant first.
pub fn write_be(x: u128, n: usize) -> (r: Vec<u8>)
    ensures
        r@ == be_bytes(x as nat, n as nat),
    decreases n,
{
    if n == 0 {
        Vec::new()
    } else {
        let mut out = write_be(x / 256, n - 1);
        out.push((x % 256) as u8);
        out
    }
}

/// A validator's address: twenty bytes, held as two big-endian numbers so
/// that comparing `(hi, lo)` compares the bytes in their order.
#[derive(Clone, Copy, Debug, PartialEq, Eq, Structural, PartialOrd, Ord, Hash, Default)]
pub struct Address {
    /// The first four bytes.
    pub hi: u32,
    /// The last sixteen bytes.
    pub lo: u128,
}

impl Address {
    /// The twenty bytes of this address.
    pub open spec fn bytes(self) -> Seq<u8> {
        be_bytes(self.hi as nat, 4) + be_bytes(self.lo as nat, 16)
    }

    /// The address that twenty bytes spell.
    pub open spec fn of_bytes(bytes: Seq<u8>) -> Address {
        Address {
            hi: be_value(bytes.subrange(0, 4)) as u32,
            lo: be_value(bytes.subrange(4, 20)) as u128,
        }
    }

    /// Byte order: `self` comes before `other`.
    pub open spec fn precedes(self, other: Address) -> bool {
        self.hi < other.hi || (self.hi == other.hi && self.lo < other.lo)
    }

    /// Reads an address from its twenty bytes.
    pub fn from_bytes(bytes: &[u8; 20]) -> (r: Address)
        ensures
            r == Address::of_bytes(bytes@),
            r.bytes() == bytes@,
    {
        let s = bytes.as_slice();
        let hi = read_be(s, 0, 4);
        let lo = read_be(s, 4, 20);
        proof {
            let a = bytes@.subrange(0, 4);
            let b = bytes@.subrange(4, 20);
            lemma_be_value_bound(a);
            lemma_be_value_bound(b);
            lemma_pow256_bounds(4);
            lemma_be_bytes_of_value(a);
            lemma_be_bytes_of_value(b);
            assert(a + b =~= bytes@);
        }
        Address { hi: hi as u32, lo }
    }

    /// The twenty bytes of this address.
    pub fn to_bytes(&self) -> (r: Vec<u8>)
        ensures
            r@ == self.bytes(),
            r@.len() == 20,
            Address::of_bytes(r@) == *self,
    {
        let mut out = write_be(self.hi as u128, 4);
        let mut low = write_be(self.lo, 16);
        proof {
            lemma_pow256_bounds(4);
            lemma_be_round_trip(self.hi as nat, 4);
            lemma_be_round_trip(self.lo as nat, 16);
            let whole = out@ + low@;
            assert(whole.subrange(0, 4) =~= out@);
            assert(whole.subrange(4, 20) =~= low@);
        }
        out.append(&mut low);
        out
    }

    /// Whether `self` comes before `other` in byte order.
    pub fn lt(&self, other: &Address) -> (r: bool)
        ensures
            r == self.precedes(*other),
    {
        self.hi < other.hi || (self.hi == other.hi && self.lo < other.lo)
    }
}

/// A 32-byte digest, held as two big-endian numbers of sixteen bytes each.
#[derive(Clone, Copy, Debug, PartialEq, Eq, Structural, PartialOrd, Ord, Hash, Default)]
pub struct H256 {
    /// The first sixteen bytes.
    pub hi: u128,
    /// The last sixteen bytes.
    pub lo: u128,
}

impl H256 {
    /// The 32 bytes of this digest.
    pub open spec fn bytes(self) -> Seq<u8> {
        be_bytes(self.hi as nat, 16) + be_bytes(self.lo as nat, 16)
    }

    /// The digest that 32 bytes spell.
    pub open spec fn of_bytes(bytes: Seq<u8>) -> H256 {
        H256 {
            hi: be_value(bytes.subrange(0, 16)) as u128,
            lo: be_value(bytes.subrange(16, 32)) as u128,
        }
    }

    /// Reads a digest from its 32 bytes.
    pub fn from_bytes(bytes: &[u8; 32]) -> (r: H256)
        ensures
            r == H256::of_bytes(bytes@),
            r.bytes() == bytes@,
    {
        let s = bytes.as_slice();
        let hi = read_be(s, 0, 16);
        let lo = read_be(s, 16, 32);
        proof {
            let a = bytes@.subrange(0, 16);
            let b = bytes@.subrange(16, 32);
            lemma_be_bytes_of_value(a);
            lemma_be_bytes_of_value(b);
            assert(a + b =~= bytes@);
        }
        H256 { hi, lo }
    }

    /// The 32 bytes of this digest.
    pub fn to_bytes(&self) -> (r: Vec<u8>)
        ensures
            r@ == self.bytes(),
            r@.len() == 32,
            H256::of_bytes(r@) == *self,
    {
        let mut out = write_be(self.hi, 16);
        let mut low = write_be(self.lo, 16);
        proof {
            lemma_pow256_bounds(16);
            lemma_be_round_trip(self.hi as nat, 16);
            lemma_be_round_trip(self.lo as nat, 16);
            let whole = out@ + low@;
            assert(whole.subrange(0, 16) =~= out@);
            assert(whole.subrange(16, 32) =~= low@);
        }
        out.append(&mut low);
        out
    }
}

/// The identity of a block: its number and its hash.
#[derive(Clone, Copy, Debug, PartialEq, Eq, Structural, PartialOrd, Ord, Hash, Default)]
pub struct HeaderId {
    /// The block's number.
    pub number: u64,
    /// The block's hash.
    pub hash: H256,
}

/// A validator's signed statement that the step `step` passed without a block.
#[derive(Clone, Copy, Debug, PartialEq, Eq)]
pub struct SealedEmptyStep {
    /// The 65 signature bytes: `r`, `s`, and the recovery byte.
    pub signature: [u8; 65],
    /// The step that was left empty.
    pub step: u64,
}

/// What the finality rules read of a block header.
#[derive(Clone, Debug, PartialEq, Eq, Default)]
pub struct Header {
    /// The validator that authored the block.
    pub author: Address,
    /// The hash of the parent block.
    pub parent_hash: H256,
    /// The block's number.
    pub number: u64,
    /// The empty steps sealed in the block.
    pub empty_steps: Vec<SealedEmptyStep>,
}

/// Why a header is refused.
#[derive(Clone, Copy, Debug, PartialEq, Eq, Structural)]
pub enum Error {
    /// The header's author, or a signer credited to one of its ancestors, is
    /// not in the validator set.
    NotValidator,
}

} // verus!
