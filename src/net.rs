use vstd::prelude::*;

use rand::Rng;

verus! {

/// Number of bytes of a packet or peer identifier.
pub const ID_SIZE: usize = 8;

/// Number of bytes of the big-endian length that precedes a message's channel.
pub const LEN_PREFIX_SIZE: usize = 8;

/// An 8-byte opaque identifier: a packet id or a peer id.
pub type Id = [u8; 8];

/// Relies on rand's thread_rng: a fresh random identifier, of which nothing
/// is known.
#[verifier::external_body]
pub(crate) fn random_id() -> (r: Id) {
    rand::thread_rng().gen()
}

/// Byte-wise comparison of two identifiers.
pub fn id_eq(a: &Id, b: &Id) -> (r: bool)
    ensures
        r == (a@ == b@),
{
    let mut i: usize = 0;
    while i < 8
        invariant
            0 <= i <= 8,
            forall|j: int| 0 <= j < i ==> a@[j] == b@[j],
        decreases 8 - i,
    {
        if a[i] != b[i] {
            return false;
        }
        i = i + 1;
    }
    assert(a@ =~= b@);
    true
}

/// Appends the bytes of `b` to `out`.
pub fn append_bytes(out: &mut Vec<u8>, b: &[u8])
    ensures
        final(out)@ == old(out)@ + b@,
{
    let mut i: usize = 0;
    while i < b.len()
        invariant
            i <= b@.len(),
            out@ == old(out)@ + b@.subrange(0, i as int),
        decreases b@.len() - i,
    {
        out.push(b[i]);
        i = i + 1;
        assert(out@ =~= old(out)@ + b@.subrange(0, i as int));
    }
    assert(b@.subrange(0, b@.len() as int) =~= b@);
}

/// Eight big-endian bytes of `n`.
pub open spec fn u64_be(n: u64) -> Seq<u8> {
    seq![
        (n >> 56u64) as u8,
        (n >> 48u64) as u8,
        (n >> 40u64) as u8,
        (n >> 32u64) as u8,
        (n >> 24u64) as u8,
        (n >> 16u64) as u8,
        (n >> 8u64) as u8,
        n as u8,
    ]
}

/// The number that eight big-endian bytes spell.
pub open spec fn be_u64(b: Seq<u8>) -> u64 {
    (b[0] as u64) << 56u64 | (b[1] as u64) << 48u64 | (b[2] as u64) << 40u64 | (b[3] as u64)
        << 32u64 | (b[4] as u64) << 24u64 | (b[5] as u64) << 16u64 | (b[6] as u64) << 8u64 | (
    b[7] as u64)
}

/// Four big-endian bytes of `n`.
pub open spec fn u32_be(n: u32) -> Seq<u8> {
    seq![(n >> 24u32) as u8, (n >> 16u32) as u8, (n >> 8u32) as u8, n as u8]
}

/// The number that four big-endian bytes spell.
pub open spec fn be_u32(b: Seq<u8>) -> u32 {
    (b[0] as u32) << 24u32 | (b[1] as u32) << 16u32 | (b[2] as u32) << 8u32 | (b[3] as u32)
}

pub fn u64_to_be(n: u64) -> (r: [u8; 8])
    ensures
        r@ == u64_be(n),
{
    let r: [u8; 8] = [
        (n >> 56u64) as u8,
        (n >> 48u64) as u8,
        (n >> 40u64) as u8,
        (n >> 32u64) as u8,
        (n >> 24u64) as u8,
        (n >> 16u64) as u8,
        (n >> 8u64) as u8,
        n as u8,
    ];
    assert(r@ =~= u64_be(n));
    r
}

pub fn be_to_u64(b: &[u8]) -> (r: u64)
    requires
        b@.len() == 8,
    ensures
        r == be_u64(b@),
{
    (b[0] as u64) << 56u64 | (b[1] as u64) << 48u64 | (b[2] as u64) << 40u64 | (b[3] as u64)
        << 32u64 | (b[4] as u64) << 24u64 | (b[5] as u64) << 16u64 | (b[6] as u64) << 8u64 | (
    b[7] as u64)
}

pub fn u32_to_be(n: u32) -> (r: [u8; 4])
    ensures
        r@ == u32_be(n),
{
    let r: [u8; 4] = [(n >> 24u32) as u8, (n >> 16u32) as u8, (n >> 8u32) as u8, n as u8];
    assert(r@ =~= u32_be(n));
    r
}

pub fn be_to_u32(b: &[u8]) -> (r: u32)
    requires
        b@.len() == 4,
    ensures
        r == be_u32(b@),
{
    (b[0] as u32) << 24u32 | (b[1] as u32) << 16u32 | (b[2] as u32) << 8u32 | (b[3] as u32)
}

/// Reading back the big-endian bytes of a number gives the number.
pub proof fn lemma_be_u64_round_trip(n: u64)
    ensures
        be_u64(u64_be(n)) == n,
{
    let b = u64_be(n);
    let (b0, b1, b2, b3, b4, b5, b6, b7) = (b[0], b[1], b[2], b[3], b[4], b[5], b[6], b[7]);
    assert(((b0 as u64) << 56u64 | (b1 as u64) << 48u64 | (b2 as u64) << 40u64 | (b3 as u64)
        << 32u64 | (b4 as u64) << 24u64 | (b5 as u64) << 16u64 | (b6 as u64) << 8u64 | (
    b7 as u64)) == n) by (bit_vector)
        requires
            b0 == (n >> 56u64) as u8,
            b1 == (n >> 48u64) as u8,
            b2 == (n >> 40u64) as u8,
            b3 == (n >> 32u64) as u8,
            b4 == (n >> 24u64) as u8,
            b5 == (n >> 16u64) as u8,
            b6 == (n >> 8u64) as u8,
            b7 == n as u8,
    ;
}

/// Reading back the big-endian bytes of a number gives the number.
pub proof fn lemma_be_u32_round_trip(n: u32)
    ensures
        be_u32(u32_be(n)) == n,
{
    let b = u32_be(n);
    let (b0, b1, b2, b3) = (b[0], b[1], b[2], b[3]);
    assert(((b0 as u32) << 24u32 | (b1 as u32) << 16u32 | (b2 as u32) << 8u32 | (b3 as u32))
        == n) by (bit_vector)
        requires
            b0 == (n >> 24u32) as u8,
            b1 == (n >> 16u32) as u8,
            b2 == (n >> 8u32) as u8,
            b3 == n as u8,
    ;
}

/// The value carried in the ARP Protocol-Type field of outbound frames.
#[derive(Copy, Clone, Debug, PartialEq, Eq, Structural)]
pub enum EtherType {
    Experimental1,
    Experimental2,
    IPv4,
}

impl EtherType {
    /// The 16-bit wire value of the selector.
    pub open spec fn value(self) -> u16 {
        match self {
            EtherType::Experimental1 => 0x88b5,
            EtherType::Experimental2 => 0x88b6,
            EtherType::IPv4 => 0x0800,
        }
    }

    /// The wire value as two big-endian bytes.
    pub open spec fn spec_bytes(self) -> Seq<u8> {
        seq![(self.value() / 256) as u8, (self.value() % 256) as u8]
    }

    pub fn bytes(&self) -> (r: [u8; 2])
        ensures
            r@ == self.spec_bytes(),
    {
        let r: [u8; 2] = match self {
            EtherType::Experimental1 => [0x88, 0xb5],
            EtherType::Experimental2 => [0x88, 0xb6],
            EtherType::IPv4 => [0x08, 0x00],
        };
        assert(r@ =~= self.spec_bytes());
        r
    }

    /// Every selector, in the order a picker lists them.
    pub fn iter() -> (r: Vec<EtherType>)
        ensures
            r@ == seq![EtherType::Experimental1, EtherType::Experimental2, EtherType::IPv4],
    {
        let r = vec![EtherType::Experimental1, EtherType::Experimental2, EtherType::IPv4];
        assert(r@ =~= seq![EtherType::Experimental1, EtherType::Experimental2, EtherType::IPv4]);
        r
    }

    /// Human-readable name with the hexadecimal wire value.
    pub fn label(&self) -> (r: String)
        ensures
            r@ == self.spec_label(),
    {
        match self {
            EtherType::Experimental1 => String::from_str("experimental 1 - 0x88b5"),
            EtherType::Experimental2 => String::from_str("experimental 2 - 0x88b6"),
            EtherType::IPv4 => String::from_str("ipv4 - 0x0800"),
        }
    }

    pub open spec fn spec_label(self) -> Seq<char> {
        match self {
            EtherType::Experimental1 => "experimental 1 - 0x88b5"@,
            EtherType::Experimental2 => "experimental 2 - 0x88b6"@,
            EtherType::IPv4 => "ipv4 - 0x0800"@,
        }
    }
}

impl Default for EtherType {
    fn default() -> (r: EtherType)
        ensures
            r == EtherType::Experimental1,
    {
        EtherType::Experimental1
    }
}

} // verus!
