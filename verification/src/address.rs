//! Addresses as fixed-width integers, and the big-endian decoding that
//! produces them from attribute payloads.

use vstd::prelude::*;

verus! {

/// The value of a byte sequence read as an unsigned big-endian integer.
pub open spec fn be_value(bytes: Seq<u8>) -> nat
    decreases bytes.len(),
{
    if bytes.len() == 0 {
        0
    } else {
        be_value(bytes.drop_last()) * 256 + bytes.last() as nat
    }
}

/// `256` raised to the power `n`.
pub open spec fn pow256(n: nat) -> nat
    decreases n,
{
    if n == 0 {
        1
    } else {
        256 * pow256((n - 1) as nat)
    }
}

/// A big-endian value of `n` bytes is below `256^n`.
pub proof fn lemma_be_value_bound(bytes: Seq<u8>)
    ensures
        be_value(bytes) < pow256(bytes.len()),
    decreases bytes.len(),
{
    if bytes.len() > 0 {
        lemma_be_value_bound(bytes.drop_last());
        let hi = be_value(bytes.drop_last());
        let p = pow256((bytes.len() - 1) as nat);
        assert(hi * 256 + 255 < 256 * p) by (nonlinear_arith)
            requires
                hi < p,
        ;
    }
}

/// `256^16` is `2^128`, and `256^15` leaves room for one more byte.
pub proof fn lemma_pow256_values()
    ensures
        pow256(4) == 0x1_0000_0000,
        pow256(6) == 0x1_0000_0000_0000,
        pow256(15) == 0x100_0000_0000_0000_0000_0000_0000_0000,
        pow256(16) == 0x1_0000_0000_0000_0000_0000_0000_0000_0000,
{
    reveal_with_fuel(pow256, 17);
}

/// `pow256` is monotone.
pub proof fn lemma_pow256_monotone(a: nat, b: nat)
    requires
        a <= b,
    ensures
        pow256(a) <= pow256(b),
    decreases b,
{
    if a < b {
        lemma_pow256_monotone(a, (b - 1) as nat);
    }
}

/// Reads up to sixteen bytes as one unsigned big-endian integer: the last
/// byte is the low-order one.
pub fn to_u128(v: &[u8]) -> (out: u128)
    requires
        1 <= v.len() <= 16,
    ensures
        out == be_value(v@),
{
    let mut out: u128 = 0;
    let mut i: usize = 0;
    while i < v.len()
        invariant
            i <= v.len() <= 16,
            out == be_value(v@.take(i as int)),
        decreases v.len() - i,
    {
        let x: u8 = v[i];
        proof {
            let prefix = v@.take(i as int);
            lemma_be_value_bound(prefix);
            lemma_pow256_monotone(i as nat, 15);
            lemma_pow256_values();
            assert(v@.take(i + 1).drop_last() =~= prefix);
            assert(out < 0x100_0000_0000_0000_0000_0000_0000_0000u128 ==> ((out << 8) | (x as u128))
                == out * 256 + (x as u128)) by (bit_vector);
        }
        out = (out << 8) | (x as u128);
        i += 1;
    }
    proof {
        assert(v@.take(v.len() as int) =~= v@);
    }
    out
}

/// An IP address of either family, held as the big-endian integer of its
/// octets.
#[derive(Clone, Copy, Debug, PartialEq, Eq, Structural)]
pub enum IpAddress {
    V4(u32),
    V6(u128),
}

/// The address family that a neighbour query asks for.
#[derive(Clone, Copy, Debug, PartialEq, Eq, Structural)]
pub enum IpVersion {
    V4,
    V6,
}

/// The group of all multicast addresses, `ff00::`.
pub const MULTICAST_PREFIX: u128 = 0xff00_0000_0000_0000_0000_0000_0000_0000;

/// The link-local group of all nodes, `ff02::1`.
pub const ALL_NODES: u128 = 0xff02_0000_0000_0000_0000_0000_0000_0001;

/// The link-local group of all routers, `ff02::2`.
pub const ALL_ROUTERS: u128 = 0xff02_0000_0000_0000_0000_0000_0000_0002;

impl IpAddress {
    /// The unspecified IPv4 address, `0.0.0.0`.
    pub open spec fn unspecified() -> IpAddress {
        IpAddress::V4(0)
    }

    /// Whether the address is an IPv4 address.
    pub open spec fn spec_is_ipv4(self) -> bool {
        self is V4
    }

    /// Whether the address belongs to the baseline of a host table: every
    /// IPv4 address does, and of IPv6 only the three reserved groups.
    pub open spec fn spec_is_baseline(self) -> bool {
        match self {
            IpAddress::V4(_) => true,
            IpAddress::V6(a) => a == MULTICAST_PREFIX || a == ALL_NODES || a == ALL_ROUTERS,
        }
    }

    /// The address that a destination payload denotes in the given family.
    pub open spec fn decoded(version: IpVersion, payload: Seq<u8>) -> IpAddress {
        match version {
            IpVersion::V4 => IpAddress::V4(be_value(payload.take(4)) as u32),
            IpVersion::V6 => IpAddress::V6(be_value(payload) as u128),
        }
    }

    /// Whether the address is an IPv4 address.
    #[verifier::when_used_as_spec(spec_is_ipv4)]
    pub fn is_ipv4(self) -> (b: bool)
        ensures
            b == self.spec_is_ipv4(),
    {
        match self {
            IpAddress::V4(_) => true,
            IpAddress::V6(_) => false,
        }
    }

    /// Whether the address belongs to the baseline of a host table.
    #[verifier::when_used_as_spec(spec_is_baseline)]
    pub fn is_baseline(self) -> (b: bool)
        ensures
            b == self.spec_is_baseline(),
    {
        match self {
            IpAddress::V4(_) => true,
            IpAddress::V6(a) => a == MULTICAST_PREFIX || a == ALL_NODES || a == ALL_ROUTERS,
        }
    }

    /// Decodes a destination payload: its first four bytes for IPv4, all of
    /// it (at most sixteen bytes) for IPv6.
    pub fn decode(version: IpVersion, payload: &[u8]) -> (a: IpAddress)
        requires
            version == IpVersion::V4 ==> payload.len() >= 4,
            version == IpVersion::V6 ==> 1 <= payload.len() <= 16,
        ensures
            a == IpAddress::decoded(version, payload@),
    {
        match version {
            IpVersion::V4 => {
                let head = vstd::slice::slice_subrange(payload, 0, 4);
                let value: u128 = to_u128(head);
                proof {
                    lemma_be_value_bound(head@);
                    lemma_pow256_values();
                    assert(head@ =~= payload@.take(4));
                }
                IpAddress::V4(value as u32)
            },
            IpVersion::V6 => IpAddress::V6(to_u128(payload)),
        }
    }
}

/// A six-byte link-layer address, held as the big-endian integer of its
/// bytes. Zero stands for an address that is not known.
#[derive(Clone, Copy, Debug, PartialEq, Eq, Structural)]
pub struct HardwareAddress {
    pub value: u64,
}

impl HardwareAddress {
    /// The address that stands for "not known".
    pub open spec fn spec_absent() -> HardwareAddress {
        HardwareAddress { value: 0 }
    }

    /// Whether the address is the one that stands for "not known".
    pub open spec fn spec_is_absent(self) -> bool {
        self.value == 0
    }

    /// The address that the first six bytes of a payload denote.
    pub open spec fn decoded(payload: Seq<u8>) -> HardwareAddress {
        HardwareAddress { value: be_value(payload.take(6)) as u64 }
    }

    /// The address that stands for "not known".
    #[verifier::when_used_as_spec(spec_absent)]
    pub fn absent() -> (a: HardwareAddress)
        ensures
            a == HardwareAddress::spec_absent(),
    {
        HardwareAddress { value: 0 }
    }

    /// Whether the address is the one that stands for "not known".
    #[verifier::when_used_as_spec(spec_is_absent)]
    pub fn is_absent(self) -> (b: bool)
        ensures
            b == self.spec_is_absent(),
    {
        self.value == 0
    }

    /// Whether the address fits in six bytes.
    pub open spec fn well_formed(self) -> bool {
        self.value < 0x1_0000_0000_0000
    }

    /// The six bytes of the address, the high-order one first.
    pub open spec fn spec_octets(self) -> Seq<u8> {
        seq![
            (self.value >> 40) as u8,
            (self.value >> 32) as u8,
            (self.value >> 24) as u8,
            (self.value >> 16) as u8,
            (self.value >> 8) as u8,
            self.value as u8,
        ]
    }

    /// Encodes the address as six bytes, the high-order one first.
    pub fn octets(self) -> (out: [u8; 6])
        ensures
            out@ == self.spec_octets(),
    {
        let v = self.value;
        let out = [
            (v >> 40) as u8,
            (v >> 32) as u8,
            (v >> 24) as u8,
            (v >> 16) as u8,
            (v >> 8) as u8,
            v as u8,
        ];
        proof {
            assert(out@ =~= self.spec_octets());
        }
        out
    }

    /// Decodes the first six bytes of a payload.
    pub fn decode(payload: &[u8]) -> (a: HardwareAddress)
        requires
            payload.len() >= 6,
        ensures
            a == HardwareAddress::decoded(payload@),
            a.well_formed(),
    {
        let head = vstd::slice::slice_subrange(payload, 0, 6);
        let value: u128 = to_u128(head);
        proof {
            lemma_be_value_bound(head@);
            lemma_pow256_values();
            assert(head@ =~= payload@.take(6));
        }
        HardwareAddress { value: value as u64 }
    }
}

/// The value of six bytes, written out.
pub proof fn lemma_be_value_six(bytes: Seq<u8>)
    requires
        bytes.len() == 6,
    ensures
        be_value(bytes) == ((((bytes[0] as nat * 256 + bytes[1] as nat) * 256 + bytes[2] as nat)
            * 256 + bytes[3] as nat) * 256 + bytes[4] as nat) * 256 + bytes[5] as nat,
{
    let b5 = bytes.drop_last();
    let b4 = b5.drop_last();
    let b3 = b4.drop_last();
    let b2 = b3.drop_last();
    let b1 = b2.drop_last();
    let b0 = b1.drop_last();
    assert(b0.len() == 0);
    assert(be_value(b0) == 0);
    assert(be_value(b1) == bytes[0] as nat);
    assert(be_value(b2) == be_value(b1) * 256 + bytes[1] as nat);
    assert(be_value(b3) == be_value(b2) * 256 + bytes[2] as nat);
    assert(be_value(b4) == be_value(b3) * 256 + bytes[3] as nat);
    assert(be_value(b5) == be_value(b4) * 256 + bytes[4] as nat);
    assert(be_value(bytes) == be_value(b5) * 256 + bytes[5] as nat);
}

/// Decoding the six bytes of an address gives the address back.
pub proof fn lemma_octets_decode(a: HardwareAddress)
    requires
        a.well_formed(),
    ensures
        HardwareAddress::decoded(a.spec_octets()) == a,
{
    let v = a.value;
    let bytes = a.spec_octets();
    assert(bytes.take(6) =~= bytes);
    lemma_be_value_six(bytes);
    assert(v < 0x1_0000_0000_0000 ==> v == ((((((v >> 40) as u8) as u64 * 256 + ((v >> 32) as u8)
        as u64) * 256 + ((v >> 24) as u8) as u64) * 256 + ((v >> 16) as u8) as u64) * 256 + ((v
        >> 8) as u8) as u64) * 256 + (v as u8) as u64) by (bit_vector);
}

/// Encoding the address that six bytes denote gives the six bytes back.
pub proof fn lemma_decode_octets(bytes: Seq<u8>)
    requires
        bytes.len() == 6,
    ensures
        HardwareAddress::decoded(bytes).spec_octets() == bytes,
        HardwareAddress::decoded(bytes).well_formed(),
{
    assert(bytes.take(6) =~= bytes);
    lemma_be_value_six(bytes);
    lemma_be_value_bound(bytes);
    lemma_pow256_values();
    let b0 = bytes[0];
    let b1 = bytes[1];
    let b2 = bytes[2];
    let b3 = bytes[3];
    let b4 = bytes[4];
    let b5 = bytes[5];
    let v: u64 = (((((b0 as u64 * 256 + b1 as u64) * 256 + b2 as u64) * 256 + b3 as u64) * 256
        + b4 as u64) * 256 + b5 as u64) as u64;
    assert(be_value(bytes) == v);
    assert({
        let w: u64 = (((((b0 as u64 * 256 + b1 as u64) * 256 + b2 as u64) * 256 + b3 as u64)
            * 256 + b4 as u64) * 256 + b5 as u64) as u64;
        &&& (w >> 40) as u8 == b0
        &&& (w >> 32) as u8 == b1
        &&& (w >> 24) as u8 == b2
        &&& (w >> 16) as u8 == b3
        &&& (w >> 8) as u8 == b4
        &&& w as u8 == b5
    }) by (bit_vector);
    assert(HardwareAddress::decoded(bytes).spec_octets() =~= bytes);
}

} // verus!
