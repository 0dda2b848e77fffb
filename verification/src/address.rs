//! Scan targets' addresses: a single IP address or a CIDR block, and the
//! expansion of either into the finite sequence of addresses to probe.
use vstd::prelude::*;
use vstd::arithmetic::power2::{pow2, lemma_pow2_adds, lemma_pow2_strictly_increases, lemma2_to64};
use vstd::arithmetic::div_mod::{lemma_fundamental_div_mod, lemma_mod_multiples_basic};
use vstd::bits::lemma_u64_shl_is_mul;

verus! {

/// An IP address, held as its numeric value: 32 bits for IPv4, 128 for IPv6.
#[derive(Clone, Copy, PartialEq, Eq, Structural, Debug)]
pub enum IpAddress {
    V4(u32),
    V6(u128),
}

impl IpAddress {
    /// The address as a plain number, whatever the family.
    pub open spec fn value(self) -> nat {
        match self {
            IpAddress::V4(x) => x as nat,
            IpAddress::V6(x) => x as nat,
        }
    }
}

/// A CIDR block: the network's base address plus the prefix length.
/// Well-formedness (`wf`) asks that the prefix fit the address family and
/// that the base have no host bits set, which is exactly what a parsed CIDR
/// notation guarantees.
#[derive(Clone, Copy, PartialEq, Eq, Structural, Debug)]
#[allow(inconsistent_fields)]
pub enum CidrBlock {
    V4 { base: u32, prefix: u8 },
    V6 { base: u128, prefix: u8 },
}

impl CidrBlock {
    /// The base address as a plain number.
    pub open spec fn base_val(self) -> nat {
        match self {
            CidrBlock::V4 { base, .. } => base as nat,
            CidrBlock::V6 { base, .. } => base as nat,
        }
    }

    /// How many bits of the address the prefix leaves free.
    pub open spec fn host_bits(self) -> nat {
        match self {
            CidrBlock::V4 { prefix, .. } => (32 - prefix) as nat,
            CidrBlock::V6 { prefix, .. } => (128 - prefix) as nat,
        }
    }

    /// One past the largest address value of the block's family.
    pub open spec fn family_size(self) -> nat {
        match self {
            CidrBlock::V4 { .. } => 0x1_0000_0000,
            CidrBlock::V6 { .. } => u128::MAX as nat + 1,
        }
    }

    /// The prefix fits the family and the base is aligned to the block.
    pub open spec fn wf(self) -> bool {
        (match self {
            CidrBlock::V4 { prefix, .. } => prefix <= 32,
            CidrBlock::V6 { prefix, .. } => prefix <= 128,
        }) && self.base_val() % pow2(self.host_bits()) == 0
    }

    /// How many addresses the block enumerates.
    pub open spec fn count(self) -> nat {
        pow2(self.host_bits())
    }

    /// The addresses of the block, lowest to highest: every address the
    /// block enumerates is scanned, network and broadcast addresses included.
    pub open spec fn addresses(self) -> Seq<IpAddress> {
        match self {
            CidrBlock::V4 { base, .. } => Seq::new(
                self.count(),
                |i: int| IpAddress::V4((base + i) as u32),
            ),
            CidrBlock::V6 { base, .. } => Seq::new(
                self.count(),
                |i: int| IpAddress::V6((base + i) as u128),
            ),
        }
    }

    /// Membership: the address is of the block's family and lies in the
    /// block's numeric range.
    pub open spec fn has_member(self, a: IpAddress) -> bool {
        match (self, a) {
            (CidrBlock::V4 { .. }, IpAddress::V4(x)) => self.base_val() <= x < self.base_val()
                + self.count(),
            (CidrBlock::V6 { .. }, IpAddress::V6(x)) => self.base_val() <= x < self.base_val()
                + self.count(),
            _ => false,
        }
    }
}

/// An aligned value a whole step below its bound stays below it: if `base`
/// is a multiple of `m` and smaller than a bound that is also a multiple of
/// `m`, then `base + m` still does not pass the bound.
proof fn lemma_aligned_below(base: nat, m: nat, bound: nat)
    requires
        m > 0,
        base % m == 0,
        base < bound,
        bound % m == 0,
    ensures
        base + m <= bound,
{
    let q = base / m;
    let r = bound / m;
    lemma_fundamental_div_mod(base as int, m as int);
    lemma_fundamental_div_mod(bound as int, m as int);
    assert(base == q * m);
    assert(bound == r * m);
    assert(q < r) by (nonlinear_arith)
        requires
            base == q * m,
            bound == r * m,
            base < bound,
            m > 0,
            q >= 0,
            r >= 0,
    ;
    assert((q + 1) * m <= r * m) by (nonlinear_arith)
        requires
            q < r,
            m > 0,
            q >= 0,
    ;
    assert((q + 1) * m == q * m + m) by (nonlinear_arith);
}

/// A well-formed block lies wholly inside its address family: its base plus
/// its size does not pass the family's end.
pub proof fn lemma_block_fits(b: CidrBlock)
    requires
        b.wf(),
    ensures
        b.base_val() + b.count() <= b.family_size(),
{
    let m = pow2(b.host_bits());
    let bound = b.family_size();
    let fam_bits: nat = match b {
        CidrBlock::V4 { .. } => 32,
        CidrBlock::V6 { .. } => 128,
    };
    assert(pow2(fam_bits) == bound) by {
        lemma2_to64();
        lemma_pow2_adds(64, 64);
    }
    lemma_pow2_adds((fam_bits - b.host_bits()) as nat, b.host_bits());
    lemma_mod_multiples_basic(pow2((fam_bits - b.host_bits()) as nat) as int, m as int);
    assert(bound % m == 0);
    assert(b.base_val() < bound);
    lemma_aligned_below(b.base_val(), m, bound);
}

/// Where a scan's addresses come from: one literal address, or every address
/// of a CIDR block.
#[derive(Clone, Copy, PartialEq, Eq, Structural, Debug)]
pub enum AddressSource {
    Single(IpAddress),
    Cidr(CidrBlock),
}

impl AddressSource {
    pub open spec fn wf(self) -> bool {
        match self {
            AddressSource::Single(_) => true,
            AddressSource::Cidr(b) => b.wf(),
        }
    }

    /// The full sequence of addresses the source enumerates.
    pub open spec fn addresses(self) -> Seq<IpAddress> {
        match self {
            AddressSource::Single(a) => seq![a],
            AddressSource::Cidr(b) => b.addresses(),
        }
    }
}

/// From the size of a block that fits in memory, its host-bit width is small:
/// `pow2(host_bits) <= usize::MAX` forces `host_bits < 64`.
proof fn lemma_small_host_bits(host_bits: nat)
    requires
        pow2(host_bits) <= usize::MAX,
    ensures
        host_bits < 64,
{
    if host_bits >= 64 {
        lemma2_to64();
        if host_bits > 64 {
            lemma_pow2_strictly_increases(64, host_bits);
        }
        assert(pow2(host_bits) >= 0x1_0000_0000_0000_0000);
    }
}

/// Expand a source into the concrete list of addresses to scan: exactly the
/// sequence the source enumerates, a single address or a whole block, lowest
/// to highest.
pub fn expand(source: &AddressSource) -> (r: Vec<IpAddress>)
    requires
        source.wf(),
        source.addresses().len() <= usize::MAX,
    ensures
        r@ == source.addresses(),
{
    match source {
        AddressSource::Single(a) => {
            let mut v: Vec<IpAddress> = Vec::new();
            v.push(*a);
            proof {
                assert(v@ =~= source.addresses());
            }
            v
        },
        AddressSource::Cidr(b) => {
            match *b {
                CidrBlock::V4 { base, prefix } => {
                    let shift: u8 = 32 - prefix;
                    proof {
                        lemma2_to64();
                        if (shift as nat) < 32 {
                            lemma_pow2_strictly_increases(shift as nat, 32);
                        }
                        lemma_u64_shl_is_mul(1u64, shift as u64);
                        lemma_block_fits(*b);
                    }
                    let count: u64 = 1u64 << shift;
                    let mut v: Vec<IpAddress> = Vec::new();
                    let mut i: u64 = 0;
                    while i < count
                        invariant
                            i <= count,
                            count == b.count(),
                            *b == (CidrBlock::V4 { base, prefix }),
                            *source == AddressSource::Cidr(*b),
                            b.wf(),
                            base + count <= 0x1_0000_0000,
                            v@.len() == i,
                            forall|j: int| 0 <= j < i ==> v@[j] == source.addresses()[j],
                        decreases count - i,
                    {
                        let a: u32 = base + (i as u32);
                        v.push(IpAddress::V4(a));
                        i = i + 1;
                    }
                    proof {
                        assert(v@ =~= source.addresses());
                    }
                    v
                },
                CidrBlock::V6 { base, prefix } => {
                    let shift: u8 = 128 - prefix;
                    proof {
                        lemma_small_host_bits(shift as nat);
                        lemma2_to64();
                        if (shift as nat) < 64 {
                            lemma_pow2_strictly_increases(shift as nat, 64);
                        }
                        lemma_u64_shl_is_mul(1u64, shift as u64);
                        lemma_block_fits(*b);
                    }
                    let count: u64 = 1u64 << shift;
                    let mut v: Vec<IpAddress> = Vec::new();
                    let mut i: u64 = 0;
                    while i < count
                        invariant
                            i <= count,
                            count == b.count(),
                            *b == (CidrBlock::V6 { base, prefix }),
                            *source == AddressSource::Cidr(*b),
                            b.wf(),
                            base + count <= u128::MAX as nat + 1,
                            v@.len() == i,
                            forall|j: int| 0 <= j < i ==> v@[j] == source.addresses()[j],
                        decreases count - i,
                    {
                        let a: u128 = base + (i as u128);
                        v.push(IpAddress::V6(a));
                        i = i + 1;
                    }
                    proof {
                        assert(v@ =~= source.addresses());
                    }
                    v
                },
            }
        },
    }
}

/// Law: a CIDR block expands to exactly its own number of addresses, each a
/// member of the block, with no address repeated and none left out, in
/// ascending numeric order.
pub proof fn lemma_cidr_expansion_exact(b: CidrBlock)
    requires
        b.wf(),
    ensures
        b.addresses().len() == b.count(),
        forall|i: int|
            0 <= i < b.addresses().len() ==> b.has_member(#[trigger] b.addresses()[i]),
        b.addresses().no_duplicates(),
        forall|a: IpAddress| b.has_member(a) ==> b.addresses().contains(a),
        forall|i: int, j: int|
            0 <= i < j < b.addresses().len() ==> b.addresses()[i].value()
                < b.addresses()[j].value(),
{
    lemma_block_fits(b);
    assert forall|a: IpAddress| b.has_member(a) implies b.addresses().contains(a) by {
        let k = match a {
            IpAddress::V4(x) => x as int - b.base_val(),
            IpAddress::V6(x) => x as int - b.base_val(),
        };
        assert(b.addresses()[k] == a);
    }
}

/// Law: a well-formed source never enumerates the same address twice.
pub proof fn lemma_addresses_distinct(source: AddressSource)
    requires
        source.wf(),
    ensures
        source.addresses().no_duplicates(),
{
    match source {
        AddressSource::Single(_) => {},
        AddressSource::Cidr(b) => {
            lemma_cidr_expansion_exact(b);
        },
    }
}

} // verus!
