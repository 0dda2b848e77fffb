//! The scan scheduler's plan: a validated request expands into the full
//! cartesian set of (address, port) targets, one probe per pair.
use vstd::prelude::*;
use vstd::arithmetic::div_mod::lemma_fundamental_div_mod_converse;
use crate::address::{AddressSource, IpAddress, expand, lemma_addresses_distinct};

verus! {

/// One unit of work: probe this address on this port.
#[derive(Clone, Copy, PartialEq, Eq, Structural, Debug)]
pub struct ScanTarget {
    pub addr: IpAddress,
    pub port: u16,
}

/// A validated scan request: where to probe and which inclusive port range.
/// Validation happened upstream; `wf` records what it guarantees.
#[derive(Clone, Copy, PartialEq, Eq, Structural, Debug)]
pub struct ScanRequest {
    pub target: AddressSource,
    pub port_start: u16,
    pub port_end: u16,
}

impl ScanRequest {
    pub open spec fn wf(self) -> bool {
        &&& self.target.wf()
        &&& 1 <= self.port_start
        &&& self.port_start <= self.port_end
    }

    /// How many ports the inclusive range covers.
    pub open spec fn port_count(self) -> nat {
        (self.port_end - self.port_start + 1) as nat
    }

    /// The ports to probe, in ascending order.
    pub open spec fn ports(self) -> Seq<u16> {
        Seq::new(self.port_count(), |i: int| (self.port_start + i) as u16)
    }

    /// The whole scan plan: for each address, one target per port of the
    /// range, grouped by address and ascending in both coordinates.
    pub open spec fn targets(self) -> Seq<ScanTarget> {
        let addrs = self.target.addresses();
        let pc = self.port_count() as int;
        Seq::new(
            addrs.len() * self.port_count(),
            |k: int|
                ScanTarget {
                    addr: addrs[k / pc],
                    port: self.ports()[k % pc],
                },
        )
    }
}

/// Build the full list of scan targets: the cartesian product of the
/// request's addresses and its port range, exactly
/// `|addresses| * (port_end - port_start + 1)` targets, the pair for address
/// index `a` and port offset `p` standing at position `a * port_count + p`.
pub fn build_targets(req: &ScanRequest) -> (r: Vec<ScanTarget>)
    requires
        req.wf(),
        req.target.addresses().len() * req.port_count() <= usize::MAX,
    ensures
        r@ == req.targets(),
{
    proof {
        let alen = req.target.addresses().len();
        assert(alen <= alen * req.port_count()) by (nonlinear_arith)
            requires
                req.port_count() >= 1,
                alen >= 0,
        ;
    }
    let addrs = expand(&req.target);
    let pc: u32 = (req.port_end - req.port_start) as u32 + 1;
    let mut v: Vec<ScanTarget> = Vec::new();
    let mut a: usize = 0;
    while a < addrs.len()
        invariant
            req.wf(),
            addrs@ == req.target.addresses(),
            pc == req.port_count(),
            addrs@.len() * req.port_count() <= usize::MAX,
            a <= addrs.len(),
            v@.len() == a * req.port_count(),
            forall|k: int| 0 <= k < v@.len() ==> v@[k] == req.targets()[k],
        decreases addrs@.len() - a,
    {
        proof {
            assert((a + 1) * req.port_count() <= addrs@.len() * req.port_count())
                by (nonlinear_arith)
                requires
                    a < addrs@.len(),
                    req.port_count() >= 1,
            ;
        }
        let mut p: u32 = 0;
        while p < pc
            invariant
                req.wf(),
                addrs@ == req.target.addresses(),
                pc == req.port_count(),
                a < addrs@.len(),
                (a + 1) * req.port_count() <= addrs@.len() * req.port_count() <= usize::MAX,
                p <= pc,
                v@.len() == a * req.port_count() + p,
                forall|k: int| 0 <= k < v@.len() ==> v@[k] == req.targets()[k],
            decreases pc - p,
        {
            let port: u16 = req.port_start + (p as u16);
            v.push(ScanTarget { addr: addrs[a], port });
            proof {
                let k = a * req.port_count() + p;
                assert((a + 1) * req.port_count() == a * req.port_count() + req.port_count())
                    by (nonlinear_arith);
                assert(k < req.targets().len());
                lemma_fundamental_div_mod_converse(
                    k as int,
                    req.port_count() as int,
                    a as int,
                    p as int,
                );
                assert(v@[k as int] == req.targets()[k as int]);
            }
            p = p + 1;
        }
        proof {
            assert((a + 1) * req.port_count() == a * req.port_count() + req.port_count())
                by (nonlinear_arith);
        }
        a = a + 1;
    }
    proof {
        assert(v@ =~= req.targets());
    }
    v
}

/// How many targets of a plan probe the given address.
pub open spec fn count_for_address(ts: Seq<ScanTarget>, a: IpAddress) -> nat
    decreases ts.len(),
{
    if ts.len() == 0 {
        0
    } else {
        count_for_address(ts.drop_last(), a) + if ts.last().addr == a {
            1nat
        } else {
            0
        }
    }
}

/// Counting targets for an address distributes over concatenation.
proof fn lemma_count_split(x: Seq<ScanTarget>, y: Seq<ScanTarget>, a: IpAddress)
    ensures
        count_for_address(x + y, a) == count_for_address(x, a) + count_for_address(y, a),
    decreases y.len(),
{
    if y.len() == 0 {
        assert(x + y =~= x);
    } else {
        assert((x + y).drop_last() =~= x + y.drop_last());
        assert((x + y).last() == y.last());
        lemma_count_split(x, y.drop_last(), a);
    }
}

/// A group whose targets all probe `a` counts its whole length; one whose
/// targets all probe something else counts nothing.
proof fn lemma_count_uniform(s: Seq<ScanTarget>, a: IpAddress, hit: bool)
    requires
        forall|i: int| 0 <= i < s.len() ==> ((#[trigger] s[i].addr == a) <==> hit),
    ensures
        count_for_address(s, a) == if hit {
            s.len() as int
        } else {
            0
        },
    decreases s.len(),
{
    if s.len() > 0 {
        assert forall|i: int| 0 <= i < s.drop_last().len() implies ((#[trigger] s.drop_last()[i].addr
            == a) <==> hit) by {
            assert(s.drop_last()[i] == s[i]);
        }
        lemma_count_uniform(s.drop_last(), a, hit);
    }
}

/// Within the first `n` address groups of the plan, the targets probing the
/// address at index `a` number one full port range if that address's group
/// is among them, and zero otherwise.
proof fn lemma_prefix_count(req: ScanRequest, a: int, n: int)
    requires
        req.wf(),
        0 <= a < req.target.addresses().len(),
        0 <= n <= req.target.addresses().len(),
    ensures
        count_for_address(
            req.targets().subrange(0, n * req.port_count() as int),
            req.target.addresses()[a],
        ) == if a < n {
            req.port_count() as int
        } else {
            0
        },
    decreases n,
{
    lemma_addresses_distinct(req.target);
    let addrs = req.target.addresses();
    let pc = req.port_count() as int;
    let addr = addrs[a];
    assert(n * pc <= addrs.len() * pc) by (nonlinear_arith)
        requires
            n <= addrs.len(),
            pc >= 0,
    ;
    if n == 0 {
        assert(n * pc == 0) by (nonlinear_arith)
            requires
                n == 0,
        ;
        assert(count_for_address(req.targets().subrange(0, n * pc), addr) == 0);
    } else {
        assert((n - 1) * pc + pc == n * pc) by (nonlinear_arith);
        let before = req.targets().subrange(0, (n - 1) * pc);
        let group = req.targets().subrange((n - 1) * pc, n * pc);
        assert(req.targets().subrange(0, n * pc) =~= before + group);
        assert forall|p: int| 0 <= p < pc implies #[trigger] group[p].addr == addrs[n - 1] by {
            let k = (n - 1) * pc + p;
            lemma_fundamental_div_mod_converse(k, pc, n - 1, p);
            assert(group[p] == req.targets()[k]);
        }
        lemma_count_split(before, group, addr);
        lemma_count_uniform(group, addr, a == n - 1);
        lemma_prefix_count(req, a, n - 1);
    }
}

/// Law: a well-formed request's scan plan never repeats an (address, port)
/// pair — every probe attempts a pair of its own.
pub proof fn lemma_targets_distinct(req: ScanRequest)
    requires
        req.wf(),
    ensures
        req.targets().no_duplicates(),
{
    lemma_addresses_distinct(req.target);
    let ts = req.targets();
    let addrs = req.target.addresses();
    let pc = req.port_count() as int;
    assert forall|k1: int, k2: int| 0 <= k1 < k2 < ts.len() implies ts[k1] != ts[k2] by {
        vstd::arithmetic::div_mod::lemma_fundamental_div_mod(k1, pc);
        vstd::arithmetic::div_mod::lemma_fundamental_div_mod(k2, pc);
        assert(k1 / pc < addrs.len() && k2 / pc < addrs.len()) by (nonlinear_arith)
            requires
                pc >= 1,
                0 <= k1 < addrs.len() * pc,
                0 <= k2 < addrs.len() * pc,
                k1 == pc * (k1 / pc) + k1 % pc,
                k2 == pc * (k2 / pc) + k2 % pc,
                0 <= k1 % pc < pc,
                0 <= k2 % pc < pc,
        ;
        if ts[k1] == ts[k2] {
            assert(addrs[k1 / pc] == addrs[k2 / pc]);
            assert(k1 / pc == k2 / pc);
            assert(req.ports()[k1 % pc] == req.ports()[k2 % pc]);
            assert(k1 % pc == k2 % pc);
        }
    }
}

/// Law: for every address of a well-formed request, the scan plan holds
/// exactly `port_end - port_start + 1` targets probing that address.
pub proof fn lemma_targets_per_address(req: ScanRequest, a: int)
    requires
        req.wf(),
        0 <= a < req.target.addresses().len(),
    ensures
        count_for_address(req.targets(), req.target.addresses()[a]) == req.port_count(),
{
    let alen = req.target.addresses().len() as int;
    let pc = req.port_count() as int;
    lemma_prefix_count(req, a, alen);
    assert(req.targets().subrange(0, alen * pc) =~= req.targets());
}

} // verus!
