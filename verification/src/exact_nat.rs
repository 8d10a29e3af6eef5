//! An exact nonnegative arbitrary-precision integer: a little-endian
//! sequence of 32-bit limbs with no trailing zero limb.  It supports just
//! what the cocycle matrix needs — small constants, copies, in-place
//! addition, and comparison against a machine word — and its arithmetic is
//! proved against the denoted mathematical value, so entries never round.

use vstd::prelude::*;

verus! {

/// The integer denoted by the limbs of `s` from position `i` on,
/// little-endian in base `2^32`.
pub open spec fn limbs_value_from(s: Seq<u32>, i: int) -> int
    decreases s.len() - i,
{
    if i < 0 || i >= s.len() {
        0
    } else {
        s[i] + 0x1_0000_0000 * limbs_value_from(s, i + 1)
    }
}

/// The integer denoted by a whole limb sequence.
pub open spec fn limbs_value(s: Seq<u32>) -> int {
    limbs_value_from(s, 0)
}

/// Canonical form: the most significant limb, if any, is nonzero, so each
/// integer has exactly one representation.
pub open spec fn limbs_canonical(s: Seq<u32>) -> bool {
    s.len() == 0 || s[s.len() - 1] != 0
}

/// The weight of the limb at position `i`.
pub open spec fn pow_b(i: nat) -> int
    decreases i,
{
    if i == 0 {
        1
    } else {
        0x1_0000_0000 * pow_b((i - 1) as nat)
    }
}

/// A nonnegative arbitrary-precision integer.
#[derive(Debug)]
pub struct ExactNat {
    limbs: Vec<u32>,
}

impl View for ExactNat {
    type V = int;

    /// The denoted mathematical value.
    closed spec fn view(&self) -> int {
        limbs_value(self.limbs@)
    }
}

impl ExactNat {
    /// The limb sequence.
    pub closed spec fn limbs_view(self) -> Seq<u32> {
        self.limbs@
    }

    /// Canonical-representation invariant of every live value.
    pub open spec fn wf(self) -> bool {
        limbs_canonical(self.limbs_view())
    }
}

/// The value read from any position of a limb sequence is nonnegative.
proof fn lemma_value_nonneg(s: Seq<u32>, i: int)
    ensures
        limbs_value_from(s, i) >= 0,
    decreases s.len() - i,
{
    if 0 <= i < s.len() {
        lemma_value_nonneg(s, i + 1);
        assert(s[i] + 0x1_0000_0000 * limbs_value_from(s, i + 1) >= 0) by (nonlinear_arith)
            requires
                limbs_value_from(s, i + 1) >= 0,
                s[i] >= 0,
        ;
    }
}

/// With a nonzero most significant limb the value read from any in-range
/// position is positive.
proof fn lemma_canonical_positive(s: Seq<u32>, i: int)
    requires
        0 <= i < s.len(),
        s[s.len() - 1] != 0,
    ensures
        limbs_value_from(s, i) >= 1,
    decreases s.len() - i,
{
    if i == s.len() - 1 {
        assert(limbs_value_from(s, i + 1) == 0);
    } else {
        lemma_canonical_positive(s, i + 1);
        assert(s[i] + 0x1_0000_0000 * limbs_value_from(s, i + 1) >= 1) by (nonlinear_arith)
            requires
                limbs_value_from(s, i + 1) >= 1,
                s[i] >= 0,
        ;
    }
}

/// With a nonzero most significant limb the value read from position `i`
/// is at least the weight of the last limb relative to `i`.
proof fn lemma_canonical_lower(s: Seq<u32>, i: int)
    requires
        0 <= i < s.len(),
        s[s.len() - 1] != 0,
    ensures
        limbs_value_from(s, i) >= pow_b((s.len() - 1 - i) as nat),
    decreases s.len() - i,
{
    if i == s.len() - 1 {
        assert(limbs_value_from(s, i + 1) == 0);
    } else {
        lemma_canonical_lower(s, i + 1);
        let p = pow_b((s.len() - 2 - i) as nat);
        assert(pow_b((s.len() - 1 - i) as nat) == 0x1_0000_0000 * p);
        assert(s[i] + 0x1_0000_0000 * limbs_value_from(s, i + 1) >= 0x1_0000_0000
            * p) by (nonlinear_arith)
            requires
                limbs_value_from(s, i + 1) >= p,
                s[i] >= 0,
        ;
    }
}

/// Appending a limb adds its weighted value.
proof fn lemma_value_push(s: Seq<u32>, x: u32, j: int)
    requires
        0 <= j <= s.len(),
    ensures
        limbs_value_from(s.push(x), j) == limbs_value_from(s, j) + pow_b((s.len() - j) as nat) * x,
    decreases s.len() - j,
{
    if j == s.len() {
        assert(s.push(x)[j] == x);
        assert(limbs_value_from(s.push(x), j + 1) == 0);
        assert(limbs_value_from(s, j) == 0);
    } else {
        lemma_value_push(s, x, j + 1);
        assert(s.push(x)[j] == s[j]);
        let r1 = limbs_value_from(s, j + 1);
        let p1 = pow_b((s.len() - j - 1) as nat);
        assert(pow_b((s.len() - j) as nat) == 0x1_0000_0000 * p1);
        assert(0x1_0000_0000 * (r1 + p1 * x) == 0x1_0000_0000 * r1 + (0x1_0000_0000 * p1)
            * x) by (nonlinear_arith);
    }
}

/// Limb weights are positive.
proof fn lemma_pow_b_positive(i: nat)
    ensures
        pow_b(i) >= 1,
    decreases i,
{
    if i > 0 {
        lemma_pow_b_positive((i - 1) as nat);
        assert(0x1_0000_0000 * pow_b((i - 1) as nat) >= 1) by (nonlinear_arith)
            requires
                pow_b((i - 1) as nat) >= 1,
        ;
    }
}

/// An owned copy of a limb vector.
fn copy_u32_vec(v: &Vec<u32>) -> (r: Vec<u32>)
    ensures
        r@ == v@,
{
    let n = v.len();
    let mut r: Vec<u32> = Vec::new();
    let mut i: usize = 0;
    while i < n
        invariant
            i <= n,
            n == v@.len(),
            r@ == v@.subrange(0, i as int),
        decreases n - i,
    {
        r.push(v[i]);
        i += 1;
        proof {
            assert(r@ =~= v@.subrange(0, i as int));
        }
    }
    proof {
        assert(r@ =~= v@);
    }
    r
}

impl Clone for ExactNat {
    /// An exact copy with the same value.
    fn clone(&self) -> (r: Self)
        ensures
            r@ == self@,
            r.wf() == self.wf(),
    {
        ExactNat { limbs: copy_u32_vec(&self.limbs) }
    }
}

impl ExactNat {
    /// The exact value of a machine word.
    pub fn from_u32(v: u32) -> (r: ExactNat)
        ensures
            r@ == v as int,
            r.wf(),
    {
        if v == 0 {
            ExactNat { limbs: Vec::new() }
        } else {
            let mut limbs: Vec<u32> = Vec::new();
            limbs.push(v);
            let r = ExactNat { limbs };
            proof {
                assert(limbs_value_from(r.limbs_view(), 1) == 0);
            }
            r
        }
    }

    /// Exact in-place addition: `self` becomes `self + other`.
    pub fn add_assign(&mut self, other: &ExactNat)
        requires
            old(self).wf(),
            other.wf(),
        ensures
            final(self)@ == old(self)@ + other@,
            final(self).wf(),
    {
        let ghost aseq = self.limbs@;
        let ghost bseq = other.limbs@;
        let ghost total = limbs_value(aseq) + limbs_value(bseq);
        let n1 = self.limbs.len();
        let n2 = other.limbs.len();
        let max_len = if n1 > n2 {
            n1
        } else {
            n2
        };
        let mut out: Vec<u32> = Vec::new();
        let mut carry: u32 = 0;
        let mut i: usize = 0;
        while i < max_len
            invariant
                i <= max_len,
                carry <= 1,
                out@.len() == i,
                n1 == aseq.len(),
                n2 == bseq.len(),
                max_len == if n1 > n2 {
                    n1
                } else {
                    n2
                },
                aseq == self.limbs@,
                bseq == other.limbs@,
                total == limbs_value(aseq) + limbs_value(bseq),
                total == limbs_value(out@) + pow_b(i as nat) * (carry + limbs_value_from(aseq, i as int)
                    + limbs_value_from(bseq, i as int)),
            decreases max_len - i,
        {
            let a: u32 = if i < n1 {
                self.limbs[i]
            } else {
                0
            };
            let b: u32 = if i < n2 {
                other.limbs[i]
            } else {
                0
            };
            let sum: u64 = a as u64 + b as u64 + carry as u64;
            let low: u32 = (sum % 0x1_0000_0000) as u32;
            let newcarry: u32 = (sum / 0x1_0000_0000) as u32;
            let ghost pre = out@;
            out.push(low);
            proof {
                assert(a + b + carry == low + 0x1_0000_0000 * newcarry);
                assert(limbs_value_from(aseq, i as int) == a + 0x1_0000_0000 * limbs_value_from(
                    aseq,
                    i + 1,
                ));
                assert(limbs_value_from(bseq, i as int) == b + 0x1_0000_0000 * limbs_value_from(
                    bseq,
                    i + 1,
                ));
                lemma_value_push(pre, low, 0);
                assert(limbs_value(out@) == limbs_value(pre) + pow_b(i as nat) * low);
                let ghost p = pow_b(i as nat);
                let ghost ra = limbs_value_from(aseq, i + 1);
                let ghost rb = limbs_value_from(bseq, i + 1);
                assert(pow_b((i + 1) as nat) == 0x1_0000_0000 * p);
                assert(limbs_value(pre) + p * (carry + (a + 0x1_0000_0000 * ra) + (b
                    + 0x1_0000_0000 * rb)) == (limbs_value(pre) + p * low) + (0x1_0000_0000 * p) * (
                newcarry + ra + rb)) by (nonlinear_arith)
                    requires
                        a + b + carry == low + 0x1_0000_0000 * newcarry,
                ;
            }
            carry = newcarry;
            i += 1;
        }
        proof {
            assert(limbs_value_from(aseq, max_len as int) == 0);
            assert(limbs_value_from(bseq, max_len as int) == 0);
            assert(total == limbs_value(out@) + pow_b(max_len as nat) * carry);
        }
        if carry != 0 {
            let ghost pre = out@;
            out.push(carry);
            proof {
                lemma_value_push(pre, carry, 0);
            }
        }
        while out.len() > 0 && out[out.len() - 1] == 0
            invariant
                limbs_value(out@) == total,
            decreases out@.len(),
        {
            let ghost pre = out@;
            out.pop();
            proof {
                assert(pre =~= out@.push(0u32));
                lemma_value_push(out@, 0u32, 0);
            }
        }
        self.limbs = out;
    }

    /// Whether the value equals the machine word `v`.
    pub fn eq_u32(&self, v: u32) -> (r: bool)
        requires
            self.wf(),
        ensures
            r == (self@ == v as int),
    {
        if self.limbs.len() == 0 {
            v == 0
        } else if self.limbs.len() == 1 {
            proof {
                assert(limbs_value_from(self.limbs@, 1) == 0);
            }
            self.limbs[0] == v
        } else {
            proof {
                lemma_canonical_positive(self.limbs@, 1);
                assert(self.limbs@[0] + 0x1_0000_0000 * limbs_value_from(self.limbs@, 1) > u32::MAX
                    as int) by (nonlinear_arith)
                    requires
                        limbs_value_from(self.limbs@, 1) >= 1,
                        self.limbs@[0] >= 0,
                ;
            }
            false
        }
    }

    /// Whether the value equals the machine word `v`.
    pub fn eq_u64(&self, v: u64) -> (r: bool)
        requires
            self.wf(),
        ensures
            r == (self@ == v as int),
    {
        let len = self.limbs.len();
        if len == 0 {
            v == 0
        } else if len == 1 {
            proof {
                assert(limbs_value_from(self.limbs@, 1) == 0);
            }
            self.limbs[0] as u64 == v
        } else if len == 2 {
            let lo = self.limbs[0];
            let hi = self.limbs[1];
            proof {
                assert(limbs_value_from(self.limbs@, 2) == 0);
                assert(limbs_value_from(self.limbs@, 1) == hi + 0x1_0000_0000 * limbs_value_from(
                    self.limbs@,
                    2,
                ));
                assert(limbs_value_from(self.limbs@, 0) == lo + 0x1_0000_0000 * limbs_value_from(
                    self.limbs@,
                    1,
                ));
                assert(self@ == lo + 0x1_0000_0000 * (hi as int));
                assert(0x1_0000_0000 * (hi as int) <= 0x1_0000_0000
                    * 0xFFFF_FFFFint) by (nonlinear_arith)
                    requires
                        hi <= 0xFFFF_FFFFu32,
                ;
            }
            lo as u64 + 0x1_0000_0000u64 * (hi as u64) == v
        } else {
            proof {
                lemma_canonical_lower(self.limbs@, 0);
                let p = pow_b((self.limbs@.len() - 3) as nat);
                lemma_pow_b_positive((self.limbs@.len() - 3) as nat);
                assert(pow_b((self.limbs@.len() - 2) as nat) == 0x1_0000_0000 * p);
                assert(pow_b((self.limbs@.len() - 1) as nat) == 0x1_0000_0000 * pow_b((
                self.limbs@.len() - 2) as nat));
                assert(pow_b((self.limbs@.len() - 1) as nat) == 0x1_0000_0000 * (0x1_0000_0000
                    * p));
                assert(0x1_0000_0000 * (0x1_0000_0000 * p) >= 0x1_0000_0000
                    * 0x1_0000_0000) by (nonlinear_arith)
                    requires
                        p >= 1,
                ;
            }
            false
        }
    }

    /// The value of every live `ExactNat` is nonnegative.
    pub proof fn lemma_nonneg(self)
        ensures
            self@ >= 0,
    {
        lemma_value_nonneg(self.limbs_view(), 0);
    }
}

} // verus!
