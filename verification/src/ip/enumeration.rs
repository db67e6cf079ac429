//! The order in which a block of addresses is enumerated.
//!
//! A block is the Cartesian product of four inclusive octet intervals. Its
//! addresses are numbered from zero the way an odometer counts: the last octet
//! runs fastest, and an octet that passes its upper bound returns to its lower
//! bound and carries into the octet before it. The number of an address is its
//! rank; the weight of an octet is the amount by which the rank grows when that
//! octet grows by one.

use vstd::arithmetic::div_mod::{lemma_fundamental_div_mod, lemma_fundamental_div_mod_converse};
use vstd::prelude::*;

verus! {

/// The four octets of an address, most significant first.
#[derive(Clone, Copy, Debug, PartialEq, Eq, Structural)]
pub struct Octets {
    pub o0: u8,
    pub o1: u8,
    pub o2: u8,
    pub o3: u8,
}

/// A rectangular set of addresses: every address whose octets lie between
/// those of `lower` and those of `upper`, both included.
pub struct Block {
    pub lower: Octets,
    pub upper: Octets,
}

/// Strict lexicographic order on addresses, octet 0 first.
pub open spec fn lex_less(a: Octets, b: Octets) -> bool {
    a.o0 < b.o0 || (a.o0 == b.o0 && (a.o1 < b.o1 || (a.o1 == b.o1 && (a.o2 < b.o2 || (a.o2 == b.o2
        && a.o3 < b.o3)))))
}

impl Block {
    /// No interval is inverted.
    pub open spec fn wf(self) -> bool {
        &&& self.lower.o0 <= self.upper.o0
        &&& self.lower.o1 <= self.upper.o1
        &&& self.lower.o2 <= self.upper.o2
        &&& self.lower.o3 <= self.upper.o3
    }

    /// Whether each octet of `a` lies in its interval.
    pub open spec fn contains(self, a: Octets) -> bool {
        &&& self.lower.o0 <= a.o0 <= self.upper.o0
        &&& self.lower.o1 <= a.o1 <= self.upper.o1
        &&& self.lower.o2 <= a.o2 <= self.upper.o2
        &&& self.lower.o3 <= a.o3 <= self.upper.o3
    }

    /// How many values octet 0 takes.
    pub open spec fn size0(self) -> int {
        self.upper.o0 - self.lower.o0 + 1
    }

    /// How many values octet 1 takes.
    pub open spec fn size1(self) -> int {
        self.upper.o1 - self.lower.o1 + 1
    }

    /// How many values octet 2 takes.
    pub open spec fn size2(self) -> int {
        self.upper.o2 - self.lower.o2 + 1
    }

    /// How many values octet 3 takes.
    pub open spec fn size3(self) -> int {
        self.upper.o3 - self.lower.o3 + 1
    }

    /// By how much the rank grows when octet 3 grows by one.
    pub open spec fn weight3(self) -> int {
        1
    }

    /// By how much the rank grows when octet 2 grows by one.
    pub open spec fn weight2(self) -> int {
        self.weight3() * self.size3()
    }

    /// By how much the rank grows when octet 1 grows by one.
    pub open spec fn weight1(self) -> int {
        self.weight2() * self.size2()
    }

    /// By how much the rank grows when octet 0 grows by one.
    pub open spec fn weight0(self) -> int {
        self.weight1() * self.size1()
    }

    /// The number of addresses in the block.
    pub open spec fn total(self) -> int {
        self.size0() * self.size1() * self.size2() * self.size3()
    }

    /// By how much octet 0 of the address of rank `n` exceeds its lower bound.
    pub open spec fn digit0(self, n: int) -> int {
        n / self.weight0()
    }

    /// The same for octet 1, from what the octets before it left over.
    pub open spec fn digit1(self, n: int) -> int {
        (n % self.weight0()) / self.weight1()
    }

    /// The same for octet 2, from what the octets before it left over.
    pub open spec fn digit2(self, n: int) -> int {
        (n % self.weight0() % self.weight1()) / self.weight2()
    }

    /// The same for octet 3, from what the octets before it left over.
    pub open spec fn digit3(self, n: int) -> int {
        (n % self.weight0() % self.weight1() % self.weight2()) / self.weight3()
    }

    /// The address of rank `n`, for `0 <= n < total()`.
    pub open spec fn address_at(self, n: int) -> Octets {
        Octets {
            o0: (self.lower.o0 + self.digit0(n)) as u8,
            o1: (self.lower.o1 + self.digit1(n)) as u8,
            o2: (self.lower.o2 + self.digit2(n)) as u8,
            o3: (self.lower.o3 + self.digit3(n)) as u8,
        }
    }

    /// The rank of an address of the block.
    pub open spec fn rank(self, a: Octets) -> int {
        (a.o0 - self.lower.o0) * self.weight0() + (a.o1 - self.lower.o1) * self.weight1() + (a.o2
            - self.lower.o2) * self.weight2() + (a.o3 - self.lower.o3) * self.weight3()
    }

    /// The address that follows `a` when an odometer over the block is turned
    /// by one step. After `upper` the odometer returns to `lower`.
    pub open spec fn successor(self, a: Octets) -> Octets {
        if a.o3 < self.upper.o3 {
            Octets { o3: (a.o3 + 1) as u8, ..a }
        } else if a.o2 < self.upper.o2 {
            Octets { o2: (a.o2 + 1) as u8, o3: self.lower.o3, ..a }
        } else if a.o1 < self.upper.o1 {
            Octets { o1: (a.o1 + 1) as u8, o2: self.lower.o2, o3: self.lower.o3, ..a }
        } else if a.o0 < self.upper.o0 {
            Octets {
                o0: (a.o0 + 1) as u8,
                o1: self.lower.o1,
                o2: self.lower.o2,
                o3: self.lower.o3,
            }
        } else {
            self.lower
        }
    }

    /// `n` where it is a rank of the block, else the first number that is none.
    pub open spec fn clip(self, n: int) -> int {
        if n < self.total() {
            n
        } else {
            self.total()
        }
    }

    /// Sizes and weights of a well-formed block, and how they bound each other.
    pub proof fn lemma_sizes(self)
        requires
            self.wf(),
        ensures
            1 <= self.size0() <= 256,
            1 <= self.size1() <= 256,
            1 <= self.size2() <= 256,
            1 <= self.size3() <= 256,
            self.weight3() == 1,
            self.weight2() == self.size3(),
            1 <= self.weight1() <= 0x1_0000,
            1 <= self.weight0() <= 0x100_0000,
            self.total() == self.size0() * self.weight0(),
            1 <= self.total() <= 0x1_0000_0000,
    {
        let s0 = self.size0();
        let s1 = self.size1();
        let s2 = self.size2();
        let s3 = self.size3();
        assert(1 <= s3 * s2 <= 0x1_0000) by (nonlinear_arith)
            requires
                1 <= s2 <= 256,
                1 <= s3 <= 256,
        ;
        assert(1 <= (s3 * s2) * s1 <= 0x100_0000) by (nonlinear_arith)
            requires
                1 <= s1 <= 256,
                1 <= s3 * s2 <= 0x1_0000,
        ;
        assert(1 <= s0 * ((s3 * s2) * s1) <= 0x1_0000_0000) by (nonlinear_arith)
            requires
                1 <= s0 <= 256,
                1 <= (s3 * s2) * s1 <= 0x100_0000,
        ;
        assert(s0 * s1 * s2 * s3 == s0 * ((s3 * s2) * s1)) by (nonlinear_arith);
        assert(1 * s3 == s3);
    }

    /// The rank of an address of the block is below `total()`, and so is every
    /// partial sum of it below the weight of the octet before.
    pub proof fn lemma_rank_bounds(self, a: Octets)
        requires
            self.wf(),
            self.contains(a),
        ensures
            0 <= self.rank(a) < self.total(),
            0 <= a.o3 - self.lower.o3 < self.weight2(),
            0 <= (a.o2 - self.lower.o2) * self.weight2() + (a.o3 - self.lower.o3) < self.weight1(),
            0 <= (a.o1 - self.lower.o1) * self.weight1() + (a.o2 - self.lower.o2) * self.weight2()
                + (a.o3 - self.lower.o3) < self.weight0(),
    {
        self.lemma_sizes();
        let d0 = a.o0 - self.lower.o0;
        let d1 = a.o1 - self.lower.o1;
        let d2 = a.o2 - self.lower.o2;
        let d3 = a.o3 - self.lower.o3;
        let r2 = d3;
        let r1 = d2 * self.weight2() + r2;
        let r0 = d1 * self.weight1() + r1;
        lemma_digit_sum_bound(d2, self.size2(), self.weight2(), r2);
        lemma_digit_sum_bound(d1, self.size1(), self.weight1(), r1);
        lemma_digit_sum_bound(d0, self.size0(), self.weight0(), r0);
        assert(d3 * 1 == d3);
    }

    /// `address_at` undoes `rank`.
    pub proof fn lemma_address_of_rank(self, a: Octets)
        requires
            self.wf(),
            self.contains(a),
        ensures
            self.address_at(self.rank(a)) == a,
    {
        self.lemma_sizes();
        self.lemma_rank_bounds(a);
        let d0 = a.o0 - self.lower.o0;
        let d1 = a.o1 - self.lower.o1;
        let d2 = a.o2 - self.lower.o2;
        let d3 = a.o3 - self.lower.o3;
        let r2 = d3;
        let r1 = d2 * self.weight2() + r2;
        let r0 = d1 * self.weight1() + r1;
        let n = self.rank(a);
        assert(d3 * 1 == d3);
        assert(n == d0 * self.weight0() + r0);
        lemma_fundamental_div_mod_converse(n, self.weight0(), d0, r0);
        lemma_fundamental_div_mod_converse(r0, self.weight1(), d1, r1);
        lemma_fundamental_div_mod_converse(r1, self.weight2(), d2, r2);
        assert(r2 / 1 == r2);
    }

    /// `rank` undoes `address_at`, which yields addresses of the block only.
    pub proof fn lemma_rank_of_address(self, n: int)
        requires
            self.wf(),
            0 <= n < self.total(),
        ensures
            self.contains(self.address_at(n)),
            self.rank(self.address_at(n)) == n,
            0 <= self.digit0(n) < self.size0(),
            0 <= self.digit1(n) < self.size1(),
            0 <= self.digit2(n) < self.size2(),
            0 <= self.digit3(n) < self.size3(),
    {
        self.lemma_sizes();
        let w0 = self.weight0();
        let w1 = self.weight1();
        let w2 = self.weight2();
        let r0 = n % w0;
        let r1 = r0 % w1;
        let r2 = r1 % w2;
        lemma_quotient_bound(n, w0, self.size0());
        lemma_quotient_bound(r0, w1, self.size1());
        lemma_quotient_bound(r1, w2, self.size2());
        lemma_fundamental_div_mod(n, w0);
        lemma_fundamental_div_mod(r0, w1);
        lemma_fundamental_div_mod(r1, w2);
        assert(r2 / 1 == r2);
        assert(r2 * 1 == r2);
        let d0 = n / w0;
        let d1 = r0 / w1;
        let d2 = r1 / w2;
        assert(w0 * d0 == d0 * w0) by (nonlinear_arith);
        assert(w1 * d1 == d1 * w1) by (nonlinear_arith);
        assert(w2 * d2 == d2 * w2) by (nonlinear_arith);
    }

    /// One step of the odometer raises the rank by one.
    pub proof fn lemma_successor(self, a: Octets)
        requires
            self.wf(),
            self.contains(a),
            a != self.upper,
        ensures
            self.contains(self.successor(a)),
            self.rank(self.successor(a)) == self.rank(a) + 1,
    {
        self.lemma_sizes();
        let w1 = self.weight1();
        let w0 = self.weight0();
        let s3 = self.size3();
        let s2 = self.size2();
        let s1 = self.size1();
        let d0 = a.o0 - self.lower.o0;
        let d1 = a.o1 - self.lower.o1;
        let d2 = a.o2 - self.lower.o2;
        let d3 = a.o3 - self.lower.o3;
        assert(d3 * 1 == d3);
        assert((d3 + 1) * 1 == d3 + 1);
        assert(0 * 1 == 0);
        assert((d2 + 1) * s3 == d2 * s3 + s3) by (nonlinear_arith);
        assert((d1 + 1) * w1 == d1 * w1 + w1) by (nonlinear_arith);
        assert((d0 + 1) * w0 == d0 * w0 + w0) by (nonlinear_arith);
        assert(0 * s3 == 0);
        assert(0 * w1 == 0);
        assert((s2 - 1) * s3 == s3 * s2 - s3) by (nonlinear_arith);
        assert((s1 - 1) * w1 == w1 * s1 - w1) by (nonlinear_arith);
    }

    /// The first rank belongs to `lower` and the last to `upper`.
    pub proof fn lemma_ends(self)
        requires
            self.wf(),
        ensures
            self.rank(self.lower) == 0,
            self.address_at(0) == self.lower,
            self.rank(self.upper) == self.total() - 1,
            self.address_at(self.total() - 1) == self.upper,
    {
        self.lemma_sizes();
        let w1 = self.weight1();
        let w0 = self.weight0();
        let s0 = self.size0();
        let s1 = self.size1();
        let s2 = self.size2();
        let s3 = self.size3();
        assert(0 * w0 == 0);
        assert(0 * w1 == 0);
        assert(0 * s3 == 0);
        assert(0 * 1 == 0);
        assert((s3 - 1) * 1 == s3 - 1);
        assert((s2 - 1) * s3 == s3 * s2 - s3) by (nonlinear_arith);
        assert((s1 - 1) * w1 == w1 * s1 - w1) by (nonlinear_arith);
        assert((s0 - 1) * w0 == s0 * w0 - w0) by (nonlinear_arith);
        self.lemma_address_of_rank(self.lower);
        self.lemma_address_of_rank(self.upper);
    }

    /// A higher rank is a later address in lexicographic order.
    pub proof fn lemma_order(self, m: int, n: int)
        requires
            self.wf(),
            0 <= m < n < self.total(),
        ensures
            lex_less(self.address_at(m), self.address_at(n)),
    {
        self.lemma_sizes();
        self.lemma_rank_of_address(m);
        self.lemma_rank_of_address(n);
        let a = self.address_at(m);
        let b = self.address_at(n);
        if !lex_less(a, b) {
            if a == b {
                assert(self.rank(a) == self.rank(b));
            } else {
                // b comes before a, so its rank is the smaller one.
                let w0 = self.weight0();
                let w1 = self.weight1();
                let w2 = self.weight2();
                self.lemma_rank_bounds(a);
                self.lemma_rank_bounds(b);
                let a0 = a.o0 - self.lower.o0;
                let a1 = a.o1 - self.lower.o1;
                let a2 = a.o2 - self.lower.o2;
                let b0 = b.o0 - self.lower.o0;
                let b1 = b.o1 - self.lower.o1;
                let b2 = b.o2 - self.lower.o2;
                if b0 < a0 {
                    assert(b0 * w0 + w0 <= a0 * w0) by (nonlinear_arith)
                        requires
                            b0 + 1 <= a0,
                            w0 >= 0,
                    ;
                } else if b1 < a1 {
                    assert(b1 * w1 + w1 <= a1 * w1) by (nonlinear_arith)
                        requires
                            b1 + 1 <= a1,
                            w1 >= 0,
                    ;
                } else if b2 < a2 {
                    assert(b2 * w2 + w2 <= a2 * w2) by (nonlinear_arith)
                        requires
                            b2 + 1 <= a2,
                            w2 >= 0,
                    ;
                }
                assert(self.rank(b) < self.rank(a));
            }
        }
    }
}

/// A digit below its radix, scaled by its weight, plus a remainder below that
/// weight stays below radix times weight.
proof fn lemma_digit_sum_bound(d: int, s: int, w: int, r: int)
    by (nonlinear_arith)
    requires
        0 <= d < s,
        0 <= r < w,
    ensures
        0 <= d * w + r < w * s,
        0 <= d * w + r < s * w,
{
}

/// A number below `w * s` has a quotient by `w` below `s`, and a remainder
/// below `w`.
proof fn lemma_quotient_bound(n: int, w: int, s: int)
    by (nonlinear_arith)
    requires
        0 < w,
        0 <= n < w * s || 0 <= n < s * w,
    ensures
        0 <= n / w < s,
        0 <= n % w < w,
{
}

} // verus!
