//! The enumerator: four octet intervals, the sizes and weights derived from
//! them, and a cursor for incremental generation.

use crate::ip::batches::Cursor;
use crate::ip::decimal::format_address;
use crate::ip::enumeration::{Block, Octets};
use crate::ip::ip_range_bounds::{Interval, IpRangeBounds};
use vstd::arithmetic::div_mod::{lemma_fundamental_div_mod, lemma_fundamental_div_mod_converse};
use vstd::prelude::*;

verus! {

/// The block whose octets range over the four given intervals.
pub open spec fn block_of(i0: Interval, i1: Interval, i2: Interval, i3: Interval) -> Block {
    Block {
        lower: Octets { o0: i0.lower, o1: i1.lower, o2: i2.lower, o3: i3.lower },
        upper: Octets { o0: i0.upper, o1: i1.upper, o2: i2.upper, o3: i3.upper },
    }
}

/// By how much each octet of an address exceeds its lower bound.
struct IpRangeIncreases {
    pub range0: u8,
    pub range1: u8,
    pub range2: u8,
    pub range3: u8,
}

/// Enumerates the addresses of a block in batches.
///
/// Direct generation (`generate_nth_batch`) reads the enumerator only, so a
/// shared or copied enumerator serves any number of workers. Incremental
/// generation (`generate_next_batch`) moves the cursor that the enumerator
/// holds and belongs to a single owner.
#[derive(Clone, Copy)]
pub struct IpRange {
    range0: IpRangeBounds,
    range1: IpRangeBounds,
    range2: IpRangeBounds,
    range3: IpRangeBounds,
    range0_size: u16,
    range1_size: u16,
    range2_size: u16,
    range3_size: u16,
    range0_size_normalized: u64,
    range1_size_normalized: u64,
    range2_size_normalized: u64,
    range3_size_normalized: u64,
    total_size: u64,
    /// The next address that incremental generation emits; the last address
    /// of the block once `exhausted` is set.
    position: Octets,
    exhausted: bool,
}

impl View for IpRange {
    type V = Cursor;

    closed spec fn view(&self) -> Cursor {
        Cursor {
            block: self.block(),
            next: if self.exhausted {
                self.block().total()
            } else {
                self.block().rank(self.position)
            },
        }
    }
}

impl IpRange {
    spec fn block(self) -> Block {
        block_of(self.range0@, self.range1@, self.range2@, self.range3@)
    }

    #[verifier::type_invariant]
    spec fn inv(self) -> bool {
        let block = self.block();
        &&& block.wf()
        &&& self.range0_size == block.size0()
        &&& self.range1_size == block.size1()
        &&& self.range2_size == block.size2()
        &&& self.range3_size == block.size3()
        &&& self.range0_size_normalized == block.weight0()
        &&& self.range1_size_normalized == block.weight1()
        &&& self.range2_size_normalized == block.weight2()
        &&& self.range3_size_normalized == block.weight3()
        &&& self.total_size == block.total()
        &&& block.contains(self.position)
        &&& self.exhausted ==> self.position == block.upper
    }

    /// An enumerator over the block of the four intervals, octet 0 first, with
    /// its cursor on the first address.
    pub fn new(
        range0: IpRangeBounds,
        range1: IpRangeBounds,
        range2: IpRangeBounds,
        range3: IpRangeBounds,
    ) -> (range: Self)
        ensures
            range@ == Cursor::fresh(block_of(range0@, range1@, range2@, range3@)),
            range@.wf(),
    {
        let ghost block = block_of(range0@, range1@, range2@, range3@);
        // Both ends of an interval belong to it, hence one more than the difference.
        let range0_size = (range0.upper() - range0.lower()) as u16 + 1;
        let range1_size = (range1.upper() - range1.lower()) as u16 + 1;
        let range2_size = (range2.upper() - range2.lower()) as u16 + 1;
        let range3_size = (range3.upper() - range3.lower()) as u16 + 1;
        proof {
            block.lemma_sizes();
            block.lemma_ends();
            lemma_total_steps(block);
        }
        let range3_size_normalized: u64 = 1;
        let range2_size_normalized = range3_size_normalized * range3_size as u64;
        let range1_size_normalized = range2_size_normalized * range2_size as u64;
        let range0_size_normalized = range1_size_normalized * range1_size as u64;
        let total_size = range0_size as u64 * range1_size as u64 * range2_size as u64
            * range3_size as u64;
        IpRange {
            range0,
            range1,
            range2,
            range3,
            range0_size,
            range1_size,
            range2_size,
            range3_size,
            range0_size_normalized,
            range1_size_normalized,
            range2_size_normalized,
            range3_size_normalized,
            total_size,
            position: Octets {
                o0: range0.lower(),
                o1: range1.lower(),
                o2: range2.lower(),
                o3: range3.lower(),
            },
            exhausted: false,
        }
    }

    /// The number of addresses in the block.
    pub fn total_size(&self) -> (total: u64)
        ensures
            self@.wf(),
            total == self@.block.total(),
            1 <= total <= 0x1_0000_0000,
    {
        proof {
            use_type_invariant(self);
            self.block().lemma_sizes();
            self.block().lemma_rank_bounds(self.position);
        }
        self.total_size
    }

    /// How many batches of `batch_size` addresses cover the block: the batch
    /// indices from zero up to but not including this number are those whose
    /// batches hold addresses.
    pub fn batch_count(&self, batch_size: usize) -> (count: u64)
        requires
            batch_size >= 1,
        ensures
            self@.wf(),
            count == self@.block.batch_count(batch_size as int),
            count >= 1,
            count * batch_size >= self@.block.total(),
            (count - 1) * batch_size < self@.block.total(),
    {
        let ghost block = self.block();
        let ghost total = block.total();
        proof {
            use_type_invariant(self);
            block.lemma_sizes();
            block.lemma_rank_bounds(self.position);
            block.lemma_batch_count(batch_size as nat);
        }
        let size = batch_size as u64;
        let whole = self.total_size / size;
        let rest = self.total_size % size;
        proof {
            lemma_fundamental_div_mod(total, size as int);
            assert(size * whole == whole * size) by (nonlinear_arith);
            if rest == 0 {
                lemma_fundamental_div_mod_converse(
                    total + size - 1,
                    size as int,
                    whole as int,
                    size - 1,
                );
            } else {
                assert((whole + 1) * size == whole * size + size) by (nonlinear_arith);
                lemma_fundamental_div_mod_converse(
                    total + size - 1,
                    size as int,
                    whole + 1,
                    rest - 1,
                );
            }
        }
        if rest == 0 {
            whole
        } else {
            whole + 1
        }
    }

    /// Whether incremental generation has addresses left to emit.
    pub fn has_remaining(&self) -> (remaining: bool)
        ensures
            self@.wf(),
            remaining == self@.has_remaining(),
            self@.position() != self@.block.upper ==> remaining,
    {
        proof {
            use_type_invariant(self);
            self.block().lemma_rank_bounds(self.position);
            self@.lemma_position();
        }
        !self.exhausted
    }

    fn lowest(&self) -> (a: Octets)
        ensures
            a == self.block().lower,
    {
        Octets {
            o0: self.range0.lower(),
            o1: self.range1.lower(),
            o2: self.range2.lower(),
            o3: self.range3.lower(),
        }
    }

    fn highest(&self) -> (a: Octets)
        ensures
            a == self.block().upper,
    {
        Octets {
            o0: self.range0.upper(),
            o1: self.range1.upper(),
            o2: self.range2.upper(),
            o3: self.range3.upper(),
        }
    }

    /// Turns the odometer by one step.
    fn successor(&self, a: Octets) -> (b: Octets)
        requires
            self.block().contains(a),
        ensures
            b == self.block().successor(a),
    {
        let lower = self.lowest();
        let upper = self.highest();
        if a.o3 < upper.o3 {
            Octets { o0: a.o0, o1: a.o1, o2: a.o2, o3: a.o3 + 1 }
        } else if a.o2 < upper.o2 {
            Octets { o0: a.o0, o1: a.o1, o2: a.o2 + 1, o3: lower.o3 }
        } else if a.o1 < upper.o1 {
            Octets { o0: a.o0, o1: a.o1 + 1, o2: lower.o2, o3: lower.o3 }
        } else if a.o0 < upper.o0 {
            Octets { o0: a.o0 + 1, o1: lower.o1, o2: lower.o2, o3: lower.o3 }
        } else {
            lower
        }
    }

    /// Emits at most `count` addresses in enumeration order, the first of them
    /// `start`. Returns them with the address that follows the last one and
    /// with whether the last address of the block was emitted; in that case
    /// the address returned is the last address of the block.
    fn collect(&self, start: Octets, count: usize) -> (out: (Vec<String>, Octets, bool))
        requires
            self.block().contains(start),
        ensures
            ({
                let block = self.block();
                let from = block.rank(start);
                let to = block.clip(from + count);
                &&& out.0.deep_view() == block.texts(from, to)
                &&& out.2 == (to == block.total())
                &&& out.1 == if out.2 {
                    block.upper
                } else {
                    block.address_at(to)
                }
            }),
    {
        let ghost block = self.block();
        let ghost from = block.rank(start);
        proof {
            use_type_invariant(self);
            block.lemma_sizes();
            block.lemma_rank_bounds(start);
            block.lemma_ends();
        }
        let upper = self.highest();
        let mut batch: Vec<String> = Vec::new();
        let mut position = start;
        let mut done = false;
        assert(batch.deep_view() =~= block.texts(from, from));
        while batch.len() < count && !done
            invariant
                block == self.block(),
                block.wf(),
                upper == block.upper,
                from == block.rank(start),
                block.contains(position),
                batch.len() <= count,
                from + batch.len() <= block.total(),
                !done ==> block.rank(position) == from + batch.len(),
                done ==> from + batch.len() == block.total() && position == block.upper,
                batch.deep_view() == block.texts(from, from + batch.len()),
            decreases count - batch.len(),
        {
            let ghost before = batch.deep_view();
            let text = format_address(position);
            batch.push(text);
            proof {
                block.lemma_address_of_rank(position);
                block.lemma_rank_bounds(position);
                assert(batch.deep_view() =~= before.push(text@));
                assert(batch.deep_view() =~= block.texts(from, from + batch.len()));
            }
            if position == upper {
                proof {
                    block.lemma_ends();
                }
                done = true;
            } else {
                proof {
                    block.lemma_successor(position);
                }
                position = self.successor(position);
            }
        }
        proof {
            block.lemma_rank_bounds(position);
            block.lemma_address_of_rank(position);
        }
        (batch, position, done)
    }

    /// Splits the linear offset `nth_batch * batch_size` into one increase per
    /// octet: the quotient by the octet's weight, the remainder going on to
    /// the next octet. The offset is below the number of addresses; the
    /// callers see to that.
    fn calculate_position_increases(&self, nth_batch: usize, batch_size: usize) -> (increases:
        IpRangeIncreases)
        requires
            nth_batch * batch_size < self.block().total(),
        ensures
            increases.range0 == self.block().digit0(nth_batch * batch_size),
            increases.range1 == self.block().digit1(nth_batch * batch_size),
            increases.range2 == self.block().digit2(nth_batch * batch_size),
            increases.range3 == self.block().digit3(nth_batch * batch_size),
            self.block().contains(self.block().address_at(nth_batch * batch_size)),
    {
        proof {
            use_type_invariant(self);
            self.block().lemma_sizes();
            self.block().lemma_rank_of_address(nth_batch * batch_size);
            lemma_product_fits(nth_batch, batch_size);
        }
        let mut remainder: u64 = batch_size as u64 * nth_batch as u64;
        let range0 = remainder / self.range0_size_normalized;
        remainder = remainder % self.range0_size_normalized;
        let range1 = remainder / self.range1_size_normalized;
        remainder = remainder % self.range1_size_normalized;
        let range2 = remainder / self.range2_size_normalized;
        remainder = remainder % self.range2_size_normalized;
        let range3 = remainder / self.range3_size_normalized;
        IpRangeIncreases {
            range0: range0 as u8,
            range1: range1 as u8,
            range2: range2 as u8,
            range3: range3 as u8,
        }
    }

    /// The batch of index `nth_batch` when the enumeration is cut into batches
    /// of `batch_size` addresses. Nothing is changed, and nothing but the
    /// block is read: the cursor plays no part.
    pub fn generate_nth_batch(&self, nth_batch: usize, batch_size: usize) -> (batch: Vec<String>)
        ensures
            self@.wf(),
            batch.deep_view() == self@.block.batch_at(nth_batch as int, batch_size as int),
            batch@.len() == self@.block.clip(nth_batch * batch_size + batch_size)
                - self@.block.clip(nth_batch * batch_size),
            batch@.len() <= batch_size,
            nth_batch * batch_size >= self@.block.total() ==> batch@.len() == 0,
    {
        let ghost block = self.block();
        proof {
            use_type_invariant(self);
            block.lemma_sizes();
            block.lemma_rank_bounds(self.position);
            lemma_product_fits(nth_batch, batch_size);
            let offset = nth_batch * batch_size;
            assert(block.batch_at(nth_batch as int, batch_size as int).len() == block.clip(
                offset + batch_size,
            ) - block.clip(offset));
        }
        let start: u128 = nth_batch as u128 * batch_size as u128;
        if start >= self.total_size as u128 {
            let batch: Vec<String> = Vec::new();
            assert(batch.deep_view() =~= block.batch_at(nth_batch as int, batch_size as int));
            return batch;
        }
        let increases = self.calculate_position_increases(nth_batch, batch_size);
        let lower = self.lowest();
        proof {
            block.lemma_rank_of_address(nth_batch * batch_size);
        }
        let position = Octets {
            o0: lower.o0 + increases.range0,
            o1: lower.o1 + increases.range1,
            o2: lower.o2 + increases.range2,
            o3: lower.o3 + increases.range3,
        };
        assert(position == block.address_at(nth_batch * batch_size));
        let out = self.collect(position, batch_size);
        assert(out.0@.len() == out.0.deep_view().len());
        out.0
    }

    /// The next batch of at most `batch_size` addresses, from the cursor on.
    /// The cursor moves past every address emitted. Once the last address of
    /// the block has been emitted, every further batch is empty.
    pub fn generate_next_batch(&mut self, batch_size: usize) -> (batch: Vec<String>)
        ensures
            old(self)@.wf(),
            final(self)@.wf(),
            batch.deep_view() == old(self)@.next_batch(batch_size as int),
            final(self)@ == old(self)@.advance(batch_size as int),
            batch@.len() == final(self)@.next - old(self)@.next,
            batch@.len() <= batch_size,
            batch_size == 0 || !old(self)@.has_remaining() ==> *final(self) == *old(self),
    {
        let ghost block = self.block();
        proof {
            use_type_invariant(&*self);
            block.lemma_sizes();
            block.lemma_rank_bounds(self.position);
        }
        if self.exhausted {
            let batch: Vec<String> = Vec::new();
            assert(batch.deep_view() =~= self@.next_batch(batch_size as int));
            return batch;
        }
        let out = self.collect(self.position, batch_size);
        proof {
            let to = block.clip(block.rank(self.position) + batch_size);
            if to < block.total() {
                block.lemma_rank_of_address(to);
            }
            block.lemma_address_of_rank(self.position);
        }
        assert(out.0@.len() == out.0.deep_view().len());
        self.position = out.1;
        self.exhausted = out.2;
        out.0
    }
}

/// A product of two machine sizes fits in 128 bits, whichever factor comes
/// first.
proof fn lemma_product_fits(a: usize, b: usize)
    by (nonlinear_arith)
    ensures
        0 <= a * b <= 0xffff_ffff_ffff_ffff_ffff_ffff_ffff_ffff,
        a * b == b * a,
{
}

/// The partial products of the sizes of a block fit where the enumerator
/// keeps them.
proof fn lemma_total_steps(block: Block)
    requires
        block.wf(),
    ensures
        block.size0() * block.size1() <= 0x1_0000,
        block.size0() * block.size1() * block.size2() <= 0x100_0000,
        block.size0() * block.size1() * block.size2() * block.size3() <= 0x1_0000_0000,
{
    let s0 = block.size0();
    let s1 = block.size1();
    let s2 = block.size2();
    let s3 = block.size3();
    assert(s0 * s1 <= 0x1_0000) by (nonlinear_arith)
        requires
            1 <= s0 <= 256,
            1 <= s1 <= 256,
    ;
    assert(s0 * s1 * s2 <= 0x100_0000) by (nonlinear_arith)
        requires
            0 <= s0 * s1 <= 0x1_0000,
            1 <= s2 <= 256,
    ;
    assert(s0 * s1 * s2 * s3 <= 0x1_0000_0000) by (nonlinear_arith)
        requires
            0 <= s0 * s1 * s2 <= 0x100_0000,
            1 <= s3 <= 256,
    ;
}

} // verus!
