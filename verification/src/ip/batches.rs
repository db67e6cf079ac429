//! What a batch holds: the text of a run of consecutive addresses of a block,
//! asked for either by its index or as the next one after a cursor.

use crate::ip::decimal::{dotted_quad, lemma_dotted_quad_injective};
use crate::ip::enumeration::{lex_less, Block, Octets};
use vstd::arithmetic::div_mod::lemma_fundamental_div_mod;
use vstd::prelude::*;

verus! {

impl Block {
    /// The addresses of ranks `from` up to but not including `to`, as text.
    pub open spec fn texts(self, from: int, to: int) -> Seq<Seq<char>> {
        Seq::new((to - from) as nat, |i: int| dotted_quad(self.address_at(from + i)))
    }

    /// Every address of the block, as text, in enumeration order.
    pub open spec fn all_texts(self) -> Seq<Seq<char>> {
        self.texts(0, self.total())
    }

    /// The batch of index `index` when the enumeration is cut into batches of
    /// `size` addresses: empty from the first index past the end on.
    pub open spec fn batch_at(self, index: int, size: int) -> Seq<Seq<char>> {
        self.texts(self.clip(index * size), self.clip(index * size + size))
    }

    /// How many batches of `size` addresses cover the block.
    pub open spec fn batch_count(self, size: int) -> int {
        (self.total() + size - 1) / size
    }

    /// The batches of the first `count` indices, one after the other.
    pub open spec fn first_batches(self, size: int, count: nat) -> Seq<Seq<char>>
        decreases count,
    {
        if count == 0 {
            Seq::empty()
        } else {
            self.first_batches(size, (count - 1) as nat) + self.batch_at(count - 1, size)
        }
    }

    /// The enumeration holds every address of the block, at its rank.
    pub proof fn lemma_every_address_is_listed(self, a: Octets)
        requires
            self.wf(),
            self.contains(a),
        ensures
            0 <= self.rank(a) < self.all_texts().len(),
            self.all_texts()[self.rank(a)] == dotted_quad(a),
    {
        self.lemma_rank_bounds(a);
        self.lemma_address_of_rank(a);
    }

    /// The enumeration holds addresses of the block only, as many as the
    /// block has.
    pub proof fn lemma_only_addresses_are_listed(self, n: int)
        requires
            self.wf(),
            0 <= n < self.total(),
        ensures
            self.all_texts().len() == self.total(),
            self.contains(self.address_at(n)),
            self.all_texts()[n] == dotted_quad(self.address_at(n)),
    {
        self.lemma_rank_of_address(n);
    }

    /// The enumeration holds no address twice: it goes up in lexicographic
    /// order, and different addresses are written differently.
    pub proof fn lemma_no_address_is_listed_twice(self, m: int, n: int)
        requires
            self.wf(),
            0 <= m < n < self.total(),
        ensures
            lex_less(self.address_at(m), self.address_at(n)),
            self.all_texts()[m] != self.all_texts()[n],
    {
        self.lemma_order(m, n);
        if dotted_quad(self.address_at(m)) == dotted_quad(self.address_at(n)) {
            lemma_dotted_quad_injective(self.address_at(m), self.address_at(n));
        }
    }

    /// Two runs of addresses that meet make one run.
    pub proof fn lemma_texts_join(self, from: int, middle: int, to: int)
        requires
            from <= middle <= to,
        ensures
            self.texts(from, middle) + self.texts(middle, to) == self.texts(from, to),
    {
        assert(self.texts(from, middle) + self.texts(middle, to) =~= self.texts(from, to));
    }

    /// A batch holds at most `size` addresses, and none where its index lies
    /// past the end of the enumeration.
    pub proof fn lemma_batch_len(self, index: nat, size: nat)
        requires
            self.wf(),
        ensures
            self.batch_at(index as int, size as int).len() <= size,
            index * size >= self.total() ==> self.batch_at(index as int, size as int).len() == 0,
    {
        self.lemma_sizes();
        lemma_product_nonnegative(index as int, size as int);
    }

    /// The batches of the first `count` indices, one after the other, are the
    /// first `count * size` addresses of the enumeration, or all of them
    /// where there are fewer.
    pub proof fn lemma_first_batches(self, size: nat, count: nat)
        requires
            self.wf(),
        ensures
            self.first_batches(size as int, count) == self.texts(
                0,
                self.clip((count * size) as int),
            ),
        decreases count,
    {
        self.lemma_sizes();
        if count == 0 {
            assert(0 * size == 0);
            assert(self.first_batches(size as int, count) =~= self.texts(0, 0));
        } else {
            let before = (count - 1) as nat;
            self.lemma_first_batches(size, before);
            lemma_product_nonnegative(before as int, size as int);
            assert(count * size == before * size + size) by (nonlinear_arith)
                requires
                    count == before + 1,
            ;
            self.lemma_texts_join(
                0,
                self.clip((before * size) as int),
                self.clip((count * size) as int),
            );
        }
    }

    /// `batch_count(size)` batches reach the end of the enumeration, and one
    /// batch fewer does not.
    pub proof fn lemma_batch_count(self, size: nat)
        requires
            self.wf(),
            size >= 1,
        ensures
            self.batch_count(size as int) >= 1,
            self.batch_count(size as int) * size >= self.total(),
            (self.batch_count(size as int) - 1) * size < self.total(),
    {
        self.lemma_sizes();
        let padded = self.total() + size - 1;
        let count = self.batch_count(size as int);
        lemma_fundamental_div_mod(padded, size as int);
        assert(0 <= padded % (size as int) < size) by (nonlinear_arith)
            requires
                size >= 1,
                padded >= 0,
        ;
        assert(size * count == count * size) by (nonlinear_arith);
        assert((count - 1) * size == count * size - size) by (nonlinear_arith);
        assert(count >= 1) by (nonlinear_arith)
            requires
                count * size >= self.total(),
                self.total() >= 1,
                size >= 1,
        ;
    }

    /// Tiling: the batches of all indices up to the last one that starts
    /// inside the enumeration, one after the other, are the whole enumeration.
    /// Further batches add nothing.
    pub proof fn lemma_batches_tile(self, size: nat, count: nat)
        requires
            self.wf(),
            size >= 1,
            count >= self.batch_count(size as int),
        ensures
            self.first_batches(size as int, count) == self.all_texts(),
            self.first_batches(size as int, count).len() == self.total(),
    {
        self.lemma_sizes();
        self.lemma_batch_count(size);
        self.lemma_first_batches(size, count);
        let least = self.batch_count(size as int);
        assert(count * size >= least * size) by (nonlinear_arith)
            requires
                count >= least,
                size >= 1,
        ;
    }

    /// A block of a single address: its enumeration is that address.
    pub proof fn lemma_single_address(self)
        requires
            self.lower == self.upper,
        ensures
            self.total() == 1,
            self.all_texts() == seq![dotted_quad(self.lower)],
    {
        self.lemma_sizes();
        self.lemma_ends();
        assert(self.size0() * self.size1() * self.size2() * self.size3() == 1) by (nonlinear_arith)
            requires
                self.size0() == 1,
                self.size1() == 1,
                self.size2() == 1,
                self.size3() == 1,
        ;
        assert(self.all_texts() =~= seq![dotted_quad(self.lower)]);
    }
}

/// A product of two numbers that are not negative is not negative.
proof fn lemma_product_nonnegative(a: int, b: int)
    by (nonlinear_arith)
    requires
        0 <= a,
        0 <= b,
    ensures
        0 <= a * b,
{
}

/// An enumerator as contracts speak of it: its block, and the rank of the
/// next address that incremental generation will emit. `next` equal to
/// `block.total()` means that every address has been emitted.
pub struct Cursor {
    pub block: Block,
    pub next: int,
}

impl Cursor {
    /// The block is well formed and `next` is a rank of it or the end.
    pub open spec fn wf(self) -> bool {
        self.block.wf() && 0 <= self.next <= self.block.total()
    }

    /// A cursor on the first address of `block`.
    pub open spec fn fresh(block: Block) -> Cursor {
        Cursor { block, next: 0 }
    }

    /// Whether an address is left to emit.
    pub open spec fn has_remaining(self) -> bool {
        self.next < self.block.total()
    }

    /// The address on which the cursor stands: the next one to be emitted
    /// while addresses remain, the last address of the block after that.
    pub open spec fn position(self) -> Octets {
        if self.has_remaining() {
            self.block.address_at(self.next)
        } else {
            self.block.upper
        }
    }

    /// What the next incremental batch of at most `size` addresses holds.
    pub open spec fn next_batch(self, size: int) -> Seq<Seq<char>> {
        self.block.texts(self.next, self.block.clip(self.next + size))
    }

    /// The cursor after that batch.
    pub open spec fn advance(self, size: int) -> Cursor {
        Cursor { next: self.block.clip(self.next + size), ..self }
    }

    /// The cursor after `count` incremental batches of `size` addresses.
    pub open spec fn advance_by(self, size: int, count: nat) -> Cursor
        decreases count,
    {
        if count == 0 {
            self
        } else {
            self.advance(size).advance_by(size, (count - 1) as nat)
        }
    }

    /// Everything that incremental generation emits when batches of `size`
    /// addresses are taken for as long as addresses remain.
    pub open spec fn drain(self, size: int) -> Seq<Seq<char>>
        decreases self.block.total() - self.next,
    {
        if self.has_remaining() && size >= 1 {
            self.next_batch(size) + self.advance(size).drain(size)
        } else {
            Seq::empty()
        }
    }

    /// The cursor never leaves the block. While it stands before the last
    /// address, addresses remain; it stands on the last address both when
    /// that address is the only one left and when none is left.
    pub proof fn lemma_position(self)
        requires
            self.wf(),
        ensures
            self.block.contains(self.position()),
            self.position() != self.block.upper <==> self.next < self.block.total() - 1,
            self.position() != self.block.upper ==> self.has_remaining(),
    {
        self.block.lemma_ends();
        if self.has_remaining() {
            self.block.lemma_rank_of_address(self.next);
        }
    }

    /// An incremental batch holds at most `size` addresses, leaves the cursor
    /// well formed, and moves it by the number of addresses emitted. At
    /// exhaustion it holds none and leaves the cursor where it is.
    pub proof fn lemma_next_batch(self, size: nat)
        requires
            self.wf(),
        ensures
            self.advance(size as int).wf(),
            self.next_batch(size as int).len() <= size,
            self.advance(size as int).next == self.next + self.next_batch(size as int).len(),
            !self.has_remaining() ==> self.advance(size as int) == self && self.next_batch(
                size as int,
            ).len() == 0,
            self.has_remaining() && size >= 1 ==> self.next_batch(size as int).len() >= 1,
    {
    }

    /// After `count` incremental batches the cursor stands `count * size`
    /// addresses further, or at the end where fewer remained.
    pub proof fn lemma_advance_by(self, size: nat, count: nat)
        requires
            self.wf(),
        ensures
            self.advance_by(size as int, count) == (Cursor {
                next: self.block.clip(self.next + count * size),
                ..self
            }),
        decreases count,
    {
        if count == 0 {
            assert(0 * size == 0);
        } else {
            let before = (count - 1) as nat;
            self.advance(size as int).lemma_advance_by(size, before);
            lemma_product_nonnegative(before as int, size as int);
            assert(count * size == before * size + size) by (nonlinear_arith)
                requires
                    count == before + 1,
            ;
        }
    }

    /// Both modes agree batch for batch: the incremental batch that follows
    /// `index` earlier ones from a fresh cursor is the batch of index `index`.
    pub proof fn lemma_incremental_is_direct(block: Block, size: nat, index: nat)
        requires
            block.wf(),
        ensures
            Cursor::fresh(block).advance_by(size as int, index).next_batch(size as int)
                == block.batch_at(index as int, size as int),
    {
        block.lemma_sizes();
        Cursor::fresh(block).lemma_advance_by(size, index);
        lemma_product_nonnegative(index as int, size as int);
        let start = (index * size) as int;
        assert(block.clip(block.clip(start) + size) == block.clip(start + size));
    }

    /// Draining emits every address from the cursor to the end of the
    /// enumeration, each once and in order.
    pub proof fn lemma_drain(self, size: nat)
        requires
            self.wf(),
            size >= 1,
        ensures
            self.drain(size as int) == self.block.texts(self.next, self.block.total()),
            self.drain(size as int).len() == self.block.total() - self.next,
        decreases self.block.total() - self.next,
    {
        if self.has_remaining() {
            let after = self.advance(size as int);
            after.lemma_drain(size);
            self.block.lemma_texts_join(self.next, after.next, self.block.total());
        } else {
            assert(self.drain(size as int) =~= self.block.texts(self.next, self.block.total()));
        }
    }

    /// Draining a fresh cursor emits as many addresses as the block holds,
    /// and emits what the batches of all indices hold, one after the other.
    pub proof fn lemma_drain_is_tiling(block: Block, size: nat)
        requires
            block.wf(),
            size >= 1,
        ensures
            Cursor::fresh(block).drain(size as int).len() == block.total(),
            Cursor::fresh(block).drain(size as int) == block.all_texts(),
            Cursor::fresh(block).drain(size as int) == block.first_batches(
                size as int,
                block.batch_count(size as int) as nat,
            ),
    {
        block.lemma_sizes();
        block.lemma_batch_count(size);
        Cursor::fresh(block).lemma_drain(size);
        block.lemma_batches_tile(size, block.batch_count(size as int) as nat);
    }
}

} // verus!
