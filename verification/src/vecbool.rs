//! The bit-packed boolean container.
//!
//! [`VecBool`] stores each boolean as one bit of a `u8` chunk: bit `k`
//! (least significant first) of chunk `i` holds the element with logical
//! index `i * CHUNK_SIZE + k`. A separate length counter bounds the live
//! elements; bits at or above the length are stale storage, never observable
//! through the checked interface.

use vstd::prelude::*;
use vstd::arithmetic::div_mod::{
    lemma_fundamental_div_mod, lemma_fundamental_div_mod_converse_div, lemma_mod_bound,
    lemma_multiply_divide_lt, lemma_div_is_ordered, lemma_div_is_strictly_smaller,
};
use crate::bits::{
    nth_bit, lemma_nth_bit_zero, lemma_nth_bit_or_mask, lemma_nth_bit_and_not_mask,
    lemma_nth_bit_clear_from,
};
use crate::CHUNK_SIZE;

verus! {

/// A growable sequence of booleans, packed eight to a byte.
pub struct VecBool {
    len: usize,
    chunks: Vec<u8>,
}

impl View for VecBool {
    type V = Seq<bool>;

    /// The logical contents: the first `len` packed bits, in index order.
    closed spec fn view(&self) -> Seq<bool> {
        Seq::new(
            self.len as nat,
            |i: int| nth_bit(self.chunks@[i / (CHUNK_SIZE as int)], (i % (CHUNK_SIZE as int)) as u8),
        )
    }
}

impl VecBool {
    /// The raw storage, one `u8` chunk per `CHUNK_SIZE` logical slots.
    pub closed spec fn chunks_view(&self) -> Seq<u8> {
        self.chunks@
    }

    /// Number of chunks currently held.
    pub open spec fn chunk_count(&self) -> nat {
        self.chunks_view().len()
    }

    /// Total bit slots currently allocated.
    pub open spec fn spec_capacity(&self) -> nat {
        self.chunk_count() * (CHUNK_SIZE as nat)
    }

    /// Internal consistency: the length never exceeds the capacity, and the
    /// capacity itself fits in a `usize`. Every constructor establishes this
    /// and every operation preserves it.
    pub closed spec fn well_formed(&self) -> bool {
        &&& self.len as int <= self.chunks@.len() * (CHUNK_SIZE as int)
        &&& self.chunks@.len() * (CHUNK_SIZE as int) <= usize::MAX as int
    }

    /// Law: the capacity never falls below the length.
    pub proof fn lemma_length_le_capacity(&self)
        requires
            self.well_formed(),
        ensures
            self@.len() <= self.spec_capacity(),
    {
    }

    /// Creates an empty container; no chunk is allocated yet.
    pub fn new() -> (r: Self)
        ensures
            r.well_formed(),
            r@ == Seq::<bool>::empty(),
            r.chunk_count() == 0,
    {
        let r = VecBool { chunks: Vec::new(), len: 0 };
        proof {
            assert(r@ =~= Seq::<bool>::empty());
        }
        r
    }

    /// Creates an empty container with room reserved for roughly `capacity`
    /// elements. Only heap space is reserved: no chunk is held yet, so the
    /// observable state equals that of [`VecBool::new`].
    pub fn with_capacity(capacity: usize) -> (r: Self)
        ensures
            r.well_formed(),
            r@ == Seq::<bool>::empty(),
            r.chunk_count() == 0,
    {
        proof {
            lemma_div_is_ordered(capacity as int, usize::MAX as int, CHUNK_SIZE as int);
            lemma_div_is_strictly_smaller(usize::MAX as int, CHUNK_SIZE as int);
        }
        let r = VecBool { chunks: Vec::with_capacity((capacity / CHUNK_SIZE) + 1), len: 0 };
        proof {
            assert(r@ =~= Seq::<bool>::empty());
        }
        r
    }

    /// Creates a container of `len` elements, all `false`, backed by
    /// `len / CHUNK_SIZE + 1` zeroed chunks.
    pub fn with_zeros(len: usize) -> (r: Self)
        requires
            len + CHUNK_SIZE <= usize::MAX,
        ensures
            r.well_formed(),
            r@.len() == len,
            forall|i: int| 0 <= i < len ==> r@[i] == false,
            r.chunk_count() == len as int / (CHUNK_SIZE as int) + 1,
    {
        proof {
            lemma_div_is_ordered(len as int, usize::MAX as int, CHUNK_SIZE as int);
            lemma_div_is_strictly_smaller(usize::MAX as int, CHUNK_SIZE as int);
        }
        let count: usize = (len / CHUNK_SIZE) + 1;
        let mut chunks: Vec<u8> = Vec::new();
        let mut i: usize = 0;
        while i < count
            invariant
                i <= count,
                chunks@.len() == i,
                forall|t: int| 0 <= t < i ==> chunks@[t] == 0u8,
            decreases count - i,
        {
            chunks.push(0);
            i = i + 1;
        }
        let r = VecBool { chunks, len };
        proof {
            lemma_fundamental_div_mod(len as int, CHUNK_SIZE as int);
            lemma_mod_bound(len as int, CHUNK_SIZE as int);
            assert forall|j: int| 0 <= j < len implies r@[j] == false by {
                lemma_multiply_divide_lt(j, CHUNK_SIZE as int, count as int);
                lemma_mod_bound(j, CHUNK_SIZE as int);
                lemma_nth_bit_zero((j % (CHUNK_SIZE as int)) as u8);
            }
        }
        r
    }

    /// Number of elements currently stored.
    pub fn len(&self) -> (r: usize)
        ensures
            r == self@.len(),
    {
        self.len
    }

    /// Total bit slots currently allocated; always at least the length.
    pub fn capacity(&self) -> (r: usize)
        requires
            self.well_formed(),
        ensures
            r == self.spec_capacity(),
    {
        self.chunks.len() * CHUNK_SIZE
    }

    /// Chunk index and single-bit mask addressing logical index `index`.
    fn get_index(index: usize) -> (r: (usize, u8))
        ensures
            r.0 == index as int / (CHUNK_SIZE as int),
            r.1 == (1u8 << ((index as int % (CHUNK_SIZE as int)) as u8)),
    {
        proof {
            lemma_mod_bound(index as int, CHUNK_SIZE as int);
        }
        let chunk_index: usize = index / CHUNK_SIZE;
        let shifts: usize = index % CHUNK_SIZE;
        let mask: u8 = 1u8 << (shifts as u8);
        (chunk_index, mask)
    }

    /// Returns the element at `index`, or `None` when `index` is out of
    /// range. Never fails.
    pub fn get(&self, index: usize) -> (r: Option<bool>)
        requires
            self.well_formed(),
        ensures
            r == (if index < self@.len() {
                Some(self@[index as int])
            } else {
                None::<bool>
            }),
    {
        if index >= self.len {
            return None;
        }
        Some(self.get_unchecked(index))
    }

    /// Returns the element at `index`; the caller must have checked the
    /// bound already.
    pub fn get_unchecked(&self, index: usize) -> (r: bool)
        requires
            self.well_formed(),
            index < self@.len(),
        ensures
            r == self@[index as int],
    {
        let (chunk_index, mask) = Self::get_index(index);
        proof {
            lemma_multiply_divide_lt(index as int, CHUNK_SIZE as int, self.chunks@.len() as int);
        }
        let bits = self.chunks[chunk_index];
        (bits & mask) != 0
    }

    /// Writes `value` at `index` when it is in range and reports success;
    /// out of range, leaves the container unchanged and reports failure.
    pub fn set(&mut self, index: usize, value: bool) -> (r: bool)
        requires
            old(self).well_formed(),
        ensures
            final(self).well_formed(),
            r == (index < old(self)@.len()),
            index < old(self)@.len() ==> final(self)@ == old(self)@.update(index as int, value),
            index >= old(self)@.len() ==> *final(self) == *old(self),
            final(self).chunk_count() == old(self).chunk_count(),
    {
        if index >= self.len {
            return false;
        }
        self.set_unchecked(index, value);
        true
    }

    /// Writes `value` at `index`; the caller must have checked the bound
    /// already.
    pub fn set_unchecked(&mut self, index: usize, value: bool)
        requires
            old(self).well_formed(),
            index < old(self)@.len(),
        ensures
            final(self).well_formed(),
            final(self)@ == old(self)@.update(index as int, value),
            final(self).chunk_count() == old(self).chunk_count(),
    {
        let (chunk_index, mask) = Self::get_index(index);
        proof {
            lemma_multiply_divide_lt(index as int, CHUNK_SIZE as int, self.chunks@.len() as int);
        }
        let bits = self.chunks[chunk_index];
        if value {
            self.chunks[chunk_index] = bits | mask;
        } else {
            self.chunks[chunk_index] = bits & !mask;
        }
        proof {
            let ghost j = index as int;
            assert forall|t: int| 0 <= t < self@.len() implies self@[t] == old(self)@.update(
                j,
                value,
            )[t] by {
                lemma_fundamental_div_mod(t, CHUNK_SIZE as int);
                lemma_fundamental_div_mod(j, CHUNK_SIZE as int);
                lemma_mod_bound(t, CHUNK_SIZE as int);
                lemma_mod_bound(j, CHUNK_SIZE as int);
                if t / (CHUNK_SIZE as int) == j / (CHUNK_SIZE as int) {
                    if value {
                        lemma_nth_bit_or_mask(
                            old(self).chunks@[j / (CHUNK_SIZE as int)],
                            (j % (CHUNK_SIZE as int)) as u8,
                            (t % (CHUNK_SIZE as int)) as u8,
                        );
                    } else {
                        lemma_nth_bit_and_not_mask(
                            old(self).chunks@[j / (CHUNK_SIZE as int)],
                            (j % (CHUNK_SIZE as int)) as u8,
                            (t % (CHUNK_SIZE as int)) as u8,
                        );
                    }
                }
            }
            assert(self@ =~= old(self)@.update(j, value));
        }
    }

    /// Appends `value` at the end, allocating one zeroed chunk first when no
    /// spare bit slot remains.
    pub fn push(&mut self, value: bool)
        requires
            old(self).well_formed(),
            old(self)@.len() < old(self).spec_capacity() || old(self)@.len() + CHUNK_SIZE
                <= usize::MAX,
        ensures
            final(self).well_formed(),
            final(self)@ == old(self)@.push(value),
            final(self).chunk_count() == old(self).chunk_count() + (if old(self)@.len()
                == old(self).spec_capacity() {
                1int
            } else {
                0int
            }),
    {
        if self.len >= self.capacity() {
            self.chunks.push(0);
            proof {
                assert forall|t: int| 0 <= t < self@.len() implies self@[t] == old(self)@[t] by {
                    lemma_multiply_divide_lt(t, CHUNK_SIZE as int, old(self).chunks@.len() as int);
                }
                assert(self@ =~= old(self)@);
            }
        }
        let ghost mid = *self;
        self.len = self.len + 1;
        proof {
            assert forall|t: int| 0 <= t < mid@.len() implies self@[t] == mid@[t] by {}
        }
        let ghost grown = *self;
        self.set_unchecked(self.len - 1, value);
        proof {
            assert(self@ =~= old(self)@.push(value)) by {
                assert(self@ == grown@.update(old(self)@.len() as int, value));
                assert forall|t: int| 0 <= t < self@.len() implies self@[t] == old(self)@.push(
                    value,
                )[t] by {}
            }
        }
    }

    /// Removes and returns the last element, or returns `None` when the
    /// container is empty. Drops the trailing chunk when the new length is a
    /// multiple of `CHUNK_SIZE`; otherwise stale bits may stay behind in the
    /// retained chunk.
    pub fn pop(&mut self) -> (r: Option<bool>)
        requires
            old(self).well_formed(),
        ensures
            final(self).well_formed(),
            old(self)@.len() == 0 ==> r == None::<bool> && *final(self) == *old(self),
            old(self)@.len() > 0 ==> r == Some(old(self)@.last()),
            old(self)@.len() > 0 ==> final(self)@ == old(self)@.drop_last(),
            old(self)@.len() > 0 ==> final(self).chunk_count() == old(self).chunk_count() - (
            if (old(self)@.len() - 1) % (CHUNK_SIZE as int) == 0 {
                1int
            } else {
                0int
            }),
    {
        if self.len == 0 {
            return None;
        }
        let data = self.get_unchecked(self.len - 1);
        self.len = self.len - 1;
        let ghost mid = *self;
        proof {
            lemma_fundamental_div_mod(self.len as int, CHUNK_SIZE as int);
            lemma_mod_bound(self.len as int, CHUNK_SIZE as int);
        }
        if self.len % CHUNK_SIZE == 0 {
            self.chunks.pop();
            proof {
                let ghost q = mid.len as int / (CHUNK_SIZE as int);
                assert forall|t: int| 0 <= t < self@.len() implies self@[t] == mid@[t] by {
                    lemma_multiply_divide_lt(t, CHUNK_SIZE as int, q);
                }
            }
        }
        proof {
            assert(self@ =~= old(self)@.drop_last());
        }
        Some(data)
    }

    /// Removes and returns the last element, like [`VecBool::pop`], but also
    /// clears every stale bit in the retained trailing chunk, at the price of
    /// one extra masked write.
    pub fn pop_bit(&mut self) -> (r: Option<bool>)
        requires
            old(self).well_formed(),
        ensures
            final(self).well_formed(),
            old(self)@.len() == 0 ==> r == None::<bool> && *final(self) == *old(self),
            old(self)@.len() > 0 ==> r == Some(old(self)@.last()),
            old(self)@.len() > 0 ==> final(self)@ == old(self)@.drop_last(),
            old(self)@.len() > 0 ==> final(self).chunk_count() == old(self).chunk_count() - (
            if (old(self)@.len() - 1) % (CHUNK_SIZE as int) == 0 {
                1int
            } else {
                0int
            }),
            old(self)@.len() > 0 && (old(self)@.len() - 1) % (CHUNK_SIZE as int) != 0
                ==> forall|k: int|
                final(self)@.len() <= k < (final(self)@.len() as int / (CHUNK_SIZE as int) + 1) * (
                CHUNK_SIZE as int) ==> !(#[trigger] nth_bit(
                    final(self).chunks_view()[k / (CHUNK_SIZE as int)],
                    (k % (CHUNK_SIZE as int)) as u8,
                )),
    {
        if self.len == 0 {
            return None;
        }
        let data = self.get_unchecked(self.len - 1);
        self.len = self.len - 1;
        let ghost mid = *self;
        proof {
            lemma_fundamental_div_mod(self.len as int, CHUNK_SIZE as int);
            lemma_mod_bound(self.len as int, CHUNK_SIZE as int);
        }
        let bit_position: usize = self.len % CHUNK_SIZE;
        if bit_position == 0 {
            self.chunks.pop();
            proof {
                let ghost q = mid.len as int / (CHUNK_SIZE as int);
                assert forall|t: int| 0 <= t < self@.len() implies self@[t] == mid@[t] by {
                    lemma_multiply_divide_lt(t, CHUNK_SIZE as int, q);
                }
            }
        } else {
            let chunk_index: usize = self.len / CHUNK_SIZE;
            proof {
                lemma_multiply_divide_lt(self.len as int, CHUNK_SIZE as int, self.chunks@.len() as int);
            }
            let mask: u8 = 0xffu8 << (bit_position as u8);
            let bits = self.chunks[chunk_index];
            self.chunks[chunk_index] = bits & !mask;
            proof {
                let ghost q = mid.len as int / (CHUNK_SIZE as int);
                let ghost bp = (mid.len as int % (CHUNK_SIZE as int)) as u8;
                assert forall|t: int| 0 <= t < self@.len() implies self@[t] == mid@[t] by {
                    lemma_fundamental_div_mod(t, CHUNK_SIZE as int);
                    lemma_mod_bound(t, CHUNK_SIZE as int);
                    if t / (CHUNK_SIZE as int) == q {
                        lemma_nth_bit_clear_from(
                            mid.chunks@[q],
                            bp,
                            (t % (CHUNK_SIZE as int)) as u8,
                        );
                    }
                }
                assert(self@ =~= mid@);
                assert forall|k: int|
                    self@.len() <= k < (self@.len() as int / (CHUNK_SIZE as int) + 1) * (
                    CHUNK_SIZE as int) implies !(#[trigger] nth_bit(
                    self.chunks@[k / (CHUNK_SIZE as int)],
                    (k % (CHUNK_SIZE as int)) as u8,
                )) by {
                    lemma_fundamental_div_mod_converse_div(
                        k,
                        CHUNK_SIZE as int,
                        q,
                        k - q * (CHUNK_SIZE as int),
                    );
                    lemma_fundamental_div_mod(k, CHUNK_SIZE as int);
                    lemma_mod_bound(k, CHUNK_SIZE as int);
                    lemma_nth_bit_clear_from(mid.chunks@[q], bp, (k % (CHUNK_SIZE as int)) as u8);
                }
            }
        }
        proof {
            assert forall|t: int| 0 <= t < mid@.len() implies mid@[t] == old(self)@[t] by {}
            assert(mid@ =~= old(self)@.drop_last());
            assert(self@ =~= old(self)@.drop_last());
        }
        Some(data)
    }

    /// The elements in logical index order, materialised as a `Vec<bool>`.
    /// Stale bits beyond the length are never emitted.
    pub fn iter(&self) -> (r: Vec<bool>)
        requires
            self.well_formed(),
        ensures
            r@ == self@,
    {
        let mut out: Vec<bool> = Vec::new();
        let mut i: usize = 0;
        while i < self.len
            invariant
                self.well_formed(),
                i <= self@.len(),
                out@.len() == i,
                forall|t: int| 0 <= t < i ==> out@[t] == self@[t],
            decreases self@.len() - i,
        {
            out.push(self.get_unchecked(i));
            i = i + 1;
        }
        proof {
            assert(out@ =~= self@);
        }
        out
    }

    /// Packs a plain boolean sequence, preserving order.
    pub fn from_bools(values: Vec<bool>) -> (r: Self)
        requires
            values@.len() + CHUNK_SIZE <= usize::MAX,
        ensures
            r.well_formed(),
            r@ == values@,
    {
        let mut out = VecBool::with_capacity(values.len() / CHUNK_SIZE);
        let mut i: usize = 0;
        while i < values.len()
            invariant
                out.well_formed(),
                i <= values@.len(),
                values@.len() + CHUNK_SIZE <= usize::MAX,
                out@ == values@.subrange(0, i as int),
            decreases values@.len() - i,
        {
            out.push(values[i]);
            proof {
                assert(out@ =~= values@.subrange(0, i + 1 as int));
            }
            i = i + 1;
        }
        proof {
            assert(values@.subrange(0, values@.len() as int) =~= values@);
        }
        out
    }

    /// Unpacks into a plain boolean sequence, preserving order.
    pub fn to_bools(&self) -> (r: Vec<bool>)
        requires
            self.well_formed(),
        ensures
            r@ == self@,
    {
        let mut out: Vec<bool> = Vec::with_capacity(self.len);
        let mut i: usize = 0;
        while i < self.len
            invariant
                self.well_formed(),
                i <= self@.len(),
                out@.len() == i,
                forall|t: int| 0 <= t < i ==> out@[t] == self@[t],
            decreases self@.len() - i,
        {
            let value = self.get(i);
            out.push(value.unwrap());
            i = i + 1;
        }
        proof {
            assert(out@ =~= self@);
        }
        out
    }

    /// Surrenders the raw chunk storage, discarding the length. The caller
    /// must remember the length separately: the trailing chunk may carry
    /// stale padding bits.
    pub fn into_chunks(self) -> (r: Vec<u8>)
        requires
            self.well_formed(),
        ensures
            r@ == self.chunks_view(),
            forall|i: int|
                0 <= i < self@.len() ==> self@[i] == nth_bit(
                    r@[i / (CHUNK_SIZE as int)],
                    (i % (CHUNK_SIZE as int)) as u8,
                ),
    {
        self.chunks
    }
}

/// Law: packing a plain boolean sequence and unpacking it again yields the
/// original sequence, for every input including the empty one.
pub fn round_trip(values: Vec<bool>) -> (r: Vec<bool>)
    requires
        values@.len() + CHUNK_SIZE <= usize::MAX,
    ensures
        r@ == values@,
{
    let packed = VecBool::from_bools(values);
    packed.to_bools()
}

} // verus!
