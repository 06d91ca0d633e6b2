//! A growable vector whose length and capacity are 32-bit.

use vstd::arithmetic::power2::{lemma2_to64, lemma_pow2_pos, lemma_pow2_unfold, pow2};
use crate::checked_unwrap::DebugCheckedUnwrap;
use vstd::prelude::*;

verus! {

/// Whether `n` is a power of two.
pub open spec fn is_power_of_two(n: nat) -> bool
    decreases n,
{
    n == 1 || (n > 1 && n % 2 == 0 && is_power_of_two(n / 2))
}

/// Whether `capacity` is what a vector grows to when it needs room for
/// `needed` elements: the smallest power of two that is large enough, or
/// `u32::MAX` when that power does not fit in 32 bits.
pub open spec fn is_grown_capacity(needed: nat, capacity: nat) -> bool {
    if needed > 0x8000_0000 {
        capacity == u32::MAX
    } else {
        &&& is_power_of_two(capacity)
        &&& needed <= capacity
        &&& capacity == 1 || capacity / 2 < needed
    }
}

/// A power of two below `2^e` is at most `2^(e - 1)`.
proof fn lemma_power_of_two_below(n: nat, e: nat)
    requires
        is_power_of_two(n),
        n < pow2(e),
        e >= 1,
    ensures
        2 * n <= pow2(e),
    decreases n,
{
    lemma_pow2_unfold(e);
    if n > 1 {
        if e == 1 {
            lemma2_to64();
        } else {
            lemma_power_of_two_below(n / 2, (e - 1) as nat);
        }
    } else {
        lemma_pow2_pos((e - 1) as nat);
    }
}

/// Computes the capacity to grow to, see [`is_grown_capacity`].
fn capacity_for(needed: u32) -> (capacity: u32)
    ensures
        is_grown_capacity(needed as nat, capacity as nat),
        capacity >= needed,
{
    if needed > 0x8000_0000 {
        return u32::MAX;
    }
    let mut capacity: u32 = 1;
    while capacity < needed
        invariant
            1 <= capacity <= 0x8000_0000,
            needed <= 0x8000_0000,
            is_power_of_two(capacity as nat),
            capacity == 1 || capacity / 2 < needed,
        decreases 0x1_0000_0000 - capacity,
    {
        proof {
            lemma2_to64();
            lemma_power_of_two_below(capacity as nat, 31);
            assert((2 * capacity) / 2 == capacity);
        }
        capacity = capacity * 2;
    }
    capacity
}

/// A vector of at most `u32::MAX` elements.
///
/// The capacity is the number of elements that room has been made for; it
/// grows in powers of two and is never below the length.
#[derive(Debug)]
pub struct Vec32<T> {
    data: Vec<T>,
    length: u32,
    capacity: u32,
}

impl<T> Vec32<T> {
    /// The elements, in order.
    pub closed spec fn view(&self) -> Seq<T> {
        self.data@
    }

    /// The number of elements that room has been made for.
    pub closed spec fn spec_capacity(&self) -> u32 {
        self.capacity
    }

    /// The recorded length is the number of elements, and the elements fit
    /// in the capacity.
    #[verifier::type_invariant]
    pub closed spec fn wf(&self) -> bool {
        self.data@.len() == self.length && self.length <= self.capacity
    }

    pub fn new() -> (v: Self)
        ensures
            v@ == Seq::<T>::empty(),
            v.spec_capacity() == 0,
    {
        Self { data: Vec::new(), length: 0, capacity: 0 }
    }

    pub fn with_capacity(capacity: u32) -> (v: Self)
        ensures
            v@ == Seq::<T>::empty(),
            v.spec_capacity() == capacity,
    {
        Self { data: Vec::with_capacity(capacity as usize), length: 0, capacity }
    }

    /// Moves the vector out and leaves an empty one behind.
    fn take(&mut self) -> (taken: Self)
        ensures
            taken == *old(self),
            final(self)@ == Seq::<T>::empty(),
    {
        let mut taken = Self::new();
        core::mem::swap(self, &mut taken);
        taken
    }

    /// Removes all elements. The capacity stays.
    pub fn clear(&mut self)
        ensures
            final(self)@ == Seq::<T>::empty(),
            final(self).spec_capacity() == old(self).spec_capacity(),
    {
        let capacity: u32 = self.capacity;
        *self = Self { data: Vec::new(), length: 0, capacity };
    }

    /// The storage of the elements: one contiguous run that starts at the
    /// first element and holds `len()` of them.
    pub fn as_ptr(&self) -> (elements: &[T])
        ensures
            elements@ == self@,
    {
        self.data.as_slice()
    }

    pub fn get(&self, index: u32) -> (r: Option<&T>)
        ensures
            r == if index < self@.len() {
                Some(&self@[index as int])
            } else {
                None
            },
    {
        proof {
            use_type_invariant(self);
        }
        if index < self.length {
            Some(&self.data[index as usize])
        } else {
            None
        }
    }

    #[verifier::when_used_as_spec(spec_len)]
    pub fn len(&self) -> (n: u32)
        ensures
            n == self@.len(),
    {
        proof {
            use_type_invariant(self);
        }
        self.length
    }

    pub open spec fn spec_len(&self) -> u32 {
        self@.len() as u32
    }

    #[verifier::when_used_as_spec(spec_capacity)]
    pub fn capacity(&self) -> (n: u32)
        ensures
            n == self.spec_capacity(),
            n >= self@.len(),
    {
        proof {
            use_type_invariant(self);
        }
        self.capacity
    }

    pub fn is_empty(&self) -> (b: bool)
        ensures
            b == (self@.len() == 0),
    {
        proof {
            use_type_invariant(self);
        }
        self.length == 0
    }

    /// The element at `index`, for changing it.
    pub fn get_mut(&mut self, index: u32) -> (r: Option<&mut T>)
        ensures
            final(self).spec_capacity() == old(self).spec_capacity(),
            match r {
                Some(element) => index < old(self)@.len() && *element == old(self)@[index as int]
                    && final(self)@ == old(self)@.update(index as int, *final(element)),
                None => index >= old(self)@.len() && final(self)@ == old(self)@,
            },
    {
        proof {
            use_type_invariant(&*self);
        }
        if index < self.length {
            Some(&mut self.data[index as usize])
        } else {
            None
        }
    }

    /// Removes the element at `index`, which must exist, by moving the last
    /// element into its place, and returns it. No other element moves.
    pub fn swap_remove_unchecked(&mut self, index: u32) -> (element: T)
        requires
            index < old(self)@.len(),
        ensures
            element == old(self)@[index as int],
            final(self)@ == old(self)@.update(index as int, old(self)@.last()).drop_last(),
            final(self).spec_capacity() == old(self).spec_capacity(),
    {
        proof {
            use_type_invariant(&*self);
        }
        let Vec32 { mut data, length, capacity } = self.take();
        let element = data.swap_remove(index as usize);
        *self = Self { data, length: length - 1, capacity };
        element
    }

    /// Makes room for one more element if the vector is full.
    fn reserve_for_push(&mut self)
        requires
            old(self)@.len() < u32::MAX,
        ensures
            final(self)@ == old(self)@,
            final(self).spec_capacity() > final(self)@.len(),
            old(self).spec_capacity() > old(self)@.len() ==> final(self).spec_capacity()
                == old(self).spec_capacity(),
            old(self).spec_capacity() == old(self)@.len() ==> is_grown_capacity(
                old(self)@.len() + 1,
                final(self).spec_capacity() as nat,
            ),
    {
        proof {
            use_type_invariant(&*self);
        }
        if self.length == self.capacity {
            let capacity: u32 = capacity_for(self.length + 1);
            let Vec32 { mut data, length, capacity: _ } = self.take();
            data.reserve((capacity - length) as usize);
            *self = Self { data, length, capacity };
        }
    }

    /// Appends `value`. A full vector first grows to the next power of two.
    pub fn push(&mut self, value: T)
        requires
            old(self)@.len() < u32::MAX,
        ensures
            final(self)@ == old(self)@.push(value),
            old(self).spec_capacity() > old(self)@.len() ==> final(self).spec_capacity()
                == old(self).spec_capacity(),
            old(self).spec_capacity() == old(self)@.len() ==> is_grown_capacity(
                old(self)@.len() + 1,
                final(self).spec_capacity() as nat,
            ),
    {
        self.reserve_for_push();
        proof {
            use_type_invariant(&*self);
        }
        let Vec32 { mut data, length, capacity } = self.take();
        data.push(value);
        *self = Self { data, length: length + 1, capacity };
    }

    /// Same as [`Vec32::push`]; kept for callers that have already
    /// established that the length is below `u32::MAX`.
    pub fn push_unchecked(&mut self, value: T)
        requires
            old(self)@.len() < u32::MAX,
        ensures
            final(self)@ == old(self)@.push(value),
            old(self).spec_capacity() > old(self)@.len() ==> final(self).spec_capacity()
                == old(self).spec_capacity(),
            old(self).spec_capacity() == old(self)@.len() ==> is_grown_capacity(
                old(self)@.len() + 1,
                final(self).spec_capacity() as nat,
            ),
    {
        self.push(value);
    }

    /// Makes room for `additional` more elements. A capacity that is large
    /// enough stays; otherwise the vector grows to the smallest power of two
    /// that is.
    pub fn reserve(&mut self, additional: u32)
        requires
            old(self)@.len() + additional <= u32::MAX,
        ensures
            final(self)@ == old(self)@,
            final(self).spec_capacity() >= old(self)@.len() + additional,
            old(self).spec_capacity() >= old(self)@.len() + additional
                ==> final(self).spec_capacity() == old(self).spec_capacity(),
            old(self).spec_capacity() < old(self)@.len() + additional ==> is_grown_capacity(
                (old(self)@.len() + additional) as nat,
                final(self).spec_capacity() as nat,
            ),
    {
        proof {
            use_type_invariant(&*self);
        }
        let needed: u32 = self.length.checked_add(additional).debug_checked_unwrap();
        if needed > self.capacity {
            let capacity: u32 = capacity_for(needed);
            let Vec32 { mut data, length, capacity: _ } = self.take();
            data.reserve((capacity - length) as usize);
            *self = Self { data, length, capacity };
        }
    }

    /// The elements as a slice.
    pub fn deref(&self) -> (elements: &[T])
        ensures
            elements@ == self@,
    {
        self.data.as_slice()
    }
}

impl<T> Default for Vec32<T> {
    fn default() -> (v: Self)
        ensures
            v@ == Seq::<T>::empty(),
            v.spec_capacity() == 0,
    {
        Self::new()
    }
}

} // verus!
