//! Arrays that are read and written by a scan over all of their items.
use vstd::prelude::*;
use crate::oblivious::ObliviousValue;
use crate::prelude::filled;

verus! {

/// A value that may be absent. Code reads and copies it without looking which it is.
#[derive(Debug)]
pub struct OOption<T: ObliviousValue> {
    /// The value, which means something only when [`Self::is_some`] holds.
    pub value: T,
    /// Whether there is a value.
    pub is_some: bool,
}

impl<T: ObliviousValue> Clone for OOption<T> {
    fn clone(&self) -> (r: Self)
        ensures
            r == *self,
    {
        *self
    }
}

impl<T: ObliviousValue> Copy for OOption<T> {

}

impl<T: ObliviousValue> View for OOption<T> {
    type V = Option<T>;

    open spec fn view(&self) -> Option<T> {
        if self.is_some {
            Some(self.value)
        } else {
            None
        }
    }
}

impl<T: ObliviousValue> OOption<T> {
    /// The value `value` if `is_some` holds, none otherwise.
    pub fn new(value: T, is_some: bool) -> (r: Self)
        ensures
            r.value == value,
            r.is_some == is_some,
            r@ == (if is_some {
                Some(value)
            } else {
                None
            }),
    {
        OOption { value, is_some }
    }

    /// Whether there is a value.
    pub fn is_some(&self) -> (r: bool)
        ensures
            r == (self@ is Some),
    {
        self.is_some
    }

    /// The value.
    pub fn unwrap(&self) -> (r: T)
        requires
            self@ is Some,
        ensures
            self@ == Some(r),
    {
        let mut r: T = T::zeroed();
        r.assign_if(&self.value, self.is_some);
        r
    }
}

/// Reads item `index` of `data` into `ret`, which stays as it is when there is none.
pub fn oblivious_read_index<T: ObliviousValue>(data: &[T], index: usize, ret: &mut T)
    ensures
        *final(ret) == (if index < data@.len() {
            data@[index as int]
        } else {
            *old(ret)
        }),
{
    let mut i: usize = 0;
    while i < data.len()
        invariant
            i <= data@.len(),
            *ret == (if index < i {
                data@[index as int]
            } else {
                *old(ret)
            }),
        decreases data@.len() - i,
    {
        ret.assign_if(&data[i], i == index);
        i += 1;
    }
}

/// Writes `value` to item `index` of `data`, if there is one.
pub fn oblivious_write_index<T: ObliviousValue>(data: &mut [T], index: usize, value: T)
    ensures
        final(data)@ == (if index < old(data)@.len() {
            old(data)@.update(index as int, value)
        } else {
            old(data)@
        }),
{
    let ghost before = data@;
    let mut i: usize = 0;
    while i < data.len()
        invariant
            i <= data@.len() == before.len(),
            data@ == (if index < i {
                before.update(index as int, value)
            } else {
                before
            }),
        decreases data@.len() - i,
    {
        let mut item: T = data[i];
        item.assign_if(&value, i == index);
        data[i] = item;
        proof {
            assert(data@ =~= (if index < i + 1 {
                before.update(index as int, value)
            } else {
                before
            }));
        }
        i += 1;
    }
}

/// Reads item `index` of `data` into `ret` and writes `value` to it. Without such an item
/// nothing changes.
pub fn oblivious_read_update_index<T: ObliviousValue>(
    data: &mut [T],
    index: usize,
    ret: &mut T,
    value: T,
)
    ensures
        *final(ret) == (if index < old(data)@.len() {
            old(data)@[index as int]
        } else {
            *old(ret)
        }),
        final(data)@ == (if index < old(data)@.len() {
            old(data)@.update(index as int, value)
        } else {
            old(data)@
        }),
{
    oblivious_read_index(data, index, ret);
    oblivious_write_index(data, index, value);
}

/// Copies `src` into `dst` from item `start` on, as far as it fits.
pub fn oblivious_memcpy<T: ObliviousValue>(dst: &mut [T], src: &[T], start: usize)
    ensures
        final(dst)@.len() == old(dst)@.len(),
        forall|k: int|
            0 <= k < old(dst)@.len() ==> #[trigger] final(dst)@[k] == (if start <= k < start
                + src@.len() {
                src@[k - start]
            } else {
                old(dst)@[k]
            }),
{
    let ghost before = dst@;
    let mut i: usize = start;
    while i < dst.len()
        invariant
            start <= i,
            dst@.len() == before.len(),
            forall|k: int|
                0 <= k < before.len() ==> #[trigger] dst@[k] == (if start <= k < i && k < start
                    + src@.len() {
                    src@[k - start]
                } else {
                    before[k]
                }),
        decreases before.len() - i,
    {
        if i - start < src.len() {
            dst[i] = src[i - start];
        }
        i += 1;
    }
}

/// An array that every access scans.
#[derive(Debug)]
pub struct LinearORAM<T: ObliviousValue> {
    /// The items.
    pub data: Vec<T>,
}

impl<T: ObliviousValue> LinearORAM<T> {
    /// An array of `max_n` zero items.
    pub fn new(max_n: usize) -> (r: Self)
        ensures
            r.data@ == Seq::new(max_n as nat, |i: int| T::zero()),
    {
        LinearORAM { data: filled(T::zeroed(), max_n) }
    }

    /// Reads item `index` into `ret`, which stays as it is when there is none.
    pub fn read(&self, index: usize, ret: &mut T)
        ensures
            *final(ret) == (if index < self.data@.len() {
                self.data@[index as int]
            } else {
                *old(ret)
            }),
    {
        oblivious_read_index(self.data.as_slice(), index, ret);
    }

    /// Writes `value` to item `index`, if there is one.
    pub fn write(&mut self, index: usize, value: T)
        ensures
            final(self).data@ == (if index < old(self).data@.len() {
                old(self).data@.update(index as int, value)
            } else {
                old(self).data@
            }),
    {
        oblivious_write_index(self.data.as_mut_slice(), index, value);
    }
}

} // verus!
