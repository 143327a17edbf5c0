//! Small building blocks in the style of low-level systems code: a plain
//! data struct, an owner that hands out read-only views of its data, an
//! RCU-style read-side wrapper, a deliberately large struct, and a minimal
//! owning pointer.

use vstd::prelude::*;

verus! {

/// A simple data record.
#[derive(Debug, Clone)]
pub struct SimpleData {
    pub id: u32,
    pub value: i32,
    pub name: String,
}

/// An owner of a string that hands out read-only views of it.
pub struct SelfReferential {
    data: String,
}

impl SelfReferential {
    /// The owned text.
    pub closed spec fn data_view(&self) -> Seq<char> {
        self.data@
    }

    /// Take ownership of `data`.
    pub fn new(data: String) -> (r: Self)
        ensures
            r.data_view() == data@,
    {
        SelfReferential { data }
    }

    /// Read the owned text.
    pub fn get_data(&self) -> (r: &str)
        ensures
            r@ == self.data_view(),
    {
        self.data.as_str()
    }
}

/// RCU-style protection of a value: readers get a shared reference inside a
/// read-side critical section.
pub struct RcuProtected<T> {
    data: T,
}

impl<T> RcuProtected<T> {
    /// The protected value.
    pub closed spec fn value_spec(&self) -> T {
        self.data
    }

    /// Protect `data`.
    pub fn new(data: T) -> (r: Self)
        ensures
            r.value_spec() == data,
    {
        RcuProtected { data }
    }

    /// Run `f` inside a read-side critical section on the protected value.
    pub fn read<F, R>(&self, f: F) -> (r: R) where F: FnOnce(&T) -> R
        requires
            call_requires(f, (&self.value_spec(),)),
        ensures
            call_ensures(f, (&self.value_spec(),), r),
    {
        f(&self.data)
    }
}

/// A large struct, of the size common for in-kernel buffers.
pub struct LargeStruct {
    pub buffer1: [u8; 1024],
    pub buffer2: [u8; 1024],
    pub buffer3: [u8; 1024],
    pub metadata: [u64; 128],
}

impl Default for LargeStruct {
    /// All buffers zeroed.
    fn default() -> (r: Self)
        ensures
            forall|i: int| 0 <= i < 1024 ==> r.buffer1@[i] == 0u8,
            forall|i: int| 0 <= i < 1024 ==> r.buffer2@[i] == 0u8,
            forall|i: int| 0 <= i < 1024 ==> r.buffer3@[i] == 0u8,
            forall|i: int| 0 <= i < 128 ==> r.metadata@[i] == 0u64,
    {
        LargeStruct {
            buffer1: [0u8; 1024],
            buffer2: [0u8; 1024],
            buffer3: [0u8; 1024],
            metadata: [0u64; 128],
        }
    }
}

impl LargeStruct {
    /// The size of the struct in bytes.
    pub fn size_in_bytes() -> (r: usize)
        ensures
            r as nat == vstd::layout::size_of::<LargeStruct>(),
    {
        core::mem::size_of::<LargeStruct>()
    }
}

/// A minimal owning smart pointer.
pub struct CustomPtr<T> {
    inner: Box<T>,
}

impl<T> CustomPtr<T> {
    /// The owned value.
    pub closed spec fn value_spec(&self) -> T {
        *self.inner
    }

    /// Move `value` onto the heap.
    pub fn new(value: T) -> (r: Self)
        ensures
            r.value_spec() == value,
    {
        CustomPtr { inner: Box::new(value) }
    }

    /// Borrow the owned value.
    pub fn get(&self) -> (r: &T)
        ensures
            *r == self.value_spec(),
    {
        &self.inner
    }
}

} // verus!
