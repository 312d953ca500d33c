use vstd::prelude::*;
use vstd::string::StringSliceAdditionalSpecFns;

verus! {

/// The size of an item, for a cache that would weigh its entries.
pub trait ItemSize {
    /// The size of the item: for a number the bytes it takes, for a
    /// collection what its elements take together.
    spec fn size(&self) -> nat;

    /// Returns the size of the item, where a `usize` can hold it.
    fn size_of(&self) -> (n: usize)
        requires
            self.size() <= usize::MAX,
        ensures
            n == self.size(),
    ;
}

impl ItemSize for u8 {
    open spec fn size(&self) -> nat {
        1
    }

    fn size_of(&self) -> (n: usize) {
        1
    }
}

impl ItemSize for u16 {
    open spec fn size(&self) -> nat {
        2
    }

    fn size_of(&self) -> (n: usize) {
        2
    }
}

impl ItemSize for u32 {
    open spec fn size(&self) -> nat {
        4
    }

    fn size_of(&self) -> (n: usize) {
        4
    }
}

impl ItemSize for u64 {
    open spec fn size(&self) -> nat {
        8
    }

    fn size_of(&self) -> (n: usize) {
        8
    }
}

impl ItemSize for u128 {
    open spec fn size(&self) -> nat {
        16
    }

    fn size_of(&self) -> (n: usize) {
        16
    }
}

impl ItemSize for usize {
    open spec fn size(&self) -> nat {
        8
    }

    fn size_of(&self) -> (n: usize) {
        8
    }
}

impl ItemSize for i8 {
    open spec fn size(&self) -> nat {
        1
    }

    fn size_of(&self) -> (n: usize) {
        1
    }
}

impl ItemSize for i16 {
    open spec fn size(&self) -> nat {
        2
    }

    fn size_of(&self) -> (n: usize) {
        2
    }
}

impl ItemSize for i32 {
    open spec fn size(&self) -> nat {
        4
    }

    fn size_of(&self) -> (n: usize) {
        4
    }
}

impl ItemSize for i64 {
    open spec fn size(&self) -> nat {
        8
    }

    fn size_of(&self) -> (n: usize) {
        8
    }
}

impl ItemSize for i128 {
    open spec fn size(&self) -> nat {
        16
    }

    fn size_of(&self) -> (n: usize) {
        16
    }
}

impl ItemSize for isize {
    open spec fn size(&self) -> nat {
        8
    }

    fn size_of(&self) -> (n: usize) {
        8
    }
}

impl ItemSize for char {
    open spec fn size(&self) -> nat {
        1
    }

    fn size_of(&self) -> (n: usize) {
        1
    }
}

impl ItemSize for bool {
    open spec fn size(&self) -> nat {
        1
    }

    fn size_of(&self) -> (n: usize) {
        1
    }
}

impl ItemSize for String {
    /// The length of the text in bytes.
    open spec fn size(&self) -> nat {
        vstd::utf8::encode_utf8(self@).len()
    }

    fn size_of(&self) -> (n: usize) {
        self.as_str().len()
    }
}

impl ItemSize for &str {
    /// The length of the text in bytes.
    open spec fn size(&self) -> nat {
        self.spec_bytes().len()
    }

    fn size_of(&self) -> (n: usize) {
        self.len()
    }
}

impl ItemSize for [&u8] {
    /// The number of elements.
    open spec fn size(&self) -> nat {
        self@.len()
    }

    fn size_of(&self) -> (n: usize) {
        self.len()
    }
}

impl<T> ItemSize for Vec<T> where T: ItemSize {
    /// The number of elements times what the layout of one takes.
    open spec fn size(&self) -> nat {
        self@.len() * vstd::layout::size_of::<T>()
    }

    fn size_of(&self) -> (n: usize) {
        self.len() * core::mem::size_of::<T>()
    }
}

impl ItemSize for () {
    open spec fn size(&self) -> nat {
        0
    }

    fn size_of(&self) -> (n: usize) {
        0
    }
}

} // verus!
