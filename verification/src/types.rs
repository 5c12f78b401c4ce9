//! Strongly-typed byte offsets and byte counts: all address arithmetic on
//! the store flows through these, so offsets and counts cannot be mixed up.
use vstd::prelude::*;

use crate::WASM_PAGE_SIZE;

verus! {

/// A byte offset into a store. Semantically an unsigned 64-bit integer;
/// running past `u64::MAX` is a programming error and is excluded by the
/// contracts of the operations below.
#[derive(Clone, Copy, PartialEq, Eq, Structural)]
pub struct Address {
    addr: u64,
}

/// An unsigned 64-bit count of bytes, kept distinct from `Address`.
#[derive(Clone, Copy, PartialEq, Eq, Structural)]
pub struct Bytes {
    count: u64,
}

impl Address {
    /// The offset as a plain integer.
    pub closed spec fn spec_get(&self) -> u64 {
        self.addr
    }

    pub fn new(addr: u64) -> (a: Address)
        ensures
            a.spec_get() == addr,
    {
        Address { addr }
    }

    #[verifier::when_used_as_spec(spec_get)]
    pub fn get(&self) -> (r: u64)
        ensures
            r == self.spec_get(),
    {
        self.addr
    }

    /// The address `count` bytes further into the store.
    pub fn offset(&self, count: Bytes) -> (a: Address)
        requires
            self.spec_get() + count.spec_get() <= u64::MAX,
        ensures
            a.spec_get() == self.spec_get() + count.spec_get(),
    {
        Address { addr: self.addr + count.get() }
    }
}

impl Bytes {
    /// The count as a plain integer.
    pub closed spec fn spec_get(&self) -> u64 {
        self.count
    }

    pub fn new(count: u64) -> (b: Bytes)
        ensures
            b.spec_get() == count,
    {
        Bytes { count }
    }

    /// The byte count of `pages` whole pages.
    pub fn from_pages(pages: u64) -> (b: Bytes)
        requires
            pages * WASM_PAGE_SIZE <= u64::MAX,
        ensures
            b.spec_get() == pages * WASM_PAGE_SIZE,
    {
        Bytes { count: pages * WASM_PAGE_SIZE }
    }

    #[verifier::when_used_as_spec(spec_get)]
    pub fn get(&self) -> (r: u64)
        ensures
            r == self.spec_get(),
    {
        self.count
    }
}

} // verus!
