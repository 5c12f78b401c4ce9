//! In-memory backing for the store contract: a growable vector of
//! zero-initialised pages, for non-hosted execution and for tests.
use vstd::prelude::*;

use crate::Memory;
use crate::WASM_PAGE_SIZE;
use crate::write_bytes;
use crate::zero_pages;

verus! {

/// A store backed by a byte vector on the ordinary heap. It starts with
/// zero pages and refuses growth only when the byte length would no longer
/// fit in `usize`.
pub struct VectorMemory {
    data: Vec<u8>,
}

impl VectorMemory {
    /// A fresh store of zero pages.
    pub fn new() -> (m: VectorMemory)
        ensures
            m.inv(),
            m.mem() == Seq::<u8>::empty(),
    {
        VectorMemory { data: Vec::new() }
    }
}

impl Default for VectorMemory {
    fn default() -> (m: VectorMemory)
        ensures
            m.inv(),
            m.mem() == Seq::<u8>::empty(),
    {
        VectorMemory::new()
    }
}

impl VectorMemory {
    /// Growth succeeds exactly while the byte length still fits in `usize`.
    pub proof fn lemma_growth_room(&self, pages: u64)
        ensures
            self.can_grow(pages) <==> self.mem().len() + pages as int * (WASM_PAGE_SIZE as int)
                <= usize::MAX,
            self.must_refuse_grow(pages) <==> !self.can_grow(pages),
    {
    }
}

impl Memory for VectorMemory {
    closed spec fn mem(&self) -> Seq<u8> {
        self.data@
    }

    closed spec fn inv(&self) -> bool {
        self.data@.len() as int % (WASM_PAGE_SIZE as int) == 0
    }

    closed spec fn can_grow(&self, pages: u64) -> bool {
        self.data@.len() + pages as int * (WASM_PAGE_SIZE as int) <= usize::MAX
    }

    closed spec fn must_refuse_grow(&self, pages: u64) -> bool {
        !self.can_grow(pages)
    }

    proof fn lemma_inv(&self) {
        assert(self.data.len() == self.data@.len());
    }

    fn size(&self) -> (pages: u64) {
        (self.data.len() as u64) / WASM_PAGE_SIZE
    }

    fn grow(&mut self, pages: u64) -> (r: i64) {
        let len = self.data.len();
        let room: usize = (usize::MAX - len) / (WASM_PAGE_SIZE as usize);
        if pages > room as u64 {
            proof {
                assert(room as int * (WASM_PAGE_SIZE as int) <= usize::MAX - len);
                assert((room + 1) as int * (WASM_PAGE_SIZE as int) > usize::MAX - len);
                assert(pages as int * (WASM_PAGE_SIZE as int) >= (room + 1) as int * (
                WASM_PAGE_SIZE as int)) by (nonlinear_arith)
                    requires
                        pages as int >= room as int + 1,
                ;
            }
            return -1;
        }
        let prev_pages: u64 = (len as u64) / WASM_PAGE_SIZE;
        let add: usize = (pages as usize) * (WASM_PAGE_SIZE as usize);
        proof {
            assert(pages as int * (WASM_PAGE_SIZE as int) <= room as int * (WASM_PAGE_SIZE as int))
                by (nonlinear_arith)
                requires
                    0 <= pages as int <= room as int,
            ;
            assert(room as int * (WASM_PAGE_SIZE as int) <= usize::MAX - len);
            assert(prev_pages as int * (WASM_PAGE_SIZE as int) == len as int);
        }
        let mut i: usize = 0;
        while i < add
            invariant
                i <= add,
                self.data@.len() == len + i,
                self.data@.subrange(0, len as int) == old(self).data@,
                forall|j: int| len <= j < len + i ==> self.data@[j] == 0u8,
            decreases add - i,
        {
            self.data.push(0u8);
            proof {
                assert(self.data@.subrange(0, len as int) == old(self).data@);
            }
            i = i + 1;
        }
        proof {
            assert(self.data@ =~= old(self).data@ + zero_pages(pages as int));
        }
        prev_pages as i64
    }

    fn read(&self, offset: u64, dst: &mut Vec<u8>) {
        let count = dst.len();
        let dlen = self.data.len();
        proof {
            assert(offset <= dlen);
        }
        let base = offset as usize;
        let mut i: usize = 0;
        while i < count
            invariant
                i <= count,
                dst@.len() == count,
                base == offset,
                dlen == self.data@.len(),
                offset + count <= dlen,
                forall|j: int| 0 <= j < i ==> dst@[j] == self.mem()[offset + j],
            decreases count - i,
        {
            let b = self.data[base + i];
            dst.set(i, b);
            i = i + 1;
        }
        proof {
            assert(dst@ =~= self.mem().subrange(offset as int, offset + count as int));
        }
    }

    fn write(&mut self, offset: u64, src: &[u8]) {
        let count = src.len();
        let dlen = self.data.len();
        proof {
            assert(offset <= dlen);
        }
        let base = offset as usize;
        let mut i: usize = 0;
        while i < count
            invariant
                i <= count,
                base == offset,
                src@.len() == count,
                dlen == old(self).data@.len(),
                self.data@.len() == old(self).data@.len(),
                offset + count <= dlen,
                forall|j: int|
                    0 <= j < self.data@.len() && !(offset <= j < offset + i) ==> self.data@[j]
                        == old(self).data@[j],
                forall|j: int| offset <= j < offset + i ==> self.data@[j] == src@[j - offset],
            decreases count - i,
        {
            let b = src[i];
            self.data.set(base + i, b);
            i = i + 1;
        }
        proof {
            assert(self.data@ =~= write_bytes(old(self).data@, offset as int, src@));
        }
    }
}

} // verus!
