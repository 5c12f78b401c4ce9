//! A limited view of another store: a page-aligned sub-range presented as a
//! standalone store, so that several data structures can divide one backing
//! into non-intersecting regions and use different layouts in each.
use vstd::prelude::*;

use crate::Memory;
use crate::WASM_PAGE_SIZE;
use crate::write_bytes;
use crate::zero_pages;

verus! {

/// A store that exposes the page range `[start, end)` of an inner store as
/// if it were a whole store of its own. Reads and writes pass through at a
/// page-aligned offset; growth fills the inner store up to the region and
/// is refused beyond the region's end, so the view never grows the inner
/// store past `end`.
#[derive(Clone)]
pub struct RestrictedMemory<M: Memory> {
    page_range_start: u64,
    page_range_end: u64,
    memory: M,
}

impl<M: Memory> RestrictedMemory<M> {
    /// The inner store.
    pub closed spec fn inner(&self) -> M {
        self.memory
    }

    /// First page of the region within the inner store.
    pub closed spec fn start(&self) -> u64 {
        self.page_range_start
    }

    /// First page past the region within the inner store.
    pub closed spec fn end(&self) -> u64 {
        self.page_range_end
    }

    /// Size of the inner store, in pages.
    pub open spec fn inner_pages(&self) -> int {
        self.inner().mem().len() as int / (WASM_PAGE_SIZE as int)
    }

    /// Size of the region, in pages: the part of `[start, end)` that the
    /// inner store already backs.
    pub open spec fn region_pages(&self) -> int {
        let b = self.inner_pages();
        if b < self.start() {
            0
        } else if b > self.end() {
            self.end() - self.start()
        } else {
            b - self.start()
        }
    }

    /// Transparency of the view: once the inner store backs the whole
    /// region, every byte of the region is the inner store's byte at the
    /// page-aligned offset, so reading the region equals reading the inner
    /// store `start` pages further in.
    pub proof fn lemma_transparency(&self, offset: int, len: int)
        requires
            self.inv(),
            self.inner_pages() >= self.end(),
            0 <= offset,
            0 <= len,
            offset + len <= (self.end() - self.start()) * WASM_PAGE_SIZE,
        ensures
            self.mem().subrange(offset, offset + len) == self.inner().mem().subrange(
                self.start() * WASM_PAGE_SIZE + offset,
                self.start() * WASM_PAGE_SIZE + offset + len,
            ),
    {
        self.inner().lemma_inv();
        let ps = WASM_PAGE_SIZE as int;
        assert(self.region_pages() == self.end() - self.start());
        assert((self.start() + self.region_pages()) * ps <= self.inner().mem().len()
            && self.start() * ps + self.region_pages() * ps == (self.start() + self.region_pages())
            * ps) by (nonlinear_arith)
            requires
                0 <= self.start(),
                self.start() + self.region_pages() <= self.inner_pages(),
                self.inner_pages() == self.inner().mem().len() as int / ps,
                self.inner().mem().len() as int % ps == 0,
                ps == 65536,
        ;
        assert(self.mem().subrange(offset, offset + len) =~= self.inner().mem().subrange(
            self.start() * WASM_PAGE_SIZE + offset,
            self.start() * WASM_PAGE_SIZE + offset + len,
        ));
    }

    /// The view is capped: it never holds more than its own page range.
    pub proof fn lemma_size_cap(&self)
        requires
            self.inv(),
        ensures
            self.mem().len() <= (self.end() - self.start()) * WASM_PAGE_SIZE,
            self.region_pages() <= self.end() - self.start(),
    {
        let ps = WASM_PAGE_SIZE as int;
        assert(self.region_pages() * ps <= (self.end() - self.start()) * ps) by (nonlinear_arith)
            requires
                0 <= self.region_pages() <= self.end() - self.start(),
                ps == 65536,
        ;
    }

    /// Growth past the region's end is certain to be refused: whenever the
    /// view's pages plus the requested delta run past `end - start`, `grow`
    /// returns the failure sentinel and touches neither the view nor the
    /// inner store.
    pub proof fn lemma_grow_refused(&self, delta: u64)
        requires
            self.inv(),
            self.region_pages() + delta > self.end() - self.start(),
        ensures
            self.must_refuse_grow(delta),
    {
    }

    /// Borrows the inner store, for callers that hold the region by value.
    pub fn inner_ref(&self) -> (r: &M)
        ensures
            *r == self.inner(),
    {
        &self.memory
    }

    pub fn new(memory: M, page_range: core::ops::Range<u64>) -> (r: RestrictedMemory<M>)
        requires
            memory.inv(),
            page_range.start <= page_range.end,
            page_range.end < u64::MAX / WASM_PAGE_SIZE,
        ensures
            r.inv(),
            r.inner() == memory,
            r.start() == page_range.start,
            r.end() == page_range.end,
    {
        RestrictedMemory {
            page_range_start: page_range.start,
            page_range_end: page_range.end,
            memory,
        }
    }
}

impl<M: Memory> Memory for RestrictedMemory<M> {
    open spec fn mem(&self) -> Seq<u8> {
        Seq::new(
            (self.region_pages() * (WASM_PAGE_SIZE as int)) as nat,
            |i: int| self.inner().mem()[self.start() * WASM_PAGE_SIZE + i],
        )
    }

    open spec fn inv(&self) -> bool {
        &&& self.inner().inv()
        &&& self.start() <= self.end()
        &&& self.end() < u64::MAX / WASM_PAGE_SIZE
    }

    open spec fn can_grow(&self, pages: u64) -> bool {
        let b = self.inner_pages();
        if b < self.start() {
            pages <= self.end() - self.start() && self.inner().can_grow(
                (self.start() - b + pages) as u64,
            )
        } else if b >= self.end() {
            pages == 0
        } else {
            pages <= self.end() - b && self.inner().can_grow(pages)
        }
    }

    open spec fn must_refuse_grow(&self, pages: u64) -> bool {
        let b = self.inner_pages();
        if b < self.start() {
            pages > self.end() - self.start() || self.inner().must_refuse_grow(
                (self.start() - b + pages) as u64,
            )
        } else if b >= self.end() {
            pages > 0
        } else {
            pages > self.end() - b || self.inner().must_refuse_grow(pages)
        }
    }

    proof fn lemma_inv(&self) {
        self.inner().lemma_inv();
        let ps = WASM_PAGE_SIZE as int;
        assert(self.region_pages() * ps <= (self.end() - self.start()) * ps && 0 <= self.region_pages() * ps)
            by (nonlinear_arith)
            requires
                0 <= self.region_pages() <= self.end() - self.start(),
                ps == 65536,
        ;
        assert((self.end() - self.start()) * ps <= (u64::MAX as int / ps) * ps) by (nonlinear_arith)
            requires
                0 <= self.end() - self.start() <= u64::MAX as int / ps,
                ps == 65536,
        ;
    }

    fn size(&self) -> (pages: u64) {
        proof {
            self.memory.lemma_inv();
        }
        let base_size = self.memory.size();
        if base_size < self.page_range_start {
            0
        } else if base_size > self.page_range_end {
            self.page_range_end - self.page_range_start
        } else {
            base_size - self.page_range_start
        }
    }

    fn grow(&mut self, delta: u64) -> (r: i64)
        ensures
            final(self).start() == old(self).start(),
            final(self).end() == old(self).end(),
            old(self).region_pages() + delta > old(self).end() - old(self).start() ==> r == -1
                && final(self).inner() == old(self).inner(),
    {
        proof {
            self.memory.lemma_inv();
        }
        let base_size = self.memory.size();
        if base_size < self.page_range_start {
            if delta > self.page_range_end - self.page_range_start {
                // The region never grows the inner store past its own end,
                // so a request it could not hold is refused outright.
                return -1;
            }
            let r = self.memory.grow(self.page_range_start - base_size + delta);
            proof {
                self.memory.lemma_inv();
                if r >= 0 {
                    assert(self.mem() =~= old(self).mem() + zero_pages(delta as int));
                }
            }
            if r < 0 {
                -1
            } else {
                0
            }
        } else if base_size >= self.page_range_end {
            if delta == 0 {
                proof {
                    assert(self.mem() =~= old(self).mem() + zero_pages(0));
                }
                (self.page_range_end - self.page_range_start) as i64
            } else {
                -1
            }
        } else {
            let pages_left = self.page_range_end - base_size;
            if pages_left < delta {
                -1
            } else {
                let r = self.memory.grow(delta);
                proof {
                    self.memory.lemma_inv();
                    if r >= 0 {
                        assert(self.mem() =~= old(self).mem() + zero_pages(delta as int));
                    }
                }
                if r < 0 {
                    r
                } else {
                    r - self.page_range_start as i64
                }
            }
        }
    }

    fn read(&self, offset: u64, dst: &mut Vec<u8>) {
        if dst.len() == 0 {
            proof {
                assert(dst@ =~= self.mem().subrange(offset as int, offset as int));
            }
            return ;
        }
        proof {
            self.memory.lemma_inv();
            let ps = WASM_PAGE_SIZE as int;
            assert((self.start() + self.region_pages()) * ps <= self.inner().mem().len() && self.start() * ps + self.region_pages() * ps == (self.start() + self.region_pages()) * ps)
                by (nonlinear_arith)
                requires
                    0 <= self.start(),
                    self.start() + self.region_pages() <= self.inner_pages(),
                    self.inner_pages() == self.inner().mem().len() as int / ps,
                    self.inner().mem().len() as int % ps == 0,
                    ps == 65536,
            ;
        }
        self.memory.read(self.page_range_start * WASM_PAGE_SIZE + offset, dst);
        proof {
            assert(dst@ =~= self.mem().subrange(offset as int, offset + old(dst)@.len()));
        }
    }

    fn write(&mut self, offset: u64, src: &[u8]) {
        if src.len() == 0 {
            proof {
                assert(self.mem() =~= write_bytes(old(self).mem(), offset as int, src@));
            }
            return ;
        }
        proof {
            self.memory.lemma_inv();
            let ps = WASM_PAGE_SIZE as int;
            assert((self.start() + self.region_pages()) * ps <= self.inner().mem().len() && self.start() * ps + self.region_pages() * ps == (self.start() + self.region_pages()) * ps)
                by (nonlinear_arith)
                requires
                    0 <= self.start(),
                    self.start() + self.region_pages() <= self.inner_pages(),
                    self.inner_pages() == self.inner().mem().len() as int / ps,
                    self.inner().mem().len() as int % ps == 0,
                    ps == 65536,
            ;
        }
        self.memory.write(self.page_range_start * WASM_PAGE_SIZE + offset, src);
        proof {
            assert(self.mem() =~= write_bytes(old(self).mem(), offset as int, src@));
        }
    }
}

} // verus!
