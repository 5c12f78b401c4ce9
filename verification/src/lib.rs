//! Data structures that live directly on a flat, page-granular byte store
//! ("stable memory"): the store contract, a safe-grow write path, and a
//! restricted page-range view that lets several structures share one store.
use vstd::prelude::*;

pub mod restricted;
pub mod storable;
pub mod types;
pub mod vec_mem;

pub use crate::restricted::RestrictedMemory;
pub use crate::storable::BoundedStorable;
pub use crate::storable::Storable;
pub use crate::vec_mem::VectorMemory;
use crate::types::Address;

verus! {

/// The backing chosen when nothing binds the program to a host's pages.
pub type DefaultMemoryImpl = crate::vec_mem::VectorMemory;

/// The store grows in whole pages of this many bytes.
pub const WASM_PAGE_SIZE: u64 = 65536;

/// The bytes of a store after overwriting the range starting at `offset`
/// with `src`: positions inside `[offset, offset + src.len())` take their
/// byte from `src`, all others keep the byte of `m`.
pub open spec fn write_bytes(m: Seq<u8>, offset: int, src: Seq<u8>) -> Seq<u8> {
    Seq::new(m.len(), |i: int| if offset <= i < offset + src.len() { src[i - offset] } else { m[i] })
}

/// `count` pages of zero bytes.
pub open spec fn zero_pages(count: int) -> Seq<u8> {
    Seq::new((count * WASM_PAGE_SIZE) as nat, |i: int| 0u8)
}

/// Interface of a growable paged byte store. The whole store is always an
/// integer number of pages; new pages read as zero.
pub trait Memory: Sized {
    /// The bytes the store currently holds.
    spec fn mem(&self) -> Seq<u8>;

    /// Well-formedness of the store.
    spec fn inv(&self) -> bool;

    /// Inputs on which `grow` is guaranteed to succeed.
    spec fn can_grow(&self, pages: u64) -> bool;

    /// Inputs on which `grow` is guaranteed to refuse and leave the store
    /// unchanged.
    spec fn must_refuse_grow(&self, pages: u64) -> bool;

    proof fn lemma_inv(&self)
        requires
            self.inv(),
        ensures
            self.mem().len() as int % (WASM_PAGE_SIZE as int) == 0,
            self.mem().len() <= u64::MAX,
    ;

    /// Current size of the store in pages.
    fn size(&self) -> (pages: u64)
        requires
            self.inv(),
        ensures
            pages as int * (WASM_PAGE_SIZE as int) == self.mem().len(),
    ;

    /// Tries to extend the store by `pages` zero-filled pages. On success
    /// returns the previous size in pages; on refusal returns -1 and leaves
    /// the store unchanged.
    fn grow(&mut self, pages: u64) -> (r: i64)
        requires
            old(self).inv(),
        ensures
            final(self).inv(),
            r >= 0 ==> r as int * (WASM_PAGE_SIZE as int) == old(self).mem().len()
                && final(self).mem() == old(self).mem() + zero_pages(pages as int),
            r < 0 ==> r == -1 && final(self).mem() == old(self).mem(),
            old(self).can_grow(pages) ==> r >= 0,
            old(self).must_refuse_grow(pages) ==> r == -1,
    ;

    /// Fills `dst` with the bytes of the store at `[offset, offset + dst.len())`.
    /// An out-of-range request is a contract violation.
    fn read(&self, offset: u64, dst: &mut Vec<u8>)
        requires
            self.inv(),
            offset + old(dst)@.len() <= self.mem().len(),
        ensures
            final(dst)@ == self.mem().subrange(offset as int, offset + old(dst)@.len()),
    ;

    /// Overwrites the store at `[offset, offset + src.len())` with `src`.
    /// An out-of-range request is a contract violation.
    fn write(&mut self, offset: u64, src: &[u8])
        requires
            old(self).inv(),
            offset + src@.len() <= old(self).mem().len(),
        ensures
            final(self).inv(),
            final(self).mem() == write_bytes(old(self).mem(), offset as int, src@),
    ;
}

/// Returned by the safe-grow write path when the backing refuses to grow.
/// The store then holds `current_size` pages and the refused request asked
/// for `delta` more.
#[derive(Clone, Copy, Debug, PartialEq, Eq, Structural)]
pub struct GrowFailed {
    pub current_size: u64,
    pub delta: u64,
}

/// How many whole pages a store of `len` bytes must gain before it covers
/// every byte below `last`.
pub open spec fn pages_needed(len: int, last: int) -> int {
    if last <= len {
        0
    } else {
        (last - len + WASM_PAGE_SIZE - 1) / (WASM_PAGE_SIZE as int)
    }
}

/// The bytes of a store of contents `m` after growing just enough to cover
/// every byte below `last`.
pub open spec fn grown_mem(m: Seq<u8>, last: int) -> Seq<u8> {
    m + zero_pages(pages_needed(m.len() as int, last))
}

/// Whether a write of `len` bytes at `offset` into `m` is certain to go
/// through: either the range is already covered, or the store is certain to
/// grant the growth it takes.
pub open spec fn write_succeeds<M: Memory>(m: M, offset: int, len: int) -> bool {
    offset + len <= m.mem().len() || m.can_grow(
        pages_needed(m.mem().len() as int, offset + len) as u64,
    )
}

/// The pages grown cover the requested range: `pages_needed` rounds up.
proof fn lemma_pages_needed_cover(len: int, last: int)
    requires
        0 <= len,
        len < last,
    ensures
        pages_needed(len, last) * WASM_PAGE_SIZE >= last - len,
        pages_needed(len, last) >= 1,
{
    let ps = WASM_PAGE_SIZE as int;
    let d = last - len;
    let p = (d + ps - 1) / ps;
    assert(p * ps >= d && p >= 1) by (nonlinear_arith)
        requires
            d >= 1,
            ps == 65536,
            p == (d + ps - 1) / ps,
    ;
}

/// Writes the bytes at the specified offset, growing the store first when
/// the range runs past its current end. On refusal, reports the store's
/// size and the growth it asked for, and changes nothing.
pub fn safe_write<M: Memory>(memory: &mut M, offset: u64, bytes: &[u8]) -> (r: Result<
    (),
    GrowFailed,
>)
    requires
        old(memory).inv(),
        offset + bytes@.len() <= u64::MAX,
    ensures
        final(memory).inv(),
        r is Ok ==> final(memory).mem() == write_bytes(
            grown_mem(old(memory).mem(), offset + bytes@.len()),
            offset as int,
            bytes@,
        ) && final(memory).mem().len() >= offset + bytes@.len(),
        r is Err ==> final(memory).mem() == old(memory).mem() && offset + bytes@.len() > old(
            memory,
        ).mem().len() && r == Err::<(), GrowFailed>(
            GrowFailed {
                current_size: (old(memory).mem().len() as int / WASM_PAGE_SIZE as int) as u64,
                delta: pages_needed(old(memory).mem().len() as int, offset + bytes@.len()) as u64,
            },
        ),
        write_succeeds(*old(memory), offset as int, bytes@.len() as int) ==> r is Ok,
        offset + bytes@.len() > old(memory).mem().len() && old(memory).must_refuse_grow(
            pages_needed(old(memory).mem().len() as int, offset + bytes@.len()) as u64,
        ) ==> r is Err,
{
    proof {
        memory.lemma_inv();
    }
    let last_byte = offset + bytes.len() as u64;
    let size_pages = memory.size();
    let size_bytes = size_pages * WASM_PAGE_SIZE;
    if size_bytes < last_byte {
        let diff_bytes = last_byte - size_bytes;
        let diff_pages = diff_bytes / WASM_PAGE_SIZE + (if diff_bytes % WASM_PAGE_SIZE != 0 {
            1u64
        } else {
            0u64
        });
        proof {
            let ps = WASM_PAGE_SIZE as int;
            let d = diff_bytes as int;
            assert(d / ps + (if d % ps != 0 { 1int } else { 0 }) == (d + ps - 1) / ps)
                by (nonlinear_arith)
                requires
                    d >= 1,
                    ps == 65536,
            ;
            lemma_pages_needed_cover(size_bytes as int, last_byte as int);
        }
        if memory.grow(diff_pages) == -1 {
            return Err(GrowFailed { current_size: size_pages, delta: diff_pages });
        }
    } else {
        proof {
            assert(grown_mem(old(memory).mem(), offset + bytes@.len()) =~= old(memory).mem());
        }
    }
    memory.write(offset, bytes);
    Ok(())
}

/// Like `safe_write`, but only for call sites that have made sure the store
/// will cover the range: growth cannot be refused there.
pub fn write<M: Memory>(memory: &mut M, offset: u64, bytes: &[u8])
    requires
        old(memory).inv(),
        offset + bytes@.len() <= u64::MAX,
        write_succeeds(*old(memory), offset as int, bytes@.len() as int),
    ensures
        final(memory).inv(),
        final(memory).mem() == write_bytes(
            grown_mem(old(memory).mem(), offset + bytes@.len()),
            offset as int,
            bytes@,
        ),
        final(memory).mem().len() >= offset + bytes@.len(),
{
    let r = safe_write(memory, offset, bytes);
    match r {
        Ok(()) => (),
        // Ruled out: under `write_succeeds` the safe path cannot refuse.
        Err(_) => (),
    }
}

/// Round trip through the store: once a write has gone through — growing
/// first where needed — reading the written range back yields exactly the
/// bytes that were written, and the store covers the whole range.
pub proof fn lemma_write_round_trip(m: Seq<u8>, offset: int, b: Seq<u8>)
    requires
        0 <= offset,
    ensures
        write_bytes(grown_mem(m, offset + b.len()), offset, b).len() >= offset + b.len(),
        write_bytes(grown_mem(m, offset + b.len()), offset, b).subrange(offset, offset + b.len())
            == b,
{
    let last = offset + b.len();
    let g = grown_mem(m, last);
    if m.len() < last {
        lemma_pages_needed_cover(m.len() as int, last);
    }
    assert(g.len() >= last);
    assert(write_bytes(g, offset, b).subrange(offset, offset + b.len()) =~= b);
}

/// Growth is zero-extension: the bytes already present keep their value
/// and every byte of the new pages reads as zero.
pub proof fn lemma_grow_zero_extension(m: Seq<u8>, pages: int)
    requires
        0 <= pages,
    ensures
        (m + zero_pages(pages)).len() == m.len() + pages * WASM_PAGE_SIZE,
        forall|i: int| 0 <= i < m.len() ==> (m + zero_pages(pages))[i] == m[i],
        forall|i: int|
            m.len() <= i < m.len() + pages * WASM_PAGE_SIZE ==> (m + zero_pages(pages))[i] == 0u8,
{
    assert(0 <= pages * WASM_PAGE_SIZE) by (nonlinear_arith)
        requires
            0 <= pages,
    ;
}

/// The store never shrinks: each operation of the store contract — growth,
/// a plain write, or a write through the safe-grow path — leaves the store
/// at least as long as it found it.
pub proof fn lemma_size_monotonic(m: Seq<u8>, offset: int, b: Seq<u8>, pages: int)
    requires
        0 <= pages,
        0 <= offset,
    ensures
        (m + zero_pages(pages)).len() >= m.len(),
        write_bytes(m, offset, b).len() == m.len(),
        write_bytes(grown_mem(m, offset + b.len()), offset, b).len() >= m.len(),
{
    assert(0 <= pages * WASM_PAGE_SIZE) by (nonlinear_arith)
        requires
            0 <= pages,
    ;
    let last = offset + b.len();
    if m.len() < last {
        lemma_pages_needed_cover(m.len() as int, last);
        assert(0 <= pages_needed(m.len() as int, last) * WASM_PAGE_SIZE) by (nonlinear_arith)
            requires
                0 <= pages_needed(m.len() as int, last),
        ;
    } else {
        assert(grown_mem(m, last) =~= m + zero_pages(0));
        assert(zero_pages(0) =~= Seq::<u8>::empty());
    }
}

/// Round trip of the little-endian integer helpers: writing a value and
/// reading the same address back yields the value, for 32-bit and 64-bit
/// integers alike.
pub proof fn lemma_int_round_trip(m: Seq<u8>, a: int, v32: u32, v64: u64)
    requires
        0 <= a,
    ensures
        vstd::bytes::spec_u32_from_le_bytes(
            write_bytes(grown_mem(m, a + 4), a, vstd::bytes::spec_u32_to_le_bytes(v32)).subrange(
                a,
                a + 4,
            ),
        ) == v32,
        vstd::bytes::spec_u64_from_le_bytes(
            write_bytes(grown_mem(m, a + 8), a, vstd::bytes::spec_u64_to_le_bytes(v64)).subrange(
                a,
                a + 8,
            ),
        ) == v64,
{
    vstd::bytes::lemma_auto_spec_u32_to_from_le_bytes();
    vstd::bytes::lemma_auto_spec_u64_to_from_le_bytes();
    lemma_write_round_trip(m, a, vstd::bytes::spec_u32_to_le_bytes(v32));
    lemma_write_round_trip(m, a, vstd::bytes::spec_u64_to_le_bytes(v64));
}

/// Moves `count` chunks of `chunk_size` bytes from `src` to `dest` within
/// one store, with memmove semantics: the bytes that end up at the
/// destination are the bytes the source range held before the call, even
/// when the two ranges overlap. When `dest <= src` the chunks are moved in
/// forward order, otherwise in reverse order.
pub fn copy<M: Memory>(memory: &mut M, src: Address, dest: Address, count: u64, chunk_size: usize)
    requires
        old(memory).inv(),
        src.get() + count * chunk_size <= old(memory).mem().len(),
        dest.get() + count * chunk_size <= old(memory).mem().len(),
    ensures
        final(memory).inv(),
        final(memory).mem() == write_bytes(
            old(memory).mem(),
            dest.get() as int,
            old(memory).mem().subrange(src.get() as int, src.get() + count * chunk_size),
        ),
{
    let s = src.get();
    let d = dest.get();
    let c = chunk_size as u64;
    proof {
        memory.lemma_inv();
    }
    if d <= s {
        let mut i: u64 = 0;
        proof {
            assert(memory.mem() =~= write_bytes(
                old(memory).mem(),
                d as int,
                old(memory).mem().subrange(s as int, s as int),
            ));
        }
        while i < count
            invariant
                memory.inv(),
                i <= count,
                s == src.get(),
                d == dest.get(),
                c == chunk_size,
                d <= s,
                s + count * c <= old(memory).mem().len(),
                d + count * c <= old(memory).mem().len(),
                old(memory).mem().len() <= u64::MAX,
                memory.mem().len() == old(memory).mem().len(),
                memory.mem() == write_bytes(
                    old(memory).mem(),
                    d as int,
                    old(memory).mem().subrange(s as int, s + i * c),
                ),
            decreases count - i,
        {
            proof {
                assert(i * c + c == (i + 1) * c && (i + 1) * c <= count * c) by (nonlinear_arith)
                    requires
                        0 <= i < count,
                        c >= 0,
                ;
            }
            let index = i * c;
            let mut tmp: Vec<u8> = vec![0u8; chunk_size];
            memory.read(s + index, &mut tmp);
            proof {
                assert(tmp@ =~= old(memory).mem().subrange(s + index as int, s + index + c));
            }
            memory.write(d + index, tmp.as_slice());
            proof {
                assert(memory.mem() =~= write_bytes(
                    old(memory).mem(),
                    d as int,
                    old(memory).mem().subrange(s as int, s + (i + 1) * c),
                ));
            }
            i = i + 1;
        }
    } else {
        let mut j: u64 = count;
        proof {
            assert(count * c <= u64::MAX);
            assert(memory.mem() =~= write_bytes(
                old(memory).mem(),
                d + count * c,
                old(memory).mem().subrange(s + count * c, s + count * c),
            ));
        }
        while j > 0
            invariant
                memory.inv(),
                j <= count,
                s == src.get(),
                d == dest.get(),
                c == chunk_size,
                d > s,
                s + count * c <= old(memory).mem().len(),
                d + count * c <= old(memory).mem().len(),
                old(memory).mem().len() <= u64::MAX,
                memory.mem().len() == old(memory).mem().len(),
                memory.mem() == write_bytes(
                    old(memory).mem(),
                    d + j * c,
                    old(memory).mem().subrange(s + j * c, s + count * c),
                ),
            decreases j,
        {
            proof {
                assert((j - 1) * c + c == j * c && j * c <= count * c) by (nonlinear_arith)
                    requires
                        1 <= j <= count,
                        c >= 0,
                ;
            }
            j = j - 1;
            let index = j * c;
            let mut tmp: Vec<u8> = vec![0u8; chunk_size];
            memory.read(s + index, &mut tmp);
            proof {
                assert(tmp@ =~= old(memory).mem().subrange(s + index as int, s + index + c));
            }
            memory.write(d + index, tmp.as_slice());
            proof {
                assert(memory.mem() =~= write_bytes(
                    old(memory).mem(),
                    d + j * c,
                    old(memory).mem().subrange(s + j * c, s + count * c),
                ));
            }
        }
        proof {
            assert(memory.mem() =~= write_bytes(
                old(memory).mem(),
                d as int,
                old(memory).mem().subrange(s as int, s + count * c),
            ));
        }
    }
}

/// Reads a single 32-bit integer encoded as little-endian at `addr`.
pub fn read_u32<M: Memory>(m: &M, addr: Address) -> (v: u32)
    requires
        m.inv(),
        addr.get() + 4 <= m.mem().len(),
    ensures
        v == vstd::bytes::spec_u32_from_le_bytes(
            m.mem().subrange(addr.get() as int, addr.get() + 4),
        ),
{
    let mut buf: Vec<u8> = vec![0u8; 4];
    m.read(addr.get(), &mut buf);
    vstd::bytes::u32_from_le_bytes(buf.as_slice())
}

/// Reads a single 64-bit integer encoded as little-endian at `addr`.
pub fn read_u64<M: Memory>(m: &M, addr: Address) -> (v: u64)
    requires
        m.inv(),
        addr.get() + 8 <= m.mem().len(),
    ensures
        v == vstd::bytes::spec_u64_from_le_bytes(
            m.mem().subrange(addr.get() as int, addr.get() + 8),
        ),
{
    let mut buf: Vec<u8> = vec![0u8; 8];
    m.read(addr.get(), &mut buf);
    vstd::bytes::u64_from_le_bytes(buf.as_slice())
}

/// Writes a single 32-bit integer encoded as little-endian at `addr`,
/// growing the store first when the four bytes run past its end.
pub fn write_u32<M: Memory>(m: &mut M, addr: Address, val: u32)
    requires
        old(m).inv(),
        addr.get() + 4 <= u64::MAX,
        write_succeeds(*old(m), addr.get() as int, 4),
    ensures
        final(m).inv(),
        final(m).mem() == write_bytes(
            grown_mem(old(m).mem(), addr.get() + 4),
            addr.get() as int,
            vstd::bytes::spec_u32_to_le_bytes(val),
        ),
        final(m).mem().len() >= addr.get() + 4,
{
    let buf = vstd::bytes::u32_to_le_bytes(val);
    write(m, addr.get(), buf.as_slice());
}

/// Writes a single 64-bit integer encoded as little-endian at `addr`,
/// growing the store first when the eight bytes run past its end.
pub fn write_u64<M: Memory>(m: &mut M, addr: Address, val: u64)
    requires
        old(m).inv(),
        addr.get() + 8 <= u64::MAX,
        write_succeeds(*old(m), addr.get() as int, 8),
    ensures
        final(m).inv(),
        final(m).mem() == write_bytes(
            grown_mem(old(m).mem(), addr.get() + 8),
            addr.get() as int,
            vstd::bytes::spec_u64_to_le_bytes(val),
        ),
        final(m).mem().len() >= addr.get() + 8,
{
    let buf = vstd::bytes::u64_to_le_bytes(val);
    write(m, addr.get(), buf.as_slice());
}

} // verus!
