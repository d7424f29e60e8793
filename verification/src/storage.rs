//! Page storage: fixed-size pages of bytes, and an in-memory implementation.
use vstd::prelude::*;

verus! {

/// Declares `std::io::Error`, the error of a storage operation, as an opaque type.
#[verifier::external_type_specification]
#[verifier::external_body]
pub struct ExIoError(std::io::Error);

/// Types that can be kept in block storage as they are.
pub trait Storable: Copy {}

impl<T: Copy> Storable for T {}

/// `bytes` with page `page_idx` of `page_size` bytes replaced by `data`.
pub open spec fn write_page_spec(bytes: Seq<u8>, page_size: int, page_idx: int, data: Seq<u8>) -> Seq<u8> {
    bytes.subrange(0, page_idx * page_size) + data + bytes.subrange((page_idx + 1) * page_size, bytes.len() as int)
}

/// Page `page_idx` of `page_size` bytes of `bytes`.
pub open spec fn page_spec(bytes: Seq<u8>, page_size: int, page_idx: int) -> Seq<u8> {
    bytes.subrange(page_idx * page_size, (page_idx + 1) * page_size)
}

/// A storage of pages of `page_size()` bytes, numbered from 0.
pub trait PageStorage: Sized {
    /// The contents of the storage, page after page.
    spec fn bytes(&self) -> Seq<u8>;

    /// The size of a page in bytes.
    spec fn page_size_spec() -> nat;

    /// The size of a page in bytes.
    fn page_size() -> (r: usize)
        ensures
            r == Self::page_size_spec(),
            r > 0,
    ;

    /// Opens a storage of `pages` pages under `key`, creating it if it does not exist.
    fn open(key: String, pages: usize) -> (r: Result<Self, std::io::Error>)
        requires
            pages * Self::page_size_spec() <= usize::MAX,
        ensures
            r is Ok ==> r->Ok_0.bytes().len() == pages * Self::page_size_spec(),
    ;

    /// Reads page `page_idx` into `ret`, which holds one page.
    fn read_page(&self, page_idx: usize, ret: &mut [u8]) -> (r: Result<(), std::io::Error>)
        requires
            old(ret)@.len() == Self::page_size_spec(),
            (page_idx + 1) * Self::page_size_spec() <= self.bytes().len(),
        ensures
            final(ret)@.len() == old(ret)@.len(),
            r is Ok ==> final(ret)@ == page_spec(self.bytes(), Self::page_size_spec() as int, page_idx as int),
    ;

    /// Writes `data`, which holds one page, to page `page_idx`.
    fn write_page(&mut self, page_idx: usize, data: &[u8]) -> (r: Result<(), std::io::Error>)
        requires
            data@.len() == Self::page_size_spec(),
            (page_idx + 1) * Self::page_size_spec() <= old(self).bytes().len(),
        ensures
            r is Ok ==> final(self).bytes() == write_page_spec(
                old(self).bytes(),
                Self::page_size_spec() as int,
                page_idx as int,
                data@,
            ),
    ;

    /// The number of pages.
    fn pages_len(&self) -> (r: usize)
        ensures
            r == self.bytes().len() / Self::page_size_spec(),
    ;
}

/// Size of a page of a `MemStore`.
pub const MEM_PAGE_SIZE: usize = 4096;

/// A page storage held in memory.
#[derive(Debug)]
pub struct MemStore {
    /// The pages, one after the other.
    data: Vec<u8>,
}

impl PageStorage for MemStore {
    closed spec fn bytes(&self) -> Seq<u8> {
        self.data@
    }

    open spec fn page_size_spec() -> nat {
        MEM_PAGE_SIZE as nat
    }

    fn page_size() -> (r: usize) {
        MEM_PAGE_SIZE
    }

    /// Creates `total_pages` zeroed pages; the key is not used.
    fn open(_key: String, total_pages: usize) -> (r: Result<Self, std::io::Error>)
        ensures
            r is Ok,
            forall|i: int| 0 <= i < r->Ok_0.bytes().len() ==> r->Ok_0.bytes()[i] == 0,
    {
        let len = total_pages * MEM_PAGE_SIZE;
        let mut data: Vec<u8> = Vec::with_capacity(len);
        let mut i: usize = 0;
        while i < len
            invariant
                i <= len,
                data@.len() == i,
                forall|j: int| 0 <= j < i ==> data@[j] == 0,
            decreases len - i,
        {
            data.push(0);
            i += 1;
        }
        Ok(MemStore { data })
    }

    fn read_page(&self, block_idx: usize, buf: &mut [u8]) -> (r: Result<(), std::io::Error>)
        ensures
            r is Ok,
    {
        let len = self.data.len();
        proof {
            assert(block_idx * MEM_PAGE_SIZE + MEM_PAGE_SIZE == (block_idx + 1) * MEM_PAGE_SIZE) by (nonlinear_arith);
        }
        let start = block_idx * MEM_PAGE_SIZE;
        let mut i: usize = 0;
        while i < MEM_PAGE_SIZE
            invariant
                i <= MEM_PAGE_SIZE,
                buf@.len() == MEM_PAGE_SIZE,
                start + MEM_PAGE_SIZE <= self.data@.len(),
                len == self.data@.len(),
                forall|j: int| 0 <= j < i ==> buf@[j] == self.data@[start + j],
            decreases MEM_PAGE_SIZE - i,
        {
            buf[i] = self.data[start + i];
            i += 1;
        }
        proof {
            assert(buf@ =~= page_spec(self.data@, MEM_PAGE_SIZE as int, block_idx as int));
        }
        Ok(())
    }

    fn write_page(&mut self, block_idx: usize, buf: &[u8]) -> (r: Result<(), std::io::Error>)
        ensures
            r is Ok,
    {
        let len = self.data.len();
        proof {
            assert(block_idx * MEM_PAGE_SIZE + MEM_PAGE_SIZE == (block_idx + 1) * MEM_PAGE_SIZE) by (nonlinear_arith);
        }
        let start = block_idx * MEM_PAGE_SIZE;
        let ghost orig = self.data@;
        let mut i: usize = 0;
        while i < MEM_PAGE_SIZE
            invariant
                i <= MEM_PAGE_SIZE,
                buf@.len() == MEM_PAGE_SIZE,
                self.data@.len() == orig.len(),
                start + MEM_PAGE_SIZE <= orig.len(),
                start == block_idx * MEM_PAGE_SIZE,
                forall|j: int| 0 <= j < orig.len() ==> self.data@[j] == (if start <= j < start + i {
                    buf@[j - start]
                } else {
                    orig[j]
                }),
            decreases MEM_PAGE_SIZE - i,
        {
            self.data.set(start + i, buf[i]);
            i += 1;
        }
        proof {
            assert(self.data@ =~= write_page_spec(orig, MEM_PAGE_SIZE as int, block_idx as int, buf@));
        }
        Ok(())
    }

    fn pages_len(&self) -> (r: usize) {
        self.data.len() / MEM_PAGE_SIZE
    }
}

/// Reading a page gives back what the last write to that page wrote.
pub proof fn lemma_read_after_write(bytes: Seq<u8>, page_size: int, page_idx: int, data: Seq<u8>)
    requires
        0 < page_size,
        0 <= page_idx,
        (page_idx + 1) * page_size <= bytes.len(),
        data.len() == page_size,
    ensures
        page_spec(write_page_spec(bytes, page_size, page_idx, data), page_size, page_idx) == data,
        write_page_spec(bytes, page_size, page_idx, data).len() == bytes.len(),
{
    assert(page_idx * page_size + page_size == (page_idx + 1) * page_size) by (nonlinear_arith);
    assert(0 <= page_idx * page_size) by (nonlinear_arith)
        requires
            0 <= page_idx,
            0 < page_size,
    ;
    assert(page_spec(write_page_spec(bytes, page_size, page_idx, data), page_size, page_idx) =~= data);
}

/// Writing a page leaves every other page as it was.
pub proof fn lemma_write_keeps_other_pages(bytes: Seq<u8>, page_size: int, page_idx: int, other: int, data: Seq<u8>)
    requires
        0 < page_size,
        0 <= page_idx,
        0 <= other,
        other != page_idx,
        (page_idx + 1) * page_size <= bytes.len(),
        (other + 1) * page_size <= bytes.len(),
        data.len() == page_size,
    ensures
        page_spec(write_page_spec(bytes, page_size, page_idx, data), page_size, other) == page_spec(bytes, page_size, other),
{
    assert(page_idx * page_size + page_size == (page_idx + 1) * page_size) by (nonlinear_arith);
    assert(other * page_size + page_size == (other + 1) * page_size) by (nonlinear_arith);
    assert(0 <= page_idx * page_size) by (nonlinear_arith)
        requires
            0 <= page_idx,
            0 < page_size,
    ;
    if other < page_idx {
        assert((other + 1) * page_size <= page_idx * page_size) by (nonlinear_arith)
            requires
                other + 1 <= page_idx,
                0 < page_size,
        ;
    } else {
        assert((page_idx + 1) * page_size <= other * page_size) by (nonlinear_arith)
            requires
                page_idx + 1 <= other,
                0 < page_size,
        ;
    }
    assert(page_spec(write_page_spec(bytes, page_size, page_idx, data), page_size, other) =~= page_spec(bytes, page_size, other));
}

} // verus!
