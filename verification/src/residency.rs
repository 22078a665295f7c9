//! Mappings, the chunks they are queried in, and residency bitmaps.
//!
//! The residency of a mapping is asked of the operating system chunk by
//! chunk, so that the bitmap of one answer, a byte per page, stays bounded
//! however large the file is.  A page is resident when its byte is not zero.

use vstd::prelude::*;
use crate::delta::strictly_ascending;

verus! {

/// The number of pages that one residency query covers at most.
pub const CHUNK_PAGES: usize = 1048576;

/// The number of pages that `len` bytes span: `len / page_size`, rounded up.
pub open spec fn pages_spanned(len: int, page_size: int) -> int {
    (len + page_size - 1) / page_size
}

/// The length in bytes of the chunk that starts `start` bytes into a mapping
/// of `len` bytes: a full chunk, or what is left of the mapping if that is
/// less.
pub open spec fn chunk_len(len: int, start: int, page_size: int) -> int {
    if CHUNK_PAGES * page_size < len - start {
        CHUNK_PAGES * page_size
    } else {
        len - start
    }
}

/// The indices of the resident pages of a bitmap whose first byte stands for
/// page `base`, in ascending order.
pub open spec fn resident_pages(bitmap: Seq<u8>, base: int) -> Seq<int>
    decreases bitmap.len(),
{
    if bitmap.len() == 0 {
        Seq::empty()
    } else if bitmap.last() != 0 {
        resident_pages(bitmap.drop_last(), base).push(base + bitmap.len() - 1)
    } else {
        resident_pages(bitmap.drop_last(), base)
    }
}

/// `pages_spanned` is the one count `pages` with
/// `(pages - 1) * page_size < len <= pages * page_size`.
pub proof fn lemma_pages_spanned(len: int, page_size: int, pages: int)
    requires
        page_size > 0,
    ensures
        pages == pages_spanned(len, page_size) <==> (pages - 1) * page_size < len <= pages
            * page_size,
{
    let spanned = pages_spanned(len, page_size);
    assert((spanned - 1) * page_size < len <= spanned * page_size) by (nonlinear_arith)
        requires
            page_size > 0,
            spanned == (len + page_size - 1) / page_size,
    ;
    if (pages - 1) * page_size < len <= pages * page_size {
        assert(pages == spanned) by (nonlinear_arith)
            requires
                page_size > 0,
                (pages - 1) * page_size < len <= pages * page_size,
                (spanned - 1) * page_size < len <= spanned * page_size,
        ;
    }
}

/// The chunk that begins at page `next` of a mapping, where `next` is short
/// of the mapping's last page: it begins inside the mapping, and it spans
/// `CHUNK_PAGES` pages or, if fewer are left, the pages that are left.
pub proof fn lemma_chunk_pages(len: int, page_size: int, next: int)
    requires
        len > 0,
        page_size > 0,
        0 <= next < pages_spanned(len, page_size),
    ensures
        next * page_size < len,
        pages_spanned(len, page_size) <= len,
        pages_spanned(chunk_len(len, next * page_size, page_size), page_size) == if CHUNK_PAGES
            < pages_spanned(len, page_size) - next {
            CHUNK_PAGES as int
        } else {
            pages_spanned(len, page_size) - next
        },
{
    let total = pages_spanned(len, page_size);
    let full = CHUNK_PAGES as int;
    let start = next * page_size;
    let left = total - next;
    lemma_pages_spanned(len, page_size, total);
    assert(start < len && total <= len) by (nonlinear_arith)
        requires
            (total - 1) * page_size < len <= total * page_size,
            0 <= next < total,
            page_size > 0,
            start == next * page_size,
    ;
    if full * page_size < len - start {
        assert((full - 1) * page_size < full * page_size) by (nonlinear_arith)
            requires
                page_size > 0,
        ;
        lemma_pages_spanned(full * page_size, page_size, full);
        assert(full < left) by (nonlinear_arith)
            requires
                full * page_size < len - start,
                start == next * page_size,
                len <= total * page_size,
                left == total - next,
                page_size > 0,
        ;
    } else {
        assert((left - 1) * page_size < len - start <= left * page_size && left <= full)
            by (nonlinear_arith)
            requires
                (total - 1) * page_size < len <= total * page_size,
                start == next * page_size,
                left == total - next,
                len - start <= full * page_size,
                page_size > 0,
        ;
        lemma_pages_spanned(len - start, page_size, left);
    }
}

/// The resident pages of a bitmap are exactly the pages whose byte is not
/// zero, each once and in ascending order.
pub proof fn lemma_resident_pages(bitmap: Seq<u8>, base: int)
    ensures
        strictly_ascending(resident_pages(bitmap, base)),
        forall|k: int|
            0 <= k < resident_pages(bitmap, base).len() ==> base <= #[trigger] resident_pages(
                bitmap,
                base,
            )[k] < base + bitmap.len(),
        forall|page: int|
            resident_pages(bitmap, base).contains(page) <==> (base <= page < base + bitmap.len()
                && bitmap[page - base] != 0),
    decreases bitmap.len(),
{
    let pages = resident_pages(bitmap, base);
    if bitmap.len() > 0 {
        let front = bitmap.drop_last();
        let head = resident_pages(front, base);
        lemma_resident_pages(front, base);
        let top = base + bitmap.len() - 1;
        assert forall|page: int| pages.contains(page) <==> (base <= page < base + bitmap.len()
            && bitmap[page - base] != 0) by {
            if bitmap.last() != 0 {
                assert(pages == head.push(top));
                if pages.contains(page) {
                    let k = choose|k: int| 0 <= k < pages.len() && pages[k] == page;
                    if k < head.len() {
                        assert(head[k] == page);
                        assert(head.contains(page));
                        assert(front[page - base] == bitmap[page - base]);
                    }
                }
                if base <= page < base + bitmap.len() && bitmap[page - base] != 0 {
                    if page == top {
                        assert(pages[head.len() as int] == page);
                    } else {
                        assert(front[page - base] == bitmap[page - base]);
                        assert(head.contains(page));
                        let k = choose|k: int| 0 <= k < head.len() && head[k] == page;
                        assert(pages[k] == page);
                    }
                }
            } else {
                if base <= page < base + bitmap.len() - 1 {
                    assert(front[page - base] == bitmap[page - base]);
                }
            }
        }
    }
}

/// The resident pages of two bitmaps laid end to end are those of the first
/// followed by those of the second.
pub proof fn lemma_resident_pages_concat(first: Seq<u8>, second: Seq<u8>, base: int)
    ensures
        resident_pages(first + second, base) == resident_pages(first, base) + resident_pages(
            second,
            base + first.len(),
        ),
    decreases second.len(),
{
    if second.len() == 0 {
        assert(first + second =~= first);
    } else {
        lemma_resident_pages_concat(first, second.drop_last(), base);
        assert((first + second).drop_last() =~= first + second.drop_last());
    }
}

/// A read-only view of part of a file's mapping: `len` bytes that begin
/// `start` bytes into it.  A view is never empty.
///
/// The mapping of a whole file is the view that begins at 0; the chunks that
/// residency is asked for are views cut out of it.
#[derive(Debug, Clone, Copy, PartialEq, Eq)]
pub struct Mmap {
    start: usize,
    len: usize,
}

impl Mmap {
    #[verifier::type_invariant]
    spec fn nonempty_and_addressable(self) -> bool {
        self.len > 0 && self.start + self.len <= usize::MAX
    }

    /// Where the view begins, in bytes from the start of the file's mapping.
    pub closed spec fn spec_start(&self) -> usize {
        self.start
    }

    /// The length of the view in bytes.
    pub closed spec fn spec_len(&self) -> usize {
        self.len
    }

    /// The view of a whole file of `len` bytes.  There is none of an empty
    /// file: nothing of it can be mapped.
    pub fn new(len: usize) -> (mapping: Option<Mmap>)
        ensures
            len == 0 <==> mapping is None,
            mapping matches Some(m) ==> m.spec_start() == 0 && m.spec_len() == len,
    {
        if len == 0 {
            None
        } else {
            Some(Mmap { start: 0, len })
        }
    }

    /// Where the view begins, in bytes from the start of the file's mapping.
    #[verifier::when_used_as_spec(spec_start)]
    pub fn start(&self) -> (start: usize)
        ensures
            start == self.spec_start(),
            start + self.spec_len() <= usize::MAX,
    {
        proof {
            use_type_invariant(self);
        }
        self.start
    }

    /// The length of the view in bytes, never 0.
    #[verifier::when_used_as_spec(spec_len)]
    pub fn len(&self) -> (len: usize)
        ensures
            len == self.spec_len(),
            len > 0,
    {
        proof {
            use_type_invariant(self);
        }
        self.len
    }

    /// The chunk of this view that begins at its page `offset`: a full chunk
    /// of `CHUNK_PAGES` pages, or the rest of the view if that is shorter.
    /// There is none once `offset` is at or past the end of the view.
    pub fn slice(&self, offset: usize, page_size: usize) -> (chunk: Option<Mmap>)
        requires
            page_size > 0,
        ensures
            offset * page_size >= self.len() <==> chunk is None,
            chunk matches Some(c) ==> {
                &&& c.start() == self.start() + offset * page_size
                &&& c.len() == chunk_len(self.len() as int, offset * page_size, page_size as int)
            },
    {
        proof {
            use_type_invariant(self);
        }
        let begin: usize = match offset.checked_mul(page_size) {
            Some(begin) => begin,
            None => { return None; },
        };
        if begin >= self.len {
            return None;
        }
        let rest: usize = self.len - begin;
        let length: usize = match CHUNK_PAGES.checked_mul(page_size) {
            Some(full) => if full < rest {
                full
            } else {
                rest
            },
            None => rest,
        };
        Some(Mmap { start: self.start + begin, len: length })
    }

    /// The number of pages that the view spans, which is the number of bytes
    /// in the bitmap of its residency.
    pub fn page_count(&self, page_size: usize) -> (pages: usize)
        requires
            page_size > 0,
        ensures
            pages == pages_spanned(self.len() as int, page_size as int),
            pages > 0,
    {
        proof {
            use_type_invariant(self);
        }
        let whole: usize = self.len / page_size;
        let partial: usize = self.len % page_size;
        proof {
            let len = self.len as int;
            let size = page_size as int;
            assert(len == whole * size + partial && 0 <= partial < size) by (nonlinear_arith)
                requires
                    size > 0,
                    whole == len / size,
                    partial == len % size,
            ;
            let pages = if partial != 0 {
                whole + 1
            } else {
                whole as int
            };
            assert((pages - 1) * size < len <= pages * size) by (nonlinear_arith)
                requires
                    len == whole * size + partial,
                    0 <= partial < size,
                    pages == if partial != 0 {
                        whole + 1
                    } else {
                        whole as int
                    },
            ;
            lemma_pages_spanned(len, size, pages);
            assert(1 <= pages <= len) by (nonlinear_arith)
                requires
                    (pages - 1) * size < len <= pages * size,
                    len > 0,
                    size > 0,
            ;
        }
        if partial != 0 {
            whole + 1
        } else {
            whole
        }
    }

    /// A bitmap for the residency of the view: a byte per page, all zero.
    pub fn residency_buffer(&self, page_size: usize) -> (buffer: Vec<u8>)
        requires
            page_size > 0,
        ensures
            buffer@ == Seq::new(
                pages_spanned(self.len() as int, page_size as int) as nat,
                |i: int| 0u8,
            ),
    {
        let pages: usize = self.page_count(page_size);
        let buffer: Vec<u8> = vec![0u8; pages];
        assert(buffer@ =~= Seq::new(pages as nat, |i: int| 0u8));
        buffer
    }
}

} // verus!
