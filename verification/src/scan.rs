//! The scan of one file: chunk by chunk, from residency bitmaps to text.
//!
//! The driver maps the file and asks the operating system for the residency
//! of each chunk; what to ask for next, and what the answer becomes in the
//! snapshot, is decided here.

use vstd::prelude::*;
use crate::delta::{
    ascending_from,
    block,
    deltas,
    header,
    lemma_delta_round_trip,
    lemma_deltas_legal,
    lemma_header_presence,
    lemma_split_is_transparent,
    lines,
    running_sum,
    DeltaEncoder,
    EncoderState,
};
use crate::residency::{
    chunk_len,
    lemma_chunk_pages,
    lemma_pages_spanned,
    lemma_resident_pages,
    lemma_resident_pages_concat,
    pages_spanned,
    resident_pages,
    Mmap,
    CHUNK_PAGES,
};

verus! {

/// Why a bitmap was not taken.
#[derive(Debug, Clone, Copy, PartialEq, Eq)]
pub enum ScanError {
    /// The residency of every chunk of the file has been recorded already.
    Finished,
    /// The bitmap does not hold one byte for each page of the pending chunk.
    BitmapLength,
}

/// How far the scan of a file has come.
pub struct ScanState {
    /// The file's gap encoder.
    pub encoder: EncoderState,
    /// The length of the file's mapping in bytes.
    pub len: int,
    /// The size of a page in bytes.
    pub page_size: int,
    /// The number of pages whose residency has been recorded, which is the
    /// index of the first page of the pending chunk.
    pub next_page: int,
}

impl ScanState {
    /// The number of pages of the mapping.
    pub open spec fn total_pages(self) -> int {
        pages_spanned(self.len, self.page_size)
    }

    /// Whether the residency of every page has been recorded.
    pub open spec fn finished(self) -> bool {
        self.next_page >= self.total_pages()
    }

    /// The number of pages of the pending chunk: `CHUNK_PAGES`, or the pages
    /// that are left if they are fewer.
    pub open spec fn chunk_pages(self) -> int {
        if CHUNK_PAGES < self.total_pages() - self.next_page {
            CHUNK_PAGES as int
        } else {
            self.total_pages() - self.next_page
        }
    }

    /// The state once `bitmap` has been recorded as the residency of the
    /// pending chunk.
    pub open spec fn record(self, bitmap: Seq<u8>) -> ScanState {
        ScanState {
            encoder: self.encoder.after(resident_pages(bitmap, self.next_page)),
            len: self.len,
            page_size: self.page_size,
            next_page: self.next_page + bitmap.len(),
        }
    }

    /// The text that recording `bitmap` as the residency of the pending chunk
    /// adds to the snapshot.
    pub open spec fn text(self, bitmap: Seq<u8>) -> Seq<u8> {
        self.encoder.text(resident_pages(bitmap, self.next_page))
    }
}

/// The bitmaps of consecutive chunks, laid end to end.
pub open spec fn joined(chunks: Seq<Seq<u8>>) -> Seq<u8>
    decreases chunks.len(),
{
    if chunks.len() == 0 {
        Seq::empty()
    } else {
        joined(chunks.drop_last()) + chunks.last()
    }
}

/// The state once the bitmaps of consecutive chunks have been recorded, one
/// after the other.
pub open spec fn after_chunks(state: ScanState, chunks: Seq<Seq<u8>>) -> ScanState
    decreases chunks.len(),
{
    if chunks.len() == 0 {
        state
    } else {
        after_chunks(state, chunks.drop_last()).record(chunks.last())
    }
}

/// The text that recording the bitmaps of consecutive chunks, one after the
/// other, adds to the snapshot.
pub open spec fn text_of_chunks(state: ScanState, chunks: Seq<Seq<u8>>) -> Seq<u8>
    decreases chunks.len(),
{
    if chunks.len() == 0 {
        Seq::empty()
    } else {
        text_of_chunks(state, chunks.drop_last()) + after_chunks(state, chunks.drop_last()).text(
            chunks.last(),
        )
    }
}

/// Recording a bitmap in two parts writes the same text as recording it at
/// once, and leaves the scan in the same state.
pub proof fn lemma_chunk_boundary(state: ScanState, first: Seq<u8>, second: Seq<u8>)
    ensures
        state.text(first + second) == state.text(first) + state.record(first).text(second),
        state.record(first + second) == state.record(first).record(second),
{
    lemma_resident_pages_concat(first, second, state.next_page);
    lemma_split_is_transparent(
        state.encoder,
        resident_pages(first, state.next_page),
        resident_pages(second, state.next_page + first.len()),
    );
}

/// Chunking never shows in a snapshot: however the residency of a file is
/// cut into chunks, recording them one after the other writes what a single
/// chunk of the whole would, and leaves the scan in the same state.
pub proof fn lemma_chunking_is_transparent(state: ScanState, chunks: Seq<Seq<u8>>)
    ensures
        text_of_chunks(state, chunks) == state.text(joined(chunks)),
        after_chunks(state, chunks) == state.record(joined(chunks)),
    decreases chunks.len(),
{
    if chunks.len() == 0 {
        let none = resident_pages(Seq::<u8>::empty(), state.next_page);
        assert(deltas(state.encoder.last, none) =~= Seq::<int>::empty());
        assert(state.text(joined(chunks)) =~= Seq::<u8>::empty());
    } else {
        lemma_chunking_is_transparent(state, chunks.drop_last());
        lemma_chunk_boundary(state, joined(chunks.drop_last()), chunks.last());
    }
}

/// The state of a scan before any chunk: nothing recorded, nothing written.
pub open spec fn fresh(label: Seq<u8>, len: int, page_size: int) -> ScanState {
    ScanState {
        encoder: EncoderState { label, last: 0, wrote_header: false },
        len,
        page_size,
        next_page: 0,
    }
}

/// What the scan of a file writes is the file's block: whatever the chunks,
/// the text is that of the resident pages of the whole bitmap, and the
/// header line is written if and only if one of its bytes is not zero.
pub proof fn lemma_scan_writes_the_block(
    label: Seq<u8>,
    len: int,
    page_size: int,
    chunks: Seq<Seq<u8>>,
)
    ensures
        text_of_chunks(fresh(label, len, page_size), chunks) == block(
            label,
            resident_pages(joined(chunks), 0),
        ),
        after_chunks(fresh(label, len, page_size), chunks).encoder.wrote_header <==> exists|
            page: int,
        |
            0 <= page < joined(chunks).len() && joined(chunks)[page] != 0,
        after_chunks(fresh(label, len, page_size), chunks).encoder.wrote_header <==> text_of_chunks(
            fresh(label, len, page_size),
            chunks,
        ).len() > 0,
{
    let start = fresh(label, len, page_size);
    let bitmap = joined(chunks);
    let pages = resident_pages(bitmap, 0);
    lemma_chunking_is_transparent(start, chunks);
    lemma_resident_pages(bitmap, 0);
    lemma_header_presence(label, pages);
    if pages.len() > 0 {
        assert(pages.contains(pages[0]));
    }
    if exists|page: int| 0 <= page < bitmap.len() && bitmap[page] != 0 {
        let page = choose|page: int| 0 <= page < bitmap.len() && bitmap[page] != 0;
        assert(pages.contains(page));
    }
}

/// Whatever the residency of a file, its block is well formed: the resident
/// pages ascend, so the first gap is not negative and every later gap is
/// positive, and the running sum of the gaps gives the pages back.
pub proof fn lemma_block_is_well_formed(label: Seq<u8>, bitmap: Seq<u8>)
    ensures
        ascending_from(0, resident_pages(bitmap, 0)),
        forall|i: int|
            0 <= i < resident_pages(bitmap, 0).len() ==> #[trigger] deltas(
                0,
                resident_pages(bitmap, 0),
            )[i] >= 0,
        forall|i: int|
            1 <= i < resident_pages(bitmap, 0).len() ==> #[trigger] deltas(
                0,
                resident_pages(bitmap, 0),
            )[i] >= 1,
        running_sum(0, deltas(0, resident_pages(bitmap, 0))) == resident_pages(bitmap, 0),
        resident_pages(bitmap, 0).len() > 0 ==> block(label, resident_pages(bitmap, 0)) == header(
            label,
        ) + lines(deltas(0, resident_pages(bitmap, 0))),
{
    let pages = resident_pages(bitmap, 0);
    lemma_resident_pages(bitmap, 0);
    lemma_deltas_legal(0, pages);
    lemma_delta_round_trip(0, pages);
    lemma_header_presence(label, pages);
}

/// Writes the resident pages of one bitmap, whose first byte stands for page
/// `base`, through `encoder` to `out`.
pub fn encode_bitmap(encoder: &mut DeltaEncoder, bitmap: &[u8], base: usize, out: &mut Vec<u8>)
    requires
        old(encoder)@.last <= base,
        base + bitmap@.len() <= usize::MAX,
    ensures
        final(encoder)@ == old(encoder)@.after(resident_pages(bitmap@, base as int)),
        final(out)@ == old(out)@ + old(encoder)@.text(resident_pages(bitmap@, base as int)),
{
    let ghost prior = out@;
    let ghost state = encoder@;
    let mut i: usize = 0;
    proof {
        assert(bitmap@.take(0) =~= Seq::<u8>::empty());
        assert(state.text(Seq::<int>::empty()) =~= Seq::<u8>::empty());
        assert(state.after(Seq::<int>::empty()) == state);
    }
    while i < bitmap.len()
        invariant
            i <= bitmap.len(),
            state.last <= base,
            base + bitmap@.len() <= usize::MAX,
            encoder@ == state.after(resident_pages(bitmap@.take(i as int), base as int)),
            out@ == prior + state.text(resident_pages(bitmap@.take(i as int), base as int)),
        decreases bitmap.len() - i,
    {
        let ghost seen = resident_pages(bitmap@.take(i as int), base as int);
        proof {
            lemma_resident_pages(bitmap@.take(i as int), base as int);
            assert(bitmap@.take(i + 1).drop_last() =~= bitmap@.take(i as int));
            if seen.len() > 0 {
                assert(seen.last() == seen[seen.len() - 1]);
            }
        }
        if bitmap[i] != 0 {
            let ghost page = seq![base + i];
            encoder.push(base + i, out);
            proof {
                lemma_split_is_transparent(state, seen, page);
                assert(resident_pages(bitmap@.take(i + 1), base as int) =~= seen + page);
                assert(out@ =~= prior + (state.text(seen) + state.after(seen).text(page)));
            }
        }
        i = i + 1;
    }
    assert(bitmap@.take(bitmap.len() as int) =~= bitmap@);
}

/// The scan of one file.
#[derive(Debug)]
pub struct FileScan {
    encoder: DeltaEncoder,
    map: Mmap,
    page_size: usize,
    next_page: usize,
}

impl View for FileScan {
    type V = ScanState;

    closed spec fn view(&self) -> ScanState {
        ScanState {
            encoder: self.encoder@,
            len: self.map.len() as int,
            page_size: self.page_size as int,
            next_page: self.next_page as int,
        }
    }
}

impl FileScan {
    #[verifier::type_invariant]
    spec fn within_mapping(self) -> bool {
        &&& self.page_size > 0
        &&& self.map.len() > 0
        &&& self.map.start() == 0
        &&& self.next_page <= pages_spanned(self.map.len() as int, self.page_size as int)
        &&& self.encoder@.last <= self.next_page
    }

    /// The scan of a file of `len` bytes whose header line reads `label`,
    /// with nothing recorded yet.  There is none of an empty file, nor with
    /// pages of no size.
    pub fn new(label: Vec<u8>, len: usize, page_size: usize) -> (scan: Option<FileScan>)
        ensures
            len == 0 || page_size == 0 <==> scan is None,
            scan matches Some(s) ==> s@ == (ScanState {
                encoder: EncoderState { label: label@, last: 0, wrote_header: false },
                len: len as int,
                page_size: page_size as int,
                next_page: 0,
            }),
    {
        if page_size == 0 {
            return None;
        }
        match Mmap::new(len) {
            None => None,
            Some(map) => {
                proof {
                    let total = pages_spanned(len as int, page_size as int);
                    lemma_pages_spanned(len as int, page_size as int, total);
                    assert(total >= 0) by (nonlinear_arith)
                        requires
                            0 < len <= total * page_size,
                            page_size > 0,
                    ;
                }
                Some(FileScan { encoder: DeltaEncoder::new(label), map, page_size, next_page: 0 })
            },
        }
    }

    /// Whether the residency of every page of the file has been recorded.
    pub fn finished(&self) -> (finished: bool)
        ensures
            finished == self@.finished(),
    {
        proof {
            use_type_invariant(self);
        }
        self.next_page >= self.map.page_count(self.page_size)
    }

    /// The chunk whose residency is to be asked for next, if the scan is not
    /// finished: it begins at the first page not yet recorded, and its
    /// bitmap has `chunk_pages` bytes.
    pub fn pending(&self) -> (chunk: Option<Mmap>)
        ensures
            self@.finished() <==> chunk is None,
            chunk matches Some(c) ==> {
                &&& c.start() == self@.next_page * self@.page_size
                &&& c.len() == chunk_len(
                    self@.len,
                    self@.next_page * self@.page_size,
                    self@.page_size,
                )
                &&& pages_spanned(c.len() as int, self@.page_size) == self@.chunk_pages()
            },
    {
        proof {
            use_type_invariant(self);
            let total = pages_spanned(self.map.len() as int, self.page_size as int);
            if self.next_page < total {
                lemma_chunk_pages(
                    self.map.len() as int,
                    self.page_size as int,
                    self.next_page as int,
                );
            } else {
                lemma_pages_spanned(
                    self.map.len() as int,
                    self.page_size as int,
                    total,
                );
                assert(self.next_page * self.page_size >= self.map.len()) by (nonlinear_arith)
                    requires
                        self.map.len() <= total * self.page_size,
                        self.next_page >= total,
                        self.page_size > 0,
                ;
            }
        }
        self.map.slice(self.next_page, self.page_size)
    }
}

/// Records `bitmap` as the residency of the pending chunk of `scan` and
/// appends to `out` the text that this adds to the snapshot.
///
/// The bitmap is taken only if the scan has a chunk pending and the bitmap
/// holds one byte for each of its pages; otherwise nothing changes.
pub fn dump_file(scan: &mut FileScan, bitmap: &[u8], out: &mut Vec<u8>) -> (result: Result<
    (),
    ScanError,
>)
    ensures
        match result {
            Ok(()) => {
                &&& !old(scan)@.finished()
                &&& bitmap@.len() == old(scan)@.chunk_pages()
                &&& final(scan)@ == old(scan)@.record(bitmap@)
                &&& final(out)@ == old(out)@ + old(scan)@.text(bitmap@)
            },
            Err(ScanError::Finished) => {
                &&& old(scan)@.finished()
                &&& final(scan)@ == old(scan)@
                &&& final(out)@ == old(out)@
            },
            Err(ScanError::BitmapLength) => {
                &&& !old(scan)@.finished()
                &&& bitmap@.len() != old(scan)@.chunk_pages()
                &&& final(scan)@ == old(scan)@
                &&& final(out)@ == old(out)@
            },
        },
{
    proof {
        use_type_invariant(&*scan);
    }
    let chunk: Mmap = match scan.pending() {
        Some(chunk) => chunk,
        None => { return Err(ScanError::Finished); },
    };
    let expected: usize = chunk.page_count(scan.page_size);
    if bitmap.len() != expected {
        return Err(ScanError::BitmapLength);
    }
    let base: usize = scan.next_page;
    proof {
        lemma_chunk_pages(scan.map.len() as int, scan.page_size as int, base as int);
    }
    // The encoder leaves the scan while it runs: only once the chunk is
    // written is its latest page below the scan's next page again.
    let mut encoder: DeltaEncoder = DeltaEncoder::new(Vec::new());
    core::mem::swap(&mut scan.encoder, &mut encoder);
    scan.next_page = base + expected;
    encode_bitmap(&mut encoder, bitmap, base, out);
    proof {
        lemma_resident_pages(bitmap@, base as int);
        let pages = resident_pages(bitmap@, base as int);
        if pages.len() > 0 {
            assert(pages.last() == pages[pages.len() - 1]);
        }
    }
    core::mem::swap(&mut scan.encoder, &mut encoder);
    Ok(())
}

} // verus!
