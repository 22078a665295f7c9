//! Gap encoding of ascending page indices, and the text it is written as.
//!
//! A file's resident pages are written as the gaps between them: the first
//! gap is the first page's own index, every later gap is the distance to the
//! page before it.  Resident pages come in runs, so most gaps are `1`, which
//! compresses far better than the indices themselves.

use vstd::prelude::*;
use crate::decimal::{decimal, push_decimal};

verus! {

/// The byte that ends every line of a snapshot.
pub const NEWLINE: u8 = 10;

/// Each index is larger than the one before it.
pub open spec fn strictly_ascending(pages: Seq<int>) -> bool {
    forall|i: int, j: int| 0 <= i < j < pages.len() ==> pages[i] < pages[j]
}

/// `pages` is strictly ascending and none of its indices is below `last`.
pub open spec fn ascending_from(last: int, pages: Seq<int>) -> bool {
    &&& strictly_ascending(pages)
    &&& pages.len() > 0 ==> last <= pages[0]
}

/// The gaps of `pages`: each index minus the one before it, the first minus
/// `last`.
pub open spec fn deltas(last: int, pages: Seq<int>) -> Seq<int> {
    Seq::new(
        pages.len(),
        |i: int|
            if i == 0 {
                pages[0] - last
            } else {
                pages[i] - pages[i - 1]
            },
    )
}

/// `last` plus the sum of `gaps`.
pub open spec fn sum_from(last: int, gaps: Seq<int>) -> int
    decreases gaps.len(),
{
    if gaps.len() == 0 {
        last
    } else {
        sum_from(last, gaps.drop_last()) + gaps.last()
    }
}

/// The running sums of `gaps`, counted up from `last`: what a reader of a
/// snapshot computes to get the page indices back.
pub open spec fn running_sum(last: int, gaps: Seq<int>) -> Seq<int> {
    Seq::new(gaps.len(), |i: int| sum_from(last, gaps.take(i + 1)))
}

/// The index that the next gap is measured from, once `pages` have been
/// written after `last`.
pub open spec fn last_after(last: int, pages: Seq<int>) -> int {
    if pages.len() == 0 {
        last
    } else {
        pages.last()
    }
}

/// One line of text: the decimal of `gap`, then a newline.
pub open spec fn line(gap: int) -> Seq<u8> {
    decimal(gap as nat).push(NEWLINE)
}

/// The text of a sequence of gaps, one line each.
pub open spec fn lines(gaps: Seq<int>) -> Seq<u8>
    decreases gaps.len(),
{
    if gaps.len() == 0 {
        Seq::empty()
    } else {
        lines(gaps.drop_last()) + line(gaps.last())
    }
}

/// The header line of a file's block: its label, then a newline.
pub open spec fn header(label: Seq<u8>) -> Seq<u8> {
    label.push(NEWLINE)
}

/// The text written for `pages` by an encoder that has `last` as its latest
/// index: the header first if none was written yet and there is a page to
/// write, then one line per page.
pub open spec fn emitted(label: Seq<u8>, wrote_header: bool, last: int, pages: Seq<int>) -> Seq<
    u8,
> {
    if !wrote_header && pages.len() > 0 {
        header(label) + lines(deltas(last, pages))
    } else {
        lines(deltas(last, pages))
    }
}

/// The whole block of a file whose resident pages are `pages`.
pub open spec fn block(label: Seq<u8>, pages: Seq<int>) -> Seq<u8> {
    emitted(label, false, 0, pages)
}

/// What an encoder remembers between pages.
pub struct EncoderState {
    /// The text of the header line, without its newline.
    pub label: Seq<u8>,
    /// The latest page index written, 0 before the first.
    pub last: int,
    /// Whether the header line has been written.
    pub wrote_header: bool,
}

impl EncoderState {
    /// The state after `pages` have been written.
    pub open spec fn after(self, pages: Seq<int>) -> EncoderState {
        EncoderState {
            label: self.label,
            last: last_after(self.last, pages),
            wrote_header: self.wrote_header || pages.len() > 0,
        }
    }

    /// The text written for `pages` from this state.
    pub open spec fn text(self, pages: Seq<int>) -> Seq<u8> {
        emitted(self.label, self.wrote_header, self.last, pages)
    }
}

/// The gaps up to a page add up to the page.
proof fn lemma_gaps_add_up(last: int, pages: Seq<int>, upto: int)
    requires
        0 <= upto < pages.len(),
    ensures
        sum_from(last, deltas(last, pages).take(upto + 1)) == pages[upto],
    decreases upto,
{
    let gaps = deltas(last, pages);
    let head = gaps.take(upto + 1);
    assert(head.drop_last() =~= gaps.take(upto));
    assert(head.last() == gaps[upto]);
    assert(sum_from(last, head) == sum_from(last, gaps.take(upto)) + gaps[upto]);
    if upto > 0 {
        lemma_gaps_add_up(last, pages, upto - 1);
        assert(gaps[upto] == pages[upto] - pages[upto - 1]);
    } else {
        assert(sum_from(last, gaps.take(0)) == last);
        assert(gaps[0] == pages[0] - last);
    }
}

/// Summing the gaps of a sequence of page indices, starting from the index
/// that they were measured from, gives the indices back.
pub proof fn lemma_delta_round_trip(last: int, pages: Seq<int>)
    ensures
        running_sum(last, deltas(last, pages)) == pages,
{
    let gaps = deltas(last, pages);
    assert forall|i: int| 0 <= i < pages.len() implies running_sum(last, gaps)[i] == pages[i] by {
        lemma_gaps_add_up(last, pages, i);
    }
    assert(running_sum(last, gaps) =~= pages);
}

/// The gaps of an ascending sequence are legal lines of a block: none is
/// negative, and all but the first are positive.
pub proof fn lemma_deltas_legal(last: int, pages: Seq<int>)
    requires
        ascending_from(last, pages),
    ensures
        deltas(last, pages).len() == pages.len(),
        forall|i: int| 0 <= i < pages.len() ==> #[trigger] deltas(last, pages)[i] >= 0,
        forall|i: int| 1 <= i < pages.len() ==> #[trigger] deltas(last, pages)[i] >= 1,
{
    assert forall|i: int| 0 <= i < pages.len() implies #[trigger] deltas(last, pages)[i] >= 0 by {
        if i > 0 {
            assert(pages[i - 1] < pages[i]);
        }
    }
    assert forall|i: int| 1 <= i < pages.len() implies #[trigger] deltas(last, pages)[i] >= 1 by {
        assert(pages[i - 1] < pages[i]);
    }
}

/// The text of two runs of gaps is the text of the first followed by the
/// text of the second.
pub proof fn lemma_lines_concat(first: Seq<int>, second: Seq<int>)
    ensures
        lines(first + second) == lines(first) + lines(second),
    decreases second.len(),
{
    if second.len() == 0 {
        assert(first + second =~= first);
    } else {
        lemma_lines_concat(first, second.drop_last());
        assert((first + second).drop_last() =~= first + second.drop_last());
    }
}

/// Writing a sequence of pages in two parts writes the same text as writing
/// it at once, and leaves the encoder in the same state.
pub proof fn lemma_split_is_transparent(state: EncoderState, first: Seq<int>, second: Seq<int>)
    ensures
        state.text(first + second) == state.text(first) + state.after(first).text(second),
        state.after(first + second) == state.after(first).after(second),
{
    let mid = state.after(first);
    assert(deltas(state.last, first + second) =~= deltas(state.last, first) + deltas(
        mid.last,
        second,
    ));
    lemma_lines_concat(deltas(state.last, first), deltas(mid.last, second));
    if second.len() == 0 {
        assert(first + second =~= first);
    }
    assert(state.text(first + second) =~= state.text(first) + mid.text(second));
}

/// A block holds a header line if and only if there is a resident page: it
/// is empty for a file without one, and begins with the header otherwise.
pub proof fn lemma_header_presence(label: Seq<u8>, pages: Seq<int>)
    ensures
        pages.len() == 0 <==> block(label, pages).len() == 0,
        pages.len() > 0 ==> block(label, pages) == header(label) + lines(deltas(0, pages)),
{
    if pages.len() == 0 {
        assert(deltas(0, pages) =~= Seq::<int>::empty());
    }
}

/// The page indices of a slice, as mathematical integers.
pub open spec fn page_indices(pages: Seq<usize>) -> Seq<int> {
    pages.map_values(|page: usize| page as int)
}

/// Appends `bytes` to `out`.
pub fn push_bytes(out: &mut Vec<u8>, bytes: &[u8])
    ensures
        final(out)@ == old(out)@ + bytes@,
{
    let ghost prior = out@;
    let mut i: usize = 0;
    while i < bytes.len()
        invariant
            i <= bytes.len(),
            out@ == prior + bytes@.take(i as int),
        decreases bytes.len() - i,
    {
        out.push(bytes[i]);
        i = i + 1;
        assert(bytes@.take(i as int) =~= bytes@.take(i - 1).push(bytes@[i - 1]));
    }
    assert(bytes@.take(bytes.len() as int) =~= bytes@);
}

/// The gap encoder of one file: it remembers the latest page index written
/// and whether the file's header line is out yet.
#[derive(Debug)]
pub struct DeltaEncoder {
    label: Vec<u8>,
    last: usize,
    wrote_header: bool,
}

impl View for DeltaEncoder {
    type V = EncoderState;

    closed spec fn view(&self) -> EncoderState {
        EncoderState { label: self.label@, last: self.last as int, wrote_header: self.wrote_header }
    }
}

impl DeltaEncoder {
    /// An encoder for the file whose header line reads `label`; nothing is
    /// written yet.
    pub fn new(label: Vec<u8>) -> (encoder: DeltaEncoder)
        ensures
            encoder@ == (EncoderState { label: label@, last: 0, wrote_header: false }),
    {
        DeltaEncoder { label, last: 0, wrote_header: false }
    }

    /// The latest page index written, 0 before the first.
    pub fn last(&self) -> (last: usize)
        ensures
            last == self@.last,
    {
        self.last
    }

    /// Whether the header line has been written.
    pub fn wrote_header(&self) -> (wrote: bool)
        ensures
            wrote == self@.wrote_header,
    {
        self.wrote_header
    }

    /// Writes one resident page to `out`: the header line first if this is
    /// the file's first page, then the gap from the page before.
    pub fn push(&mut self, page: usize, out: &mut Vec<u8>)
        requires
            old(self)@.last <= page,
        ensures
            final(self)@ == old(self)@.after(seq![page as int]),
            final(out)@ == old(out)@ + old(self)@.text(seq![page as int]),
    {
        let ghost prior = out@;
        let ghost state = self@;
        let ghost gaps = deltas(state.last, seq![page as int]);
        if !self.wrote_header {
            push_bytes(out, self.label.as_slice());
            out.push(NEWLINE);
            self.wrote_header = true;
        }
        push_decimal(out, page - self.last);
        out.push(NEWLINE);
        self.last = page;
        proof {
            assert(gaps.drop_last() =~= Seq::<int>::empty());
            assert(lines(gaps.drop_last()) =~= Seq::<u8>::empty());
            assert(gaps.last() == page - state.last);
            assert(lines(gaps) =~= line(page - state.last));
            assert(out@ =~= prior + state.text(seq![page as int]));
        }
    }

    /// Writes the resident pages `pages` to `out`, in order.
    pub fn encode(&mut self, pages: &[usize], out: &mut Vec<u8>)
        requires
            ascending_from(old(self)@.last, page_indices(pages@)),
        ensures
            final(self)@ == old(self)@.after(page_indices(pages@)),
            final(out)@ == old(out)@ + old(self)@.text(page_indices(pages@)),
    {
        let ghost prior = out@;
        let ghost state = self@;
        let ghost all = page_indices(pages@);
        let mut i: usize = 0;
        proof {
            assert(all.take(0) =~= Seq::<int>::empty());
            assert(deltas(state.last, all.take(0)) =~= Seq::<int>::empty());
            assert(state.after(all.take(0)) == state);
        }
        while i < pages.len()
            invariant
                i <= pages.len(),
                all == page_indices(pages@),
                ascending_from(state.last, all),
                self@ == state.after(all.take(i as int)),
                out@ == prior + state.text(all.take(i as int)),
            decreases pages.len() - i,
        {
            let ghost done = all.take(i as int);
            let ghost next = seq![pages[i as int] as int];
            proof {
                assert(all.take(i + 1) =~= done + next);
                lemma_split_is_transparent(state, done, next);
                if i > 0 {
                    assert(done.last() == all[i - 1]);
                    assert(all[i - 1] < all[i as int]);
                } else {
                    assert(all[0] == pages[0] as int);
                }
            }
            self.push(pages[i], out);
            i = i + 1;
        }
        assert(all.take(pages.len() as int) =~= all);
    }
}

} // verus!
