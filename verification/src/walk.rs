//! The walk over a directory tree: which entry is visited next, and how.
//!
//! The walk is depth first and in pre-order: a directory is listed, and its
//! entries are visited in the order of the listing, each directory among
//! them in full before the entry after it.  Listing a directory and scanning
//! a file are the driver's work; it is told here what to do next, and tells
//! back how it went.  The first failure ends the walk.

use vstd::prelude::*;

verus! {

/// What a walk does with a directory entry.
#[derive(Debug, Clone, Copy, PartialEq, Eq)]
pub enum Visit {
    /// A directory: its entries are visited next.
    Descend,
    /// A regular file that is not empty: it is scanned.
    Scan,
    /// Anything else: it is passed over.
    Skip,
}

/// A directory entry, as the walk sees it.
pub struct Entry {
    /// The entry's path.
    pub path: Seq<u8>,
    /// Whether the entry is a directory.
    pub is_dir: bool,
    /// Whether the entry is a regular file.
    pub is_file: bool,
    /// The entry's length in bytes.
    pub len: nat,
}

/// What a walk does with `entry`.
pub open spec fn visit_of(entry: Entry) -> Visit {
    if entry.is_dir {
        Visit::Descend
    } else if entry.is_file && entry.len > 0 {
        Visit::Scan
    } else {
        Visit::Skip
    }
}

/// A directory entry with what its metadata says of it.
#[derive(Debug, Clone, PartialEq, Eq)]
pub struct FileEntry {
    /// The entry's path.
    pub path: Vec<u8>,
    /// Whether the entry is a directory.
    pub is_dir: bool,
    /// Whether the entry is a regular file.
    pub is_file: bool,
    /// The entry's length in bytes.
    pub len: u64,
}

impl View for FileEntry {
    type V = Entry;

    open spec fn view(&self) -> Entry {
        Entry { path: self.path@, is_dir: self.is_dir, is_file: self.is_file, len: self.len as nat }
    }
}

impl FileEntry {
    /// What a walk does with this entry.
    pub fn visit(&self) -> (visit: Visit)
        ensures
            visit == visit_of(self@),
    {
        if self.is_dir {
            Visit::Descend
        } else if self.is_file && self.len > 0 {
            Visit::Scan
        } else {
            Visit::Skip
        }
    }
}

/// What the driver of a walk is to do next.
pub enum Step {
    /// List the directory at `path` and report its entries.
    List { path: Seq<u8> },
    /// Scan the file at `path`, which is `len` bytes long, and report that it
    /// is done.
    Scan { path: Seq<u8>, len: nat },
    /// The walk is complete: finalize the snapshot.
    Finish,
    /// The walk has failed: give up, and leave the snapshot unfinished.
    Abort,
}

/// What the driver of a walk is to do next.
#[derive(Debug, Clone, PartialEq, Eq)]
pub enum Action {
    /// List the directory at `path` and report its entries.
    List { path: Vec<u8> },
    /// Scan the file at `path`, which is `len` bytes long, and report that it
    /// is done.
    Scan { path: Vec<u8>, len: u64 },
    /// The walk is complete: finalize the snapshot.
    Finish,
    /// The walk has failed: give up, and leave the snapshot unfinished.
    Abort,
}

impl View for Action {
    type V = Step;

    open spec fn view(&self) -> Step {
        match *self {
            Action::List { path } => Step::List { path: path@ },
            Action::Scan { path, len } => Step::Scan { path: path@, len: len as nat },
            Action::Finish => Step::Finish,
            Action::Abort => Step::Abort,
        }
    }
}

/// What happened when the driver did as it was told.
pub enum Outcome {
    /// The directory was listed; these are its entries, in the order of the
    /// listing.
    Listed(Seq<Entry>),
    /// The file was scanned.
    Scanned,
    /// The directory could not be listed, or the file could not be scanned.
    Failed,
}

/// What happened when the driver did as it was told.
#[derive(Debug, Clone, PartialEq, Eq)]
pub enum Event {
    /// The directory was listed; these are its entries, in the order of the
    /// listing.
    Listed(Vec<FileEntry>),
    /// The file was scanned.
    Scanned,
    /// The directory could not be listed, or the file could not be scanned.
    Failed,
}

/// The entries of a listing, as the walk sees them.
pub open spec fn entries_of(listing: Seq<FileEntry>) -> Seq<Entry> {
    listing.map_values(|entry: FileEntry| entry@)
}

impl View for Event {
    type V = Outcome;

    open spec fn view(&self) -> Outcome {
        match *self {
            Event::Listed(listing) => Outcome::Listed(entries_of(listing@)),
            Event::Scanned => Outcome::Scanned,
            Event::Failed => Outcome::Failed,
        }
    }
}

/// What a walk is waiting for.
#[derive(Debug, Clone, Copy, PartialEq, Eq)]
pub enum Phase {
    /// The listing of a directory.
    Listing,
    /// The scan of a file.
    Scanning,
    /// Nothing: the walk is complete.
    Done,
    /// Nothing: the walk has failed.
    Failed,
}

/// A walk between two steps.
pub struct WalkState {
    /// What the walk is waiting for.
    pub phase: Phase,
    /// The entries still to visit, the next one first.
    pub queue: Seq<Entry>,
}

/// The state of a walk that has failed.
pub open spec fn failed() -> WalkState {
    WalkState { phase: Phase::Failed, queue: Seq::empty() }
}

/// Visits the entries of `queue` up to the first that gives the driver
/// something to do: entries to pass over are dropped, a directory is to be
/// listed, a file to be scanned.  With no such entry left the walk is
/// complete.
pub open spec fn advance(queue: Seq<Entry>) -> (WalkState, Step)
    decreases queue.len(),
{
    if queue.len() == 0 {
        (WalkState { phase: Phase::Done, queue: Seq::empty() }, Step::Finish)
    } else {
        let entry = queue.first();
        let rest = queue.drop_first();
        match visit_of(entry) {
            Visit::Skip => advance(rest),
            Visit::Descend => (
                WalkState { phase: Phase::Listing, queue: rest },
                Step::List { path: entry.path },
            ),
            Visit::Scan => (
                WalkState { phase: Phase::Scanning, queue: rest },
                Step::Scan { path: entry.path, len: entry.len },
            ),
        }
    }
}

/// One step of a walk: the state and the driver's next action after
/// `outcome`.
///
/// The entries of a listing are visited before everything that was waiting.
/// A failure, or an outcome that the walk was not waiting for, ends the
/// walk.
pub open spec fn step(state: WalkState, outcome: Outcome) -> (WalkState, Step) {
    match (state.phase, outcome) {
        (Phase::Listing, Outcome::Listed(entries)) => advance(entries + state.queue),
        (Phase::Scanning, Outcome::Scanned) => advance(state.queue),
        _ => (failed(), Step::Abort),
    }
}

/// The state of a walk after a run of outcomes.
pub open spec fn state_after(state: WalkState, outcomes: Seq<Outcome>) -> WalkState
    decreases outcomes.len(),
{
    if outcomes.len() == 0 {
        state
    } else {
        step(state_after(state, outcomes.drop_last()), outcomes.last()).0
    }
}

/// The action that a walk gives in answer to the outcome at `index` of a run
/// of outcomes.
pub open spec fn action_at(state: WalkState, outcomes: Seq<Outcome>, index: int) -> Step {
    step(state_after(state, outcomes.take(index)), outcomes[index]).1
}

/// Whether an action ends the walk.
pub open spec fn is_final(action: Step) -> bool {
    action is Finish || action is Abort
}

/// Visiting the waiting entries never fails, and it completes the walk
/// exactly when it says so.
pub proof fn lemma_advance(queue: Seq<Entry>)
    ensures
        !(advance(queue).1 is Abort),
        advance(queue).1 is Finish <==> advance(queue).0.phase is Done,
        advance(queue).1 is List <==> advance(queue).0.phase is Listing,
        advance(queue).1 is Scan <==> advance(queue).0.phase is Scanning,
        advance(queue).1 matches Step::Scan { len, .. } ==> len > 0,
    decreases queue.len(),
{
    if queue.len() > 0 {
        lemma_advance(queue.drop_first());
    }
}

/// An empty file is never scanned: whatever the walk has seen, the file it
/// tells the driver to scan is not empty.
pub proof fn lemma_empty_files_are_never_scanned(state: WalkState, outcome: Outcome)
    ensures
        step(state, outcome).1 matches Step::Scan { len, .. } ==> len > 0,
{
    match (state.phase, outcome) {
        (Phase::Listing, Outcome::Listed(entries)) => {
            lemma_advance(entries + state.queue);
        },
        (Phase::Scanning, Outcome::Scanned) => {
            lemma_advance(state.queue);
        },
        _ => {},
    }
}

/// A failure ends the walk at once: the action in answer to it is `Abort`,
/// in whatever state the walk was.
pub proof fn lemma_failure_aborts(state: WalkState)
    ensures
        step(state, Outcome::Failed) == (failed(), Step::Abort),
{
}

/// The walk is complete only when the driver is told so: `Finish` is the one
/// action that leaves the walk done, and it is given only to a walk that was
/// waiting, in answer to a success.
pub proof fn lemma_finish(state: WalkState, outcome: Outcome)
    ensures
        step(state, outcome).1 is Finish <==> step(state, outcome).0.phase is Done,
        step(state, outcome).1 is Finish ==> !(outcome is Failed) && (state.phase is Listing
            || state.phase is Scanning),
        step(state, outcome).1 is Abort <==> step(state, outcome).0.phase is Failed,
{
    match (state.phase, outcome) {
        (Phase::Listing, Outcome::Listed(entries)) => {
            lemma_advance(entries + state.queue);
        },
        (Phase::Scanning, Outcome::Scanned) => {
            lemma_advance(state.queue);
        },
        _ => {},
    }
}

/// Once a walk has ended, it stays ended: after a final action the walk is
/// done or failed for the rest of the run.
proof fn lemma_ended_stays_ended(state: WalkState, outcomes: Seq<Outcome>, first: int, later: int)
    requires
        0 <= first < later <= outcomes.len(),
        is_final(action_at(state, outcomes, first)),
    ensures
        state_after(state, outcomes.take(later)).phase is Done || state_after(
            state,
            outcomes.take(later),
        ).phase is Failed,
    decreases later,
{
    let run = outcomes.take(later);
    assert(run.drop_last() =~= outcomes.take(later - 1));
    assert(run.last() == outcomes[later - 1]);
    let before = state_after(state, outcomes.take(later - 1));
    lemma_finish(before, outcomes[later - 1]);
    if later - 1 > first {
        lemma_ended_stays_ended(state, outcomes, first, later - 1);
    }
}

/// Fail-fast: after a failure every action is `Abort`.  In particular the
/// driver is never told to finalize the snapshot of a walk in which anything
/// failed, however much of the tree had been visited before.
pub proof fn lemma_fail_fast(state: WalkState, outcomes: Seq<Outcome>, failure: int, later: int)
    requires
        0 <= failure <= later < outcomes.len(),
        outcomes[failure] is Failed,
    ensures
        action_at(state, outcomes, later) == Step::Abort,
{
    if failure < later {
        lemma_ended_stays_ended(state, outcomes, failure, later);
    }
}

/// The snapshot is finalized at most once: after `Finish` every action is
/// `Abort`.
pub proof fn lemma_finish_is_given_once(
    state: WalkState,
    outcomes: Seq<Outcome>,
    finish: int,
    later: int,
)
    requires
        0 <= finish < later < outcomes.len(),
        action_at(state, outcomes, finish) is Finish,
    ensures
        action_at(state, outcomes, later) == Step::Abort,
{
    lemma_ended_stays_ended(state, outcomes, finish, later);
}

/// The entries of a stack, the top one first.
spec fn queue_of(stack: Seq<FileEntry>) -> Seq<Entry> {
    entries_of(stack).reverse()
}

/// The entry pushed last is the first of the queue.
proof fn lemma_queue_push(stack: Seq<FileEntry>, entry: FileEntry)
    ensures
        queue_of(stack.push(entry)) == seq![entry@] + queue_of(stack),
        queue_of(stack.push(entry)).first() == entry@,
        queue_of(stack.push(entry)).drop_first() == queue_of(stack),
{
    assert(queue_of(stack.push(entry)) =~= seq![entry@] + queue_of(stack));
    assert(queue_of(stack.push(entry)).drop_first() =~= queue_of(stack));
}

/// A walk over a directory tree.
#[derive(Debug)]
pub struct Walk {
    stack: Vec<FileEntry>,
    phase: Phase,
}

impl View for Walk {
    type V = WalkState;

    closed spec fn view(&self) -> WalkState {
        WalkState { phase: self.phase, queue: queue_of(self.stack@) }
    }
}

impl Walk {
    /// A walk that waits for the listing of the directory it starts from.
    pub fn new() -> (walk: Walk)
        ensures
            walk@ == (WalkState { phase: Phase::Listing, queue: Seq::empty() }),
    {
        let walk = Walk { stack: Vec::new(), phase: Phase::Listing };
        assert(walk@.queue =~= Seq::<Entry>::empty());
        walk
    }

    /// What the walk is waiting for.
    pub fn phase(&self) -> (phase: Phase)
        ensures
            phase == self@.phase,
    {
        self.phase
    }

    /// Visits the waiting entries up to the first that gives the driver
    /// something to do.
    fn advance(&mut self) -> (action: Action)
        ensures
            (final(self)@, action@) == advance(old(self)@.queue),
    {
        let ghost start = self@.queue;
        while self.stack.len() > 0
            invariant
                start == old(self)@.queue,
                advance(queue_of(self.stack@)) == advance(start),
            decreases self.stack.len(),
        {
            let ghost before = self.stack@;
            let entry: FileEntry = self.stack.pop().unwrap();
            proof {
                assert(before =~= self.stack@.push(entry));
                lemma_queue_push(self.stack@, entry);
            }
            match entry.visit() {
                Visit::Skip => {},
                Visit::Descend => {
                    self.phase = Phase::Listing;
                    return Action::List { path: entry.path };
                },
                Visit::Scan => {
                    self.phase = Phase::Scanning;
                    return Action::Scan { path: entry.path, len: entry.len };
                },
            }
        }
        self.phase = Phase::Done;
        assert(queue_of(self.stack@) =~= Seq::<Entry>::empty());
        Action::Finish
    }

    /// Ends the walk as failed.
    fn fail(&mut self) -> (action: Action)
        ensures
            final(self)@ == failed(),
            action@ == Step::Abort,
    {
        self.stack = Vec::new();
        self.phase = Phase::Failed;
        assert(queue_of(self.stack@) =~= Seq::<Entry>::empty());
        Action::Abort
    }
}

/// Takes `walk` one step further: given what came of the driver's last
/// action, says what it is to do next.
///
/// A walk begins by waiting for the listing of the directory it starts from.
/// The driver lists that directory, hands the listing over, and from then on
/// does as it is told until the action is `Finish` or `Abort`.
pub fn spider(walk: &mut Walk, event: Event) -> (action: Action)
    ensures
        (final(walk)@, action@) == step(old(walk)@, event@),
{
    match event {
        Event::Listed(listing) => {
            match walk.phase {
                Phase::Listing => {
                    let mut listing: Vec<FileEntry> = listing;
                    let ghost entries = entries_of(listing@);
                    let ghost waiting = walk@.queue;
                    while listing.len() > 0
                        invariant
                            walk.phase == Phase::Listing,
                            entries_of(listing@) + queue_of(walk.stack@) == entries + waiting,
                        decreases listing.len(),
                    {
                        let ghost left = listing@;
                        let ghost stack = walk.stack@;
                        let entry: FileEntry = listing.pop().unwrap();
                        walk.stack.push(entry);
                        proof {
                            lemma_queue_push(stack, entry);
                            assert(entries_of(left) =~= entries_of(listing@).push(entry@));
                            assert(entries_of(listing@) + queue_of(walk.stack@) =~= entries_of(left)
                                + queue_of(stack));
                        }
                    }
                    assert(entries_of(listing@) + queue_of(walk.stack@) =~= queue_of(
                        walk.stack@,
                    ));
                    walk.advance()
                },
                _ => walk.fail(),
            }
        },
        Event::Scanned => {
            match walk.phase {
                Phase::Scanning => walk.advance(),
                _ => walk.fail(),
            }
        },
        Event::Failed => walk.fail(),
    }
}

} // verus!
