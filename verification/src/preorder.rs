//! The order of a walk: depth first, in pre-order.
//!
//! A walk learns of a tree one listing at a time.  Held against the tree as
//! a whole, what it asks of its driver is the tree's pre-order: every
//! directory is listed and every file that is not empty is scanned, a
//! directory before what is below it, and all that is below it before the
//! entry that follows it in the listing.

use vstd::prelude::*;
use crate::walk::{
    action_at,
    advance,
    state_after,
    step,
    visit_of,
    Entry,
    Outcome,
    Phase,
    Step,
    Visit,
    WalkState,
};

verus! {

/// A directory tree: an entry and, if it is a directory, what a listing of
/// it gives, in the order of the listing.
pub struct Tree {
    /// The entry itself.
    pub entry: Entry,
    /// The trees of the entries below it.
    pub children: Seq<Tree>,
}

/// The entries at the top of `forest`: what a listing of their directory
/// gives.
pub open spec fn roots(forest: Seq<Tree>) -> Seq<Entry> {
    forest.map_values(|tree: Tree| tree.entry)
}

/// What a walk over `forest` asks of its driver, in pre-order.
pub open spec fn requests_below(forest: Seq<Tree>) -> Seq<Step>
    decreases forest,
{
    if forest.len() == 0 {
        Seq::empty()
    } else {
        requests_of(forest.first()) + requests_below(forest.drop_first())
    }
}

/// What a walk over `tree` asks of its driver, in pre-order: to scan it if
/// it is a file that is not empty, to list it and then to visit what is
/// below it if it is a directory, and nothing otherwise.
pub open spec fn requests_of(tree: Tree) -> Seq<Step>
    decreases tree,
{
    match visit_of(tree.entry) {
        Visit::Scan => seq![Step::Scan { path: tree.entry.path, len: tree.entry.len }],
        Visit::Descend => seq![Step::List { path: tree.entry.path }] + requests_below(
            tree.children,
        ),
        Visit::Skip => Seq::empty(),
    }
}

/// What a driver that meets no failure reports to a walk over `forest`, one
/// report for each request.
pub open spec fn reports_below(forest: Seq<Tree>) -> Seq<Outcome>
    decreases forest,
{
    if forest.len() == 0 {
        Seq::empty()
    } else {
        reports_of(forest.first()) + reports_below(forest.drop_first())
    }
}

/// What a driver that meets no failure reports to a walk over `tree`.
pub open spec fn reports_of(tree: Tree) -> Seq<Outcome>
    decreases tree,
{
    match visit_of(tree.entry) {
        Visit::Scan => seq![Outcome::Scanned],
        Visit::Descend => seq![Outcome::Listed(roots(tree.children))] + reports_below(
            tree.children,
        ),
        Visit::Skip => Seq::empty(),
    }
}

/// The actions that a walk gives in answer to a run of outcomes.
pub open spec fn actions(state: WalkState, outcomes: Seq<Outcome>) -> Seq<Step> {
    Seq::new(outcomes.len(), |i: int| action_at(state, outcomes, i))
}

/// A run of one outcome is one step.
proof fn lemma_single_outcome(state: WalkState, outcome: Outcome)
    ensures
        state_after(state, seq![outcome]) == step(state, outcome).0,
        actions(state, seq![outcome]) == seq![step(state, outcome).1],
{
    let run = seq![outcome];
    assert(run.drop_last() =~= Seq::<Outcome>::empty());
    assert(state_after(state, run.drop_last()) == state);
    assert(run.take(0) =~= Seq::<Outcome>::empty());
    assert(state_after(state, run.take(0)) == state);
    assert(actions(state, run) =~= seq![step(state, outcome).1]);
}

/// The state after two runs of outcomes is the state after the second,
/// begun where the first ended.
proof fn lemma_state_after_concat(state: WalkState, first: Seq<Outcome>, second: Seq<Outcome>)
    ensures
        state_after(state, first + second) == state_after(state_after(state, first), second),
    decreases second.len(),
{
    if second.len() == 0 {
        assert(first + second =~= first);
    } else {
        lemma_state_after_concat(state, first, second.drop_last());
        assert((first + second).drop_last() =~= first + second.drop_last());
    }
}

/// The actions in answer to two runs of outcomes are those of the first,
/// then those of the second, begun where the first ended.
proof fn lemma_actions_concat(state: WalkState, first: Seq<Outcome>, second: Seq<Outcome>)
    ensures
        actions(state, first + second) == actions(state, first) + actions(
            state_after(state, first),
            second,
        ),
{
    let both = first + second;
    let middle = state_after(state, first);
    assert forall|i: int| 0 <= i < both.len() implies actions(state, both)[i] == (actions(
        state,
        first,
    ) + actions(middle, second))[i] by {
        if i < first.len() {
            assert(both.take(i) =~= first.take(i));
        } else {
            let k = i - first.len();
            assert(both.take(i) =~= first + second.take(k));
            lemma_state_after_concat(state, first, second.take(k));
        }
    }
    assert(actions(state, both) =~= actions(state, first) + actions(middle, second));
}

/// The walk over a forest that stands in front of other waiting entries:
/// begun with the action that visiting the waiting entries gave, it asks for
/// the forest in pre-order, and ends where visiting the other entries
/// begins.
proof fn lemma_forest_in_preorder(forest: Seq<Tree>, waiting: Seq<Entry>)
    ensures
        seq![advance(roots(forest) + waiting).1] + actions(
            advance(roots(forest) + waiting).0,
            reports_below(forest),
        ) == requests_below(forest).push(advance(waiting).1),
        state_after(advance(roots(forest) + waiting).0, reports_below(forest)) == advance(
            waiting,
        ).0,
    decreases forest,
{
    let queue = roots(forest) + waiting;
    let (state, action) = advance(queue);
    if forest.len() == 0 {
        assert(queue =~= waiting);
        assert(seq![action] + actions(state, reports_below(forest)) =~= requests_below(
            forest,
        ).push(advance(waiting).1));
    } else {
        let tree = forest.first();
        let others = forest.drop_first();
        assert(queue.first() == tree.entry);
        assert(queue.drop_first() =~= roots(others) + waiting);
        lemma_forest_in_preorder(others, waiting);
        match visit_of(tree.entry) {
            Visit::Skip => {
                assert(reports_of(tree) =~= Seq::<Outcome>::empty());
                assert(requests_of(tree) =~= Seq::<Step>::empty());
                assert(reports_below(forest) =~= reports_below(others));
                assert(requests_below(forest) =~= requests_below(others));
            },
            Visit::Scan => {
                let report = seq![Outcome::Scanned];
                let next = advance(roots(others) + waiting);
                let rest = reports_below(others);
                let end = advance(waiting).1;
                assert(step(state, Outcome::Scanned) == next);
                lemma_single_outcome(state, Outcome::Scanned);
                assert(reports_of(tree) =~= report);
                assert(requests_of(tree) =~= seq![action]);
                assert(reports_below(forest) =~= report + rest);
                lemma_actions_concat(state, report, rest);
                lemma_state_after_concat(state, report, rest);
                assert(actions(state, report + rest) =~= seq![next.1] + actions(next.0, rest));
                assert(seq![next.1] + actions(next.0, rest) == requests_below(others).push(end));
                assert(seq![action] + actions(state, report + rest) =~= (seq![action]
                    + requests_below(others)).push(end));
            },
            Visit::Descend => {
                let below = tree.children;
                let behind = roots(others) + waiting;
                let report = seq![Outcome::Listed(roots(below))];
                let next = advance(roots(below) + behind);
                let middle = advance(behind);
                let inner = reports_below(below);
                let rest = reports_below(others);
                let end = advance(waiting).1;
                lemma_forest_in_preorder(below, behind);
                assert(step(state, Outcome::Listed(roots(below))) == next);
                lemma_single_outcome(state, Outcome::Listed(roots(below)));
                assert(reports_of(tree) =~= report + inner);
                assert(requests_of(tree) =~= seq![action] + requests_below(below));
                assert(reports_below(forest) =~= (report + inner) + rest);
                lemma_actions_concat(state, report, inner);
                lemma_state_after_concat(state, report, inner);
                lemma_actions_concat(state, report + inner, rest);
                lemma_state_after_concat(state, report + inner, rest);
                assert(actions(state, report + inner) =~= seq![next.1] + actions(next.0, inner));
                assert(seq![next.1] + actions(next.0, inner) == requests_below(below).push(
                    middle.1,
                ));
                assert(state_after(state, report + inner) == middle.0);
                assert(seq![middle.1] + actions(middle.0, rest) == requests_below(others).push(
                    end,
                ));
                assert(actions(state, (report + inner) + rest) =~= requests_below(below) + (
                seq![middle.1] + actions(middle.0, rest)));
                assert(seq![action] + actions(state, (report + inner) + rest) =~= ((seq![action]
                    + requests_below(below)) + requests_below(others)).push(end));
            },
        }
    }
}

/// A walk is depth first and in pre-order, and it is complete: told the
/// listing of the directory it starts from, and of each directory it asks
/// for, it asks for every directory and every file that is not empty below
/// its start, in pre-order, then says that it is finished, and is done.
pub proof fn lemma_walk_is_depth_first(forest: Seq<Tree>)
    ensures
        actions(
            WalkState { phase: Phase::Listing, queue: Seq::empty() },
            seq![Outcome::Listed(roots(forest))] + reports_below(forest),
        ) == requests_below(forest).push(Step::Finish),
        state_after(
            WalkState { phase: Phase::Listing, queue: Seq::empty() },
            seq![Outcome::Listed(roots(forest))] + reports_below(forest),
        ).phase is Done,
{
    let start = WalkState { phase: Phase::Listing, queue: Seq::empty() };
    let nothing = Seq::<Entry>::empty();
    let listing = seq![Outcome::Listed(roots(forest))];
    let next = advance(roots(forest) + nothing);
    lemma_forest_in_preorder(forest, nothing);
    assert(step(start, Outcome::Listed(roots(forest))) == next);
    lemma_single_outcome(start, Outcome::Listed(roots(forest)));
    lemma_actions_concat(start, listing, reports_below(forest));
    lemma_state_after_concat(start, listing, reports_below(forest));
}

} // verus!
