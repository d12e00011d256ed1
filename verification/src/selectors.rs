//! The selector algorithms: what a sequence, a fallback, a score selector and
//! a repeat decide when they are run and when a child reports.

use vstd::prelude::*;
use crate::node::Node;
use crate::node::RunResult;
use crate::score::Score;
use crate::tree::RepeatPolicy;
use crate::tree::Tree;

verus! {

/// What a handler asks the engine to do next.
#[derive(Clone, Copy, Debug, PartialEq, Eq, Hash, Structural)]
pub enum Decision {
    /// Nothing: the event was not for this handler.
    Idle,
    /// Trigger `Run` on this child.
    Run(Node),
    /// Trigger this result as the node's own.
    Report(RunResult),
}

/// The result that ends a sequence at once.
pub open spec fn sequence_until() -> RunResult {
    RunResult::Failure
}

/// The result that ends a fallback at once.
pub open spec fn fallback_until() -> RunResult {
    RunResult::Success
}

/// What a flow over `children` decides when it is run: it runs its first
/// child, or, without children, reports the opposite of `until`.
pub open spec fn flow_on_run_spec(children: Seq<Node>, until: RunResult) -> Decision {
    if children.len() == 0 {
        Decision::Report(until.spec_flip())
    } else {
        Decision::Run(children[0])
    }
}

/// What a flow over `children` decides when `child` reports `result`: the
/// result `until` ends the flow with `until`; the other result moves on to
/// the next sibling, or ends the flow with the opposite of `until` after the
/// last one. A report from a node that is no child is ignored.
pub open spec fn flow_on_child_result_spec(
    children: Seq<Node>,
    child: Node,
    result: RunResult,
    until: RunResult,
) -> Decision {
    match children.index_of_first(child) {
        None => Decision::Idle,
        Some(i) => if result == until {
            Decision::Report(until)
        } else if i + 1 < children.len() {
            Decision::Run(children[i + 1])
        } else {
            Decision::Report(until.spec_flip())
        },
    }
}

/// The place of `child` among `children`, if it is one of them.
pub fn position(children: &Vec<Node>, child: Node) -> (at: Option<usize>)
    ensures
        match at {
            Some(i) => i < children@.len() && children@.index_of_first(child) == Some(i as int),
            None => children@.index_of_first(child) == None::<int>,
        },
{
    let mut i: usize = 0;
    while i < children.len()
        invariant
            i <= children@.len(),
            forall|j: int| 0 <= j < i ==> children@[j] != child,
        decreases children@.len() - i,
    {
        if children[i] == child {
            proof {
                assert(children@[i as int] == child);
                assert(children@.contains(child));
                children@.index_of_first_ensures(child);
            }
            return Some(i);
        }
        i = i + 1;
    }
    proof {
        children@.index_of_first_ensures(child);
    }
    None
}

/// The decision of a sequence (`until` is `Failure`) or of a fallback
/// (`until` is `Success`) that is run.
pub fn flow_on_run(children: &Vec<Node>, until: RunResult) -> (d: Decision)
    ensures
        d == flow_on_run_spec(children@, until),
{
    if children.len() == 0 {
        Decision::Report(until.flip())
    } else {
        Decision::Run(children[0])
    }
}

/// The decision of a sequence (`until` is `Failure`) or of a fallback
/// (`until` is `Success`) whose `child` has reported `result`.
pub fn flow_on_child_result(
    children: &Vec<Node>,
    child: Node,
    result: RunResult,
    until: RunResult,
) -> (d: Decision)
    ensures
        d == flow_on_child_result_spec(children@, child, result, until),
{
    match position(children, child) {
        None => Decision::Idle,
        Some(i) => {
            let n: usize = children.len();
            if result == until {
                Decision::Report(until)
            } else if i + 1 < n {
                Decision::Run(children[i + 1])
            } else {
                Decision::Report(until.flip())
            }
        },
    }
}

/// The report of a flow, and the children it has run in order, once child
/// `i` has been run, when each child `k` that is run reports `results[k]`.
pub open spec fn flow_after(
    children: Seq<Node>,
    results: Seq<RunResult>,
    until: RunResult,
    i: int,
) -> (RunResult, Seq<Node>)
    decreases children.len() - i,
{
    if 0 <= i < children.len() {
        match flow_on_child_result_spec(children, children[i], results[i], until) {
            Decision::Report(r) => (r, seq![children[i]]),
            Decision::Run(next) => {
                let rest = flow_after(children, results, until, i + 1);
                (rest.0, seq![children[i]] + rest.1)
            },
            Decision::Idle => (until.spec_flip(), seq![children[i]]),
        }
    } else {
        (until.spec_flip(), Seq::empty())
    }
}

/// The report of a flow that is run, and the children it runs in order, when
/// each child `k` that is run reports `results[k]`.
pub open spec fn flow_outcome(children: Seq<Node>, results: Seq<RunResult>, until: RunResult) -> (
    RunResult,
    Seq<Node>,
) {
    match flow_on_run_spec(children, until) {
        Decision::Run(first) => flow_after(children, results, until, 0),
        Decision::Report(r) => (r, Seq::empty()),
        Decision::Idle => (until.spec_flip(), Seq::empty()),
    }
}

/// When a child that is not the last reports the result that lets the flow
/// go on, the flow runs the sibling that follows it.
pub proof fn lemma_flow_runs_next_sibling(
    children: Seq<Node>,
    i: int,
    result: RunResult,
    until: RunResult,
)
    requires
        children.no_duplicates(),
        0 <= i < children.len(),
    ensures
        children.index_of_first(children[i]) == Some(i),
        flow_on_child_result_spec(children, children[i], result, until) == if result == until {
            Decision::Report(until)
        } else if i + 1 < children.len() {
            Decision::Run(children[i + 1])
        } else {
            Decision::Report(until.spec_flip())
        },
{
    children.index_of_first_ensures(children[i]);
}

proof fn lemma_flow_after(
    children: Seq<Node>,
    results: Seq<RunResult>,
    until: RunResult,
    i: int,
)
    requires
        children.no_duplicates(),
        results.len() == children.len(),
        0 <= i < children.len(),
        forall|j: int| 0 <= j < i ==> results[j] != until,
    ensures
        match results.index_of_first(until) {
            Some(k) => i <= k && flow_after(children, results, until, i) == (
                until,
                children.subrange(i, k + 1),
            ),
            None => flow_after(children, results, until, i) == (
                until.spec_flip(),
                children.subrange(i, children.len() as int),
            ),
        },
    decreases children.len() - i,
{
    results.index_of_first_ensures(until);
    lemma_flow_runs_next_sibling(children, i, results[i], until);
    if results[i] == until {
        assert(results.index_of_first(until) == Some(i));
        assert(children.subrange(i, i + 1) =~= seq![children[i]]);
    } else if i + 1 < children.len() {
        lemma_flow_after(children, results, until, i + 1);
        match results.index_of_first(until) {
            Some(k) => {
                assert(children.subrange(i, k + 1) =~= seq![children[i]] + children.subrange(
                    i + 1,
                    k + 1,
                ));
            },
            None => {
                assert(children.subrange(i, children.len() as int) =~= seq![children[i]]
                    + children.subrange(i + 1, children.len() as int));
            },
        }
    } else {
        assert(results.index_of_first(until) == None::<int>);
        assert(children.subrange(i, children.len() as int) =~= seq![children[i]]);
    }
}

/// A flow runs its children in sibling order up to and including the first
/// that reports `until`, and then reports `until`; the children after that
/// one are never run. Where no child reports `until`, it runs them all and
/// reports the opposite.
pub proof fn law_flow_outcome(children: Seq<Node>, results: Seq<RunResult>, until: RunResult)
    requires
        children.no_duplicates(),
        results.len() == children.len(),
    ensures
        match results.index_of_first(until) {
            Some(k) => 0 <= k < children.len() && flow_outcome(children, results, until) == (
                until,
                children.subrange(0, k + 1),
            ),
            None => flow_outcome(children, results, until) == (until.spec_flip(), children),
        },
{
    results.index_of_first_ensures(until);
    if children.len() == 0 {
        assert(children =~= Seq::empty());
    } else {
        lemma_flow_after(children, results, until, 0);
        assert(children.subrange(0, children.len() as int) =~= children);
    }
}

/// A sequence succeeds if and only if every child succeeds; a sequence
/// without children succeeds.
pub proof fn law_sequence_succeeds_iff_all_succeed(children: Seq<Node>, results: Seq<RunResult>)
    requires
        children.no_duplicates(),
        results.len() == children.len(),
    ensures
        flow_outcome(children, results, sequence_until()).0 == RunResult::Success <==> (forall|
            i: int,
        |
            0 <= i < results.len() ==> results[i] == RunResult::Success),
{
    law_flow_outcome(children, results, sequence_until());
    results.index_of_first_ensures(sequence_until());
    if results.index_of_first(sequence_until()) is None {
        assert forall|i: int| 0 <= i < results.len() implies results[i] == RunResult::Success by {
            assert(results.contains(results[i]));
        }
    }
}

/// A fallback fails if and only if every child fails; a fallback without
/// children fails.
pub proof fn law_fallback_fails_iff_all_fail(children: Seq<Node>, results: Seq<RunResult>)
    requires
        children.no_duplicates(),
        results.len() == children.len(),
    ensures
        flow_outcome(children, results, fallback_until()).0 == RunResult::Failure <==> (forall|
            i: int,
        |
            0 <= i < results.len() ==> results[i] == RunResult::Failure),
{
    law_flow_outcome(children, results, fallback_until());
    results.index_of_first_ensures(fallback_until());
    if results.index_of_first(fallback_until()) is None {
        assert forall|i: int| 0 <= i < results.len() implies results[i] == RunResult::Failure by {
            assert(results.contains(results[i]));
        }
    }
}

/// The place of the score that a selection picks among `scores`: the first
/// of the highest, unless every score is `Fail`.
pub open spec fn winner(scores: Seq<Score>) -> Option<int>
    decreases scores.len(),
{
    if scores.len() == 0 {
        None
    } else {
        let last = scores.last();
        match winner(scores.drop_last()) {
            Some(i) => if last.rank() > scores[i].rank() {
                Some(scores.len() - 1)
            } else {
                Some(i)
            },
            None => if last == Score::Fail {
                None
            } else {
                Some(scores.len() - 1)
            },
        }
    }
}

/// The winner is no `Fail`, no score is higher, and every score before it is
/// strictly lower; there is none exactly where every score is `Fail`.
pub proof fn law_winner_is_first_maximum(scores: Seq<Score>)
    ensures
        match winner(scores) {
            Some(w) => {
                &&& 0 <= w < scores.len()
                &&& scores[w] != Score::Fail
                &&& forall|j: int| 0 <= j < scores.len() ==> scores[j].rank() <= scores[w].rank()
                &&& forall|j: int| 0 <= j < w ==> scores[j].rank() < scores[w].rank()
            },
            None => forall|j: int| 0 <= j < scores.len() ==> scores[j] == Score::Fail,
        },
    decreases scores.len(),
{
    if scores.len() > 0 {
        let front = scores.drop_last();
        law_winner_is_first_maximum(front);
        assert forall|j: int| 0 <= j < front.len() implies front[j] == scores[j] by {}
        match winner(front) {
            Some(i) => {
                assert(front[i] == scores[i]);
            },
            None => {},
        }
    }
}

/// Picks the first of the highest scores.
pub fn highest_score(scores: &Vec<Score>) -> (w: Option<usize>)
    ensures
        match w {
            Some(i) => winner(scores@) == Some(i as int),
            None => winner(scores@) == None::<int>,
        },
{
    let mut best: Option<usize> = None;
    let mut i: usize = 0;
    while i < scores.len()
        invariant
            i <= scores@.len(),
            match best {
                Some(b) => b < i && winner(scores@.subrange(0, i as int)) == Some(b as int),
                None => winner(scores@.subrange(0, i as int)) == None::<int>,
            },
        decreases scores@.len() - i,
    {
        proof {
            assert(scores@.subrange(0, i + 1).drop_last() == scores@.subrange(0, i as int));
        }
        let s = scores[i];
        match best {
            Some(b) => {
                if s.beats(scores[b]) {
                    best = Some(i);
                }
            },
            None => {
                if !s.is_fail() {
                    best = Some(i);
                }
            },
        }
        i = i + 1;
    }
    proof {
        assert(scores@.subrange(0, i as int) == scores@);
    }
    best
}

/// The scores of `children`, in sibling order; a child without a score
/// record counts as `Fail`.
pub open spec fn child_scores(tree: &Tree, children: Seq<Node>) -> Seq<Score> {
    Seq::new(
        children.len(),
        |k: int|
            match tree.records_of(children[k]).score {
                Some(s) => s,
                None => Score::Fail,
            },
    )
}

/// What a score selector decides when it is run: it runs the child that
/// wins the selection, or reports `Failure` where no child is eligible.
pub open spec fn score_on_run_spec(tree: &Tree, children: Seq<Node>) -> Decision {
    match winner(child_scores(tree, children)) {
        Some(w) => Decision::Run(children[w]),
        None => Decision::Report(RunResult::Failure),
    }
}

/// Collects the scores of `children` and decides which of them to run.
pub fn score_on_run(tree: &Tree, children: &Vec<Node>) -> (d: Decision)
    requires
        forall|k: int| 0 <= k < children@.len() ==> tree.contains(#[trigger] children@[k]),
    ensures
        d == score_on_run_spec(tree, children@),
{
    let mut scores: Vec<Score> = Vec::new();
    let mut k: usize = 0;
    while k < children.len()
        invariant
            k <= children@.len(),
            forall|j: int| 0 <= j < children@.len() ==> tree.contains(#[trigger] children@[j]),
            scores@ == child_scores(tree, children@).subrange(0, k as int),
        decreases children@.len() - k,
    {
        let s = match tree.records(children[k]).score {
            Some(s) => s,
            None => Score::Fail,
        };
        scores.push(s);
        proof {
            assert(scores@ =~= child_scores(tree, children@).subrange(0, k + 1));
        }
        k = k + 1;
    }
    proof {
        assert(scores@ =~= child_scores(tree, children@));
        law_winner_is_first_maximum(scores@);
    }
    match highest_score(&scores) {
        Some(w) => Decision::Run(children[w]),
        None => Decision::Report(RunResult::Failure),
    }
}

/// What a score selector decides when `child` reports `result`: the result
/// of a child becomes its own.
pub open spec fn score_on_child_result_spec(
    children: Seq<Node>,
    child: Node,
    result: RunResult,
) -> Decision {
    if children.contains(child) {
        Decision::Report(result)
    } else {
        Decision::Idle
    }
}

pub fn score_on_child_result(children: &Vec<Node>, child: Node, result: RunResult) -> (d: Decision)
    ensures
        d == score_on_child_result_spec(children@, child, result),
{
    proof {
        children@.index_of_first_ensures(child);
    }
    match position(children, child) {
        Some(_) => Decision::Report(result),
        None => Decision::Idle,
    }
}

/// Whether a repeating node runs its child once more after `result`: the
/// policy asks for it and fewer than `max` repeats were made in this run.
pub open spec fn repeats_again(
    policy: RepeatPolicy,
    max: Option<u32>,
    repeats: u32,
    result: RunResult,
) -> bool {
    &&& match policy {
        RepeatPolicy::Always => true,
        RepeatPolicy::OnSuccess => result == RunResult::Success,
        RepeatPolicy::OnFailure => result == RunResult::Failure,
    }
    &&& match max {
        Some(m) => repeats < m,
        None => true,
    }
}

/// What a repeating node decides when it is run: it runs its first child. A
/// repeating node without a child has nothing to repeat and fails.
pub open spec fn repeat_on_run_spec(children: Seq<Node>) -> Decision {
    if children.len() == 0 {
        Decision::Report(RunResult::Failure)
    } else {
        Decision::Run(children[0])
    }
}

pub fn repeat_on_run(children: &Vec<Node>) -> (d: Decision)
    ensures
        d == repeat_on_run_spec(children@),
{
    if children.len() == 0 {
        Decision::Report(RunResult::Failure)
    } else {
        Decision::Run(children[0])
    }
}

/// What a repeating node decides when `child` reports `result` after
/// `repeats` repeats: it runs its child again, or passes the last result on
/// as its own. Only its first child counts.
pub open spec fn repeat_on_child_result_spec(
    policy: RepeatPolicy,
    max: Option<u32>,
    repeats: u32,
    children: Seq<Node>,
    child: Node,
    result: RunResult,
) -> Decision {
    if children.len() > 0 && children[0] == child {
        if repeats_again(policy, max, repeats, result) {
            Decision::Run(child)
        } else {
            Decision::Report(result)
        }
    } else {
        Decision::Idle
    }
}

pub fn repeat_on_child_result(
    policy: RepeatPolicy,
    max: Option<u32>,
    repeats: u32,
    children: &Vec<Node>,
    child: Node,
    result: RunResult,
) -> (d: Decision)
    ensures
        d == repeat_on_child_result_spec(policy, max, repeats, children@, child, result),
{
    if children.len() > 0 && children[0] == child {
        let wanted = match policy {
            RepeatPolicy::Always => true,
            RepeatPolicy::OnSuccess => result == RunResult::Success,
            RepeatPolicy::OnFailure => result == RunResult::Failure,
        };
        let allowed = match max {
            Some(m) => repeats < m,
            None => true,
        };
        if wanted && allowed {
            Decision::Run(child)
        } else {
            Decision::Report(result)
        }
    } else {
        Decision::Idle
    }
}

} // verus!
