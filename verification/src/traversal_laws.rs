//! What holds of every run of a traversal, whatever its calls answered.
//!
//! A run is told by its log, as in the contracts of `traverse_preorder` and `traverse_postorder`.
use vstd::prelude::*;

use crate::flow::{lemma_kids_shallower, AnyFlow, FlowView};
use crate::traversal::{
    at_root, closed_at_root, joined, postorder, postorder_leads, postorder_never_deepens,
    postorder_of_kids_within, postorder_within, preorder, preorder_leads, preorder_never_deepens,
    preorder_of_kids_within, preorder_within, threaded, under, visited_in_turn, Call,
    PostorderFlowTraversal, PreorderFlowTraversal, Visit,
};

verus! {

/// The flow at `p` comes before the flow at `q` in preorder: it is an ancestor, or where the two
/// paths part it is the one to the left.
pub open spec fn before_in_preorder(p: Seq<int>, q: Seq<int>) -> bool
    decreases p.len(),
{
    if q.len() == 0 {
        false
    } else if p.len() == 0 {
        true
    } else {
        p[0] < q[0] || (p[0] == q[0] && before_in_preorder(p.drop_first(), q.drop_first()))
    }
}

/// The flow at `p` comes before the flow at `q` in postorder: it is a descendant, or where the two
/// paths part it is the one to the left.
pub open spec fn before_in_postorder(p: Seq<int>, q: Seq<int>) -> bool
    decreases p.len(),
{
    if p.len() == 0 {
        false
    } else if q.len() == 0 {
        true
    } else {
        p[0] < q[0] || (p[0] == q[0] && before_in_postorder(p.drop_first(), q.drop_first()))
    }
}

/// The flow at `q` is the one at `p` or a descendant of it.
pub open spec fn at_or_below(q: Seq<int>, p: Seq<int>) -> bool {
    p.len() <= q.len() && q.take(p.len() as int) == p
}

/// The flow at `q` is a descendant of the one at `p`.
pub open spec fn strictly_below(q: Seq<int>, p: Seq<int>) -> bool {
    at_or_below(q, p) && p.len() < q.len()
}

/// The paths of the flows on which `call` was called, in the order of the calls.
pub open spec fn called_on<T>(log: Seq<Visit<T>>, call: Call) -> Seq<Seq<int>>
    decreases log.len(),
{
    if log.len() == 0 {
        Seq::empty()
    } else if log.last().call == call {
        called_on(log.drop_last(), call).push(log.last().path)
    } else {
        called_on(log.drop_last(), call)
    }
}

/// Paths from the child of index `kid`, as seen from its parent.
pub open spec fn prefixed(kid: int, paths: Seq<Seq<int>>) -> Seq<Seq<int>> {
    Seq::new(paths.len(), |i: int| seq![kid] + paths[i])
}

/// The paths of all the flows of a tree, in preorder.
pub open spec fn preorder_paths(flow: AnyFlow) -> Seq<Seq<int>>
    decreases flow, 0nat,
{
    seq![Seq::<int>::empty()] + preorder_paths_of(flow.kids())
}

/// The paths of all the flows of the trees below some siblings, in preorder.
pub open spec fn preorder_paths_of(kids: Seq<AnyFlow>) -> Seq<Seq<int>>
    decreases kids, 1nat,
{
    if kids.len() == 0 {
        Seq::empty()
    } else {
        preorder_paths_of(kids.drop_last()) + prefixed(
            kids.len() - 1,
            preorder_paths(kids.last()),
        )
    }
}

/// The paths of all the flows of a tree, in postorder.
pub open spec fn postorder_paths(flow: AnyFlow) -> Seq<Seq<int>>
    decreases flow, 0nat,
{
    postorder_paths_of(flow.kids()) + seq![Seq::<int>::empty()]
}

/// The paths of all the flows of the trees below some siblings, in postorder.
pub open spec fn postorder_paths_of(kids: Seq<AnyFlow>) -> Seq<Seq<int>>
    decreases kids, 1nat,
{
    if kids.len() == 0 {
        Seq::empty()
    } else {
        postorder_paths_of(kids.drop_last()) + prefixed(
            kids.len() - 1,
            postorder_paths(kids.last()),
        )
    }
}

/// The flow at the end of a path.
pub open spec fn flow_at(flow: AnyFlow, path: Seq<int>) -> AnyFlow
    decreases path.len(),
{
    if path.len() == 0 {
        flow
    } else {
        flow_at(flow.kids()[path[0]], path.drop_first())
    }
}

/// The paths of the flows of a tree that are neither pruned nor below a pruned one, in preorder.
pub open spec fn kept_in_preorder(flow: AnyFlow, prunes: spec_fn(AnyFlow) -> bool) -> Seq<Seq<int>>
    decreases flow, 0nat,
{
    if prunes(flow) {
        Seq::empty()
    } else {
        seq![Seq::<int>::empty()] + kept_in_preorder_of(flow.kids(), prunes)
    }
}

/// The same for the trees below some siblings.
pub open spec fn kept_in_preorder_of(
    kids: Seq<AnyFlow>,
    prunes: spec_fn(AnyFlow) -> bool,
) -> Seq<Seq<int>>
    decreases kids, 1nat,
{
    if kids.len() == 0 {
        Seq::empty()
    } else {
        kept_in_preorder_of(kids.drop_last(), prunes) + prefixed(
            kids.len() - 1,
            kept_in_preorder(kids.last(), prunes),
        )
    }
}

/// The paths of the flows of a tree that should be processed and are neither pruned nor below a
/// pruned one, in postorder.
pub open spec fn kept_in_postorder(
    flow: AnyFlow,
    prunes: spec_fn(AnyFlow) -> bool,
    should: spec_fn(AnyFlow) -> bool,
) -> Seq<Seq<int>>
    decreases flow, 0nat,
{
    if prunes(flow) {
        Seq::empty()
    } else if should(flow) {
        kept_in_postorder_of(flow.kids(), prunes, should) + seq![Seq::<int>::empty()]
    } else {
        kept_in_postorder_of(flow.kids(), prunes, should)
    }
}

/// The same for the trees below some siblings.
pub open spec fn kept_in_postorder_of(
    kids: Seq<AnyFlow>,
    prunes: spec_fn(AnyFlow) -> bool,
    should: spec_fn(AnyFlow) -> bool,
) -> Seq<Seq<int>>
    decreases kids, 1nat,
{
    if kids.len() == 0 {
        Seq::empty()
    } else {
        kept_in_postorder_of(kids.drop_last(), prunes, should) + prefixed(
            kids.len() - 1,
            kept_in_postorder(kids.last(), prunes, should),
        )
    }
}

/// What `call` answered on a flow was decided by `decides` from that flow as it is in `flow`, the
/// tree before the run.
pub open spec fn decided_by<T>(
    flow: AnyFlow,
    log: Seq<Visit<T>>,
    call: Call,
    decides: spec_fn(AnyFlow) -> bool,
) -> bool {
    forall|i: int|
        0 <= i < log.len() && (#[trigger] log[i]).call == call ==> log[i].answer == decides(
            flow_at(flow, log[i].path),
        )
}

/// `call` left the children of the flows that it was called on as they were.
pub open spec fn keeps_kids<T>(log: Seq<Visit<T>>, call: Call) -> bool {
    forall|i: int|
        0 <= i < log.len() && (#[trigger] log[i]).call == call ==> log[i].result.kids()
            == log[i].flow.kids()
}

/// No call of `should_prune` answered true.
pub open spec fn nothing_pruned<T>(log: Seq<Visit<T>>) -> bool {
    forall|i: int|
        0 <= i < log.len() && (#[trigger] log[i]).call == Call::ShouldPrune ==> !log[i].answer
}

/// Each call of `process` answered true.
pub open spec fn never_told_to_stop<T>(log: Seq<Visit<T>>) -> bool {
    forall|i: int| 0 <= i < log.len() && (#[trigger] log[i]).call == Call::Process ==> log[i].answer
}

/// Just before the visit at `i` the method `call` was called on the same flow and answered
/// `answer`.
pub open spec fn follows<T>(log: Seq<Visit<T>>, i: int, call: Call, answer: bool) -> bool {
    &&& i > 0
    &&& log[i - 1].call == call
    &&& log[i - 1].answer == answer
    &&& log[i - 1].path == log[i].path
}

/// Just after the visit at `i` the same flow was processed.
pub open spec fn precedes_process<T>(log: Seq<Visit<T>>, i: int) -> bool {
    &&& i + 1 < log.len()
    &&& log[i + 1].call == Call::Process
    &&& log[i + 1].path == log[i].path
}

/// How a preorder log begins.
proof fn lemma_preorder_head<T>(flow: AnyFlow, log: Seq<Visit<T>>, result: AnyFlow, done: bool)
    requires
        preorder(flow, log, result, done),
    ensures
        log.len() > 0,
        at_root(log[0], Call::ShouldPrune, flow),
        log[0].answer ==> log.len() == 1 && result == log[0].result && done,
        !log[0].answer ==> log.len() > 1 && at_root(log[1], Call::Process, log[0].result),
        !log[0].answer && !log[1].answer ==> log.len() == 2 && result == log[1].result && !done,
{
    reveal(preorder);
}

/// How a postorder log begins.
proof fn lemma_postorder_head<T>(flow: AnyFlow, log: Seq<Visit<T>>, result: AnyFlow, done: bool)
    requires
        postorder(flow, log, result, done),
    ensures
        log.len() > 0,
        at_root(log[0], Call::ShouldPrune, flow),
        log[0].answer ==> log.len() == 1 && result == log[0].result && done,
{
    reveal(postorder);
}

/// The runs over the children behind a preorder log that got as far as them.
proof fn split_preorder<T>(flow: AnyFlow, log: Seq<Visit<T>>, result: AnyFlow, done: bool) -> (runs:
    Seq<Seq<Visit<T>>>)
    requires
        preorder(flow, log, result, done),
        !log[0].answer,
        log[1].answer,
    ensures
        log == seq![log[0], log[1]] + joined(runs),
        visited_in_turn(log[1].result.kids(), runs, result.kids(), done),
        result@ == log[1].result@.with_children(result.kids()),
        forall|j: int|
            0 <= j < runs.len() ==> (#[trigger] runs[j]).len() < log.len() && preorder(
                log[1].result.kids()[j],
                runs[j],
                result.kids()[j],
                done || j < runs.len() - 1,
            ),
{
    reveal(preorder);
    let runs = choose|runs: Seq<Seq<Visit<T>>>|
        {
            let kids = log[1].result.kids();
            &&& log.skip(2) == #[trigger] joined(runs)
            &&& visited_in_turn(kids, runs, result.kids(), done)
            &&& result@ == log[1].result@.with_children(result.kids())
            &&& forall|j: int|
                0 <= j < runs.len() ==> (#[trigger] runs[j]).len() < log.len() && preorder(
                    kids[j],
                    runs[j],
                    result.kids()[j],
                    done || j < runs.len() - 1,
                )
        };
    assert(log =~= seq![log[0], log[1]] + log.skip(2));
    runs
}

/// What the root was left as by a postorder run up to its children, and the runs over those.
proof fn split_postorder<T>(
    flow: AnyFlow,
    log: Seq<Visit<T>>,
    result: AnyFlow,
    done: bool,
) -> (parts: (Seq<Seq<Visit<T>>>, Seq<Visit<T>>, AnyFlow, bool))
    requires
        postorder(flow, log, result, done),
        !log[0].answer,
    ensures
        log == seq![log[0]] + joined(parts.0) + parts.1,
        visited_in_turn(log[0].result.kids(), parts.0, parts.2.kids(), parts.3),
        parts.2@ == log[0].result@.with_children(parts.2.kids()),
        forall|j: int|
            0 <= j < parts.0.len() ==> (#[trigger] parts.0[j]).len() < log.len() && postorder(
                log[0].result.kids()[j],
                parts.0[j],
                parts.2.kids()[j],
                parts.3 || j < parts.0.len() - 1,
            ),
        closed_at_root(parts.2, parts.1, parts.3, result, done),
{
    reveal(postorder);
    let (runs, rest, mid, kids_done) = choose|
        runs: Seq<Seq<Visit<T>>>,
        rest: Seq<Visit<T>>,
        mid: AnyFlow,
        kids_done: bool,
    |
        {
            let kids = log[0].result.kids();
            &&& log.skip(1) == #[trigger] joined(runs) + rest
            &&& visited_in_turn(kids, runs, mid.kids(), kids_done)
            &&& mid@ == log[0].result@.with_children(mid.kids())
            &&& forall|j: int|
                0 <= j < runs.len() ==> (#[trigger] runs[j]).len() < log.len() && postorder(
                    kids[j],
                    runs[j],
                    mid.kids()[j],
                    kids_done || j < runs.len() - 1,
                )
            &&& #[trigger] closed_at_root(mid, rest, kids_done, result, done)
        };
    assert(log =~= seq![log[0]] + log.skip(1));
    assert(seq![log[0]] + (joined(runs) + rest) =~= seq![log[0]] + joined(runs) + rest);
    (runs, rest, mid, kids_done)
}

/// Where the run over the child of index `j` starts among the runs joined.
spec fn start<T>(runs: Seq<Seq<Visit<T>>>, j: int) -> int {
    joined(runs.take(j)).len() as int
}

/// A visit among the runs joined is one of the run over some child.
proof fn find_run<T>(runs: Seq<Seq<Visit<T>>>, k: int) -> (at: (int, int))
    requires
        0 <= k < joined(runs).len(),
    ensures
        0 <= at.0 < runs.len(),
        0 <= at.1 < runs[at.0].len(),
        joined(runs)[k] == (Visit {
            path: seq![at.0] + runs[at.0][at.1].path,
            ..runs[at.0][at.1]
        }),
        k == start(runs, at.0) + at.1,
        k == joined(runs).len() - 1 && at.0 == runs.len() - 1 ==> at.1 == runs[at.0].len() - 1,
        at.0 == runs.len() - 1 && at.1 == runs[at.0].len() - 1 ==> k == joined(runs).len() - 1,
    decreases runs.len(),
{
    let front = joined(runs.drop_last());
    assert(runs.drop_last() =~= runs.take(runs.len() - 1));
    if k < front.len() {
        let at = find_run(runs.drop_last(), k);
        assert(runs.drop_last().take(at.0) =~= runs.take(at.0));
        at
    } else {
        (runs.len() - 1, k - front.len())
    }
}

/// Where a visit of the run over a child is among the runs joined.
proof fn lemma_in_run<T>(runs: Seq<Seq<Visit<T>>>, j: int, m: int)
    requires
        0 <= j < runs.len(),
        0 <= m < runs[j].len(),
    ensures
        0 <= start(runs, j) + m < joined(runs).len(),
        joined(runs)[start(runs, j) + m] == under(j, runs[j])[m],
    decreases runs.len(),
{
    assert(runs.drop_last() =~= runs.take(runs.len() - 1));
    if j < runs.len() - 1 {
        lemma_in_run(runs.drop_last(), j, m);
        assert(runs.drop_last().take(j) =~= runs.take(j));
    }
}

/// The runs start one behind the other.
proof fn lemma_starts_ordered<T>(runs: Seq<Seq<Visit<T>>>, i: int, j: int)
    requires
        0 <= i < j <= runs.len(),
    ensures
        start(runs, i) + runs[i].len() <= start(runs, j),
    decreases j,
{
    assert(runs.take(j).drop_last() =~= runs.take(j - 1));
    assert(runs.take(j).last() == runs[j - 1]);
    if i < j - 1 {
        lemma_starts_ordered(runs, i, j - 1);
    }
}

/// A preorder run ends where the flows can be ranked so that `should_prune` does not raise the rank
/// of a flow that it does not prune, and the children that `process` leaves rank below what their
/// parent was. It goes no further down than the rank of the root.
pub proof fn law_preorder_ends_by_rank<T: PreorderFlowTraversal>(
    rank: spec_fn(AnyFlow) -> nat,
    levels: nat,
    before: T,
    flow: AnyFlow,
)
    requires
        rank(flow) <= levels,
        forall|v: Visit<T>| #[trigger]
            T::may_do(v) && v.call == Call::ShouldPrune && !v.answer ==> rank(v.result) <= rank(
                v.flow,
            ),
        forall|v: Visit<T>, j: int|
            #![trigger T::may_do(v), v.result.kids()[j]]
            T::may_do(v) && v.call == Call::Process && v.answer && 0 <= j < v.result.kids().len()
                ==> rank(v.result.kids()[j]) < rank(v.flow),
    ensures
        preorder_within(levels, before, flow),
    decreases levels, 1nat, 0nat,
{
    assert forall|asked: Visit<T>, processed: Visit<T>|
        {
            &&& #[trigger] T::may_do(asked)
            &&& at_root(asked, Call::ShouldPrune, flow) && asked.before == before && !asked.answer
            &&& #[trigger] T::may_do(processed)
            &&& at_root(processed, Call::Process, asked.result) && processed.before == asked.after
                && processed.answer
        } implies preorder_of_kids_within(levels, processed.after, processed.result.kids()) by {
        lemma_preorder_of_ranked_kids_within(
            rank,
            levels,
            processed.after,
            processed.result.kids(),
        );
    }
}

/// Preorder runs over ranked trees come by fewer levels of them than a rank above theirs.
proof fn lemma_preorder_of_ranked_kids_within<T: PreorderFlowTraversal>(
    rank: spec_fn(AnyFlow) -> nat,
    levels: nat,
    before: T,
    kids: Seq<AnyFlow>,
)
    requires
        forall|j: int| 0 <= j < kids.len() ==> rank(#[trigger] kids[j]) < levels,
        forall|v: Visit<T>| #[trigger]
            T::may_do(v) && v.call == Call::ShouldPrune && !v.answer ==> rank(v.result) <= rank(
                v.flow,
            ),
        forall|v: Visit<T>, j: int|
            #![trigger T::may_do(v), v.result.kids()[j]]
            T::may_do(v) && v.call == Call::Process && v.answer && 0 <= j < v.result.kids().len()
                ==> rank(v.result.kids()[j]) < rank(v.flow),
    ensures
        preorder_of_kids_within(levels, before, kids),
    decreases levels, 0nat, kids.len(),
{
    if kids.len() > 0 {
        assert(rank(kids[0]) < levels);
        law_preorder_ends_by_rank(rank, (levels - 1) as nat, before, kids[0]);
        assert forall|after: T| #[trigger]
            preorder_leads(before, kids[0], after) implies preorder_of_kids_within(
            levels,
            after,
            kids.skip(1),
        ) by {
            lemma_preorder_of_ranked_kids_within(rank, levels, after, kids.skip(1));
        }
    }
}

/// A preorder run ends where no call makes the tree deeper.
pub proof fn law_preorder_ends_by_depth<T: PreorderFlowTraversal>(before: T, flow: AnyFlow)
    requires
        preorder_never_deepens::<T>(),
    ensures
        preorder_within(flow.depth(), before, flow),
{
    let rank = |flow: AnyFlow| flow.depth();
    assert forall|v: Visit<T>, j: int|
        #![trigger T::may_do(v), v.result.kids()[j]]
        T::may_do(v) && v.call == Call::Process && 0 <= j < v.result.kids().len() implies rank(
        v.result.kids()[j],
    ) < rank(v.flow) by {
        lemma_kids_shallower(v.result);
    }
    law_preorder_ends_by_rank(rank, flow.depth(), before, flow);
}

/// A postorder run ends where the flows can be ranked so that the children that `should_prune`
/// leaves to a flow that it does not prune rank below what their parent was. It goes no further
/// down than the rank of the root.
pub proof fn law_postorder_ends_by_rank<T: PostorderFlowTraversal>(
    rank: spec_fn(AnyFlow) -> nat,
    levels: nat,
    before: T,
    flow: AnyFlow,
)
    requires
        rank(flow) <= levels,
        forall|v: Visit<T>, j: int|
            #![trigger T::may_do(v), v.result.kids()[j]]
            T::may_do(v) && v.call == Call::ShouldPrune && !v.answer && 0 <= j
                < v.result.kids().len() ==> rank(v.result.kids()[j]) < rank(v.flow),
    ensures
        postorder_within(levels, before, flow),
    decreases levels, 1nat, 0nat,
{
    assert forall|asked: Visit<T>|
        {
            &&& #[trigger] T::may_do(asked)
            &&& at_root(asked, Call::ShouldPrune, flow) && asked.before == before && !asked.answer
        } implies postorder_of_kids_within(levels, asked.after, asked.result.kids()) by {
        lemma_postorder_of_ranked_kids_within(rank, levels, asked.after, asked.result.kids());
    }
}

/// Postorder runs over ranked trees come by fewer levels of them than a rank above theirs.
proof fn lemma_postorder_of_ranked_kids_within<T: PostorderFlowTraversal>(
    rank: spec_fn(AnyFlow) -> nat,
    levels: nat,
    before: T,
    kids: Seq<AnyFlow>,
)
    requires
        forall|j: int| 0 <= j < kids.len() ==> rank(#[trigger] kids[j]) < levels,
        forall|v: Visit<T>, j: int|
            #![trigger T::may_do(v), v.result.kids()[j]]
            T::may_do(v) && v.call == Call::ShouldPrune && !v.answer && 0 <= j
                < v.result.kids().len() ==> rank(v.result.kids()[j]) < rank(v.flow),
    ensures
        postorder_of_kids_within(levels, before, kids),
    decreases levels, 0nat, kids.len(),
{
    if kids.len() > 0 {
        assert(rank(kids[0]) < levels);
        law_postorder_ends_by_rank(rank, (levels - 1) as nat, before, kids[0]);
        assert forall|after: T| #[trigger]
            postorder_leads(before, kids[0], after) implies postorder_of_kids_within(
            levels,
            after,
            kids.skip(1),
        ) by {
            lemma_postorder_of_ranked_kids_within(rank, levels, after, kids.skip(1));
        }
    }
}

/// A postorder run ends where no call of `should_prune` makes the tree deeper.
pub proof fn law_postorder_ends_by_depth<T: PostorderFlowTraversal>(before: T, flow: AnyFlow)
    requires
        postorder_never_deepens::<T>(),
    ensures
        postorder_within(flow.depth(), before, flow),
{
    let rank = |flow: AnyFlow| flow.depth();
    assert forall|v: Visit<T>, j: int|
        #![trigger T::may_do(v), v.result.kids()[j]]
        T::may_do(v) && v.call == Call::ShouldPrune && 0 <= j < v.result.kids().len() implies rank(
        v.result.kids()[j],
    ) < rank(v.flow) by {
        lemma_kids_shallower(v.result);
    }
    law_postorder_ends_by_rank(rank, flow.depth(), before, flow);
}

/// A preorder run returns true exactly where each call of `process` answered true, and a call of
/// `process` that answered false is the last call that is made.
pub proof fn law_preorder_stops<T>(flow: AnyFlow, log: Seq<Visit<T>>, result: AnyFlow, done: bool)
    requires
        preorder(flow, log, result, done),
    ensures
        done <==> never_told_to_stop(log),
        forall|i: int|
            0 <= i < log.len() && (#[trigger] log[i]).call == Call::Process && !log[i].answer ==> i
                == log.len() - 1,
    decreases log.len(),
{
    lemma_preorder_head(flow, log, result, done);
    if !log[0].answer && log[1].answer {
        let runs = split_preorder(flow, log, result, done);
        let kids = log[1].result.kids();
        assert forall|j: int| 0 <= j < runs.len() implies (done || j < runs.len() - 1)
            <==> never_told_to_stop(#[trigger] runs[j]) by {
            law_preorder_stops(kids[j], runs[j], result.kids()[j], done || j < runs.len() - 1);
        }
        assert forall|i: int|
            0 <= i < log.len() && (#[trigger] log[i]).call == Call::Process
                && !log[i].answer implies i == log.len() - 1 && !done by {
            let (j, m) = find_run(runs, i - 2);
            law_preorder_stops(kids[j], runs[j], result.kids()[j], done || j < runs.len() - 1);
            assert(runs[j][m].call == Call::Process && !runs[j][m].answer);
        }
        if !done {
            let j = runs.len() - 1;
            assert(!never_told_to_stop(runs[j]));
            let m = choose|m: int|
                0 <= m < runs[j].len() && (#[trigger] runs[j][m]).call == Call::Process
                    && !runs[j][m].answer;
            lemma_in_run(runs, j, m);
            assert(log[2 + start(runs, j) + m] == under(j, runs[j])[m]);
        }
    } else if !log[0].answer {
        assert(!never_told_to_stop(log));
    }
}

/// A postorder run returns true exactly where each call of `process` answered true, and a call of
/// `process` that answered false is the last call that is made.
pub proof fn law_postorder_stops<T>(flow: AnyFlow, log: Seq<Visit<T>>, result: AnyFlow, done: bool)
    requires
        postorder(flow, log, result, done),
    ensures
        done <==> never_told_to_stop(log),
        forall|i: int|
            0 <= i < log.len() && (#[trigger] log[i]).call == Call::Process && !log[i].answer ==> i
                == log.len() - 1,
    decreases log.len(),
{
    lemma_postorder_head(flow, log, result, done);
    if !log[0].answer {
        let (runs, rest, mid, kids_done) = split_postorder(flow, log, result, done);
        let kids = log[0].result.kids();
        let len: int = joined(runs).len() as int;
        assert forall|j: int| 0 <= j < runs.len() implies (kids_done || j < runs.len() - 1)
            <==> never_told_to_stop(#[trigger] runs[j]) by {
            law_postorder_stops(kids[j], runs[j], mid.kids()[j], kids_done || j < runs.len() - 1);
        }
        assert forall|i: int| 1 + len <= i < log.len() implies #[trigger] log[i] == rest[i - 1
            - len] by {}
        assert forall|i: int|
            0 <= i < log.len() && (#[trigger] log[i]).call == Call::Process
                && !log[i].answer implies i == log.len() - 1 && !done by {
            if i < 1 + len {
                let (j, m) = find_run(runs, i - 1);
                law_postorder_stops(
                    kids[j],
                    runs[j],
                    mid.kids()[j],
                    kids_done || j < runs.len() - 1,
                );
                assert(runs[j][m].call == Call::Process && !runs[j][m].answer);
            }
        }
        if !done {
            if !kids_done {
                let j = runs.len() - 1;
                assert(!never_told_to_stop(runs[j]));
                let m = choose|m: int|
                    0 <= m < runs[j].len() && (#[trigger] runs[j][m]).call == Call::Process
                        && !runs[j][m].answer;
                lemma_in_run(runs, j, m);
                assert(log[1 + start(runs, j) + m] == under(j, runs[j])[m]);
            } else {
                assert(log[1 + len + 1] == rest[1]);
            }
        }
    }
}

/// In a preorder run `process` is called on a flow exactly where `should_prune` was called on it
/// just before and answered false.
pub proof fn law_preorder_processes_what_is_not_pruned<T>(
    flow: AnyFlow,
    log: Seq<Visit<T>>,
    result: AnyFlow,
    done: bool,
)
    requires
        preorder(flow, log, result, done),
    ensures
        forall|i: int|
            0 <= i < log.len() && log[i].call == Call::Process ==> #[trigger] follows(
                log,
                i,
                Call::ShouldPrune,
                false,
            ),
        forall|i: int|
            0 <= i < log.len() && log[i].call == Call::ShouldPrune && !log[i].answer
                ==> #[trigger] precedes_process(log, i),
    decreases log.len(),
{
    lemma_preorder_head(flow, log, result, done);
    if !log[0].answer && log[1].answer {
        let runs = split_preorder(flow, log, result, done);
        let kids = log[1].result.kids();
        assert forall|i: int|
            0 <= i < log.len() && log[i].call == Call::Process implies #[trigger] follows(
            log,
            i,
            Call::ShouldPrune,
            false,
        ) by {
            if i >= 2 {
                let (j, m) = find_run(runs, i - 2);
                law_preorder_processes_what_is_not_pruned(
                    kids[j],
                    runs[j],
                    result.kids()[j],
                    done || j < runs.len() - 1,
                );
                assert(follows(runs[j], m, Call::ShouldPrune, false));
                lemma_in_run(runs, j, m - 1);
                assert(log[i - 1] == under(j, runs[j])[m - 1]);
            }
        }
        assert forall|i: int|
            0 <= i < log.len() && log[i].call == Call::ShouldPrune
                && !log[i].answer implies #[trigger] precedes_process(log, i) by {
            if i >= 2 {
                let (j, m) = find_run(runs, i - 2);
                law_preorder_processes_what_is_not_pruned(
                    kids[j],
                    runs[j],
                    result.kids()[j],
                    done || j < runs.len() - 1,
                );
                assert(precedes_process(runs[j], m));
                lemma_in_run(runs, j, m + 1);
                assert(log[i + 1] == under(j, runs[j])[m + 1]);
            }
        }
    }
}

/// In a postorder run `process` is called on a flow exactly where `should_process` was called on
/// it just before and answered true.
pub proof fn law_postorder_processes_what_it_should<T>(
    flow: AnyFlow,
    log: Seq<Visit<T>>,
    result: AnyFlow,
    done: bool,
)
    requires
        postorder(flow, log, result, done),
    ensures
        forall|i: int|
            0 <= i < log.len() && log[i].call == Call::Process ==> #[trigger] follows(
                log,
                i,
                Call::ShouldProcess,
                true,
            ),
        forall|i: int|
            0 <= i < log.len() && log[i].call == Call::ShouldProcess && log[i].answer
                ==> #[trigger] precedes_process(log, i),
    decreases log.len(),
{
    lemma_postorder_head(flow, log, result, done);
    if !log[0].answer {
        let (runs, rest, mid, kids_done) = split_postorder(flow, log, result, done);
        let kids = log[0].result.kids();
        let len: int = joined(runs).len() as int;
        assert forall|i: int| 1 + len <= i < log.len() implies #[trigger] log[i] == rest[i - 1
            - len] by {}
        assert forall|i: int|
            0 <= i < log.len() && log[i].call == Call::Process implies #[trigger] follows(
            log,
            i,
            Call::ShouldProcess,
            true,
        ) by {
            if i < 1 + len {
                let (j, m) = find_run(runs, i - 1);
                law_postorder_processes_what_it_should(
                    kids[j],
                    runs[j],
                    mid.kids()[j],
                    kids_done || j < runs.len() - 1,
                );
                assert(follows(runs[j], m, Call::ShouldProcess, true));
                lemma_in_run(runs, j, m - 1);
                assert(log[i - 1] == under(j, runs[j])[m - 1]);
            } else {
                assert(log[i - 1] == rest[i - 2 - len]);
            }
        }
        assert forall|i: int|
            0 <= i < log.len() && log[i].call == Call::ShouldProcess
                && log[i].answer implies #[trigger] precedes_process(log, i) by {
            if i < 1 + len {
                let (j, m) = find_run(runs, i - 1);
                law_postorder_processes_what_it_should(
                    kids[j],
                    runs[j],
                    mid.kids()[j],
                    kids_done || j < runs.len() - 1,
                );
                assert(precedes_process(runs[j], m));
                lemma_in_run(runs, j, m + 1);
                assert(log[i + 1] == under(j, runs[j])[m + 1]);
            } else {
                assert(log[i + 1] == rest[i - len]);
            }
        }
    }
}

/// In a preorder run each method is called on a flow before it is called on any flow behind it in
/// preorder, and at most once on each: a flow comes before its descendants, and siblings come first
/// to last.
pub proof fn law_preorder_order<T>(flow: AnyFlow, log: Seq<Visit<T>>, result: AnyFlow, done: bool)
    requires
        preorder(flow, log, result, done),
    ensures
        forall|i: int, k: int|
            0 <= i < k < log.len() && log[i].call == log[k].call ==> before_in_preorder(
                (#[trigger] log[i]).path,
                (#[trigger] log[k]).path,
            ),
    decreases log.len(),
{
    lemma_preorder_head(flow, log, result, done);
    if !log[0].answer && log[1].answer {
        let runs = split_preorder(flow, log, result, done);
        let kids = log[1].result.kids();
        assert forall|i: int, k: int|
            0 <= i < k < log.len() && log[i].call == log[k].call implies before_in_preorder(
            (#[trigger] log[i]).path,
            (#[trigger] log[k]).path,
        ) by {
            if k >= 2 {
                let (j2, m2) = find_run(runs, k - 2);
                assert(log[k].path[0] == j2);
                if i >= 2 {
                    let (j1, m1) = find_run(runs, i - 2);
                    assert(log[i].path[0] == j1);
                    if j2 < j1 {
                        lemma_starts_ordered(runs, j2, j1);
                    } else if j1 == j2 {
                        law_preorder_order(
                            kids[j1],
                            runs[j1],
                            result.kids()[j1],
                            done || j1 < runs.len() - 1,
                        );
                        assert(before_in_preorder(runs[j1][m1].path, runs[j1][m2].path));
                        assert(log[i].path.drop_first() =~= runs[j1][m1].path);
                        assert(log[k].path.drop_first() =~= runs[j1][m2].path);
                    }
                }
            }
        }
    }
}

/// In a postorder run `should_process` and `process` are each called on a flow before they are
/// called on any flow behind it in postorder, and at most once on each: a flow comes after its
/// descendants, and siblings come first to last. `should_prune` is called in preorder.
pub proof fn law_postorder_order<T>(flow: AnyFlow, log: Seq<Visit<T>>, result: AnyFlow, done: bool)
    requires
        postorder(flow, log, result, done),
    ensures
        forall|i: int, k: int|
            0 <= i < k < log.len() && log[i].call == log[k].call ==> {
                let p = (#[trigger] log[i]).path;
                let q = (#[trigger] log[k]).path;
                if log[i].call == Call::ShouldPrune {
                    before_in_preorder(p, q)
                } else {
                    before_in_postorder(p, q)
                }
            },
    decreases log.len(),
{
    lemma_postorder_head(flow, log, result, done);
    if !log[0].answer {
        let (runs, rest, mid, kids_done) = split_postorder(flow, log, result, done);
        let kids = log[0].result.kids();
        let len: int = joined(runs).len() as int;
        assert forall|i: int| 1 + len <= i < log.len() implies #[trigger] log[i] == rest[i - 1
            - len] by {}
        assert forall|i: int, k: int|
            0 <= i < k < log.len() && log[i].call == log[k].call implies {
            let p = (#[trigger] log[i]).path;
            let q = (#[trigger] log[k]).path;
            if log[i].call == Call::ShouldPrune {
                before_in_preorder(p, q)
            } else {
                before_in_postorder(p, q)
            }
        } by {
            if 1 <= i < 1 + len {
                let (j1, m1) = find_run(runs, i - 1);
                assert(log[i].path[0] == j1);
                if k < 1 + len {
                    let (j2, m2) = find_run(runs, k - 1);
                    assert(log[k].path[0] == j2);
                    if j2 < j1 {
                        lemma_starts_ordered(runs, j2, j1);
                    } else if j1 == j2 {
                        law_postorder_order(
                            kids[j1],
                            runs[j1],
                            mid.kids()[j1],
                            kids_done || j1 < runs.len() - 1,
                        );
                        assert(runs[j1][m1].call == runs[j1][m2].call);
                        assert(log[i].path.drop_first() =~= runs[j1][m1].path);
                        assert(log[k].path.drop_first() =~= runs[j1][m2].path);
                    }
                }
            } else if i < 1 {
                if k < 1 + len {
                    let (j2, m2) = find_run(runs, k - 1);
                    assert(log[k].path[0] == j2);
                }
            }
        }
    }
}

/// Where `should_prune` answers true in a preorder run, no other call is made on that flow, nor any
/// on its descendants.
pub proof fn law_preorder_prunes<T>(flow: AnyFlow, log: Seq<Visit<T>>, result: AnyFlow, done: bool)
    requires
        preorder(flow, log, result, done),
    ensures
        forall|i: int, k: int|
            0 <= i < log.len() && 0 <= k < log.len() && i != k && log[i].call == Call::ShouldPrune
                && log[i].answer ==> !at_or_below(
                (#[trigger] log[k]).path,
                (#[trigger] log[i]).path,
            ),
    decreases log.len(),
{
    lemma_preorder_head(flow, log, result, done);
    if !log[0].answer && log[1].answer {
        let runs = split_preorder(flow, log, result, done);
        let kids = log[1].result.kids();
        assert forall|i: int, k: int|
            0 <= i < log.len() && 0 <= k < log.len() && i != k && log[i].call == Call::ShouldPrune
                && log[i].answer implies !at_or_below(
            (#[trigger] log[k]).path,
            (#[trigger] log[i]).path,
        ) by {
            let (j1, m1) = find_run(runs, i - 2);
            assert(log[i].path[0] == j1);
            if k >= 2 {
                let (j2, m2) = find_run(runs, k - 2);
                assert(log[k].path[0] == j2);
                if at_or_below(log[k].path, log[i].path) {
                    assert(log[k].path.take(log[i].path.len() as int)[0] == log[k].path[0]);
                    law_preorder_prunes(
                        kids[j1],
                        runs[j1],
                        result.kids()[j1],
                        done || j1 < runs.len() - 1,
                    );
                    lemma_below_kid(j1, runs[j1][m2].path, runs[j1][m1].path);
                    assert(!at_or_below(runs[j1][m2].path, runs[j1][m1].path));
                }
            }
        }
    }
}

/// Where `should_prune` answers true in a postorder run, no other call is made on that flow, nor
/// any on its descendants.
pub proof fn law_postorder_prunes<T>(flow: AnyFlow, log: Seq<Visit<T>>, result: AnyFlow, done: bool)
    requires
        postorder(flow, log, result, done),
    ensures
        forall|i: int, k: int|
            0 <= i < log.len() && 0 <= k < log.len() && i != k && log[i].call == Call::ShouldPrune
                && log[i].answer ==> !at_or_below(
                (#[trigger] log[k]).path,
                (#[trigger] log[i]).path,
            ),
    decreases log.len(),
{
    lemma_postorder_head(flow, log, result, done);
    if !log[0].answer {
        let (runs, rest, mid, kids_done) = split_postorder(flow, log, result, done);
        let kids = log[0].result.kids();
        let len: int = joined(runs).len() as int;
        assert forall|i: int| 1 + len <= i < log.len() implies #[trigger] log[i] == rest[i - 1
            - len] by {}
        assert forall|i: int, k: int|
            0 <= i < log.len() && 0 <= k < log.len() && i != k && log[i].call == Call::ShouldPrune
                && log[i].answer implies !at_or_below(
            (#[trigger] log[k]).path,
            (#[trigger] log[i]).path,
        ) by {
            let (j1, m1) = find_run(runs, i - 1);
            assert(log[i].path[0] == j1);
            if 1 <= k < 1 + len {
                let (j2, m2) = find_run(runs, k - 1);
                assert(log[k].path[0] == j2);
                if at_or_below(log[k].path, log[i].path) {
                    assert(log[k].path.take(log[i].path.len() as int)[0] == log[k].path[0]);
                    law_postorder_prunes(
                        kids[j1],
                        runs[j1],
                        mid.kids()[j1],
                        kids_done || j1 < runs.len() - 1,
                    );
                    lemma_below_kid(j1, runs[j1][m2].path, runs[j1][m1].path);
                    assert(!at_or_below(runs[j1][m2].path, runs[j1][m1].path));
                }
            }
        }
    }
}

/// In a preorder run every call on a flow is made before any call on a descendant of it.
pub proof fn law_preorder_parents_first<T>(
    flow: AnyFlow,
    log: Seq<Visit<T>>,
    result: AnyFlow,
    done: bool,
)
    requires
        preorder(flow, log, result, done),
    ensures
        forall|i: int, k: int|
            0 <= i < log.len() && 0 <= k < log.len() && strictly_below(
                (#[trigger] log[k]).path,
                (#[trigger] log[i]).path,
            ) ==> i < k,
    decreases log.len(),
{
    lemma_preorder_head(flow, log, result, done);
    if !log[0].answer && log[1].answer {
        let runs = split_preorder(flow, log, result, done);
        let kids = log[1].result.kids();
        assert forall|i: int, k: int|
            0 <= i < log.len() && 0 <= k < log.len() && strictly_below(
                (#[trigger] log[k]).path,
                (#[trigger] log[i]).path,
            ) implies i < k by {
            if i >= 2 && k >= 2 {
                let (j1, m1) = find_run(runs, i - 2);
                let (j2, m2) = find_run(runs, k - 2);
                assert(log[i].path[0] == j1 && log[k].path[0] == j2);
                assert(log[k].path.take(log[i].path.len() as int)[0] == log[k].path[0]);
                law_preorder_parents_first(
                    kids[j1],
                    runs[j1],
                    result.kids()[j1],
                    done || j1 < runs.len() - 1,
                );
                lemma_below_kid(j1, runs[j1][m2].path, runs[j1][m1].path);
                assert(strictly_below(runs[j1][m2].path, runs[j1][m1].path));
            }
        }
    }
}

/// In a postorder run `should_prune` is called on a flow before any call on a descendant of it, and
/// `should_process` and `process` after all of them.
pub proof fn law_postorder_children_first<T>(
    flow: AnyFlow,
    log: Seq<Visit<T>>,
    result: AnyFlow,
    done: bool,
)
    requires
        postorder(flow, log, result, done),
    ensures
        forall|i: int, k: int|
            0 <= i < log.len() && 0 <= k < log.len() && strictly_below(
                (#[trigger] log[k]).path,
                (#[trigger] log[i]).path,
            ) ==> (if log[i].call == Call::ShouldPrune {
                i < k
            } else {
                k < i
            }),
    decreases log.len(),
{
    lemma_postorder_head(flow, log, result, done);
    if !log[0].answer {
        let (runs, rest, mid, kids_done) = split_postorder(flow, log, result, done);
        let kids = log[0].result.kids();
        let len: int = joined(runs).len() as int;
        assert forall|i: int| 1 + len <= i < log.len() implies #[trigger] log[i] == rest[i - 1
            - len] by {}
        assert forall|i: int, k: int|
            0 <= i < log.len() && 0 <= k < log.len() && strictly_below(
                (#[trigger] log[k]).path,
                (#[trigger] log[i]).path,
            ) implies (if log[i].call == Call::ShouldPrune {
            i < k
        } else {
            k < i
        }) by {
            if 1 <= i < 1 + len && 1 <= k < 1 + len {
                let (j1, m1) = find_run(runs, i - 1);
                let (j2, m2) = find_run(runs, k - 1);
                assert(log[i].path[0] == j1 && log[k].path[0] == j2);
                assert(log[k].path.take(log[i].path.len() as int)[0] == log[k].path[0]);
                law_postorder_children_first(
                    kids[j1],
                    runs[j1],
                    mid.kids()[j1],
                    kids_done || j1 < runs.len() - 1,
                );
                lemma_below_kid(j1, runs[j1][m2].path, runs[j1][m1].path);
                assert(strictly_below(runs[j1][m2].path, runs[j1][m1].path));
            }
        }
    }
}

/// One path leads below another from the parent where it does so from the child.
proof fn lemma_below_kid(kid: int, q: Seq<int>, p: Seq<int>)
    requires
        at_or_below(seq![kid] + q, seq![kid] + p),
    ensures
        at_or_below(q, p),
{
    let longer = (seq![kid] + q).take((1 + p.len()) as int);
    assert forall|d: int| 0 <= d < p.len() implies q[d] == p[d] by {
        assert(longer[d + 1] == q[d]);
        assert((seq![kid] + p)[d + 1] == p[d]);
    }
    assert(q.take(p.len() as int) =~= p);
}

/// The calls of two logs one behind the other.
proof fn lemma_called_on_join<T>(first: Seq<Visit<T>>, second: Seq<Visit<T>>, call: Call)
    ensures
        called_on(first + second, call) == called_on(first, call) + called_on(second, call),
    decreases second.len(),
{
    if second.len() == 0 {
        assert(first + second =~= first);
        assert(called_on(first, call) + called_on(second, call) =~= called_on(first, call));
    } else {
        assert((first + second).drop_last() =~= first + second.drop_last());
        lemma_called_on_join(first, second.drop_last(), call);
        assert(called_on(first + second, call) =~= called_on(first, call) + called_on(
            second,
            call,
        ));
    }
}

/// The calls of the run over a child, as seen from its parent.
proof fn lemma_called_on_under<T>(kid: int, log: Seq<Visit<T>>, call: Call)
    ensures
        called_on(under(kid, log), call) == prefixed(kid, called_on(log, call)),
    decreases log.len(),
{
    if log.len() == 0 {
        assert(called_on(under(kid, log), call) =~= prefixed(kid, called_on(log, call)));
    } else {
        assert(under(kid, log).drop_last() =~= under(kid, log.drop_last()));
        lemma_called_on_under(kid, log.drop_last(), call);
        assert(called_on(under(kid, log), call) =~= prefixed(kid, called_on(log, call)));
    }
}

/// What was called in the runs over all of some siblings, where each run called it on all of its
/// tree in preorder.
proof fn lemma_called_on_joined_preorder<T>(
    runs: Seq<Seq<Visit<T>>>,
    call: Call,
    kids: Seq<AnyFlow>,
)
    requires
        runs.len() == kids.len(),
        forall|j: int|
            0 <= j < runs.len() ==> called_on(#[trigger] runs[j], call) == preorder_paths(kids[j]),
    ensures
        called_on(joined(runs), call) == preorder_paths_of(kids),
    decreases runs.len(),
{
    if runs.len() > 0 {
        let j = runs.len() - 1;
        assert forall|j: int| 0 <= j < runs.drop_last().len() implies called_on(
            #[trigger] runs.drop_last()[j],
            call,
        ) == preorder_paths(kids.drop_last()[j]) by {
            assert(runs.drop_last()[j] == runs[j]);
        }
        lemma_called_on_joined_preorder(runs.drop_last(), call, kids.drop_last());
        lemma_called_on_join(joined(runs.drop_last()), under(j, runs.last()), call);
        lemma_called_on_under(j, runs.last(), call);
        assert(called_on(runs[j], call) == preorder_paths(kids[j]));
    }
}

/// What was called in the runs over all of some siblings, where each run called it on all of its
/// tree in postorder.
proof fn lemma_called_on_joined_postorder<T>(
    runs: Seq<Seq<Visit<T>>>,
    call: Call,
    kids: Seq<AnyFlow>,
)
    requires
        runs.len() == kids.len(),
        forall|j: int|
            0 <= j < runs.len() ==> called_on(#[trigger] runs[j], call) == postorder_paths(kids[j]),
    ensures
        called_on(joined(runs), call) == postorder_paths_of(kids),
    decreases runs.len(),
{
    if runs.len() > 0 {
        let j = runs.len() - 1;
        assert forall|j: int| 0 <= j < runs.drop_last().len() implies called_on(
            #[trigger] runs.drop_last()[j],
            call,
        ) == postorder_paths(kids.drop_last()[j]) by {
            assert(runs.drop_last()[j] == runs[j]);
        }
        lemma_called_on_joined_postorder(runs.drop_last(), call, kids.drop_last());
        lemma_called_on_join(joined(runs.drop_last()), under(j, runs.last()), call);
        lemma_called_on_under(j, runs.last(), call);
        assert(called_on(runs[j], call) == postorder_paths(kids[j]));
    }
}

/// A preorder run that is not stopped and prunes nothing processes every flow of the tree that it
/// leaves behind, each once, in preorder.
pub proof fn law_preorder_reaches_all<T>(
    flow: AnyFlow,
    log: Seq<Visit<T>>,
    result: AnyFlow,
    done: bool,
)
    requires
        preorder(flow, log, result, done),
        done,
        nothing_pruned(log),
    ensures
        called_on(log, Call::Process) == preorder_paths(result),
    decreases log.len(),
{
    lemma_preorder_head(flow, log, result, done);
    assert(log[0].call == Call::ShouldPrune);
    let runs = split_preorder(flow, log, result, done);
    let kids = log[1].result.kids();
    assert forall|j: int| 0 <= j < runs.len() implies called_on(#[trigger] runs[j], Call::Process)
        == preorder_paths(result.kids()[j]) by {
        assert forall|m: int|
            0 <= m < runs[j].len() && (#[trigger] runs[j][m]).call
                == Call::ShouldPrune implies !runs[j][m].answer by {
            lemma_in_run(runs, j, m);
            assert(log[2 + start(runs, j) + m] == under(j, runs[j])[m]);
        }
        law_preorder_reaches_all(kids[j], runs[j], result.kids()[j], true);
    }
    lemma_called_on_joined_preorder(runs, Call::Process, result.kids());
    let head = seq![log[0], log[1]];
    lemma_called_on_join(head, joined(runs), Call::Process);
    assert(called_on(head, Call::Process) =~= seq![Seq::<int>::empty()]) by {
        reveal_with_fuel(called_on, 3);
        assert(head.drop_last() =~= seq![log[0]]);
        assert(head.drop_last().drop_last() =~= Seq::<Visit<T>>::empty());
    }
}

/// What was called in the runs over some siblings, the first to the last that was come by, where
/// each run but for the last called it on all that is kept of its tree in preorder, and the last
/// one on the first of that.
proof fn lemma_called_on_joined_kept_in_preorder<T>(
    runs: Seq<Seq<Visit<T>>>,
    call: Call,
    kids: Seq<AnyFlow>,
    prunes: spec_fn(AnyFlow) -> bool,
)
    requires
        runs.len() <= kids.len(),
        forall|j: int|
            0 <= j < runs.len() ==> called_on(#[trigger] runs[j], call).is_prefix_of(
                kept_in_preorder(kids[j], prunes),
            ),
        forall|j: int|
            0 <= j < runs.len() - 1 ==> called_on(#[trigger] runs[j], call) == kept_in_preorder(
                kids[j],
                prunes,
            ),
    ensures
        called_on(joined(runs), call).is_prefix_of(kept_in_preorder_of(kids, prunes)),
        runs.len() == kids.len() && (runs.len() > 0 ==> called_on(runs.last(), call)
            == kept_in_preorder(kids.last(), prunes)) ==> called_on(joined(runs), call)
            == kept_in_preorder_of(kids, prunes),
    decreases kids.len(),
{
    if runs.len() < kids.len() {
        lemma_called_on_joined_kept_in_preorder(runs, call, kids.drop_last(), prunes);
    } else if runs.len() > 0 {
        let j = runs.len() - 1;
        let front = runs.drop_last();
        assert forall|j: int| 0 <= j < front.len() implies called_on(#[trigger] front[j], call)
            == kept_in_preorder(kids.drop_last()[j], prunes) by {
            assert(front[j] == runs[j]);
        }
        lemma_called_on_joined_kept_in_preorder(front, call, kids.drop_last(), prunes);
        lemma_called_on_join(joined(front), under(j, runs.last()), call);
        lemma_called_on_under(j, runs.last(), call);
        assert(called_on(runs[j], call).is_prefix_of(kept_in_preorder(kids[j], prunes)));
        assert(prefixed(j, called_on(runs.last(), call)).is_prefix_of(
            prefixed(j, kept_in_preorder(kids.last(), prunes)),
        ));
    }
}

/// What was called in the runs over some siblings, the first to the last that was come by, where
/// each run but for the last called it on all that is kept of its tree in postorder, and the last
/// one on the first of that.
proof fn lemma_called_on_joined_kept_in_postorder<T>(
    runs: Seq<Seq<Visit<T>>>,
    call: Call,
    kids: Seq<AnyFlow>,
    prunes: spec_fn(AnyFlow) -> bool,
    should: spec_fn(AnyFlow) -> bool,
)
    requires
        runs.len() <= kids.len(),
        forall|j: int|
            0 <= j < runs.len() ==> called_on(#[trigger] runs[j], call).is_prefix_of(
                kept_in_postorder(kids[j], prunes, should),
            ),
        forall|j: int|
            0 <= j < runs.len() - 1 ==> called_on(#[trigger] runs[j], call) == kept_in_postorder(
                kids[j],
                prunes,
                should,
            ),
    ensures
        called_on(joined(runs), call).is_prefix_of(kept_in_postorder_of(kids, prunes, should)),
        runs.len() == kids.len() && (runs.len() > 0 ==> called_on(runs.last(), call)
            == kept_in_postorder(kids.last(), prunes, should)) ==> called_on(joined(runs), call)
            == kept_in_postorder_of(kids, prunes, should),
    decreases kids.len(),
{
    if runs.len() < kids.len() {
        lemma_called_on_joined_kept_in_postorder(runs, call, kids.drop_last(), prunes, should);
    } else if runs.len() > 0 {
        let j = runs.len() - 1;
        let front = runs.drop_last();
        assert forall|j: int| 0 <= j < front.len() implies called_on(#[trigger] front[j], call)
            == kept_in_postorder(kids.drop_last()[j], prunes, should) by {
            assert(front[j] == runs[j]);
        }
        lemma_called_on_joined_kept_in_postorder(front, call, kids.drop_last(), prunes, should);
        lemma_called_on_join(joined(front), under(j, runs.last()), call);
        lemma_called_on_under(j, runs.last(), call);
        assert(called_on(runs[j], call).is_prefix_of(kept_in_postorder(kids[j], prunes, should)));
        assert(prefixed(j, called_on(runs.last(), call)).is_prefix_of(
            prefixed(j, kept_in_postorder(kids.last(), prunes, should)),
        ));
    }
}

/// What a run over a child answered was decided from the tree below that child where what the whole
/// run answered was decided from the whole tree.
proof fn lemma_decided_below<T>(
    flow: AnyFlow,
    log: Seq<Visit<T>>,
    first: int,
    runs: Seq<Seq<Visit<T>>>,
    j: int,
    call: Call,
    decides: spec_fn(AnyFlow) -> bool,
)
    requires
        0 <= first,
        0 <= j < runs.len(),
        first + joined(runs).len() <= log.len(),
        log.subrange(first, (first + joined(runs).len()) as int) == joined(runs),
        decided_by(flow, log, call, decides),
    ensures
        decided_by(flow.kids()[j], runs[j], call, decides),
{
    assert forall|m: int| 0 <= m < runs[j].len() && (#[trigger] runs[j][m]).call == call implies
        runs[j][m].answer == decides(flow_at(flow.kids()[j], runs[j][m].path)) by {
        lemma_in_run(runs, j, m);
        let k = start(runs, j) + m;
        assert(log.subrange(first, (first + joined(runs).len()) as int)[k] == log[first + k]);
        assert(log[first + k] == under(j, runs[j])[m]);
        assert(log[first + k].path.drop_first() =~= runs[j][m].path);
    }
}

/// A run over a child left children as they were where the whole run did.
proof fn lemma_keeps_kids_below<T>(
    log: Seq<Visit<T>>,
    first: int,
    runs: Seq<Seq<Visit<T>>>,
    j: int,
    call: Call,
)
    requires
        0 <= first,
        0 <= j < runs.len(),
        first + joined(runs).len() <= log.len(),
        log.subrange(first, (first + joined(runs).len()) as int) == joined(runs),
        keeps_kids(log, call),
    ensures
        keeps_kids(runs[j], call),
{
    assert forall|m: int| 0 <= m < runs[j].len() && (#[trigger] runs[j][m]).call == call implies
        runs[j][m].result.kids() == runs[j][m].flow.kids() by {
        lemma_in_run(runs, j, m);
        let k = start(runs, j) + m;
        assert(log.subrange(first, (first + joined(runs).len()) as int)[k] == log[first + k]);
        assert(log[first + k] == under(j, runs[j])[m]);
    }
}

/// A preorder run processes the flows that are neither pruned nor below a pruned one, each once, in
/// preorder, where pruning is decided by the flow alone and no call changes the children of its
/// flow: all of them where it is not stopped, and the first of them where it is.
pub proof fn law_preorder_processes_what_is_kept<T>(
    flow: AnyFlow,
    log: Seq<Visit<T>>,
    result: AnyFlow,
    done: bool,
    prunes: spec_fn(AnyFlow) -> bool,
)
    requires
        preorder(flow, log, result, done),
        decided_by(flow, log, Call::ShouldPrune, prunes),
        keeps_kids(log, Call::ShouldPrune),
        keeps_kids(log, Call::Process),
    ensures
        called_on(log, Call::Process).is_prefix_of(kept_in_preorder(flow, prunes)),
        done ==> called_on(log, Call::Process) == kept_in_preorder(flow, prunes),
    decreases log.len(),
{
    lemma_preorder_head(flow, log, result, done);
    reveal_with_fuel(called_on, 3);
    assert(log[0].call == Call::ShouldPrune && log[0].path == Seq::<int>::empty());
    if log[0].answer {
        assert(log.drop_last() =~= Seq::<Visit<T>>::empty());
        assert(called_on(log, Call::Process) =~= kept_in_preorder(flow, prunes));
    } else {
        let head = seq![log[0], log[1]];
        assert(called_on(head, Call::Process) =~= seq![Seq::<int>::empty()]) by {
            assert(head.drop_last() =~= seq![log[0]]);
            assert(head.drop_last().drop_last() =~= Seq::<Visit<T>>::empty());
        }
        if !log[1].answer {
            assert(log =~= head);
        } else {
            let runs = split_preorder(flow, log, result, done);
            let kids = flow.kids();
            assert(log[1].call == Call::Process);
            assert(log[1].result.kids() == kids);
            assert(log.subrange(2, (2 + joined(runs).len()) as int) =~= joined(runs));
            assert forall|j: int| 0 <= j < runs.len() implies {
                let called = called_on(#[trigger] runs[j], Call::Process);
                let kept = kept_in_preorder(kids[j], prunes);
                called.is_prefix_of(kept) && (done || j < runs.len() - 1 ==> called == kept)
            } by {
                lemma_decided_below(flow, log, 2, runs, j, Call::ShouldPrune, prunes);
                lemma_keeps_kids_below(log, 2, runs, j, Call::ShouldPrune);
                lemma_keeps_kids_below(log, 2, runs, j, Call::Process);
                law_preorder_processes_what_is_kept(
                    kids[j],
                    runs[j],
                    result.kids()[j],
                    done || j < runs.len() - 1,
                    prunes,
                );
            }
            lemma_called_on_joined_kept_in_preorder(runs, Call::Process, kids, prunes);
            lemma_called_on_join(head, joined(runs), Call::Process);
        }
    }
}

/// A postorder run processes the flows that should be processed and are neither pruned nor below a
/// pruned one, each once, in postorder, where both are decided by the flow alone and `should_prune`
/// does not change the children of its flow: all of them where it is not stopped, and the first of
/// them where it is.
pub proof fn law_postorder_processes_what_is_kept<T>(
    flow: AnyFlow,
    log: Seq<Visit<T>>,
    result: AnyFlow,
    done: bool,
    prunes: spec_fn(AnyFlow) -> bool,
    should: spec_fn(AnyFlow) -> bool,
)
    requires
        postorder(flow, log, result, done),
        decided_by(flow, log, Call::ShouldPrune, prunes),
        decided_by(flow, log, Call::ShouldProcess, should),
        keeps_kids(log, Call::ShouldPrune),
    ensures
        called_on(log, Call::Process).is_prefix_of(kept_in_postorder(flow, prunes, should)),
        done ==> called_on(log, Call::Process) == kept_in_postorder(flow, prunes, should),
    decreases log.len(),
{
    lemma_postorder_head(flow, log, result, done);
    reveal_with_fuel(called_on, 3);
    assert(log[0].call == Call::ShouldPrune && log[0].path == Seq::<int>::empty());
    if log[0].answer {
        assert(log.drop_last() =~= Seq::<Visit<T>>::empty());
        assert(called_on(log, Call::Process) =~= kept_in_postorder(flow, prunes, should));
    } else {
        let (runs, rest, mid, kids_done) = split_postorder(flow, log, result, done);
        let kids = flow.kids();
        let len: int = joined(runs).len() as int;
        assert(log[0].result.kids() == kids);
        assert(log.subrange(1, 1 + len) =~= joined(runs));
        assert forall|j: int| 0 <= j < runs.len() implies {
            let called = called_on(#[trigger] runs[j], Call::Process);
            let kept = kept_in_postorder(kids[j], prunes, should);
            called.is_prefix_of(kept) && (kids_done || j < runs.len() - 1 ==> called == kept)
        } by {
            lemma_decided_below(flow, log, 1, runs, j, Call::ShouldPrune, prunes);
            lemma_decided_below(flow, log, 1, runs, j, Call::ShouldProcess, should);
            lemma_keeps_kids_below(log, 1, runs, j, Call::ShouldPrune);
            law_postorder_processes_what_is_kept(
                kids[j],
                runs[j],
                mid.kids()[j],
                kids_done || j < runs.len() - 1,
                prunes,
                should,
            );
        }
        lemma_called_on_joined_kept_in_postorder(runs, Call::Process, kids, prunes, should);
        let head = seq![log[0]];
        lemma_called_on_join(head, joined(runs), Call::Process);
        lemma_called_on_join(head + joined(runs), rest, Call::Process);
        assert(head.drop_last() =~= Seq::<Visit<T>>::empty());
        assert(called_on(head, Call::Process) =~= Seq::<Seq<int>>::empty());
        let called = called_on(joined(runs), Call::Process);
        if !kids_done {
            assert(called_on(log, Call::Process) =~= called);
        } else {
            assert(rest[0] == log[1 + len]);
            assert(rest[0].answer == should(flow));
            if rest[0].answer {
                assert(rest.drop_last() =~= seq![rest[0]]);
                assert(rest.drop_last().drop_last() =~= Seq::<Visit<T>>::empty());
                assert(called_on(rest, Call::Process) =~= seq![Seq::<int>::empty()]);
            } else {
                assert(rest.drop_last() =~= Seq::<Visit<T>>::empty());
                assert(called_on(rest, Call::Process) =~= Seq::<Seq<int>>::empty());
            }
            assert(called_on(log, Call::Process) =~= kept_in_postorder(flow, prunes, should));
        }
    }
}

/// The calls that a postorder run makes on a flow behind its children leave the shape of the tree
/// below it alone.
pub open spec fn keeps_shape<T>(log: Seq<Visit<T>>) -> bool {
    forall|i: int|
        0 <= i < log.len() && (#[trigger] log[i]).call != Call::ShouldPrune ==> postorder_paths(
            log[i].result,
        ) == postorder_paths(log[i].flow)
}

/// Each call of `should_process` answered true.
pub open spec fn all_should_be_processed<T>(log: Seq<Visit<T>>) -> bool {
    forall|i: int|
        0 <= i < log.len() && (#[trigger] log[i]).call == Call::ShouldProcess ==> log[i].answer
}

/// A postorder run that is not stopped, prunes nothing and keeps the shape of the tree comes by
/// every flow of it, each once, in postorder, whatever `should_process` answers on the way. Where
/// that always answers true, each of them is processed.
pub proof fn law_postorder_reaches_all<T>(
    flow: AnyFlow,
    log: Seq<Visit<T>>,
    result: AnyFlow,
    done: bool,
)
    requires
        postorder(flow, log, result, done),
        done,
        nothing_pruned(log),
        keeps_shape(log),
    ensures
        called_on(log, Call::ShouldProcess) == postorder_paths(result),
        all_should_be_processed(log) ==> called_on(log, Call::Process) == postorder_paths(result),
    decreases log.len(),
{
    lemma_postorder_head(flow, log, result, done);
    assert(log[0].call == Call::ShouldPrune);
    let (runs, rest, mid, kids_done) = split_postorder(flow, log, result, done);
    let kids = log[0].result.kids();
    let len: int = joined(runs).len() as int;
    assert forall|i: int| 0 <= i < rest.len() implies #[trigger] rest[i] == log[1 + len + i] by {}
    assert forall|j: int| 0 <= j < runs.len() implies {
        &&& called_on(#[trigger] runs[j], Call::ShouldProcess) == postorder_paths(mid.kids()[j])
        &&& all_should_be_processed(log) ==> called_on(runs[j], Call::Process) == postorder_paths(
            mid.kids()[j],
        )
    } by {
        assert forall|m: int| 0 <= m < runs[j].len() implies {
            let seen = log[1 + start(runs, j) + m];
            &&& 0 <= 1 + start(runs, j) + m < log.len()
            &&& seen.call == (#[trigger] runs[j][m]).call && seen.answer == runs[j][m].answer
            &&& seen.flow == runs[j][m].flow && seen.result == runs[j][m].result
        } by {
            lemma_in_run(runs, j, m);
            assert(log[1 + start(runs, j) + m] == under(j, runs[j])[m]);
        }
        law_postorder_reaches_all(kids[j], runs[j], mid.kids()[j], true);
    }
    lemma_called_on_joined_postorder(runs, Call::ShouldProcess, mid.kids());
    let head = seq![log[0]];
    let front = head + joined(runs);
    lemma_called_on_join(head, joined(runs), Call::ShouldProcess);
    lemma_called_on_join(front, rest, Call::ShouldProcess);
    let root = seq![Seq::<int>::empty()];
    reveal_with_fuel(called_on, 3);
    assert(head.drop_last() =~= Seq::<Visit<T>>::empty());
    assert(called_on(head, Call::ShouldProcess) =~= Seq::<Seq<int>>::empty());
    if rest.len() == 2 {
        assert(rest.drop_last() =~= seq![rest[0]]);
    }
    assert(rest.take(1).drop_last() =~= Seq::<Visit<T>>::empty());
    assert(called_on(rest, Call::ShouldProcess) =~= root);
    assert(called_on(log, Call::ShouldProcess) =~= postorder_paths(mid));
    assert(postorder_paths(result) == postorder_paths(mid));
    if all_should_be_processed(log) {
        lemma_called_on_joined_postorder(runs, Call::Process, mid.kids());
        lemma_called_on_join(head, joined(runs), Call::Process);
        lemma_called_on_join(front, rest, Call::Process);
        assert(called_on(head, Call::Process) =~= Seq::<Seq<int>>::empty());
        assert(rest.len() == 2);
        assert(called_on(rest, Call::Process) =~= root);
        assert(called_on(log, Call::Process) =~= postorder_paths(mid));
    }
}

/// Paths seen from the parent are the same paths in another order where they are so from the child.
proof fn lemma_prefixed_permutation(kid: int, first: Seq<Seq<int>>, second: Seq<Seq<int>>)
    requires
        first.to_multiset() == second.to_multiset(),
    ensures
        prefixed(kid, first).to_multiset() == prefixed(kid, second).to_multiset(),
    decreases first.len(),
{
    broadcast use vstd::seq_lib::group_to_multiset_ensures;

    if first.len() == 0 {
        vstd::seq_lib::to_multiset_len(first);
        vstd::seq_lib::to_multiset_len(second);
        assert(prefixed(kid, first) =~= prefixed(kid, second));
    } else {
        let path = first.last();
        assert(first.to_multiset().count(path) > 0) by {
            assert(first.contains(path));
        }
        assert(second.contains(path));
        let at = second.index_of(path);
        let rest = second.remove(at);
        assert(first.drop_last() =~= first.remove(first.len() - 1));
        assert(first.drop_last().to_multiset() == rest.to_multiset());
        lemma_prefixed_permutation(kid, first.drop_last(), rest);
        let longer = prefixed(kid, second);
        assert(prefixed(kid, first) =~= prefixed(kid, first.drop_last()).push(seq![kid] + path));
        assert(prefixed(kid, rest) =~= longer.remove(at));
        assert(longer[at] == seq![kid] + path);
        assert(longer.to_multiset() =~= longer.remove(at).to_multiset().insert(longer[at]));
    }
}

/// The flows that are kept are the same in either order.
pub proof fn law_kept_orders_are_permutations(
    flow: AnyFlow,
    prunes: spec_fn(AnyFlow) -> bool,
    should: spec_fn(AnyFlow) -> bool,
)
    requires
        forall|f: AnyFlow| #[trigger] should(f),
    ensures
        kept_in_preorder(flow, prunes).to_multiset() == kept_in_postorder(
            flow,
            prunes,
            should,
        ).to_multiset(),
    decreases flow, 0nat,
{
    if !prunes(flow) {
        let root = seq![Seq::<int>::empty()];
        lemma_kept_orders_of_kids(flow.kids(), prunes, should);
        vstd::seq_lib::lemma_multiset_commutative(root, kept_in_preorder_of(flow.kids(), prunes));
        vstd::seq_lib::lemma_multiset_commutative(
            kept_in_postorder_of(flow.kids(), prunes, should),
            root,
        );
        assert(kept_in_preorder(flow, prunes).to_multiset() =~= kept_in_postorder(
            flow,
            prunes,
            should,
        ).to_multiset());
    }
}

/// The same for the trees below some siblings.
proof fn lemma_kept_orders_of_kids(
    kids: Seq<AnyFlow>,
    prunes: spec_fn(AnyFlow) -> bool,
    should: spec_fn(AnyFlow) -> bool,
)
    requires
        forall|f: AnyFlow| #[trigger] should(f),
    ensures
        kept_in_preorder_of(kids, prunes).to_multiset() == kept_in_postorder_of(
            kids,
            prunes,
            should,
        ).to_multiset(),
    decreases kids, 1nat,
{
    if kids.len() > 0 {
        let last = kids.len() - 1;
        let front = kids.drop_last();
        let first = kept_in_preorder(kids.last(), prunes);
        let second = kept_in_postorder(kids.last(), prunes, should);
        lemma_kept_orders_of_kids(front, prunes, should);
        law_kept_orders_are_permutations(kids.last(), prunes, should);
        lemma_prefixed_permutation(last, first, second);
        vstd::seq_lib::lemma_multiset_commutative(
            kept_in_preorder_of(front, prunes),
            prefixed(last, first),
        );
        vstd::seq_lib::lemma_multiset_commutative(
            kept_in_postorder_of(front, prunes, should),
            prefixed(last, second),
        );
    }
}

/// All the flows of a tree are kept where nothing is pruned and everything should be processed.
pub proof fn law_all_is_kept(
    flow: AnyFlow,
    prunes: spec_fn(AnyFlow) -> bool,
    should: spec_fn(AnyFlow) -> bool,
)
    requires
        forall|f: AnyFlow| !#[trigger] prunes(f),
        forall|f: AnyFlow| #[trigger] should(f),
    ensures
        kept_in_preorder(flow, prunes) == preorder_paths(flow),
        kept_in_postorder(flow, prunes, should) == postorder_paths(flow),
    decreases flow, 0nat,
{
    lemma_all_of_kids_is_kept(flow.kids(), prunes, should);
}

/// The same for the trees below some siblings.
proof fn lemma_all_of_kids_is_kept(
    kids: Seq<AnyFlow>,
    prunes: spec_fn(AnyFlow) -> bool,
    should: spec_fn(AnyFlow) -> bool,
)
    requires
        forall|f: AnyFlow| !#[trigger] prunes(f),
        forall|f: AnyFlow| #[trigger] should(f),
    ensures
        kept_in_preorder_of(kids, prunes) == preorder_paths_of(kids),
        kept_in_postorder_of(kids, prunes, should) == postorder_paths_of(kids),
    decreases kids, 1nat,
{
    if kids.len() > 0 {
        lemma_all_of_kids_is_kept(kids.drop_last(), prunes, should);
        law_all_is_kept(kids.last(), prunes, should);
    }
}

/// Preorder and postorder come by the same flows of a tree, each as often in the one as in the
/// other: the two orders are permutations of each other.
pub proof fn law_orders_are_permutations(flow: AnyFlow)
    ensures
        preorder_paths(flow).to_multiset() == postorder_paths(flow).to_multiset(),
{
    let prunes = |f: AnyFlow| false;
    let should = |f: AnyFlow| true;
    law_all_is_kept(flow, prunes, should);
    law_kept_orders_are_permutations(flow, prunes, should);
}

/// A path leads to a flow of the tree: each step of it is the index of a child.
pub open spec fn leads_to(flow: AnyFlow, path: Seq<int>) -> bool
    decreases path.len(),
{
    path.len() > 0 ==> {
        &&& 0 <= path[0] < flow.kids().len()
        &&& leads_to(flow.kids()[path[0]], path.drop_first())
    }
}

/// What is in two lists one behind the other is in one of them.
proof fn lemma_contained_in_either(first: Seq<Seq<int>>, second: Seq<Seq<int>>, path: Seq<int>)
    ensures
        (first + second).contains(path) <==> first.contains(path) || second.contains(path),
{
    let both = first + second;
    if first.contains(path) {
        let i = choose|i: int| 0 <= i < first.len() && first[i] == path;
        assert(both[i] == path);
    }
    if second.contains(path) {
        let i = choose|i: int| 0 <= i < second.len() && second[i] == path;
        assert(both[first.len() + i] == path);
    }
    if both.contains(path) {
        let i = choose|i: int| 0 <= i < both.len() && both[i] == path;
        if i >= first.len() {
            assert(second[i - first.len()] == path);
        }
    }
}

/// Which paths there are from the parent by way of the child of index `kid`.
proof fn lemma_contained_in_prefixed(kid: int, paths: Seq<Seq<int>>, path: Seq<int>)
    ensures
        prefixed(kid, paths).contains(path) <==> path.len() > 0 && path[0] == kid && paths.contains(
            path.drop_first(),
        ),
{
    let longer = prefixed(kid, paths);
    if longer.contains(path) {
        let i = choose|i: int| 0 <= i < longer.len() && longer[i] == path;
        assert(path.drop_first() =~= paths[i]);
    }
    if path.len() > 0 && path[0] == kid && paths.contains(path.drop_first()) {
        let i = choose|i: int| 0 <= i < paths.len() && paths[i] == path.drop_first();
        assert(longer[i] =~= path);
    }
}

/// Every path that leads to a flow of a tree is among its paths in preorder, and no other.
pub proof fn law_preorder_paths_lead_everywhere(flow: AnyFlow, path: Seq<int>)
    ensures
        preorder_paths(flow).contains(path) <==> leads_to(flow, path),
    decreases flow, 0nat,
{
    let root = seq![Seq::<int>::empty()];
    let below = preorder_paths_of(flow.kids());
    lemma_preorder_paths_of_kids(flow.kids(), path);
    lemma_contained_in_either(root, below, path);
    assert(root.contains(path) <==> path.len() == 0) by {
        assert(root[0] == Seq::<int>::empty());
        if path.len() == 0 {
            assert(path =~= root[0]);
        }
    }
}

/// The same for the paths below some siblings, which start with the index of a sibling.
proof fn lemma_preorder_paths_of_kids(kids: Seq<AnyFlow>, path: Seq<int>)
    ensures
        preorder_paths_of(kids).contains(path) <==> path.len() > 0 && 0 <= path[0] < kids.len()
            && leads_to(kids[path[0]], path.drop_first()),
    decreases kids, 1nat,
{
    if kids.len() > 0 {
        let kid = kids.len() - 1;
        let front = preorder_paths_of(kids.drop_last());
        let own = preorder_paths(kids.last());
        lemma_preorder_paths_of_kids(kids.drop_last(), path);
        law_preorder_paths_lead_everywhere(kids.last(), path.drop_first());
        lemma_contained_in_either(front, prefixed(kid, own), path);
        lemma_contained_in_prefixed(kid, own, path);
    }
}

/// The paths of a tree in preorder come one behind the other in preorder, each of them once.
pub proof fn law_preorder_paths_are_in_order(flow: AnyFlow)
    ensures
        forall|i: int, k: int|
            0 <= i < k < preorder_paths(flow).len() ==> before_in_preorder(
                #[trigger] preorder_paths(flow)[i],
                #[trigger] preorder_paths(flow)[k],
            ),
    decreases flow, 0nat,
{
    let kids = flow.kids();
    let below = preorder_paths_of(kids);
    lemma_preorder_paths_of_kids_in_order(kids);
    assert forall|i: int, k: int|
        0 <= i < k < preorder_paths(flow).len() implies before_in_preorder(
        #[trigger] preorder_paths(flow)[i],
        #[trigger] preorder_paths(flow)[k],
    ) by {
        assert(preorder_paths(flow)[k] == below[k - 1]);
        lemma_preorder_paths_of_kids(kids, below[k - 1]);
        assert(below.contains(below[k - 1]));
        if i > 0 {
            assert(before_in_preorder(below[i - 1], below[k - 1]));
        }
    }
}

/// The same for the paths below some siblings.
proof fn lemma_preorder_paths_of_kids_in_order(kids: Seq<AnyFlow>)
    ensures
        forall|i: int, k: int|
            0 <= i < k < preorder_paths_of(kids).len() ==> before_in_preorder(
                #[trigger] preorder_paths_of(kids)[i],
                #[trigger] preorder_paths_of(kids)[k],
            ),
    decreases kids, 1nat,
{
    if kids.len() > 0 {
        let kid = kids.len() - 1;
        let front = preorder_paths_of(kids.drop_last());
        let own = preorder_paths(kids.last());
        lemma_preorder_paths_of_kids_in_order(kids.drop_last());
        law_preorder_paths_are_in_order(kids.last());
        assert forall|i: int, k: int|
        0 <= i < k < preorder_paths_of(kids).len() implies before_in_preorder(
            #[trigger] preorder_paths_of(kids)[i],
            #[trigger] preorder_paths_of(kids)[k],
        ) by {
            if k < front.len() {
                assert(before_in_preorder(front[i], front[k]));
            } else {
                let after = own[k - front.len()];
                assert((seq![kid] + after).drop_first() =~= after);
                if i < front.len() {
                    lemma_preorder_paths_of_kids(kids.drop_last(), front[i]);
                    assert(front.contains(front[i]));
                } else {
                    let before = own[i - front.len()];
                    assert((seq![kid] + before).drop_first() =~= before);
                    assert(before_in_preorder(before, after));
                }
            }
        }
    }
}

/// Every path that leads to a flow of a tree is among its paths in postorder, and no other.
pub proof fn law_postorder_paths_lead_everywhere(flow: AnyFlow, path: Seq<int>)
    ensures
        postorder_paths(flow).contains(path) <==> leads_to(flow, path),
    decreases flow, 0nat,
{
    let root = seq![Seq::<int>::empty()];
    let below = postorder_paths_of(flow.kids());
    lemma_postorder_paths_of_kids(flow.kids(), path);
    lemma_contained_in_either(below, root, path);
    assert(root.contains(path) <==> path.len() == 0) by {
        assert(root[0] == Seq::<int>::empty());
        if path.len() == 0 {
            assert(path =~= root[0]);
        }
    }
}

/// The same for the paths below some siblings, which start with the index of a sibling.
proof fn lemma_postorder_paths_of_kids(kids: Seq<AnyFlow>, path: Seq<int>)
    ensures
        postorder_paths_of(kids).contains(path) <==> path.len() > 0 && 0 <= path[0] < kids.len()
            && leads_to(kids[path[0]], path.drop_first()),
    decreases kids, 1nat,
{
    if kids.len() > 0 {
        let kid = kids.len() - 1;
        let front = postorder_paths_of(kids.drop_last());
        let own = postorder_paths(kids.last());
        lemma_postorder_paths_of_kids(kids.drop_last(), path);
        law_postorder_paths_lead_everywhere(kids.last(), path.drop_first());
        lemma_contained_in_either(front, prefixed(kid, own), path);
        lemma_contained_in_prefixed(kid, own, path);
    }
}

/// The paths of a tree in postorder come one behind the other in postorder, each of them once.
pub proof fn law_postorder_paths_are_in_order(flow: AnyFlow)
    ensures
        forall|i: int, k: int|
            0 <= i < k < postorder_paths(flow).len() ==> before_in_postorder(
                #[trigger] postorder_paths(flow)[i],
                #[trigger] postorder_paths(flow)[k],
            ),
    decreases flow, 0nat,
{
    let kids = flow.kids();
    let below = postorder_paths_of(kids);
    lemma_postorder_paths_of_kids_in_order(kids);
    assert forall|i: int, k: int|
        0 <= i < k < postorder_paths(flow).len() implies before_in_postorder(
        #[trigger] postorder_paths(flow)[i],
        #[trigger] postorder_paths(flow)[k],
    ) by {
        assert(i < below.len());
        lemma_postorder_paths_of_kids(kids, below[i]);
        assert(below.contains(below[i]));
        if k < below.len() {
            assert(before_in_postorder(below[i], below[k]));
        }
    }
}

/// The same for the paths below some siblings.
proof fn lemma_postorder_paths_of_kids_in_order(kids: Seq<AnyFlow>)
    ensures
        forall|i: int, k: int|
            0 <= i < k < postorder_paths_of(kids).len() ==> before_in_postorder(
                #[trigger] postorder_paths_of(kids)[i],
                #[trigger] postorder_paths_of(kids)[k],
            ),
    decreases kids, 1nat,
{
    if kids.len() > 0 {
        let kid = kids.len() - 1;
        let front = postorder_paths_of(kids.drop_last());
        let own = postorder_paths(kids.last());
        lemma_postorder_paths_of_kids_in_order(kids.drop_last());
        law_postorder_paths_are_in_order(kids.last());
        assert forall|i: int, k: int|
        0 <= i < k < postorder_paths_of(kids).len() implies before_in_postorder(
            #[trigger] postorder_paths_of(kids)[i],
            #[trigger] postorder_paths_of(kids)[k],
        ) by {
            if k < front.len() {
                assert(before_in_postorder(front[i], front[k]));
            } else {
                let after = own[k - front.len()];
                assert((seq![kid] + after).drop_first() =~= after);
                if i < front.len() {
                    lemma_postorder_paths_of_kids(kids.drop_last(), front[i]);
                    assert(front.contains(front[i]));
                } else {
                    let before = own[i - front.len()];
                    assert((seq![kid] + before).drop_first() =~= before);
                    assert(before_in_postorder(before, after));
                }
            }
        }
    }
}

/// The first call finds the traversal as it was before the run, each other one as the call before
/// it left it, and the last one leaves it as it is after the run.
pub proof fn law_calls_follow_on_each_other<T>(before: T, log: Seq<Visit<T>>, after: T)
    requires
        threaded(before, log, after),
    ensures
        log.len() == 0 ==> before == after,
        log.len() > 0 ==> log[0].before == before && log[log.len() - 1].after == after,
        forall|i: int| 0 < i < log.len() ==> (#[trigger] log[i]).before == log[i - 1].after,
    decreases log.len(),
{
    if log.len() > 0 {
        let front = log.drop_last();
        law_calls_follow_on_each_other(before, front, log.last().before);
        assert forall|i: int| 0 < i < log.len() implies (#[trigger] log[i]).before == log[i
            - 1].after by {
            assert(log[i - 1] == front[i - 1]);
            if i < log.len() - 1 {
                assert(log[i] == front[i]);
            }
        }
    }
}

/// All of a flow but for its children.
pub open spec fn own_part(flow: AnyFlow) -> FlowView {
    flow@.with_children(Seq::empty())
}

/// The two trees are the same: their roots are, but for the children, and the children are the same
/// trees, first to last.
pub open spec fn same_tree(first: AnyFlow, second: AnyFlow) -> bool
    decreases first,
{
    &&& own_part(first) == own_part(second)
    &&& first.kids().len() == second.kids().len()
    &&& forall|j: int|
        0 <= j < first.kids().len() ==> same_tree(#[trigger] first.kids()[j], second.kids()[j])
}

/// A tree is the same as itself.
pub proof fn lemma_same_tree(flow: AnyFlow)
    ensures
        same_tree(flow, flow),
    decreases flow,
{
    assert forall|j: int| 0 <= j < flow.kids().len() implies same_tree(
        #[trigger] flow.kids()[j],
        flow.kids()[j],
    ) by {
        lemma_same_tree(flow.kids()[j]);
    }
}

/// `call` was called on the flow at `path`.
pub open spec fn called_at<T>(log: Seq<Visit<T>>, call: Call, path: Seq<int>) -> bool {
    exists|i: int| 0 <= i < log.len() && (#[trigger] log[i]).call == call && log[i].path == path
}

/// The call at `k` got the flow as the call just before it left that.
pub open spec fn handed_on<T>(log: Seq<Visit<T>>, k: int) -> bool {
    k > 0 && log[k].flow == log[k - 1].result
}

/// What the run over a child called is called in the whole run too.
proof fn lemma_called_at_below<T>(
    log: Seq<Visit<T>>,
    first: int,
    runs: Seq<Seq<Visit<T>>>,
    j: int,
    call: Call,
    path: Seq<int>,
)
    requires
        0 <= first,
        0 <= j < runs.len(),
        first + joined(runs).len() <= log.len(),
        log.subrange(first, (first + joined(runs).len()) as int) == joined(runs),
        called_at(runs[j], call, path),
    ensures
        called_at(log, call, seq![j] + path),
{
    let m = choose|m: int|
        0 <= m < runs[j].len() && (#[trigger] runs[j][m]).call == call && runs[j][m].path == path;
    lemma_in_run(runs, j, m);
    let k = start(runs, j) + m;
    assert(log.subrange(first, (first + joined(runs).len()) as int)[k] == log[first + k]);
    assert(log[first + k] == under(j, runs[j])[m]);
}

/// What comes before in preorder from the child does so from the parent.
proof fn lemma_before_below(kid: int, p: Seq<int>, q: Seq<int>)
    requires
        before_in_preorder(p, q),
    ensures
        before_in_preorder(seq![kid] + p, seq![kid] + q),
{
    assert((seq![kid] + p).drop_first() =~= p);
    assert((seq![kid] + q).drop_first() =~= q);
}

/// In a preorder run the calls get the flows as the calls before them left them. `should_prune`
/// gets the root as it was before the run, and any other flow as `process` left it to its parent;
/// `process` gets a flow as `should_prune` left it.
#[verifier::rlimit(30)]
pub proof fn law_preorder_hands_flows_on<T>(
    flow: AnyFlow,
    log: Seq<Visit<T>>,
    result: AnyFlow,
    done: bool,
)
    requires
        preorder(flow, log, result, done),
    ensures
        forall|k: int|
            0 <= k < log.len() && (#[trigger] log[k]).call == Call::ShouldPrune
                && log[k].path.len() == 0 ==> log[k].flow == flow,
        forall|k: int|
            0 <= k < log.len() && log[k].call == Call::Process ==> #[trigger] handed_on(log, k),
        forall|k: int|
            0 <= k < log.len() && (#[trigger] log[k]).call == Call::ShouldPrune
                && log[k].path.len() > 0 ==> called_at(
                log,
                Call::Process,
                log[k].path.drop_last(),
            ),
        forall|i: int, k: int|
            0 <= i < log.len() && 0 <= k < log.len() && (#[trigger] log[i]).call == Call::Process
                && (#[trigger] log[k]).call == Call::ShouldPrune && log[k].path.len() > 0
                && log[k].path.drop_last() == log[i].path ==> {
                &&& 0 <= log[k].path.last() < log[i].result.kids().len()
                &&& log[k].flow == log[i].result.kids()[log[k].path.last()]
            },
    decreases log.len(),
{
    lemma_preorder_head(flow, log, result, done);
    if !log[0].answer && log[1].answer {
        let runs = split_preorder(flow, log, result, done);
        let kids = log[1].result.kids();
        assert(log.subrange(2, (2 + joined(runs).len()) as int) =~= joined(runs));
        assert forall|k: int| 2 <= k < log.len() implies (#[trigger] log[k]).path.len() > 0 by {
            let (j, m) = find_run(runs, k - 2);
        }
        assert forall|k: int|
            0 <= k < log.len() && log[k].call == Call::Process implies #[trigger] handed_on(
            log,
            k,
        ) by {
            if k >= 2 {
                let (j, m) = find_run(runs, k - 2);
                law_preorder_hands_flows_on(
                    kids[j],
                    runs[j],
                    result.kids()[j],
                    done || j < runs.len() - 1,
                );
                assert(handed_on(runs[j], m));
                lemma_in_run(runs, j, m - 1);
                assert(log[k - 1] == under(j, runs[j])[m - 1]);
            }
        }
        assert forall|k: int|
            0 <= k < log.len() && (#[trigger] log[k]).call == Call::ShouldPrune
                && log[k].path.len() > 0 implies called_at(
            log,
            Call::Process,
            log[k].path.drop_last(),
        ) by {
            let (j, m) = find_run(runs, k - 2);
            let below = runs[j][m].path;
            if below.len() == 0 {
                assert(log[k].path.drop_last() =~= log[1].path);
            } else {
                law_preorder_hands_flows_on(
                    kids[j],
                    runs[j],
                    result.kids()[j],
                    done || j < runs.len() - 1,
                );
                assert(runs[j][m].call == Call::ShouldPrune);
                lemma_called_at_below(log, 2, runs, j, Call::Process, below.drop_last());
                assert(log[k].path.drop_last() =~= seq![j] + below.drop_last());
            }
        }
        assert forall|i: int, k: int|
            0 <= i < log.len() && 0 <= k < log.len() && (#[trigger] log[i]).call == Call::Process
                && (#[trigger] log[k]).call == Call::ShouldPrune && log[k].path.len() > 0
                && log[k].path.drop_last() == log[i].path implies {
            &&& 0 <= log[k].path.last() < log[i].result.kids().len()
            &&& log[k].flow == log[i].result.kids()[log[k].path.last()]
        } by {
            let (j, m) = find_run(runs, k - 2);
            law_preorder_hands_flows_on(
                kids[j],
                runs[j],
                result.kids()[j],
                done || j < runs.len() - 1,
            );
            assert(runs[j][m].call == Call::ShouldPrune);
            let below = runs[j][m].path;
            if i >= 2 {
                let (j1, m1) = find_run(runs, i - 2);
                assert(log[k].path.drop_last()[0] == log[i].path[0]);
                assert(j1 == j);
                assert(runs[j][m1].call == Call::Process);
                assert(runs[j][m1].path =~= log[i].path.drop_first());
                assert(below.drop_last() =~= runs[j][m1].path);
                assert(below.last() == log[k].path.last());
            } else {
                assert(log[k].path.len() == 1);
                assert(below.len() == 0);
            }
        }
    }
}

/// In a preorder run all the children that `process` left to a flow are come by where it told the
/// run to go on, but for those that come behind the flow at which the run was stopped.
pub proof fn law_preorder_comes_by_all_children<T>(
    flow: AnyFlow,
    log: Seq<Visit<T>>,
    result: AnyFlow,
    done: bool,
)
    requires
        preorder(flow, log, result, done),
    ensures
        log.len() > 0,
        forall|i: int, j: int|
            0 <= i < log.len() && log[i].call == Call::Process && log[i].answer && 0 <= j
                < log[i].result.kids().len() ==> {
                ||| called_at(log, Call::ShouldPrune, (#[trigger] log[i]).path.push(j))
                ||| !done && before_in_preorder(
                    log[log.len() - 1].path,
                    #[trigger] log[i].path.push(j),
                )
            },
    decreases log.len(),
{
    lemma_preorder_head(flow, log, result, done);
    if !log[0].answer && log[1].answer {
        let runs = split_preorder(flow, log, result, done);
        let kids = log[1].result.kids();
        assert(log.subrange(2, (2 + joined(runs).len()) as int) =~= joined(runs));
        let end = runs.len() - 1;
        if runs.len() > 0 {
            lemma_preorder_head(kids[end], runs[end], result.kids()[end], done);
            assert(joined(runs).last() == under(end, runs[end]).last());
            assert(log[log.len() - 1] == joined(runs).last());
            assert(log[log.len() - 1].path == seq![end] + runs[end].last().path);
        }
        assert forall|i: int, j: int|
            0 <= i < log.len() && log[i].call == Call::Process && log[i].answer && 0 <= j
                < log[i].result.kids().len() implies {
            ||| called_at(log, Call::ShouldPrune, (#[trigger] log[i]).path.push(j))
            ||| !done && before_in_preorder(
                log[log.len() - 1].path,
                #[trigger] log[i].path.push(j),
            )
        } by {
            if i < 2 {
                if j < runs.len() {
                    lemma_preorder_head(
                        kids[j],
                        runs[j],
                        result.kids()[j],
                        done || j < runs.len() - 1,
                    );
                    assert(called_at(runs[j], Call::ShouldPrune, Seq::empty()));
                    lemma_called_at_below(log, 2, runs, j, Call::ShouldPrune, Seq::empty());
                    assert(log[i].path.push(j) =~= seq![j] + Seq::<int>::empty());
                } else {
                    assert(log[log.len() - 1].path[0] == end);
                    assert(log[i].path.push(j)[0] == j);
                }
            } else {
                let (kid, m) = find_run(runs, i - 2);
                let go_on = done || kid < runs.len() - 1;
                law_preorder_comes_by_all_children(kids[kid], runs[kid], result.kids()[kid], go_on);
                let below = runs[kid][m].path.push(j);
                assert(runs[kid][m].call == Call::Process);
                assert(log[i].path.push(j) =~= seq![kid] + below);
                if called_at(runs[kid], Call::ShouldPrune, below) {
                    lemma_called_at_below(log, 2, runs, kid, Call::ShouldPrune, below);
                } else {
                    lemma_before_below(kid, runs[kid][runs[kid].len() - 1].path, below);
                }
            }
        }
    }
}

/// A preorder run changes the flows by its calls alone. A flow that was processed is left as
/// `process` left it, but for its children where the run went on to them, and those of them that it
/// did not come by stay too. A pruned flow is left as `should_prune` left it.
#[verifier::rlimit(30)]
pub proof fn law_preorder_leaves_flows_as_processed<T>(
    flow: AnyFlow,
    log: Seq<Visit<T>>,
    result: AnyFlow,
    done: bool,
)
    requires
        preorder(flow, log, result, done),
    ensures
        forall|i: int| 0 <= i < log.len() ==> leads_to(result, (#[trigger] log[i]).path),
        forall|i: int|
            0 <= i < log.len() && (#[trigger] log[i]).call == Call::Process ==> {
                let left = flow_at(result, log[i].path);
                &&& own_part(left) == own_part(log[i].result)
                &&& left.kids().len() == log[i].result.kids().len()
                &&& !log[i].answer ==> left == log[i].result
                &&& forall|j: int|
                    0 <= j < left.kids().len() && !called_at(
                        log,
                        Call::ShouldPrune,
                        log[i].path.push(j),
                    ) ==> #[trigger] left.kids()[j] == log[i].result.kids()[j]
            },
        forall|i: int|
            0 <= i < log.len() && (#[trigger] log[i]).call == Call::ShouldPrune && log[i].answer
                ==> flow_at(result, log[i].path) == log[i].result,
    decreases log.len(),
{
    lemma_preorder_head(flow, log, result, done);
    if !log[0].answer && log[1].answer {
        let runs = split_preorder(flow, log, result, done);
        let kids = log[1].result.kids();
        assert(log.subrange(2, (2 + joined(runs).len()) as int) =~= joined(runs));
        assert(result.kids().len() == kids.len());
        assert forall|i: int| 2 <= i < log.len() implies {
            let left = flow_at(result, (#[trigger] log[i]).path);
            let visit = log[i];
            &&& leads_to(result, visit.path)
            &&& visit.call == Call::ShouldPrune && visit.answer ==> left == visit.result
            &&& visit.call == Call::Process ==> {
                &&& own_part(left) == own_part(visit.result)
                &&& left.kids().len() == visit.result.kids().len()
                &&& !visit.answer ==> left == visit.result
                &&& forall|j: int|
                    0 <= j < left.kids().len() && !called_at(
                        log,
                        Call::ShouldPrune,
                        visit.path.push(j),
                    ) ==> #[trigger] left.kids()[j] == visit.result.kids()[j]
            }
        } by {
            let (kid, m) = find_run(runs, i - 2);
            let tree = result.kids()[kid];
            law_preorder_leaves_flows_as_processed(
                kids[kid],
                runs[kid],
                tree,
                done || kid < runs.len() - 1,
            );
            let below = runs[kid][m].path;
            assert(log[i].path.drop_first() =~= below);
            assert(log[i].path[0] == kid);
            assert(flow_at(result, log[i].path) == flow_at(tree, below));
            assert(leads_to(tree, below));
            let left = flow_at(tree, below);
            if log[i].call == Call::Process {
                assert(runs[kid][m].call == Call::Process);
                assert forall|j: int|
                    0 <= j < left.kids().len() && !called_at(
                        log,
                        Call::ShouldPrune,
                        log[i].path.push(j),
                    ) implies #[trigger] left.kids()[j] == log[i].result.kids()[j] by {
                    assert(log[i].path.push(j) =~= seq![kid] + below.push(j));
                    if called_at(runs[kid], Call::ShouldPrune, below.push(j)) {
                        lemma_called_at_below(
                            log,
                            2,
                            runs,
                            kid,
                            Call::ShouldPrune,
                            below.push(j),
                        );
                    }
                }
            }
        }
        assert(own_part(result) == own_part(log[1].result));
        assert(flow_at(result, log[1].path) == result);
        assert forall|j: int|
            0 <= j < result.kids().len() && !called_at(
                log,
                Call::ShouldPrune,
                log[1].path.push(j),
            ) implies #[trigger] result.kids()[j] == log[1].result.kids()[j] by {
            if j < runs.len() {
                lemma_preorder_head(kids[j], runs[j], result.kids()[j], done || j < runs.len() - 1);
                assert(called_at(runs[j], Call::ShouldPrune, Seq::empty()));
                lemma_called_at_below(log, 2, runs, j, Call::ShouldPrune, Seq::empty());
                assert(log[1].path.push(j) =~= seq![j] + Seq::<int>::empty());
            }
        }
    }
}

/// A preorder run whose calls leave each flow as it is leaves the tree as it is.
pub proof fn law_preorder_of_idle_calls_changes_nothing<T>(
    flow: AnyFlow,
    log: Seq<Visit<T>>,
    result: AnyFlow,
    done: bool,
)
    requires
        preorder(flow, log, result, done),
        forall|i: int| 0 <= i < log.len() ==> (#[trigger] log[i]).result == log[i].flow,
    ensures
        same_tree(flow, result),
    decreases log.len(),
{
    lemma_preorder_head(flow, log, result, done);
    lemma_same_tree(flow);
    assert(log[0].result == log[0].flow);
    if !log[0].answer {
        assert(log[1].result == log[1].flow);
        if log[1].answer {
            let runs = split_preorder(flow, log, result, done);
            let kids = flow.kids();
            assert(log.subrange(2, (2 + joined(runs).len()) as int) =~= joined(runs));
            assert forall|j: int| 0 <= j < kids.len() implies same_tree(
                #[trigger] kids[j],
                result.kids()[j],
            ) by {
                if j < runs.len() {
                    assert forall|m: int| 0 <= m < runs[j].len() implies (
                    #[trigger] runs[j][m]).result == runs[j][m].flow by {
                        lemma_in_run(runs, j, m);
                        assert(log[2 + start(runs, j) + m] == under(j, runs[j])[m]);
                    }
                    law_preorder_of_idle_calls_changes_nothing(
                        kids[j],
                        runs[j],
                        result.kids()[j],
                        done || j < runs.len() - 1,
                    );
                } else {
                    lemma_same_tree(kids[j]);
                }
            }
        }
    }
}

/// Where a flow among the runs joined is the parent of another one, which is in the run over the
/// child of index `j`, it is in that run too, or the other one is the root of it.
proof fn lemma_from_one_kid<T>(
    runs: Seq<Seq<Visit<T>>>,
    j: int,
    m: int,
    k: int,
    path: Seq<int>,
    parent: Seq<int>,
)
    requires
        0 <= j < runs.len(),
        0 <= m < runs[j].len(),
        path == seq![j] + runs[j][m].path,
        path.drop_last() == parent,
        if k < 0 {
            parent.len() == 0
        } else {
            k < joined(runs).len() && parent == joined(runs)[k].path
        },
    ensures
        k < 0 ==> runs[j][m].path.len() == 0 && path.last() == j,
        k >= 0 ==> exists|n: int|
            {
                &&& 0 <= n < runs[j].len()
                &&& joined(runs)[k] == (Visit {
                    path: seq![j] + (#[trigger] runs[j][n]).path,
                    ..runs[j][n]
                })
                &&& runs[j][m].path.len() > 0
                &&& runs[j][m].path.drop_last() == runs[j][n].path
                &&& runs[j][m].path.last() == path.last()
            },
{
    if k >= 0 {
        let (j1, n) = find_run(runs, k);
        assert(parent == seq![j1] + runs[j1][n].path);
        assert(parent.len() > 0);
        assert(path.drop_last()[0] == path[0]);
        assert(runs[j][m].path.drop_last() =~= parent.drop_first());
        assert(runs[j][n].path =~= parent.drop_first());
    }
}

/// The run made no further call on the flow of this visit.
pub open spec fn last_on_its_flow<T>(visit: Visit<T>) -> bool {
    match visit.call {
        Call::ShouldPrune => visit.answer,
        Call::ShouldProcess => !visit.answer,
        Call::Process => true,
    }
}

/// The calls that a postorder run makes on the root of the tree.
proof fn lemma_postorder_root<T>(flow: AnyFlow, log: Seq<Visit<T>>, result: AnyFlow, done: bool)
    requires
        postorder(flow, log, result, done),
    ensures
        forall|k: int|
            0 <= k < log.len() && (#[trigger] log[k]).path.len() == 0 ==> {
                &&& log[k].call == Call::ShouldPrune ==> k == 0
                &&& last_on_its_flow(log[k]) ==> result == log[k].result
            },
        done ==> log.last().path.len() == 0 && last_on_its_flow(log.last()),
{
    lemma_postorder_head(flow, log, result, done);
    if !log[0].answer {
        let (runs, rest, mid, kids_done) = split_postorder(flow, log, result, done);
        let len: int = joined(runs).len() as int;
        assert forall|i: int| 1 + len <= i < log.len() implies #[trigger] log[i] == rest[i - 1
            - len] by {}
        assert forall|k: int| 1 <= k < 1 + len implies (#[trigger] log[k]).path.len() > 0 by {
            let (j, m) = find_run(runs, k - 1);
        }
    }
}

/// In a postorder run `should_prune` is called on a flow only where it was called on its parent.
pub proof fn law_postorder_comes_by_parents<T>(
    flow: AnyFlow,
    log: Seq<Visit<T>>,
    result: AnyFlow,
    done: bool,
)
    requires
        postorder(flow, log, result, done),
    ensures
        forall|k: int|
            0 <= k < log.len() && (#[trigger] log[k]).call == Call::ShouldPrune
                && log[k].path.len() > 0 ==> called_at(
                log,
                Call::ShouldPrune,
                log[k].path.drop_last(),
            ),
    decreases log.len(),
{
    lemma_postorder_head(flow, log, result, done);
    if !log[0].answer {
        let (runs, rest, mid, kids_done) = split_postorder(flow, log, result, done);
        let kids = log[0].result.kids();
        let len: int = joined(runs).len() as int;
        assert(log.subrange(1, 1 + len) =~= joined(runs));
        assert forall|i: int| 1 + len <= i < log.len() implies #[trigger] log[i] == rest[i - 1
            - len] by {}
        assert forall|k: int| 1 <= k < 1 + len implies (#[trigger] log[k]).path.len() > 0 by {
            let (j, m) = find_run(runs, k - 1);
        }
        assert forall|k: int|
            0 <= k < log.len() && (#[trigger] log[k]).call == Call::ShouldPrune
                && log[k].path.len() > 0 implies called_at(
            log,
            Call::ShouldPrune,
            log[k].path.drop_last(),
        ) by {
            let (j, m) = find_run(runs, k - 1);
            let below = runs[j][m].path;
            if below.len() == 0 {
                assert(log[k].path.drop_last() =~= log[0].path);
            } else {
                law_postorder_comes_by_parents(
                    kids[j],
                    runs[j],
                    mid.kids()[j],
                    kids_done || j < runs.len() - 1,
                );
                assert(runs[j][m].call == Call::ShouldPrune);
                lemma_called_at_below(log, 1, runs, j, Call::ShouldPrune, below.drop_last());
                assert(log[k].path.drop_last() =~= seq![j] + below.drop_last());
            }
        }
    }
}

/// In a postorder run `should_prune` gets the root as it was before the run, and any other flow as
/// `should_prune` left it to its parent.
#[verifier::rlimit(30)]
pub proof fn law_postorder_hands_flows_down<T>(
    flow: AnyFlow,
    log: Seq<Visit<T>>,
    result: AnyFlow,
    done: bool,
)
    requires
        postorder(flow, log, result, done),
    ensures
        forall|k: int|
            0 <= k < log.len() && (#[trigger] log[k]).call == Call::ShouldPrune
                && log[k].path.len() == 0 ==> log[k].flow == flow,
        forall|i: int, k: int|
            0 <= i < log.len() && 0 <= k < log.len() && (#[trigger] log[i]).call
                == Call::ShouldPrune && (#[trigger] log[k]).call == Call::ShouldPrune
                && log[k].path.len() > 0 && log[k].path.drop_last() == log[i].path ==> {
                &&& 0 <= log[k].path.last() < log[i].result.kids().len()
                &&& log[k].flow == log[i].result.kids()[log[k].path.last()]
            },
    decreases log.len(),
{
    lemma_postorder_head(flow, log, result, done);
    if !log[0].answer {
        let (runs, rest, mid, kids_done) = split_postorder(flow, log, result, done);
        let kids = log[0].result.kids();
        let len: int = joined(runs).len() as int;
        assert(log.subrange(1, 1 + len) =~= joined(runs));
        assert forall|i: int| 1 + len <= i < log.len() implies #[trigger] log[i] == rest[i - 1
            - len] by {}
        assert forall|k: int| 1 <= k < 1 + len implies (#[trigger] log[k]).path.len() > 0 by {
            let (j, m) = find_run(runs, k - 1);
        }
        assert forall|i: int, k: int|
            0 <= i < log.len() && 0 <= k < log.len() && (#[trigger] log[i]).call
                == Call::ShouldPrune && (#[trigger] log[k]).call == Call::ShouldPrune
                && log[k].path.len() > 0 && log[k].path.drop_last() == log[i].path implies {
            &&& 0 <= log[k].path.last() < log[i].result.kids().len()
            &&& log[k].flow == log[i].result.kids()[log[k].path.last()]
        } by {
            let (j, m) = find_run(runs, k - 1);
            law_postorder_hands_flows_down(
                kids[j],
                runs[j],
                mid.kids()[j],
                kids_done || j < runs.len() - 1,
            );
            assert(runs[j][m].call == Call::ShouldPrune);
            lemma_from_one_kid(runs, j, m, i - 1, log[k].path, log[i].path);
        }
    }
}

/// In a postorder run `process` gets a flow as `should_process` left it, and `should_process` is
/// called only where `should_prune` was.
#[verifier::rlimit(30)]
pub proof fn law_postorder_processes_what_the_question_left<T>(
    flow: AnyFlow,
    log: Seq<Visit<T>>,
    result: AnyFlow,
    done: bool,
)
    requires
        postorder(flow, log, result, done),
    ensures
        forall|k: int|
            0 <= k < log.len() && log[k].call == Call::Process ==> #[trigger] handed_on(log, k),
        forall|k: int|
            0 <= k < log.len() && (#[trigger] log[k]).call == Call::ShouldProcess ==> called_at(
                log,
                Call::ShouldPrune,
                log[k].path,
            ),
    decreases log.len(),
{
    lemma_postorder_head(flow, log, result, done);
    if !log[0].answer {
        let (runs, rest, mid, kids_done) = split_postorder(flow, log, result, done);
        let kids = log[0].result.kids();
        let len: int = joined(runs).len() as int;
        assert(log.subrange(1, 1 + len) =~= joined(runs));
        assert forall|i: int| 1 + len <= i < log.len() implies #[trigger] log[i] == rest[i - 1
            - len] by {}
        assert forall|k: int| 1 <= k < 1 + len implies (#[trigger] log[k]).path.len() > 0 by {
            let (j, m) = find_run(runs, k - 1);
        }
        assert forall|k: int|
            0 <= k < log.len() && log[k].call == Call::Process implies #[trigger] handed_on(
            log,
            k,
        ) by {
            if k < 1 + len {
                let (j, m) = find_run(runs, k - 1);
                law_postorder_processes_what_the_question_left(
                    kids[j],
                    runs[j],
                    mid.kids()[j],
                    kids_done || j < runs.len() - 1,
                );
                assert(handed_on(runs[j], m));
                lemma_in_run(runs, j, m - 1);
                assert(log[k - 1] == under(j, runs[j])[m - 1]);
            } else {
                assert(log[k - 1] == rest[k - 2 - len]);
            }
        }
        assert forall|k: int|
            0 <= k < log.len() && (#[trigger] log[k]).call == Call::ShouldProcess implies called_at(
            log,
            Call::ShouldPrune,
            log[k].path,
        ) by {
            if k < 1 + len {
                let (j, m) = find_run(runs, k - 1);
                law_postorder_processes_what_the_question_left(
                    kids[j],
                    runs[j],
                    mid.kids()[j],
                    kids_done || j < runs.len() - 1,
                );
                assert(runs[j][m].call == Call::ShouldProcess);
                lemma_called_at_below(log, 1, runs, j, Call::ShouldPrune, runs[j][m].path);
            } else {
                assert(log[k].path == log[0].path);
            }
        }
    }
}

/// In a postorder run `should_process` gets a flow as `should_prune` left it, but for the children.
#[verifier::rlimit(30)]
pub proof fn law_postorder_keeps_flows_over_their_children<T>(
    flow: AnyFlow,
    log: Seq<Visit<T>>,
    result: AnyFlow,
    done: bool,
)
    requires
        postorder(flow, log, result, done),
    ensures
        forall|i: int, k: int|
            0 <= i < log.len() && 0 <= k < log.len() && (#[trigger] log[i]).call
                == Call::ShouldPrune && (#[trigger] log[k]).call == Call::ShouldProcess
                && log[k].path == log[i].path ==> {
                &&& own_part(log[k].flow) == own_part(log[i].result)
                &&& log[k].flow.kids().len() == log[i].result.kids().len()
            },
    decreases log.len(),
{
    lemma_postorder_head(flow, log, result, done);
    if !log[0].answer {
        let (runs, rest, mid, kids_done) = split_postorder(flow, log, result, done);
        let kids = log[0].result.kids();
        let len: int = joined(runs).len() as int;
        assert(log.subrange(1, 1 + len) =~= joined(runs));
        assert forall|i: int| 1 + len <= i < log.len() implies #[trigger] log[i] == rest[i - 1
            - len] by {}
        assert forall|k: int| 1 <= k < 1 + len implies (#[trigger] log[k]).path.len() > 0 by {
            let (j, m) = find_run(runs, k - 1);
        }
        assert forall|i: int, k: int|
            0 <= i < log.len() && 0 <= k < log.len() && (#[trigger] log[i]).call
                == Call::ShouldPrune && (#[trigger] log[k]).call == Call::ShouldProcess
                && log[k].path == log[i].path implies {
            &&& own_part(log[k].flow) == own_part(log[i].result)
            &&& log[k].flow.kids().len() == log[i].result.kids().len()
        } by {
            if k < 1 + len {
                let (j, m) = find_run(runs, k - 1);
                let (j1, m1) = find_run(runs, i - 1);
                assert(log[k].path[0] == j && log[i].path[0] == j1);
                law_postorder_keeps_flows_over_their_children(
                    kids[j],
                    runs[j],
                    mid.kids()[j],
                    kids_done || j < runs.len() - 1,
                );
                assert(log[k].path.drop_first() =~= runs[j][m].path);
                assert(log[i].path.drop_first() =~= runs[j][m1].path);
                assert(runs[j][m].call == Call::ShouldProcess);
                assert(runs[j][m1].call == Call::ShouldPrune);
            }
        }
    }
}

/// In a postorder run `should_process` gets a flow with each of its children as the last call on
/// that child left it.
#[verifier::rlimit(30)]
pub proof fn law_postorder_hands_children_up<T>(
    flow: AnyFlow,
    log: Seq<Visit<T>>,
    result: AnyFlow,
    done: bool,
)
    requires
        postorder(flow, log, result, done),
    ensures
        forall|i: int, k: int|
            0 <= i < log.len() && 0 <= k < log.len() && (#[trigger] log[i]).call
                == Call::ShouldProcess && last_on_its_flow(#[trigger] log[k])
                && log[k].path.len() > 0 && log[k].path.drop_last() == log[i].path ==> {
                &&& 0 <= log[k].path.last() < log[i].flow.kids().len()
                &&& log[i].flow.kids()[log[k].path.last()] == log[k].result
            },
    decreases log.len(),
{
    lemma_postorder_head(flow, log, result, done);
    if !log[0].answer {
        let (runs, rest, mid, kids_done) = split_postorder(flow, log, result, done);
        let kids = log[0].result.kids();
        let len: int = joined(runs).len() as int;
        assert(log.subrange(1, 1 + len) =~= joined(runs));
        assert forall|i: int| 1 + len <= i < log.len() implies #[trigger] log[i] == rest[i - 1
            - len] by {}
        assert forall|k: int| 1 <= k < 1 + len implies (#[trigger] log[k]).path.len() > 0 by {
            let (j, m) = find_run(runs, k - 1);
        }
        assert forall|i: int, k: int|
            0 <= i < log.len() && 0 <= k < log.len() && (#[trigger] log[i]).call
                == Call::ShouldProcess && last_on_its_flow(#[trigger] log[k])
                && log[k].path.len() > 0 && log[k].path.drop_last() == log[i].path implies {
            &&& 0 <= log[k].path.last() < log[i].flow.kids().len()
            &&& log[i].flow.kids()[log[k].path.last()] == log[k].result
        } by {
            let (j, m) = find_run(runs, k - 1);
            law_postorder_hands_children_up(
                kids[j],
                runs[j],
                mid.kids()[j],
                kids_done || j < runs.len() - 1,
            );
            lemma_postorder_root(
                kids[j],
                runs[j],
                mid.kids()[j],
                kids_done || j < runs.len() - 1,
            );
            assert(last_on_its_flow(runs[j][m]));
            if i < 1 + len {
                lemma_from_one_kid(runs, j, m, i - 1, log[k].path, log[i].path);
            } else {
                assert(log[k].path.len() == 1);
                assert(runs[j][m].path.len() == 0);
            }
        }
    }
}

/// One path leads below another from the child where it does so from the parent.
proof fn lemma_below_parent(kid: int, q: Seq<int>, p: Seq<int>)
    requires
        at_or_below(q, p),
    ensures
        at_or_below(seq![kid] + q, seq![kid] + p),
{
    let longer = (seq![kid] + q).take((1 + p.len()) as int);
    assert forall|d: int| 0 <= d < 1 + p.len() implies longer[d] == (seq![kid] + p)[d] by {
        if d > 0 {
            assert(q.take(p.len() as int)[d - 1] == p[d - 1]);
        }
    }
    assert(longer =~= seq![kid] + p);
}

/// A postorder run that stopped at a child stopped at the last call of the run over that child.
proof fn lemma_postorder_last<T>(
    log: Seq<Visit<T>>,
    runs: Seq<Seq<Visit<T>>>,
    rest: Seq<Visit<T>>,
)
    requires
        log.len() > 0,
        log == seq![log[0]] + joined(runs) + rest,
        rest.len() == 0,
        runs.len() > 0,
        runs.last().len() > 0,
    ensures
        log.last() == (Visit {
            path: seq![runs.len() - 1] + runs.last().last().path,
            ..runs.last().last()
        }),
{
    assert(joined(runs).last() == under(runs.len() - 1, runs.last()).last());
    assert(log.last() == joined(runs).last());
}

/// In a postorder run all the children that `should_prune` left to a flow that is not pruned are
/// come by, but for those that come behind the flow at which the run was stopped.
pub proof fn law_postorder_comes_by_all_children<T>(
    flow: AnyFlow,
    log: Seq<Visit<T>>,
    result: AnyFlow,
    done: bool,
)
    requires
        postorder(flow, log, result, done),
    ensures
        log.len() > 0,
        forall|i: int, j: int|
            0 <= i < log.len() && log[i].call == Call::ShouldPrune && !log[i].answer && 0 <= j
                < log[i].result.kids().len() ==> {
                ||| called_at(log, Call::ShouldPrune, (#[trigger] log[i]).path.push(j))
                ||| !done && before_in_preorder(log.last().path, #[trigger] log[i].path.push(j))
            },
    decreases log.len(),
{
    lemma_postorder_head(flow, log, result, done);
    if !log[0].answer {
        let (runs, rest, mid, kids_done) = split_postorder(flow, log, result, done);
        let kids = log[0].result.kids();
        let len: int = joined(runs).len() as int;
        assert(log.subrange(1, 1 + len) =~= joined(runs));
        assert forall|i: int| 1 + len <= i < log.len() implies #[trigger] log[i] == rest[i - 1
            - len] by {}
        let end = runs.len() - 1;
        if !kids_done {
            lemma_postorder_head(kids[end], runs[end], mid.kids()[end], false);
            lemma_postorder_last(log, runs, rest);
        }
        assert forall|i: int, j: int|
            0 <= i < log.len() && log[i].call == Call::ShouldPrune && !log[i].answer && 0 <= j
                < log[i].result.kids().len() implies {
            ||| called_at(log, Call::ShouldPrune, (#[trigger] log[i]).path.push(j))
            ||| !done && before_in_preorder(log.last().path, #[trigger] log[i].path.push(j))
        } by {
            if i < 1 {
                if j < runs.len() {
                    lemma_postorder_head(
                        kids[j],
                        runs[j],
                        mid.kids()[j],
                        kids_done || j < runs.len() - 1,
                    );
                    assert(called_at(runs[j], Call::ShouldPrune, Seq::empty()));
                    lemma_called_at_below(log, 1, runs, j, Call::ShouldPrune, Seq::empty());
                    assert(log[i].path.push(j) =~= seq![j] + Seq::<int>::empty());
                } else {
                    assert(log.last().path[0] == end);
                    assert(log[i].path.push(j)[0] == j);
                }
            } else {
                let (kid, m) = find_run(runs, i - 1);
                let go_on = kids_done || kid < runs.len() - 1;
                law_postorder_comes_by_all_children(kids[kid], runs[kid], mid.kids()[kid], go_on);
                let below = runs[kid][m].path.push(j);
                assert(runs[kid][m].call == Call::ShouldPrune);
                assert(log[i].path.push(j) =~= seq![kid] + below);
                if called_at(runs[kid], Call::ShouldPrune, below) {
                    lemma_called_at_below(log, 1, runs, kid, Call::ShouldPrune, below);
                } else {
                    lemma_before_below(kid, runs[kid].last().path, below);
                }
            }
        }
    }
}

/// In a postorder run `should_process` is called on every flow that is not pruned, but for those
/// above the flow at which the run was stopped.
pub proof fn law_postorder_comes_back_to_all_parents<T>(
    flow: AnyFlow,
    log: Seq<Visit<T>>,
    result: AnyFlow,
    done: bool,
)
    requires
        postorder(flow, log, result, done),
    ensures
        log.len() > 0,
        forall|i: int|
            0 <= i < log.len() && (#[trigger] log[i]).call == Call::ShouldPrune && !log[i].answer
                ==> {
                ||| called_at(log, Call::ShouldProcess, log[i].path)
                ||| !done && strictly_below(log.last().path, log[i].path)
            },
    decreases log.len(),
{
    lemma_postorder_head(flow, log, result, done);
    if !log[0].answer {
        let (runs, rest, mid, kids_done) = split_postorder(flow, log, result, done);
        let kids = log[0].result.kids();
        let len: int = joined(runs).len() as int;
        assert(log.subrange(1, 1 + len) =~= joined(runs));
        assert forall|i: int| 1 + len <= i < log.len() implies #[trigger] log[i] == rest[i - 1
            - len] by {}
        let end = runs.len() - 1;
        if !kids_done {
            lemma_postorder_head(kids[end], runs[end], mid.kids()[end], false);
            lemma_postorder_last(log, runs, rest);
        }
        assert forall|i: int|
            0 <= i < log.len() && (#[trigger] log[i]).call == Call::ShouldPrune
                && !log[i].answer implies {
            ||| called_at(log, Call::ShouldProcess, log[i].path)
            ||| !done && strictly_below(log.last().path, log[i].path)
        } by {
            if i < 1 {
                if kids_done {
                    assert(log[1 + len] == rest[0]);
                } else {
                    assert(log.last().path.take(0) =~= log[i].path);
                }
            } else {
                let (kid, m) = find_run(runs, i - 1);
                let go_on = kids_done || kid < runs.len() - 1;
                law_postorder_comes_back_to_all_parents(
                    kids[kid],
                    runs[kid],
                    mid.kids()[kid],
                    go_on,
                );
                let below = runs[kid][m].path;
                assert(runs[kid][m].call == Call::ShouldPrune);
                if called_at(runs[kid], Call::ShouldProcess, below) {
                    lemma_called_at_below(log, 1, runs, kid, Call::ShouldProcess, below);
                } else {
                    lemma_below_parent(kid, runs[kid].last().path, below);
                }
            }
        }
    }
}

/// After the visit at `k` no call was made on a flow above the flow of that visit.
pub open spec fn nothing_above_later<T>(log: Seq<Visit<T>>, k: int) -> bool {
    forall|i: int|
        k < i < log.len() ==> !strictly_below(log[k].path, (#[trigger] log[i]).path)
}

/// A postorder run changes the flows by its calls alone: a flow is left as the last call on it left
/// it, unless a later call on a flow above it changed it. So the last call of the run has the last
/// word on its flow, which is the root where the run is not stopped.
#[verifier::rlimit(30)]
pub proof fn law_postorder_leaves_flows_as_processed<T>(
    flow: AnyFlow,
    log: Seq<Visit<T>>,
    result: AnyFlow,
    done: bool,
)
    requires
        postorder(flow, log, result, done),
    ensures
        forall|k: int|
            0 <= k < log.len() && last_on_its_flow(log[k]) && #[trigger] nothing_above_later(log, k)
                ==> leads_to(result, log[k].path) && flow_at(result, log[k].path) == log[k].result,
        log.len() > 0,
        last_on_its_flow(log.last()),
        flow_at(result, log.last().path) == log.last().result,
        done ==> result == log.last().result,
    decreases log.len(),
{
    lemma_postorder_head(flow, log, result, done);
    lemma_postorder_root(flow, log, result, done);
    if !log[0].answer {
        let (runs, rest, mid, kids_done) = split_postorder(flow, log, result, done);
        let kids = log[0].result.kids();
        let len: int = joined(runs).len() as int;
        assert forall|i: int| 1 + len <= i < log.len() implies #[trigger] log[i] == rest[i - 1
            - len] by {}
        assert forall|k: int|
            0 <= k < log.len() && last_on_its_flow(log[k]) && #[trigger] nothing_above_later(
                log,
                k,
            ) implies leads_to(result, log[k].path) && flow_at(result, log[k].path)
            == log[k].result by {
            if 1 <= k < 1 + len {
                let (j, m) = find_run(runs, k - 1);
                let below = runs[j][m].path;
                assert(log[k].path.drop_first() =~= below && log[k].path[0] == j);
                if kids_done {
                    assert(log[1 + len] == rest[0]);
                    assert(log[k].path.take(0) =~= rest[0].path);
                    assert(strictly_below(log[k].path, log[1 + len].path));
                }
                assert forall|n: int| m < n < runs[j].len() implies !strictly_below(
                    below,
                    (#[trigger] runs[j][n]).path,
                ) by {
                    lemma_in_run(runs, j, n);
                    let later = log[1 + start(runs, j) + n];
                    assert(later == under(j, runs[j])[n]);
                    if strictly_below(below, runs[j][n].path) {
                        lemma_below_parent(j, below, runs[j][n].path);
                    }
                }
                law_postorder_leaves_flows_as_processed(
                    kids[j],
                    runs[j],
                    mid.kids()[j],
                    kids_done || j < runs.len() - 1,
                );
                assert(nothing_above_later(runs[j], m));
                assert(last_on_its_flow(runs[j][m]));
                assert(flow_at(result, log[k].path) == flow_at(mid.kids()[j], below));
            }
        }
        if !done {
            law_postorder_stops(flow, log, result, done);
            let k = choose|k: int|
                0 <= k < log.len() && (#[trigger] log[k]).call == Call::Process && !log[k].answer;
            assert(k == log.len() - 1);
        }
        assert(nothing_above_later(log, log.len() - 1));
    }
}

/// A postorder run that was stopped before it came back to a flow leaves that flow as
/// `should_prune` left it, but for the children that it came by.
#[verifier::rlimit(30)]
pub proof fn law_postorder_leaves_flows_above_the_stop<T>(
    flow: AnyFlow,
    log: Seq<Visit<T>>,
    result: AnyFlow,
    done: bool,
)
    requires
        postorder(flow, log, result, done),
    ensures
        forall|i: int|
            0 <= i < log.len() && (#[trigger] log[i]).call == Call::ShouldPrune && !log[i].answer
                && !called_at(log, Call::ShouldProcess, log[i].path) ==> {
                let left = flow_at(result, log[i].path);
                &&& leads_to(result, log[i].path)
                &&& own_part(left) == own_part(log[i].result)
                &&& left.kids().len() == log[i].result.kids().len()
                &&& forall|j: int|
                    0 <= j < left.kids().len() && !called_at(
                        log,
                        Call::ShouldPrune,
                        log[i].path.push(j),
                    ) ==> #[trigger] left.kids()[j] == log[i].result.kids()[j]
            },
    decreases log.len(),
{
    lemma_postorder_head(flow, log, result, done);
    if !log[0].answer {
        let (runs, rest, mid, kids_done) = split_postorder(flow, log, result, done);
        let kids = log[0].result.kids();
        let len: int = joined(runs).len() as int;
        assert(log.subrange(1, 1 + len) =~= joined(runs));
        assert forall|i: int| 1 + len <= i < log.len() implies #[trigger] log[i] == rest[i - 1
            - len] by {}
        assert forall|i: int|
            0 <= i < log.len() && (#[trigger] log[i]).call == Call::ShouldPrune && !log[i].answer
                && !called_at(log, Call::ShouldProcess, log[i].path) implies {
            let left = flow_at(result, log[i].path);
            &&& leads_to(result, log[i].path)
            &&& own_part(left) == own_part(log[i].result)
            &&& left.kids().len() == log[i].result.kids().len()
            &&& forall|j: int|
                0 <= j < left.kids().len() && !called_at(
                    log,
                    Call::ShouldPrune,
                    log[i].path.push(j),
                ) ==> #[trigger] left.kids()[j] == log[i].result.kids()[j]
        } by {
            let left = flow_at(result, log[i].path);
            if i < 1 {
                if kids_done {
                    assert(log[1 + len] == rest[0]);
                    assert(called_at(log, Call::ShouldProcess, log[i].path));
                }
                assert(own_part(mid) == own_part(log[0].result));
                assert forall|j: int|
                    0 <= j < left.kids().len() && !called_at(
                        log,
                        Call::ShouldPrune,
                        log[i].path.push(j),
                    ) implies #[trigger] left.kids()[j] == log[i].result.kids()[j] by {
                    if j < runs.len() {
                        lemma_postorder_head(
                            kids[j],
                            runs[j],
                            mid.kids()[j],
                            kids_done || j < runs.len() - 1,
                        );
                        assert(called_at(runs[j], Call::ShouldPrune, Seq::empty()));
                        lemma_called_at_below(log, 1, runs, j, Call::ShouldPrune, Seq::empty());
                        assert(log[i].path.push(j) =~= seq![j] + Seq::<int>::empty());
                    }
                }
            } else {
                let (kid, m) = find_run(runs, i - 1);
                let go_on = kids_done || kid < runs.len() - 1;
                let below = runs[kid][m].path;
                if called_at(runs[kid], Call::ShouldProcess, below) {
                    lemma_called_at_below(log, 1, runs, kid, Call::ShouldProcess, below);
                }
                assert(runs[kid][m].call == Call::ShouldPrune);
                law_postorder_comes_back_to_all_parents(
                    kids[kid],
                    runs[kid],
                    mid.kids()[kid],
                    go_on,
                );
                assert(!kids_done);
                law_postorder_leaves_flows_above_the_stop(
                    kids[kid],
                    runs[kid],
                    mid.kids()[kid],
                    go_on,
                );
                assert(log[i].path.drop_first() =~= below && log[i].path[0] == kid);
                assert(left == flow_at(mid.kids()[kid], below));
                assert forall|j: int|
                    0 <= j < left.kids().len() && !called_at(
                        log,
                        Call::ShouldPrune,
                        log[i].path.push(j),
                    ) implies #[trigger] left.kids()[j] == log[i].result.kids()[j] by {
                    assert(log[i].path.push(j) =~= seq![kid] + below.push(j));
                    if called_at(runs[kid], Call::ShouldPrune, below.push(j)) {
                        lemma_called_at_below(
                            log,
                            1,
                            runs,
                            kid,
                            Call::ShouldPrune,
                            below.push(j),
                        );
                    }
                }
            }
        }
    }
}

/// A postorder run whose calls leave each flow as it is leaves the tree as it is.
pub proof fn law_postorder_of_idle_calls_changes_nothing<T>(
    flow: AnyFlow,
    log: Seq<Visit<T>>,
    result: AnyFlow,
    done: bool,
)
    requires
        postorder(flow, log, result, done),
        forall|i: int| 0 <= i < log.len() ==> (#[trigger] log[i]).result == log[i].flow,
    ensures
        same_tree(flow, result),
    decreases log.len(),
{
    lemma_postorder_head(flow, log, result, done);
    lemma_same_tree(flow);
    assert(log[0].result == log[0].flow);
    if !log[0].answer {
        let (runs, rest, mid, kids_done) = split_postorder(flow, log, result, done);
        let kids = flow.kids();
        let len: int = joined(runs).len() as int;
        assert forall|i: int| 0 <= i < rest.len() implies #[trigger] rest[i] == log[1 + len + i] by {}
        assert forall|j: int| 0 <= j < kids.len() implies same_tree(
            #[trigger] kids[j],
            mid.kids()[j],
        ) by {
            if j < runs.len() {
                assert forall|m: int| 0 <= m < runs[j].len() implies (
                #[trigger] runs[j][m]).result == runs[j][m].flow by {
                    lemma_in_run(runs, j, m);
                    assert(log[1 + start(runs, j) + m] == under(j, runs[j])[m]);
                }
                law_postorder_of_idle_calls_changes_nothing(
                    kids[j],
                    runs[j],
                    mid.kids()[j],
                    kids_done || j < runs.len() - 1,
                );
            } else {
                lemma_same_tree(kids[j]);
            }
        }
        assert(result == mid);
    }
}

} // verus!
