//! Traversals of a tree of flows.
//!
//! A traversal is a user's object that is called on the flows of a tree, one after the other, and
//! that may change itself and the flow at each call. What one run over a tree did is told by a
//! log: one `Visit` for each call that was made, in the order in which they were made.
use vstd::prelude::*;

use crate::flow::{base, mut_base, AnyFlow};

verus! {

/// A top-down traversal.
pub trait PreorderFlowTraversal: Sized {
    /// A call of a method on the root of a tree may be this one. It is what is known of the calls
    /// when a run is shown to end. By default, no call makes the tree deeper.
    open spec fn may_do(visit: Visit<Self>) -> bool {
        visit.result.depth() <= visit.flow.depth()
    }

    /// The operation to perform. Return true to continue or false to stop.
    fn process(&mut self, flow: &mut AnyFlow) -> (go_on: bool);

    /// Returns true if this node should be pruned. If this returns true, we skip the operation
    /// entirely and do not process any descendant nodes. This is called *before* child nodes are
    /// visited. The default implementation never prunes any nodes.
    fn should_prune(&mut self, flow: &mut AnyFlow) -> (prune: bool)
        default_ensures
            !prune,
            *final(self) == *old(self),
            *final(flow) == *old(flow),
    {
        false
    }
}

/// A bottom-up traversal, with an optional in-order pass.
pub trait PostorderFlowTraversal: Sized {
    /// A call of a method on the root of a tree may be this one. It is what is known of the calls
    /// when a run is shown to end. By default, no call of `should_prune` makes the tree deeper.
    open spec fn may_do(visit: Visit<Self>) -> bool {
        visit.call == Call::ShouldPrune ==> visit.result.depth() <= visit.flow.depth()
    }

    /// The operation to perform. Return true to continue or false to stop.
    fn process(&mut self, flow: &mut AnyFlow) -> (go_on: bool);

    /// Returns false if this node must be processed in-order. If this returns false, we skip the
    /// operation for this node, but continue processing the descendants. This is called *after*
    /// child nodes are visited.
    fn should_process(&mut self, flow: &mut AnyFlow) -> (now: bool)
        default_ensures
            now,
            *final(self) == *old(self),
            *final(flow) == *old(flow),
    {
        true
    }

    /// Returns true if this node should be pruned. If this returns true, we skip the operation
    /// entirely and do not process any descendant nodes. This is called *before* child nodes are
    /// visited. The default implementation never prunes any nodes.
    fn should_prune(&mut self, flow: &mut AnyFlow) -> (prune: bool)
        default_ensures
            !prune,
            *final(self) == *old(self),
            *final(flow) == *old(flow),
    {
        false
    }
}

/// A method of a traversal.
pub enum Call {
    ShouldPrune,
    ShouldProcess,
    Process,
}

/// One call of a method of a traversal on a flow.
#[verifier::ext_equal]
pub struct Visit<T> {
    /// The method.
    pub call: Call,
    /// Where the flow is, as the indices of the children on the way down to it.
    pub path: Seq<int>,
    /// The traversal before and after the call.
    pub before: T,
    pub after: T,
    /// The flow before and after the call.
    pub flow: AnyFlow,
    pub result: AnyFlow,
    /// What the call returned.
    pub answer: bool,
}

impl<T> Visit<T> {
    /// A call on the root of a tree.
    pub open spec fn at(
        call: Call,
        before: T,
        after: T,
        flow: AnyFlow,
        result: AnyFlow,
        answer: bool,
    ) -> Visit<T> {
        Visit { call, path: Seq::empty(), before, after, flow, result, answer }
    }

    /// The same call, as one on the root of a tree.
    pub open spec fn alone(self) -> Visit<T> {
        Visit { path: Seq::empty(), ..self }
    }
}

/// Each call of `log` found the traversal as the call before it left it: the first one found it as
/// `before`, and the last one left it as `after`.
pub open spec fn threaded<T>(before: T, log: Seq<Visit<T>>, after: T) -> bool
    decreases log.len(),
{
    if log.len() == 0 {
        before == after
    } else {
        log.last().after == after && threaded(before, log.drop_last(), log.last().before)
    }
}

/// The log of a run over the child of index `kid`, with the paths as seen from its parent.
pub open spec fn under<T>(kid: int, log: Seq<Visit<T>>) -> Seq<Visit<T>> {
    Seq::new(log.len(), |i: int| Visit { path: seq![kid] + log[i].path, ..log[i] })
}

/// The logs of runs over the children, first to last, one behind the other.
pub open spec fn joined<T>(runs: Seq<Seq<Visit<T>>>) -> Seq<Visit<T>>
    decreases runs.len(),
{
    if runs.len() == 0 {
        Seq::empty()
    } else {
        joined(runs.drop_last()) + under(runs.len() - 1, runs.last())
    }
}

/// `visit` is a call of `call` on the root of a tree, which it found as `flow`.
pub open spec fn at_root<T>(visit: Visit<T>, call: Call, flow: AnyFlow) -> bool {
    visit.call == call && visit.path == Seq::<int>::empty() && visit.flow == flow
}

/// The children were visited first to last, and no further after one at which the run was to stop:
/// all of them where `done` holds, and the last one visited is the one that stopped it otherwise.
pub open spec fn visited_in_turn<T>(
    kids: Seq<AnyFlow>,
    runs: Seq<Seq<Visit<T>>>,
    results: Seq<AnyFlow>,
    done: bool,
) -> bool {
    &&& results.len() == kids.len()
    &&& runs.len() <= kids.len()
    &&& if done {
        runs.len() == kids.len()
    } else {
        runs.len() > 0
    }
    &&& forall|j: int| runs.len() <= j < kids.len() ==> results[j] == kids[j]
}

/// `log` tells a preorder run over the tree `flow` that left it as `result` and returned `done`.
///
/// The root is visited first: `should_prune` and, where that answers false, `process`. Where that
/// answers true, the children follow, in turn, as `process` left them.
#[verifier::opaque]
pub open spec fn preorder<T>(
    flow: AnyFlow,
    log: Seq<Visit<T>>,
    result: AnyFlow,
    done: bool,
) -> bool
    decreases log.len(),
{
    &&& log.len() > 0
    &&& at_root(log[0], Call::ShouldPrune, flow)
    &&& if log[0].answer {
        log.len() == 1 && result == log[0].result && done
    } else {
        &&& log.len() > 1
        &&& at_root(log[1], Call::Process, log[0].result)
        &&& if !log[1].answer {
            log.len() == 2 && result == log[1].result && !done
        } else {
            exists|runs: Seq<Seq<Visit<T>>>|
                {
                    let kids = log[1].result.kids();
                    &&& log.skip(2) == #[trigger] joined(runs)
                    &&& visited_in_turn(kids, runs, result.kids(), done)
                    &&& result@ == log[1].result@.with_children(result.kids())
                    &&& forall|j: int|
                        0 <= j < runs.len() ==> (#[trigger] runs[j]).len() < log.len() && preorder(
                            kids[j],
                            runs[j],
                            result.kids()[j],
                            done || j < runs.len() - 1,
                        )
                }
        }
    }
}

/// `log` tells a postorder run over the tree `flow` that left it as `result` and returned `done`.
///
/// `should_prune` is called on the root first. Where that answers false, the children are visited,
/// in turn. Where none of them stopped the run, `should_process` and, where that answers true,
/// `process` are called on the root, as its children were left.
#[verifier::opaque]
pub open spec fn postorder<T>(
    flow: AnyFlow,
    log: Seq<Visit<T>>,
    result: AnyFlow,
    done: bool,
) -> bool
    decreases log.len(),
{
    &&& log.len() > 0
    &&& at_root(log[0], Call::ShouldPrune, flow)
    &&& if log[0].answer {
        log.len() == 1 && result == log[0].result && done
    } else {
        exists|runs: Seq<Seq<Visit<T>>>, rest: Seq<Visit<T>>, mid: AnyFlow, kids_done: bool|
            {
                let kids = log[0].result.kids();
                &&& log.skip(1) == #[trigger] joined(runs) + rest
                &&& visited_in_turn(kids, runs, mid.kids(), kids_done)
                &&& mid@ == log[0].result@.with_children(mid.kids())
                &&& forall|j: int|
                    0 <= j < runs.len() ==> (#[trigger] runs[j]).len() < log.len() && postorder(
                        kids[j],
                        runs[j],
                        mid.kids()[j],
                        kids_done || j < runs.len() - 1,
                    )
                &&& #[trigger] closed_at_root(mid, rest, kids_done, result, done)
            }
    }
}

/// `rest` is what is called on the root, found as `mid`, behind its children in postorder.
pub open spec fn closed_at_root<T>(
    mid: AnyFlow,
    rest: Seq<Visit<T>>,
    kids_done: bool,
    result: AnyFlow,
    done: bool,
) -> bool {
    if !kids_done {
        rest.len() == 0 && result == mid && !done
    } else {
        &&& rest.len() > 0
        &&& at_root(rest[0], Call::ShouldProcess, mid)
        &&& if !rest[0].answer {
            rest.len() == 1 && result == rest[0].result && done
        } else {
            &&& rest.len() == 2
            &&& at_root(rest[1], Call::Process, rest[0].result)
            &&& result == rest[1].result
            &&& done == rest[1].answer
        }
    }
}

/// A preorder run over the tree `flow` that is not stopped can turn the traversal from `before`
/// into `after`.
pub open spec fn preorder_leads<T: PreorderFlowTraversal>(
    before: T,
    flow: AnyFlow,
    after: T,
) -> bool {
    exists|log: Seq<Visit<T>>, result: AnyFlow|
        {
            &&& #[trigger] preorder(flow, log, result, true)
            &&& threaded(before, log, after)
            &&& forall|i: int| 0 <= i < log.len() ==> T::may_do((#[trigger] log[i]).alone())
        }
}

/// A preorder run over the tree `flow` by a traversal that is `before` goes no more than `levels`
/// levels below the root, whatever the calls may do.
///
/// What a call could do matters only where it can be made: nothing is asked of `process` where the
/// root is pruned, nor of the children where the run stops before them.
pub open spec fn preorder_within<T: PreorderFlowTraversal>(
    levels: nat,
    before: T,
    flow: AnyFlow,
) -> bool
    decreases levels, 1nat, 0nat,
{
    forall|asked: Visit<T>, processed: Visit<T>|
        {
            &&& #[trigger] T::may_do(asked)
            &&& at_root(asked, Call::ShouldPrune, flow) && asked.before == before && !asked.answer
            &&& #[trigger] T::may_do(processed)
            &&& at_root(processed, Call::Process, asked.result) && processed.before == asked.after
                && processed.answer
        } ==> preorder_of_kids_within(levels, processed.after, processed.result.kids())
}

/// Preorder runs over the trees `kids`, one after the other, come by no more than `levels` levels
/// of them, whatever the calls may do.
pub open spec fn preorder_of_kids_within<T: PreorderFlowTraversal>(
    levels: nat,
    before: T,
    kids: Seq<AnyFlow>,
) -> bool
    decreases levels, 0nat, kids.len(),
{
    kids.len() > 0 ==> {
        &&& levels > 0
        &&& preorder_within((levels - 1) as nat, before, kids[0])
        &&& forall|after: T| #[trigger]
            preorder_leads(before, kids[0], after) ==> preorder_of_kids_within(
                levels,
                after,
                kids.skip(1),
            )
    }
}

/// No call that a preorder traversal may make leaves a tree deeper than it was.
pub open spec fn preorder_never_deepens<T: PreorderFlowTraversal>() -> bool {
    forall|visit: Visit<T>| #[trigger]
        T::may_do(visit) ==> visit.result.depth() <= visit.flow.depth()
}

/// A preorder run over the tree `flow` by a traversal that is `before` comes to an end, whatever
/// the calls may do: there is a bound on how far down it goes. Where no tree is made deeper, its
/// own depth is one.
pub open spec fn preorder_ends<T: PreorderFlowTraversal>(before: T, flow: AnyFlow) -> bool {
    preorder_never_deepens::<T>() || exists|levels: nat| #[trigger]
        preorder_within(levels, before, flow)
}

/// A postorder run over the tree `flow` that is not stopped can turn the traversal from `before`
/// into `after`.
pub open spec fn postorder_leads<T: PostorderFlowTraversal>(
    before: T,
    flow: AnyFlow,
    after: T,
) -> bool {
    exists|log: Seq<Visit<T>>, result: AnyFlow|
        {
            &&& #[trigger] postorder(flow, log, result, true)
            &&& threaded(before, log, after)
            &&& forall|i: int| 0 <= i < log.len() ==> T::may_do((#[trigger] log[i]).alone())
        }
}

/// A postorder run over the tree `flow` by a traversal that is `before` goes no more than `levels`
/// levels below the root, whatever the calls may do.
///
/// What a call could do matters only where it can be made: nothing is asked of the children where
/// the root is pruned.
pub open spec fn postorder_within<T: PostorderFlowTraversal>(
    levels: nat,
    before: T,
    flow: AnyFlow,
) -> bool
    decreases levels, 1nat, 0nat,
{
    forall|asked: Visit<T>|
        {
            &&& #[trigger] T::may_do(asked)
            &&& at_root(asked, Call::ShouldPrune, flow) && asked.before == before && !asked.answer
        } ==> postorder_of_kids_within(levels, asked.after, asked.result.kids())
}

/// Postorder runs over the trees `kids`, one after the other, come by no more than `levels` levels
/// of them, whatever the calls may do.
pub open spec fn postorder_of_kids_within<T: PostorderFlowTraversal>(
    levels: nat,
    before: T,
    kids: Seq<AnyFlow>,
) -> bool
    decreases levels, 0nat, kids.len(),
{
    kids.len() > 0 ==> {
        &&& levels > 0
        &&& postorder_within((levels - 1) as nat, before, kids[0])
        &&& forall|after: T| #[trigger]
            postorder_leads(before, kids[0], after) ==> postorder_of_kids_within(
                levels,
                after,
                kids.skip(1),
            )
    }
}

/// No call of `should_prune` that a postorder traversal may make leaves a tree deeper than it was.
pub open spec fn postorder_never_deepens<T: PostorderFlowTraversal>() -> bool {
    forall|visit: Visit<T>| #[trigger]
        T::may_do(visit) && visit.call == Call::ShouldPrune ==> visit.result.depth()
            <= visit.flow.depth()
}

/// A postorder run over the tree `flow` by a traversal that is `before` comes to an end, whatever
/// the calls may do: there is a bound on how far down it goes. Where no tree is made deeper, its
/// own depth is one.
pub open spec fn postorder_ends<T: PostorderFlowTraversal>(before: T, flow: AnyFlow) -> bool {
    postorder_never_deepens::<T>() || exists|levels: nat| #[trigger]
        postorder_within(levels, before, flow)
}

/// Logs that fit together state to state can be put one behind the other.
pub proof fn lemma_threaded_join<T>(a: T, first: Seq<Visit<T>>, b: T, second: Seq<Visit<T>>, c: T)
    requires
        threaded(a, first, b),
        threaded(b, second, c),
    ensures
        threaded(a, first + second, c),
    decreases second.len(),
{
    if second.len() == 0 {
        assert(first + second =~= first);
    } else {
        lemma_threaded_join(a, first, b, second.drop_last(), second.last().before);
        assert((first + second).drop_last() =~= first + second.drop_last());
    }
}

/// A single call.
pub proof fn lemma_threaded_one<T>(visit: Visit<T>)
    ensures
        threaded(visit.before, seq![visit], visit.after),
{
    reveal_with_fuel(threaded, 2);
}

/// Two calls, the second of which found the traversal as the first left it.
pub proof fn lemma_threaded_two<T>(first: Visit<T>, second: Visit<T>)
    requires
        second.before == first.after,
    ensures
        threaded(first.before, seq![first, second], second.after),
{
    reveal_with_fuel(threaded, 3);
    assert(seq![first, second].drop_last() =~= seq![first]);
}

/// Looking at a log from the parent changes no state in it.
pub proof fn lemma_threaded_under<T>(a: T, kid: int, log: Seq<Visit<T>>, b: T)
    requires
        threaded(a, log, b),
    ensures
        threaded(a, under(kid, log), b),
    decreases log.len(),
{
    if log.len() > 0 {
        lemma_threaded_under(a, kid, log.drop_last(), log.last().before);
        assert(under(kid, log).drop_last() =~= under(kid, log.drop_last()));
    }
}

/// Where each visit of a log and of the run over a child tells of a call that was made, so does
/// each of the two joined.
proof fn lemma_preorder_happened<T: PreorderFlowTraversal>(
    log: Seq<Visit<T>>,
    kid: int,
    run: Seq<Visit<T>>,
    all: Seq<Visit<T>>,
)
    requires
        all == log + under(kid, run),
        forall|i: int|
            0 <= i < log.len() ==> match (#[trigger] log[i]).call {
                Call::ShouldPrune => exists|t: &mut T, f: &mut AnyFlow|
                    {
                        &&& #[trigger] call_ensures(T::should_prune, (t, f), log[i].answer)
                        &&& *t == log[i].before && *final(t) == log[i].after
                        &&& *f == log[i].flow && *final(f) == log[i].result
                    },
                Call::Process => exists|t: &mut T, f: &mut AnyFlow|
                    {
                        &&& #[trigger] call_ensures(T::process, (t, f), log[i].answer)
                        &&& *t == log[i].before && *final(t) == log[i].after
                        &&& *f == log[i].flow && *final(f) == log[i].result
                    },
                Call::ShouldProcess => false,
            },
        forall|i: int|
            0 <= i < run.len() ==> match (#[trigger] run[i]).call {
                Call::ShouldPrune => exists|t: &mut T, f: &mut AnyFlow|
                    {
                        &&& #[trigger] call_ensures(T::should_prune, (t, f), run[i].answer)
                        &&& *t == run[i].before && *final(t) == run[i].after
                        &&& *f == run[i].flow && *final(f) == run[i].result
                    },
                Call::Process => exists|t: &mut T, f: &mut AnyFlow|
                    {
                        &&& #[trigger] call_ensures(T::process, (t, f), run[i].answer)
                        &&& *t == run[i].before && *final(t) == run[i].after
                        &&& *f == run[i].flow && *final(f) == run[i].result
                    },
                Call::ShouldProcess => false,
            },
    ensures
        forall|i: int|
            0 <= i < all.len() ==> match (#[trigger] all[i]).call {
                Call::ShouldPrune => exists|t: &mut T, f: &mut AnyFlow|
                    {
                        &&& #[trigger] call_ensures(T::should_prune, (t, f), all[i].answer)
                        &&& *t == all[i].before && *final(t) == all[i].after
                        &&& *f == all[i].flow && *final(f) == all[i].result
                    },
                Call::Process => exists|t: &mut T, f: &mut AnyFlow|
                    {
                        &&& #[trigger] call_ensures(T::process, (t, f), all[i].answer)
                        &&& *t == all[i].before && *final(t) == all[i].after
                        &&& *f == all[i].flow && *final(f) == all[i].result
                    },
                Call::ShouldProcess => false,
            },
{
    assert forall|k: int|
        0 <= k < all.len() implies match (#[trigger] all[k]).call {
            Call::ShouldPrune => exists|t: &mut T, f: &mut AnyFlow|
                {
                    &&& #[trigger] call_ensures(T::should_prune, (t, f), all[k].answer)
                    &&& *t == all[k].before && *final(t) == all[k].after
                    &&& *f == all[k].flow && *final(f) == all[k].result
                },
            Call::Process => exists|t: &mut T, f: &mut AnyFlow|
                {
                    &&& #[trigger] call_ensures(T::process, (t, f), all[k].answer)
                    &&& *t == all[k].before && *final(t) == all[k].after
                    &&& *f == all[k].flow && *final(f) == all[k].result
                },
            Call::ShouldProcess => false,
        } by {
        if k < log.len() {
            assert(all[k] == log[k]);
        } else {
            let visit = run[k - log.len()];
            assert(visit.call == all[k].call && visit.answer == all[k].answer);
        }
    }
}

/// Runs a preorder traversal over the tree `flow`, and tells what it did.
#[verifier::rlimit(30)]
pub(crate) fn run_preorder<T: PreorderFlowTraversal>(
    flow: &mut AnyFlow,
    traversal: &mut T,
    Ghost(levels): Ghost<nat>,
) -> (run: (bool, Ghost<Seq<Visit<T>>>))
    requires
        forall|t: &mut T, f: &mut AnyFlow, r: bool| #[trigger]
            call_ensures(T::should_prune, (t, f), r) ==> T::may_do(
                Visit::at(Call::ShouldPrune, *t, *final(t), *f, *final(f), r),
            ),
        forall|t: &mut T, f: &mut AnyFlow, r: bool| #[trigger]
            call_ensures(T::process, (t, f), r) ==> T::may_do(
                Visit::at(Call::Process, *t, *final(t), *f, *final(f), r),
            ),
        preorder_within(levels, *old(traversal), *old(flow)),
    ensures
        threaded(*old(traversal), run.1@, *final(traversal)),
        preorder(*old(flow), run.1@, *final(flow), run.0),
        forall|i: int|
            0 <= i < run.1@.len() ==> match (#[trigger] run.1@[i]).call {
                Call::ShouldPrune => exists|t: &mut T, f: &mut AnyFlow|
                    {
                        &&& #[trigger] call_ensures(T::should_prune, (t, f), run.1@[i].answer)
                        &&& *t == run.1@[i].before && *final(t) == run.1@[i].after
                        &&& *f == run.1@[i].flow && *final(f) == run.1@[i].result
                    },
                Call::Process => exists|t: &mut T, f: &mut AnyFlow|
                    {
                        &&& #[trigger] call_ensures(T::process, (t, f), run.1@[i].answer)
                        &&& *t == run.1@[i].before && *final(t) == run.1@[i].after
                        &&& *f == run.1@[i].flow && *final(f) == run.1@[i].result
                    },
                Call::ShouldProcess => false,
            },
    decreases levels,
{
    let ghost root = *flow;
    let ghost t0 = *traversal;
    let prune = traversal.should_prune(flow);
    let ghost asked = Visit::at(Call::ShouldPrune, t0, *traversal, root, *flow, prune);
    assert(exists|t: &mut T, f: &mut AnyFlow|
        {
            &&& #[trigger] call_ensures(T::should_prune, (t, f), prune)
            &&& *t == asked.before && *final(t) == asked.after
            &&& *f == asked.flow && *final(f) == asked.result
        });
    let ghost mut log = seq![asked];
    proof {
        lemma_threaded_one(asked);
        assert(log[0].answer == prune);
    }
    if prune {
        proof {
            reveal(preorder);
        }
        return (true, Ghost(log));
    }
    let go_on = traversal.process(flow);
    let ghost processed = Visit::at(
        Call::Process,
        asked.after,
        *traversal,
        asked.result,
        *flow,
        go_on,
    );
    assert(exists|t: &mut T, f: &mut AnyFlow|
        {
            &&& #[trigger] call_ensures(T::process, (t, f), go_on)
            &&& *t == processed.before && *final(t) == processed.after
            &&& *f == processed.flow && *final(f) == processed.result
        });
    proof {
        log = seq![asked, processed];
        lemma_threaded_two(asked, processed);
        assert(log[0].answer == prune && log[1].answer == go_on);
    }
    if !go_on {
        proof {
            reveal(preorder);
        }
        return (false, Ghost(log));
    }
    let ghost head = log;
    let ghost kids = flow.kids();
    let ghost mut runs: Seq<Seq<Visit<T>>> = Seq::empty();
    let n: usize = base(flow).children.len();
    let mut i: usize = 0;
    proof {
        assert(T::may_do(asked) && T::may_do(processed));
        assert(kids.skip(0) =~= kids);
        assert(head + joined(runs) =~= head);
    }
    while i < n
        invariant
            i <= n == kids.len(),
            kids == processed.result.kids(),
            flow.kids().len() == n,
            flow@ == processed.result@.with_children(flow.kids()),
            forall|j: int| i <= j < n ==> flow.kids()[j] == kids[j],
            forall|t: &mut T, f: &mut AnyFlow, r: bool| #[trigger]
                call_ensures(T::should_prune, (t, f), r) ==> T::may_do(
                    Visit::at(Call::ShouldPrune, *t, *final(t), *f, *final(f), r),
                ),
            forall|t: &mut T, f: &mut AnyFlow, r: bool| #[trigger]
                call_ensures(T::process, (t, f), r) ==> T::may_do(
                    Visit::at(Call::Process, *t, *final(t), *f, *final(f), r),
                ),
            preorder_of_kids_within(levels, *traversal, kids.skip(i as int)),
            root == *old(flow),
            at_root(asked, Call::ShouldPrune, root) && !asked.answer,
            at_root(processed, Call::Process, asked.result) && processed.answer,
            head == seq![asked, processed],
            log == head + joined(runs),
            runs.len() == i,
            forall|j: int|
                0 <= j < i ==> (#[trigger] runs[j]).len() < log.len() && preorder(
                    kids[j],
                    runs[j],
                    flow.kids()[j],
                    true,
                ),
            threaded(*old(traversal), log, *traversal),
            forall|i: int|
                0 <= i < log.len() ==> match (#[trigger] log[i]).call {
                    Call::ShouldPrune => exists|t: &mut T, f: &mut AnyFlow|
                        {
                            &&& #[trigger] call_ensures(T::should_prune, (t, f), log[i].answer)
                            &&& *t == log[i].before && *final(t) == log[i].after
                            &&& *f == log[i].flow && *final(f) == log[i].result
                        },
                    Call::Process => exists|t: &mut T, f: &mut AnyFlow|
                        {
                            &&& #[trigger] call_ensures(T::process, (t, f), log[i].answer)
                            &&& *t == log[i].before && *final(t) == log[i].after
                            &&& *f == log[i].flow && *final(f) == log[i].result
                        },
                    Call::ShouldProcess => false,
                },
        decreases n - i,
    {
        let ghost before = *traversal;
        let ghost log_before = log;
        let ghost runs_before = runs;
        assert(flow.kids()[i as int] == kids[i as int]);
        assert(kids.skip(i as int)[0] == kids[i as int]);
        let (go_on, Ghost(run)) = run_preorder(
            &mut mut_base(flow).children[i],
            traversal,
            Ghost((levels - 1) as nat),
        );
        proof {
            assert(kids.skip(i as int).skip(1) =~= kids.skip(i + 1));
            assert forall|k: int| 0 <= k < run.len() implies T::may_do(
                (#[trigger] run[k]).alone(),
            ) by {}
            if go_on {
                assert(preorder(kids[i as int], run, flow.kids()[i as int], true));
                assert(preorder_leads(before, kids[i as int], *traversal));
            }
            lemma_threaded_under(before, i as int, run, *traversal);
            lemma_threaded_join(
                *old(traversal),
                log_before,
                before,
                under(i as int, run),
                *traversal,
            );
            runs = runs_before.push(run);
            log = log_before + under(i as int, run);
            assert(runs.drop_last() =~= runs_before);
            assert(log =~= head + joined(runs));
            lemma_preorder_happened(log_before, i as int, run, log);
            assert forall|j: int| 0 <= j < runs.len() implies (#[trigger] runs[j]).len() < log.len()
                && preorder(kids[j], runs[j], flow.kids()[j], go_on || j < i) by {
                if j < i {
                    assert(runs[j] == runs_before[j]);
                }
            }
        }
        if !go_on {
            proof {
                assert(log.skip(2) =~= joined(runs));
                assert(visited_in_turn(kids, runs, flow.kids(), false));
                reveal(preorder);
            }
            return (false, Ghost(log));
        }
        i += 1;
    }
    proof {
        assert(log.skip(2) =~= joined(runs));
        assert(visited_in_turn(kids, runs, flow.kids(), true));
        reveal(preorder);
    }
    (true, Ghost(log))
}

/// Where each visit of a log and of the run over a child tells of a call that was made, so does
/// each of the two joined.
proof fn lemma_postorder_happened<T: PostorderFlowTraversal>(
    log: Seq<Visit<T>>,
    kid: int,
    run: Seq<Visit<T>>,
    all: Seq<Visit<T>>,
)
    requires
        all == log + under(kid, run),
        forall|i: int|
            0 <= i < log.len() ==> match (#[trigger] log[i]).call {
                Call::ShouldPrune => exists|t: &mut T, f: &mut AnyFlow|
                    {
                        &&& #[trigger] call_ensures(T::should_prune, (t, f), log[i].answer)
                        &&& *t == log[i].before && *final(t) == log[i].after
                        &&& *f == log[i].flow && *final(f) == log[i].result
                    },
                Call::ShouldProcess => exists|t: &mut T, f: &mut AnyFlow|
                    {
                        &&& #[trigger] call_ensures(T::should_process, (t, f), log[i].answer)
                        &&& *t == log[i].before && *final(t) == log[i].after
                        &&& *f == log[i].flow && *final(f) == log[i].result
                    },
                Call::Process => exists|t: &mut T, f: &mut AnyFlow|
                    {
                        &&& #[trigger] call_ensures(T::process, (t, f), log[i].answer)
                        &&& *t == log[i].before && *final(t) == log[i].after
                        &&& *f == log[i].flow && *final(f) == log[i].result
                    },
            },
        forall|i: int|
            0 <= i < run.len() ==> match (#[trigger] run[i]).call {
                Call::ShouldPrune => exists|t: &mut T, f: &mut AnyFlow|
                    {
                        &&& #[trigger] call_ensures(T::should_prune, (t, f), run[i].answer)
                        &&& *t == run[i].before && *final(t) == run[i].after
                        &&& *f == run[i].flow && *final(f) == run[i].result
                    },
                Call::ShouldProcess => exists|t: &mut T, f: &mut AnyFlow|
                    {
                        &&& #[trigger] call_ensures(T::should_process, (t, f), run[i].answer)
                        &&& *t == run[i].before && *final(t) == run[i].after
                        &&& *f == run[i].flow && *final(f) == run[i].result
                    },
                Call::Process => exists|t: &mut T, f: &mut AnyFlow|
                    {
                        &&& #[trigger] call_ensures(T::process, (t, f), run[i].answer)
                        &&& *t == run[i].before && *final(t) == run[i].after
                        &&& *f == run[i].flow && *final(f) == run[i].result
                    },
            },
    ensures
        forall|i: int|
            0 <= i < all.len() ==> match (#[trigger] all[i]).call {
                Call::ShouldPrune => exists|t: &mut T, f: &mut AnyFlow|
                    {
                        &&& #[trigger] call_ensures(T::should_prune, (t, f), all[i].answer)
                        &&& *t == all[i].before && *final(t) == all[i].after
                        &&& *f == all[i].flow && *final(f) == all[i].result
                    },
                Call::ShouldProcess => exists|t: &mut T, f: &mut AnyFlow|
                    {
                        &&& #[trigger] call_ensures(T::should_process, (t, f), all[i].answer)
                        &&& *t == all[i].before && *final(t) == all[i].after
                        &&& *f == all[i].flow && *final(f) == all[i].result
                    },
                Call::Process => exists|t: &mut T, f: &mut AnyFlow|
                    {
                        &&& #[trigger] call_ensures(T::process, (t, f), all[i].answer)
                        &&& *t == all[i].before && *final(t) == all[i].after
                        &&& *f == all[i].flow && *final(f) == all[i].result
                    },
            },
{
    assert forall|k: int|
        0 <= k < all.len() implies match (#[trigger] all[k]).call {
            Call::ShouldPrune => exists|t: &mut T, f: &mut AnyFlow|
                {
                    &&& #[trigger] call_ensures(T::should_prune, (t, f), all[k].answer)
                    &&& *t == all[k].before && *final(t) == all[k].after
                    &&& *f == all[k].flow && *final(f) == all[k].result
                },
            Call::ShouldProcess => exists|t: &mut T, f: &mut AnyFlow|
                {
                    &&& #[trigger] call_ensures(T::should_process, (t, f), all[k].answer)
                    &&& *t == all[k].before && *final(t) == all[k].after
                    &&& *f == all[k].flow && *final(f) == all[k].result
                },
            Call::Process => exists|t: &mut T, f: &mut AnyFlow|
                {
                    &&& #[trigger] call_ensures(T::process, (t, f), all[k].answer)
                    &&& *t == all[k].before && *final(t) == all[k].after
                    &&& *f == all[k].flow && *final(f) == all[k].result
                },
        } by {
        if k < log.len() {
            assert(all[k] == log[k]);
        } else {
            let visit = run[k - log.len()];
            assert(visit.call == all[k].call && visit.answer == all[k].answer);
        }
    }
}

/// Runs a postorder traversal over the tree `flow`, and tells what it did.
#[verifier::rlimit(30)]
pub(crate) fn run_postorder<T: PostorderFlowTraversal>(
    flow: &mut AnyFlow,
    traversal: &mut T,
    Ghost(levels): Ghost<nat>,
) -> (run: (bool, Ghost<Seq<Visit<T>>>))
    requires
        forall|t: &mut T, f: &mut AnyFlow, r: bool| #[trigger]
            call_ensures(T::should_prune, (t, f), r) ==> T::may_do(
                Visit::at(Call::ShouldPrune, *t, *final(t), *f, *final(f), r),
            ),
        forall|t: &mut T, f: &mut AnyFlow, r: bool| #[trigger]
            call_ensures(T::should_process, (t, f), r) ==> T::may_do(
                Visit::at(Call::ShouldProcess, *t, *final(t), *f, *final(f), r),
            ),
        forall|t: &mut T, f: &mut AnyFlow, r: bool| #[trigger]
            call_ensures(T::process, (t, f), r) ==> T::may_do(
                Visit::at(Call::Process, *t, *final(t), *f, *final(f), r),
            ),
        postorder_within(levels, *old(traversal), *old(flow)),
    ensures
        threaded(*old(traversal), run.1@, *final(traversal)),
        postorder(*old(flow), run.1@, *final(flow), run.0),
        forall|i: int|
            0 <= i < run.1@.len() ==> match (#[trigger] run.1@[i]).call {
                Call::ShouldPrune => exists|t: &mut T, f: &mut AnyFlow|
                    {
                        &&& #[trigger] call_ensures(T::should_prune, (t, f), run.1@[i].answer)
                        &&& *t == run.1@[i].before && *final(t) == run.1@[i].after
                        &&& *f == run.1@[i].flow && *final(f) == run.1@[i].result
                    },
                Call::ShouldProcess => exists|t: &mut T, f: &mut AnyFlow|
                    {
                        &&& #[trigger] call_ensures(T::should_process, (t, f), run.1@[i].answer)
                        &&& *t == run.1@[i].before && *final(t) == run.1@[i].after
                        &&& *f == run.1@[i].flow && *final(f) == run.1@[i].result
                    },
                Call::Process => exists|t: &mut T, f: &mut AnyFlow|
                    {
                        &&& #[trigger] call_ensures(T::process, (t, f), run.1@[i].answer)
                        &&& *t == run.1@[i].before && *final(t) == run.1@[i].after
                        &&& *f == run.1@[i].flow && *final(f) == run.1@[i].result
                    },
            },
    decreases levels,
{
    let ghost root = *flow;
    let ghost t0 = *traversal;
    let prune = traversal.should_prune(flow);
    let ghost asked = Visit::at(Call::ShouldPrune, t0, *traversal, root, *flow, prune);
    assert(exists|t: &mut T, f: &mut AnyFlow|
        {
            &&& #[trigger] call_ensures(T::should_prune, (t, f), prune)
            &&& *t == asked.before && *final(t) == asked.after
            &&& *f == asked.flow && *final(f) == asked.result
        });
    let ghost head = seq![asked];
    let ghost mut log = head;
    proof {
        lemma_threaded_one(asked);
        assert(log[0].answer == prune);
    }
    if prune {
        proof {
            reveal(postorder);
        }
        return (true, Ghost(log));
    }
    let ghost kids = flow.kids();
    let ghost mut runs: Seq<Seq<Visit<T>>> = Seq::empty();
    let n: usize = base(flow).children.len();
    let mut i: usize = 0;
    proof {
        assert(T::may_do(asked));
        assert(kids.skip(0) =~= kids);
        assert(head + joined(runs) =~= head);
    }
    while i < n
        invariant
            i <= n == kids.len(),
            kids == asked.result.kids(),
            flow.kids().len() == n,
            flow@ == asked.result@.with_children(flow.kids()),
            forall|j: int| i <= j < n ==> flow.kids()[j] == kids[j],
            forall|t: &mut T, f: &mut AnyFlow, r: bool| #[trigger]
                call_ensures(T::should_prune, (t, f), r) ==> T::may_do(
                    Visit::at(Call::ShouldPrune, *t, *final(t), *f, *final(f), r),
                ),
            forall|t: &mut T, f: &mut AnyFlow, r: bool| #[trigger]
                call_ensures(T::should_process, (t, f), r) ==> T::may_do(
                    Visit::at(Call::ShouldProcess, *t, *final(t), *f, *final(f), r),
                ),
            forall|t: &mut T, f: &mut AnyFlow, r: bool| #[trigger]
                call_ensures(T::process, (t, f), r) ==> T::may_do(
                    Visit::at(Call::Process, *t, *final(t), *f, *final(f), r),
                ),
            postorder_of_kids_within(levels, *traversal, kids.skip(i as int)),
            root == *old(flow),
            at_root(asked, Call::ShouldPrune, root) && !asked.answer,
            head == seq![asked],
            log == head + joined(runs),
            runs.len() == i,
            forall|j: int|
                0 <= j < i ==> (#[trigger] runs[j]).len() < log.len() && postorder(
                    kids[j],
                    runs[j],
                    flow.kids()[j],
                    true,
                ),
            threaded(*old(traversal), log, *traversal),
            forall|i: int|
                0 <= i < log.len() ==> match (#[trigger] log[i]).call {
                    Call::ShouldPrune => exists|t: &mut T, f: &mut AnyFlow|
                        {
                            &&& #[trigger] call_ensures(T::should_prune, (t, f), log[i].answer)
                            &&& *t == log[i].before && *final(t) == log[i].after
                            &&& *f == log[i].flow && *final(f) == log[i].result
                        },
                    Call::ShouldProcess => exists|t: &mut T, f: &mut AnyFlow|
                        {
                            &&& #[trigger] call_ensures(T::should_process, (t, f), log[i].answer)
                            &&& *t == log[i].before && *final(t) == log[i].after
                            &&& *f == log[i].flow && *final(f) == log[i].result
                        },
                    Call::Process => exists|t: &mut T, f: &mut AnyFlow|
                        {
                            &&& #[trigger] call_ensures(T::process, (t, f), log[i].answer)
                            &&& *t == log[i].before && *final(t) == log[i].after
                            &&& *f == log[i].flow && *final(f) == log[i].result
                        },
                },
        decreases n - i,
    {
        let ghost before = *traversal;
        let ghost log_before = log;
        let ghost runs_before = runs;
        assert(flow.kids()[i as int] == kids[i as int]);
        assert(kids.skip(i as int)[0] == kids[i as int]);
        let (go_on, Ghost(run)) = run_postorder(
            &mut mut_base(flow).children[i],
            traversal,
            Ghost((levels - 1) as nat),
        );
        proof {
            assert(kids.skip(i as int).skip(1) =~= kids.skip(i + 1));
            assert forall|k: int| 0 <= k < run.len() implies T::may_do(
                (#[trigger] run[k]).alone(),
            ) by {}
            if go_on {
                assert(postorder(kids[i as int], run, flow.kids()[i as int], true));
                assert(postorder_leads(before, kids[i as int], *traversal));
            }
            lemma_threaded_under(before, i as int, run, *traversal);
            lemma_threaded_join(
                *old(traversal),
                log_before,
                before,
                under(i as int, run),
                *traversal,
            );
            runs = runs_before.push(run);
            log = log_before + under(i as int, run);
            assert(runs.drop_last() =~= runs_before);
            assert(log =~= head + joined(runs));
            lemma_postorder_happened(log_before, i as int, run, log);
            assert forall|j: int| 0 <= j < runs.len() implies (#[trigger] runs[j]).len() < log.len()
                && postorder(kids[j], runs[j], flow.kids()[j], go_on || j < i) by {
                if j < i {
                    assert(runs[j] == runs_before[j]);
                }
            }
        }
        if !go_on {
            proof {
                let rest = Seq::<Visit<T>>::empty();
                assert(log.skip(1) =~= joined(runs) + rest);
                assert(visited_in_turn(kids, runs, flow.kids(), false));
                assert(closed_at_root(*flow, rest, false, *flow, false));
                reveal(postorder);
            }
            return (false, Ghost(log));
        }
        i += 1;
    }
    let ghost mid = *flow;
    let ghost t1 = *traversal;
    let ghost front = log;
    let now = traversal.should_process(flow);
    let ghost gate = Visit::at(Call::ShouldProcess, t1, *traversal, mid, *flow, now);
    assert(exists|t: &mut T, f: &mut AnyFlow|
        {
            &&& #[trigger] call_ensures(T::should_process, (t, f), now)
            &&& *t == gate.before && *final(t) == gate.after
            &&& *f == gate.flow && *final(f) == gate.result
        });
    if !now {
        proof {
            let rest = seq![gate];
            log = front + rest;
            lemma_threaded_one(gate);
            lemma_threaded_join(*old(traversal), front, t1, rest, *traversal);
            assert(log.skip(1) =~= joined(runs) + rest);
            assert(visited_in_turn(kids, runs, mid.kids(), true));
            assert(closed_at_root(mid, rest, true, *flow, true));
            assert(rest[0].answer == now);
            assert forall|k: int| 0 <= k < log.len() implies #[trigger] log[k] == if k < front.len() {
                front[k]
            } else {
                rest[k - front.len()]
            } by {}
            reveal(postorder);
        }
        return (true, Ghost(log));
    }
    let go_on = traversal.process(flow);
    let ghost processed = Visit::at(
        Call::Process,
        gate.after,
        *traversal,
        gate.result,
        *flow,
        go_on,
    );
    assert(exists|t: &mut T, f: &mut AnyFlow|
        {
            &&& #[trigger] call_ensures(T::process, (t, f), go_on)
            &&& *t == processed.before && *final(t) == processed.after
            &&& *f == processed.flow && *final(f) == processed.result
        });
    proof {
        let rest = seq![gate, processed];
        log = front + rest;
        lemma_threaded_two(gate, processed);
        lemma_threaded_join(*old(traversal), front, t1, rest, *traversal);
        assert(log.skip(1) =~= joined(runs) + rest);
        assert(visited_in_turn(kids, runs, mid.kids(), true));
        assert(closed_at_root(mid, rest, true, *flow, go_on));
        assert(rest[0].answer == now && rest[1].answer == go_on);
        assert forall|k: int| 0 <= k < log.len() implies #[trigger] log[k] == (if k < front.len() {
            front[k]
        } else {
            rest[k - front.len()]
        }) by {}
        reveal(postorder);
    }
    (go_on, Ghost(log))
}

} // verus!
