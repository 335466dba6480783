//! Operations that change a flow or the tree below it.
use vstd::prelude::*;

use crate::display_list::{build, buildable, buildable_within, built, painters, DisplayList};
use crate::flow::{base, mut_base, AnyFlow, BlockFlow, InlineFlow};
use crate::geometry::{Au, Rect};
use crate::overflow::{lemma_fits_prefix, overflow_fits, overflow_of};
use crate::traversal::{
    postorder, postorder_ends, postorder_never_deepens, postorder_within, preorder, preorder_ends,
    preorder_never_deepens, preorder_within, run_postorder, run_preorder, threaded, Call,
    PostorderFlowTraversal, PreorderFlowTraversal, Visit,
};
use crate::traversal_laws::{law_postorder_ends_by_depth, law_preorder_ends_by_depth};

verus! {

/// Traversals and mutators of flows.
pub trait MutableFlowUtils: Sized {
    /// The flow that is operated on, in contracts.
    spec fn flow(&self) -> AnyFlow;

    /// Traverses the tree in preorder.
    ///
    /// Some log tells a preorder run from the flow and the traversal as they were to what they are
    /// now, and each visit of it is a call that the method of the traversal allows.
    ///
    /// The methods may change the tree as they like, and add children to it, as long as the run
    /// ends, given that each call is one that the traversal's `may_do` allows.
    fn traverse_preorder<T: PreorderFlowTraversal>(&mut self, traversal: &mut T) -> (done: bool)
        requires
            forall|t: &mut T, f: &mut AnyFlow, r: bool| #[trigger]
                call_ensures(T::should_prune, (t, f), r) ==> T::may_do(
                    Visit::at(Call::ShouldPrune, *t, *final(t), *f, *final(f), r),
                ),
            forall|t: &mut T, f: &mut AnyFlow, r: bool| #[trigger]
                call_ensures(T::process, (t, f), r) ==> T::may_do(
                    Visit::at(Call::Process, *t, *final(t), *f, *final(f), r),
                ),
            preorder_ends(*old(traversal), old(self).flow()),
        ensures
            exists|log: Seq<Visit<T>>|
                {
                    &&& #[trigger] threaded(*old(traversal), log, *final(traversal))
                    &&& preorder(old(self).flow(), log, final(self).flow(), done)
                    &&& forall|i: int|
                        0 <= i < log.len() ==> match (#[trigger] log[i]).call {
                            Call::ShouldPrune => exists|t: &mut T, f: &mut AnyFlow|
                                {
                                    &&& #[trigger] call_ensures(
                                        T::should_prune,
                                        (t, f),
                                        log[i].answer,
                                    )
                                    &&& *t == log[i].before && *final(t) == log[i].after
                                    &&& *f == log[i].flow && *final(f) == log[i].result
                                },
                            Call::Process => exists|t: &mut T, f: &mut AnyFlow|
                                {
                                    &&& #[trigger] call_ensures(T::process, (t, f), log[i].answer)
                                    &&& *t == log[i].before && *final(t) == log[i].after
                                    &&& *f == log[i].flow && *final(f) == log[i].result
                                },
                            Call::ShouldProcess => false,
                        }
                },
    ;

    /// Traverses the tree in postorder.
    ///
    /// Some log tells a postorder run from the flow and the traversal as they were to what they are
    /// now, and each visit of it is a call that the method of the traversal allows.
    ///
    /// The methods may change the tree as they like, and add children to it, as long as the run
    /// ends, given that each call is one that the traversal's `may_do` allows.
    fn traverse_postorder<T: PostorderFlowTraversal>(&mut self, traversal: &mut T) -> (done: bool)
        requires
            forall|t: &mut T, f: &mut AnyFlow, r: bool| #[trigger]
                call_ensures(T::should_prune, (t, f), r) ==> T::may_do(
                    Visit::at(Call::ShouldPrune, *t, *final(t), *f, *final(f), r),
                ),
            forall|t: &mut T, f: &mut AnyFlow, r: bool| #[trigger]
                call_ensures(T::should_process, (t, f), r) ==> T::may_do(
                    Visit::at(Call::ShouldProcess, *t, *final(t), *f, *final(f), r),
                ),
            forall|t: &mut T, f: &mut AnyFlow, r: bool| #[trigger]
                call_ensures(T::process, (t, f), r) ==> T::may_do(
                    Visit::at(Call::Process, *t, *final(t), *f, *final(f), r),
                ),
            postorder_ends(*old(traversal), old(self).flow()),
        ensures
            exists|log: Seq<Visit<T>>|
                {
                    &&& #[trigger] threaded(*old(traversal), log, *final(traversal))
                    &&& postorder(old(self).flow(), log, final(self).flow(), done)
                    &&& forall|i: int|
                        0 <= i < log.len() ==> match (#[trigger] log[i]).call {
                            Call::ShouldPrune => exists|t: &mut T, f: &mut AnyFlow|
                                {
                                    &&& #[trigger] call_ensures(
                                        T::should_prune,
                                        (t, f),
                                        log[i].answer,
                                    )
                                    &&& *t == log[i].before && *final(t) == log[i].after
                                    &&& *f == log[i].flow && *final(f) == log[i].result
                                },
                            Call::ShouldProcess => exists|t: &mut T, f: &mut AnyFlow|
                                {
                                    &&& #[trigger] call_ensures(
                                        T::should_process,
                                        (t, f),
                                        log[i].answer,
                                    )
                                    &&& *t == log[i].before && *final(t) == log[i].after
                                    &&& *f == log[i].flow && *final(f) == log[i].result
                                },
                            Call::Process => exists|t: &mut T, f: &mut AnyFlow|
                                {
                                    &&& #[trigger] call_ensures(T::process, (t, f), log[i].answer)
                                    &&& *t == log[i].before && *final(t) == log[i].after
                                    &&& *f == log[i].flow && *final(f) == log[i].result
                                },
                        }
                },
    ;

    /// Adds a new flow as a child of this flow.
    fn add_new_child(&mut self, new_child: AnyFlow)
        ensures
            final(self).flow()@ == old(self).flow()@.with_children(
                old(self).flow().kids().push(new_child),
            ),
    ;

    /// Invokes a closure with the first child of this flow.
    fn with_first_child<R, F: FnOnce(Option<&mut AnyFlow>) -> R>(&mut self, f: F) -> (r: R)
        requires
            old(self).flow().kids().len() == 0 ==> call_requires(f, (None,)),
            old(self).flow().kids().len() > 0 ==> forall|kid: &mut AnyFlow|
                *kid == old(self).flow().kids()[0] ==> #[trigger] call_requires(f, (Some(kid),)),
        ensures
            old(self).flow().kids().len() == 0 ==> {
                &&& call_ensures(f, (None,), r)
                &&& final(self).flow()@ == old(self).flow()@
            },
            old(self).flow().kids().len() > 0 ==> exists|kid: &mut AnyFlow|
                {
                    &&& #[trigger] call_ensures(f, (Some(kid),), r)
                    &&& *kid == old(self).flow().kids()[0]
                    &&& final(self).flow()@ == old(self).flow()@.with_children(
                        old(self).flow().kids().update(0, *final(kid)),
                    )
                },
    ;

    /// Invokes a closure with the last child of this flow.
    fn with_last_child<R, F: FnOnce(Option<&mut AnyFlow>) -> R>(&mut self, f: F) -> (r: R)
        requires
            old(self).flow().kids().len() == 0 ==> call_requires(f, (None,)),
            old(self).flow().kids().len() > 0 ==> forall|kid: &mut AnyFlow|
                *kid == old(self).flow().kids().last() ==> #[trigger] call_requires(
                    f,
                    (Some(kid),),
                ),
        ensures
            old(self).flow().kids().len() == 0 ==> {
                &&& call_ensures(f, (None,), r)
                &&& final(self).flow()@ == old(self).flow()@
            },
            old(self).flow().kids().len() > 0 ==> exists|kid: &mut AnyFlow|
                {
                    &&& #[trigger] call_ensures(f, (Some(kid),), r)
                    &&& *kid == old(self).flow().kids().last()
                    &&& final(self).flow()@ == old(self).flow()@.with_children(
                        old(self).flow().kids().update(
                            old(self).flow().kids().len() - 1,
                            *final(kid),
                        ),
                    )
                },
    ;

    /// Removes the first child of this flow and destroys it. A flow without children stays as it
    /// is.
    fn remove_first(&mut self)
        ensures
            final(self).flow()@ == if old(self).flow().kids().len() == 0 {
                old(self).flow()@
            } else {
                old(self).flow()@.with_children(old(self).flow().kids().drop_first())
            },
    ;

    /// Removes the last child of this flow and destroys it. A flow without children stays as it is.
    fn remove_last(&mut self)
        ensures
            final(self).flow()@ == if old(self).flow().kids().len() == 0 {
                old(self).flow()@
            } else {
                old(self).flow()@.with_children(old(self).flow().kids().drop_last())
            },
    ;

    /// Computes the overflow region for this flow: the union of its position with the overflow of
    /// each of its children, which is relative to this flow.
    fn store_overflow(&mut self)
        requires
            overflow_fits(old(self).flow().data().position, old(self).flow().kids()),
        ensures
            final(self).flow()@ == old(self).flow()@.with_overflow(
                overflow_of(old(self).flow().data().position, old(self).flow().kids()),
            ),
    ;

    /// Builds a display list for this flow and its children. `paint_block` and `paint_inline` paint
    /// a single block or inline flow.
    fn build_display_list<E, B, I>(
        &mut self,
        paint_block: &B,
        paint_inline: &I,
        dirty: &Rect<Au>,
        list: &mut DisplayList<E>,
    ) -> (done: bool) where
        B: Fn(BlockFlow, Rect<Au>, DisplayList<E>) -> (BlockFlow, DisplayList<E>),
        I: Fn(InlineFlow, Rect<Au>, DisplayList<E>) -> (InlineFlow, DisplayList<E>),

        requires
            buildable(
                painters(*paint_block, *paint_inline, *dirty),
                old(self).flow(),
                *old(list),
            ),
        ensures
            done,
            built(
                painters(*paint_block, *paint_inline, *dirty),
                old(self).flow(),
                *old(list),
                final(self).flow(),
                *final(list),
            ),
    ;
}

impl MutableFlowUtils for AnyFlow {
    open spec fn flow(&self) -> AnyFlow {
        *self
    }

    fn traverse_preorder<T: PreorderFlowTraversal>(&mut self, traversal: &mut T) -> (done: bool) {
        proof {
            if preorder_never_deepens::<T>() {
                law_preorder_ends_by_depth(*traversal, *self);
            }
        }
        let ghost levels = choose|levels: nat| #[trigger]
            preorder_within(levels, *traversal, *self);
        let (done, Ghost(log)) = run_preorder(self, traversal, Ghost(levels));
        assert(threaded(*old(traversal), log, *traversal));
        done
    }

    fn traverse_postorder<T: PostorderFlowTraversal>(&mut self, traversal: &mut T) -> (done: bool) {
        proof {
            if postorder_never_deepens::<T>() {
                law_postorder_ends_by_depth(*traversal, *self);
            }
        }
        let ghost levels = choose|levels: nat| #[trigger]
            postorder_within(levels, *traversal, *self);
        let (done, Ghost(log)) = run_postorder(self, traversal, Ghost(levels));
        assert(threaded(*old(traversal), log, *traversal));
        done
    }

    fn add_new_child(&mut self, new_child: AnyFlow) {
        mut_base(self).children.push(new_child)
    }

    fn with_first_child<R, F: FnOnce(Option<&mut AnyFlow>) -> R>(&mut self, f: F) -> (r: R) {
        f(mut_base(self).children.first_mut())
    }

    fn with_last_child<R, F: FnOnce(Option<&mut AnyFlow>) -> R>(&mut self, f: F) -> (r: R) {
        f(mut_base(self).children.last_mut())
    }

    fn remove_first(&mut self) {
        if base(self).children.len() > 0 {
            let _ = mut_base(self).children.remove(0);
            assert(self.kids() =~= old(self).kids().drop_first());
        }
    }

    fn remove_last(&mut self) {
        let _ = mut_base(self).children.pop();
    }

    fn store_overflow(&mut self) {
        let my_position = base(self).position;
        let mut overflow = my_position;
        let ghost kids = self.kids();
        let n: usize = base(self).children.len();
        let mut i: usize = 0;
        assert(kids.take(0).len() == 0);
        while i < n
            invariant
                i <= n == kids.len(),
                kids == self.kids(),
                *self == *old(self),
                overflow_fits(my_position, kids),
                overflow == overflow_of(my_position, kids.take(i as int)),
            decreases n - i,
        {
            proof {
                lemma_fits_prefix(my_position, kids, i + 1);
                assert(kids.take(i + 1).drop_last() =~= kids.take(i as int));
                assert(kids.take(i + 1).last() == kids[i as int]);
            }
            let mut kid_overflow = base(&base(self).children[i]).overflow;
            kid_overflow = kid_overflow.translate(&my_position.origin);
            overflow = overflow.union(&kid_overflow);
            i += 1;
        }
        assert(kids.take(n as int) =~= kids);
        mut_base(self).overflow = overflow;
    }

    fn build_display_list<E, B, I>(
        &mut self,
        paint_block: &B,
        paint_inline: &I,
        dirty: &Rect<Au>,
        list: &mut DisplayList<E>,
    ) -> (done: bool) where
        B: Fn(BlockFlow, Rect<Au>, DisplayList<E>) -> (BlockFlow, DisplayList<E>),
        I: Fn(InlineFlow, Rect<Au>, DisplayList<E>) -> (InlineFlow, DisplayList<E>),
     {
        let ghost does = painters(*paint_block, *paint_inline, *dirty);
        let ghost levels = choose|levels: nat| #[trigger]
            buildable_within(does, levels, *self, *list);
        build(self, paint_block, paint_inline, *dirty, list, Ghost(levels));
        true
    }
}

} // verus!
