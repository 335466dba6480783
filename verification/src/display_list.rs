//! Display lists, and how those of a flow and of its children are put together.
//!
//! What a block or an inline flow paints of its own is up to the caller, who hands in one function
//! for either. A painter takes the flow, the dirty rectangle and the list so far, and gives back
//! the flow, which it may have changed, and the list with what it painted.
use vstd::prelude::*;

use crate::flow::{base, mut_base, AnyFlow, BlockFlow, FlowData, InlineFlow};
use crate::geometry::{Au, Rect};

verus! {

/// One thing to paint. `E` is what the painters attach to an item.
pub enum DisplayItem<E> {
    /// A clip, with the items that it clips.
    ClipDisplayItemClass(ClipDisplayItem<E>),
    /// Any other item.
    Other(E),
}

/// A clip, with the items that it clips.
pub struct ClipDisplayItem<E> {
    pub extra: E,
    pub child_list: Vec<DisplayItem<E>>,
}

/// A list of things to paint, bottom to top.
pub struct DisplayList<E> {
    pub list: Vec<DisplayItem<E>>,
}

impl<E> DisplayList<E> {
    /// Makes an empty list.
    pub fn new() -> (empty: DisplayList<E>)
        ensures
            empty.list@ == Seq::<DisplayItem<E>>::empty(),
    {
        DisplayList { list: Vec::new() }
    }
}

/// Some item of the list is a clip.
pub open spec fn has_clip<E>(items: Seq<DisplayItem<E>>) -> bool {
    exists|k: int| 0 <= k < items.len() && (#[trigger] items[k]) is ClipDisplayItemClass
}

/// The clip that is last in the list is at `k`.
pub open spec fn last_clip<E>(items: Seq<DisplayItem<E>>, k: int) -> bool {
    &&& 0 <= k < items.len()
    &&& items[k] is ClipDisplayItemClass
    &&& forall|j: int| k < j < items.len() ==> !((#[trigger] items[j]) is ClipDisplayItemClass)
}

/// `after` is `before` with `more` put behind the children of its last clip.
pub open spec fn attached<E>(
    before: Seq<DisplayItem<E>>,
    more: Seq<DisplayItem<E>>,
    after: Seq<DisplayItem<E>>,
) -> bool {
    &&& after.len() == before.len()
    &&& exists|k: int| #[trigger]
        last_clip(before, k) && {
            let old_clip = before[k]->ClipDisplayItemClass_0;
            let new_clip = after[k]->ClipDisplayItemClass_0;
            &&& after[k] is ClipDisplayItemClass
            &&& new_clip.extra == old_clip.extra
            &&& new_clip.child_list@ == old_clip.child_list@ + more
            &&& forall|j: int| 0 <= j < before.len() && j != k ==> after[j] == before[j]
        }
}

/// Moves the items of `child_list` into the last clip of `list`, behind those that it has.
pub fn attach_to_last_clip<E>(list: &mut DisplayList<E>, child_list: DisplayList<E>)
    requires
        has_clip(old(list).list@),
    ensures
        attached(old(list).list@, child_list.list@, final(list).list@),
{
    let mut more = child_list.list;
    let ghost items = list.list@;
    let mut at: usize = list.list.len();
    while at > 0
        invariant
            at <= items.len(),
            list.list@ == items,
            items == old(list).list@,
            more@ == child_list.list@,
            has_clip(items),
            forall|j: int|
                at <= j < items.len() ==> !((#[trigger] items[j]) is ClipDisplayItemClass),
        decreases at,
    {
        at -= 1;
        match &mut list.list[at] {
            DisplayItem::ClipDisplayItemClass(item) => {
                item.child_list.append(&mut more);
                proof {
                    assert(last_clip(items, at as int));
                }
                return ;
            },
            DisplayItem::Other(_) => {},
        }
        proof {
            assert(list.list@ =~= items);
        }
    }
    proof {
        // The list has a clip, so the loop has found it.
        assert(false);
    }
}

/// What the painters do: which flows and lists they take, and what they may make of them.
#[verifier::reject_recursive_types(E)]
pub struct Painters<E> {
    /// The flow can be painted onto the list.
    pub takes: spec_fn(AnyFlow, DisplayList<E>) -> bool,
    /// Painting the first flow onto the first list may make them the second ones.
    pub paints: spec_fn(AnyFlow, DisplayList<E>, AnyFlow, DisplayList<E>) -> bool,
}

/// What the two functions do on flows within `dirty`. Flows that are neither block nor inline flows
/// are not painted.
pub open spec fn painters<E, B, I>(paint_block: B, paint_inline: I, dirty: Rect<Au>) -> Painters<
    E,
> where
    B: Fn(BlockFlow, Rect<Au>, DisplayList<E>) -> (BlockFlow, DisplayList<E>),
    I: Fn(InlineFlow, Rect<Au>, DisplayList<E>) -> (InlineFlow, DisplayList<E>),
 {
    Painters {
        takes: |flow: AnyFlow, list: DisplayList<E>|
            match flow {
                AnyFlow::Block(block) => call_requires(paint_block, (block, dirty, list)),
                AnyFlow::Inline(inline) => call_requires(paint_inline, (inline, dirty, list)),
                _ => false,
            },
        paints: |flow: AnyFlow, list: DisplayList<E>, flow2: AnyFlow, list2: DisplayList<E>|
            match (flow, flow2) {
                (AnyFlow::Block(block), AnyFlow::Block(block2)) => call_ensures(
                    paint_block,
                    (block, dirty, list),
                    (block2, list2),
                ),
                (AnyFlow::Inline(inline), AnyFlow::Inline(inline2)) => call_ensures(
                    paint_inline,
                    (inline, dirty, list),
                    (inline2, list2),
                ),
                _ => false,
            },
    }
}

/// Building the display list of the tree `flow` onto `list` may make them `flow2` and `list2`.
///
/// The flow itself is painted first. Where the list is empty then, that is all. Otherwise the
/// children are built, first to last, onto one list that starts out empty, and that list goes into
/// the last clip of the list that the flow was painted onto.
pub open spec fn built<E>(
    painters: Painters<E>,
    flow: AnyFlow,
    list: DisplayList<E>,
    flow2: AnyFlow,
    list2: DisplayList<E>,
) -> bool
    decreases flow2,
{
    exists|mid: AnyFlow, own: DisplayList<E>|
        {
            &&& #[trigger] (painters.paints)(flow, list, mid, own)
            &&& if own.list@.len() == 0 {
                flow2 == mid && list2 == own
            } else {
                exists|lists: Seq<DisplayList<E>>|
                    {
                        &&& lists.len() == mid.kids().len() + 1
                        &&& lists[0].list@.len() == 0
                        &&& flow2.kids().len() == mid.kids().len()
                        &&& flow2@ == mid@.with_children(flow2.kids())
                        &&& forall|j: int|
                            0 <= j < mid.kids().len() ==> built(
                                painters,
                                #[trigger] mid.kids()[j],
                                lists[j],
                                flow2.kids()[j],
                                lists[j + 1],
                            )
                        &&& #[trigger] attached(own.list@, lists.last().list@, list2.list@)
                    }
            }
        }
}

/// The display list of the tree `flow` can be built onto `list`, and no more than `levels` levels
/// below its root are come by, whatever the painters make of it.
///
/// Each flow that is come by is one that the painters take. Where a list is not empty once a flow
/// is painted onto it, it has a clip for the items of the children. Where it is empty, nothing is
/// asked of the children.
pub open spec fn buildable_within<E>(
    painters: Painters<E>,
    levels: nat,
    flow: AnyFlow,
    list: DisplayList<E>,
) -> bool
    decreases levels, 1nat, 0nat,
{
    &&& (painters.takes)(flow, list)
    &&& forall|mid: AnyFlow, own: DisplayList<E>| #[trigger]
        (painters.paints)(flow, list, mid, own) && own.list@.len() > 0 ==> {
            &&& has_clip(own.list@)
            &&& forall|empty: DisplayList<E>|
                (#[trigger] empty.list@).len() == 0 ==> kids_buildable_within(
                    painters,
                    levels,
                    mid.kids(),
                    empty,
                )
        }
}

/// The display lists of the trees `kids` can be built, first to last, onto `list`, and no more than
/// `levels` levels of them are come by, whatever the painters make of them.
pub open spec fn kids_buildable_within<E>(
    painters: Painters<E>,
    levels: nat,
    kids: Seq<AnyFlow>,
    list: DisplayList<E>,
) -> bool
    decreases levels, 0nat, kids.len(),
{
    kids.len() > 0 ==> {
        &&& levels > 0
        &&& buildable_within(painters, (levels - 1) as nat, kids[0], list)
        &&& forall|kid: AnyFlow, next: DisplayList<E>| #[trigger]
            built(painters, kids[0], list, kid, next) ==> kids_buildable_within(
                painters,
                levels,
                kids.skip(1),
                next,
            )
    }
}

/// The display list of the tree `flow` can be built onto `list`, whatever the painters make of it.
/// They may add flows to the tree, as long as there is a bound on how far down they are come by.
pub open spec fn buildable<E>(painters: Painters<E>, flow: AnyFlow, list: DisplayList<E>) -> bool {
    exists|levels: nat| #[trigger] buildable_within(painters, levels, flow, list)
}

/// Paints one block or inline flow, in place.
fn paint<E, B, I>(
    flow: &mut AnyFlow,
    paint_block: &B,
    paint_inline: &I,
    dirty: Rect<Au>,
    list: &mut DisplayList<E>,
) where
    B: Fn(BlockFlow, Rect<Au>, DisplayList<E>) -> (BlockFlow, DisplayList<E>),
    I: Fn(InlineFlow, Rect<Au>, DisplayList<E>) -> (InlineFlow, DisplayList<E>),

    requires
        (painters(*paint_block, *paint_inline, dirty).takes)(*old(flow), *old(list)),
    ensures
        (painters(*paint_block, *paint_inline, dirty).paints)(
            *old(flow),
            *old(list),
            *final(flow),
            *final(list),
        ),
{
    let mut own = DisplayList::new();
    std::mem::swap(list, &mut own);
    let nobody = base(flow).node;
    match flow {
        AnyFlow::Block(block) => {
            let mut taken = BlockFlow { base: FlowData::new(0, nobody), debug: String::new() };
            std::mem::swap(block, &mut taken);
            let (given, own) = paint_block(taken, dirty, own);
            *block = given;
            *list = own;
        },
        AnyFlow::Inline(inline) => {
            let mut taken = InlineFlow { base: FlowData::new(0, nobody), debug: String::new() };
            std::mem::swap(inline, &mut taken);
            let (given, own) = paint_inline(taken, dirty, own);
            *inline = given;
            *list = own;
        },
        _ => {},
    }
}

/// Builds the display list of the tree `flow` onto `list`.
pub(crate) fn build<E, B, I>(
    flow: &mut AnyFlow,
    paint_block: &B,
    paint_inline: &I,
    dirty: Rect<Au>,
    list: &mut DisplayList<E>,
    Ghost(levels): Ghost<nat>,
) where
    B: Fn(BlockFlow, Rect<Au>, DisplayList<E>) -> (BlockFlow, DisplayList<E>),
    I: Fn(InlineFlow, Rect<Au>, DisplayList<E>) -> (InlineFlow, DisplayList<E>),

    requires
        buildable_within(
            painters(*paint_block, *paint_inline, dirty),
            levels,
            *old(flow),
            *old(list),
        ),
    ensures
        built(
            painters(*paint_block, *paint_inline, dirty),
            *old(flow),
            *old(list),
            *final(flow),
            *final(list),
        ),
    decreases levels,
{
    let ghost does = painters(*paint_block, *paint_inline, dirty);
    paint(flow, paint_block, paint_inline, dirty, list);
    if list.list.len() == 0 {
        return ;
    }
    let ghost mid = *flow;
    let ghost own = *list;
    let ghost kids = flow.kids();
    let mut child_list = DisplayList::new();
    let ghost mut lists = seq![child_list];
    let n: usize = base(flow).children.len();
    let mut i: usize = 0;
    proof {
        assert(kids_buildable_within(does, levels, kids, child_list));
        assert(kids.skip(0) =~= kids);
    }
    while i < n
        invariant
            does == painters(*paint_block, *paint_inline, dirty),
            i <= n == kids.len(),
            kids == mid.kids(),
            flow.kids().len() == n,
            flow@ == mid@.with_children(flow.kids()),
            *list == own,
            forall|j: int| i <= j < n ==> flow.kids()[j] == kids[j],
            lists.len() == i + 1,
            lists[0].list@.len() == 0,
            lists.last() == child_list,
            forall|j: int|
                0 <= j < i ==> built(
                    does,
                    #[trigger] kids[j],
                    lists[j],
                    flow.kids()[j],
                    lists[j + 1],
                ),
            kids_buildable_within(does, levels, kids.skip(i as int), child_list),
        decreases n - i,
    {
        let ghost lists_before = lists;
        let ghost kids_before = flow.kids();
        assert(kids.skip(i as int)[0] == kids[i as int] && kids_before[i as int] == kids[i as int]);
        build(
            &mut mut_base(flow).children[i],
            paint_block,
            paint_inline,
            dirty,
            &mut child_list,
            Ghost((levels - 1) as nat),
        );
        proof {
            lists = lists_before.push(child_list);
            assert(kids.skip(i as int).skip(1) =~= kids.skip(i + 1));
            assert forall|j: int| 0 <= j < i + 1 implies built(
                does,
                #[trigger] kids[j],
                lists[j],
                flow.kids()[j],
                lists[j + 1],
            ) by {
                if j < i {
                    assert(flow.kids()[j] == kids_before[j]);
                    assert(lists[j] == lists_before[j] && lists[j + 1] == lists_before[j + 1]);
                }
            }
        }
        i += 1;
    }
    attach_to_last_clip(list, child_list);
    proof {
        assert((does.paints)(*old(flow), *old(list), mid, own));
        assert(attached(own.list@, lists.last().list@, list.list@));
    }
}

} // verus!
