//! What holds across the operations on flows.
use vstd::prelude::*;

use crate::display_list::{
    attached, built, last_clip, painters, DisplayItem, DisplayList, Painters,
};
use crate::flow::{
    lemma_kids_shallower, levels, AbsoluteFlow, AnyFlow, BlockFlow, Flow, FlowClass, FlowData,
    FlowView, InlineBlockFlow, InlineFlow, TableFlow,
};
use crate::geometry::{Au, Rect};
use crate::immutable::{
    block_like, block_starting, dump_line, dump_lines, dump_lines_of, indent, inline_starting,
    texts, ImmutableFlowUtils,
};
use crate::mutable::MutableFlowUtils;
use crate::overflow::overflow_of;
use crate::traversal::{
    postorder, preorder, threaded, PostorderFlowTraversal, PreorderFlowTraversal, Visit,
};
use crate::traversal_laws::{
    flow_at, leads_to, lemma_same_tree, own_part, prefixed, preorder_paths, preorder_paths_of,
    same_tree,
};

verus! {

/// Removing the last child undoes the addition of a child.
pub proof fn law_remove_last_undoes_add_new_child(flow: FlowView, new_child: AnyFlow)
    ensures
        ({
            let added = flow.with_children(flow.data.children.push(new_child));
            added.with_children(added.data.children.drop_last()) == flow
        }),
{
    assert(flow.data.children.push(new_child).drop_last() =~= flow.data.children);
}

/// Children come out at the front in the order in which they were added.
pub proof fn law_remove_first_takes_the_oldest(flow: FlowView, new_child: AnyFlow)
    requires
        flow.data.children.len() > 0,
    ensures
        ({
            let added = flow.with_children(flow.data.children.push(new_child));
            let removed = flow.with_children(flow.data.children.drop_first());
            added.with_children(added.data.children.drop_first()) == removed.with_children(
                removed.data.children.push(new_child),
            )
        }),
{
    assert(flow.data.children.push(new_child).drop_first()
        =~= flow.data.children.drop_first().push(new_child));
}

/// A flow that is block-like starts a block flow, and none that starts a block flow starts an
/// inline flow.
pub proof fn law_classes(class: FlowClass)
    ensures
        block_like(class) ==> block_starting(class),
        !(block_starting(class) && inline_starting(class)),
{
}

/// Block flows alone are block-like, inline flows alone start an inline flow, and inline-block
/// flows start a block flow without being block-like. Absolute and table flows are none of these.
pub proof fn law_what_each_class_starts(class: FlowClass)
    ensures
        match class {
            FlowClass::BlockFlowClass => block_like(class) && block_starting(class)
                && !inline_starting(class),
            FlowClass::InlineBlockFlowClass => !block_like(class) && block_starting(class)
                && !inline_starting(class),
            FlowClass::InlineFlowClass => !block_like(class) && !block_starting(class)
                && inline_starting(class),
            FlowClass::AbsoluteFlowClass | FlowClass::TableFlowClass => !block_like(class)
                && !block_starting(class) && !inline_starting(class),
        },
{
}

/// What data stands for tells every field of it: data that stands for the same is the same in each
/// of them.
pub proof fn law_data_is_told_by_its_view(first: FlowData, second: FlowData)
    requires
        first@ == second@,
    ensures
        first.node == second.node,
        first.restyle_damage == second.restyle_damage,
        first.children@ == second.children@,
        first.id == second.id,
        first.min_width == second.min_width,
        first.pref_width == second.pref_width,
        first.position == second.position,
        first.overflow == second.overflow,
        first.floats_in == second.floats_in,
        first.floats_out == second.floats_out,
        first.num_floats == second.num_floats,
        first.abs_position == second.abs_position,
        first.is_inorder == second.is_inorder,
{
}

/// What a flow stands for tells its class, what it says of itself, and the data that it holds. Its
/// children are those that its data holds.
pub proof fn law_flow_is_told_by_its_view(flow: AnyFlow)
    ensures
        match flow {
            AnyFlow::Absolute(inner) => {
                &&& flow@.class == FlowClass::AbsoluteFlowClass
                &&& flow@.debug == "???"@
                &&& flow@.data == inner.base@ && flow.data() == inner.base
                &&& flow.kids() == inner.base.children@
            },
            AnyFlow::Block(inner) => {
                &&& flow@.class == FlowClass::BlockFlowClass
                &&& flow@.debug == inner.debug@
                &&& flow@.data == inner.base@ && flow.data() == inner.base
                &&& flow.kids() == inner.base.children@
            },
            AnyFlow::InlineBlock(inner) => {
                &&& flow@.class == FlowClass::InlineBlockFlowClass
                &&& flow@.debug == "???"@
                &&& flow@.data == inner.base@ && flow.data() == inner.base
                &&& flow.kids() == inner.base.children@
            },
            AnyFlow::Inline(inner) => {
                &&& flow@.class == FlowClass::InlineFlowClass
                &&& flow@.debug == inner.debug@
                &&& flow@.data == inner.base@ && flow.data() == inner.base
                &&& flow.kids() == inner.base.children@
            },
            AnyFlow::Table(inner) => {
                &&& flow@.class == FlowClass::TableFlowClass
                &&& flow@.debug == "???"@
                &&& flow@.data == inner.base@ && flow.data() == inner.base
                &&& flow.kids() == inner.base.children@
            },
        },
        flow.flow_class() == flow@.class,
        flow.debug_text() == flow@.debug,
{
}

/// Another list of children changes nothing else of a flow.
pub proof fn law_with_children_changes_children_alone(flow: FlowView, children: Seq<AnyFlow>)
    ensures
        ({
            let changed = flow.with_children(children);
            &&& changed.data.children == children
            &&& changed.class == flow.class
            &&& changed.debug == flow.debug
            &&& changed.data.node == flow.data.node
            &&& changed.data.restyle_damage == flow.data.restyle_damage
            &&& changed.data.id == flow.data.id
            &&& changed.data.min_width == flow.data.min_width
            &&& changed.data.pref_width == flow.data.pref_width
            &&& changed.data.position == flow.data.position
            &&& changed.data.overflow == flow.data.overflow
            &&& changed.data.floats_in == flow.data.floats_in
            &&& changed.data.floats_out == flow.data.floats_out
            &&& changed.data.num_floats == flow.data.num_floats
            &&& changed.data.abs_position == flow.data.abs_position
            &&& changed.data.is_inorder == flow.data.is_inorder
        }),
{
}

/// Another overflow changes nothing else of a flow.
pub proof fn law_with_overflow_changes_the_overflow_alone(flow: FlowView, overflow: Rect<Au>)
    ensures
        ({
            let changed = flow.with_overflow(overflow);
            &&& changed.data.overflow == overflow
            &&& changed.class == flow.class
            &&& changed.debug == flow.debug
            &&& changed.data.node == flow.data.node
            &&& changed.data.restyle_damage == flow.data.restyle_damage
            &&& changed.data.children == flow.data.children
            &&& changed.data.id == flow.data.id
            &&& changed.data.min_width == flow.data.min_width
            &&& changed.data.pref_width == flow.data.pref_width
            &&& changed.data.position == flow.data.position
            &&& changed.data.floats_in == flow.data.floats_in
            &&& changed.data.floats_out == flow.data.floats_out
            &&& changed.data.num_floats == flow.data.num_floats
            &&& changed.data.abs_position == flow.data.abs_position
            &&& changed.data.is_inorder == flow.data.is_inorder
        }),
{
}

/// What is written to the data of a flow is there afterwards, and its class and what it says of
/// itself stay.
pub proof fn law_with_data_changes_data_alone(flow: AnyFlow, data: FlowData)
    ensures
        flow.with_data(data).data() == data,
        flow.with_data(data)@ == (FlowView { data: data@, ..flow@ }),
        flow.with_data(flow.data()) == flow,
{
}

/// A flow that is operated on or asked is the flow itself.
pub proof fn law_operations_are_on_the_flow_itself(flow: AnyFlow)
    ensures
        MutableFlowUtils::flow(&flow) == flow,
        ImmutableFlowUtils::flow(&flow) == flow,
{
}

/// The flows of each type are of the class of that type.
pub proof fn law_types_have_their_class(
    absolute: AbsoluteFlow,
    block: BlockFlow,
    inline_block: InlineBlockFlow,
    inline: InlineFlow,
    table: TableFlow,
    any: AnyFlow,
)
    ensures
        absolute.class_of() == FlowClass::AbsoluteFlowClass,
        block.class_of() == FlowClass::BlockFlowClass,
        inline_block.class_of() == FlowClass::InlineBlockFlowClass,
        inline.class_of() == FlowClass::InlineFlowClass,
        table.class_of() == FlowClass::TableFlowClass,
        any.class_of() == match any {
            AnyFlow::Absolute(_) => FlowClass::AbsoluteFlowClass,
            AnyFlow::Block(_) => FlowClass::BlockFlowClass,
            AnyFlow::InlineBlock(_) => FlowClass::InlineBlockFlowClass,
            AnyFlow::Inline(_) => FlowClass::InlineFlowClass,
            AnyFlow::Table(_) => FlowClass::TableFlowClass,
        },
{
}

/// The blank rectangle is at the origin and has no extent.
pub proof fn law_zero_rect_is_zero()
    ensures
        Au::spec_zero_rect().origin.x.0 == 0,
        Au::spec_zero_rect().origin.y.0 == 0,
        Au::spec_zero_rect().size.width.0 == 0,
        Au::spec_zero_rect().size.height.0 == 0,
{
}

/// Storing the overflow a second time changes nothing.
pub proof fn law_store_overflow_twice(flow: AnyFlow, once: AnyFlow, twice: AnyFlow)
    requires
        once@ == flow@.with_overflow(overflow_of(flow.data().position, flow.kids())),
        twice@ == once@.with_overflow(overflow_of(once.data().position, once.kids())),
    ensures
        twice@ == once@,
{
    assert(once.kids() == once@.data.children && flow.kids() == flow@.data.children);
    assert(once.data().position == once@.data.position);
    assert(flow.data().position == flow@.data.position);
}

/// The overflow of a flow without children is its position.
pub proof fn law_overflow_of_a_leaf(flow: AnyFlow)
    requires
        flow.kids().len() == 0,
    ensures
        overflow_of(flow.data().position, flow.kids()) == flow.data().position,
{
}

/// The line at `i` of the dump of some trees is one of the dump of one of them.
proof fn find_dump(kids: Seq<AnyFlow>, level: nat, i: int) -> (at: (int, int))
    requires
        0 <= i < dump_lines_of(kids, level).len(),
        forall|j: int|
            0 <= j < kids.len() ==> dump_lines(#[trigger] kids[j], level).len() == preorder_paths(
                kids[j],
            ).len(),
    ensures
        dump_lines_of(kids, level).len() == preorder_paths_of(kids).len(),
        0 <= at.0 < kids.len(),
        0 <= at.1 < preorder_paths(kids[at.0]).len(),
        dump_lines_of(kids, level)[i] == dump_lines(kids[at.0], level)[at.1],
        preorder_paths_of(kids)[i] == seq![at.0] + preorder_paths(kids[at.0])[at.1],
    decreases kids.len(),
{
    let front = kids.drop_last();
    assert forall|j: int| 0 <= j < front.len() implies dump_lines(#[trigger] front[j], level).len()
        == preorder_paths(front[j]).len() by {
        assert(front[j] == kids[j]);
    }
    lemma_dump_len(front, level);
    assert(kids.last() == kids[kids.len() - 1]);
    let len = dump_lines_of(front, level).len();
    if i < len {
        let at = find_dump(front, level, i);
        assert(front[at.0] == kids[at.0]);
        at
    } else {
        (kids.len() - 1, i - len)
    }
}

/// The dumps of some trees have a line for each flow where the dump of each one has.
proof fn lemma_dump_len(kids: Seq<AnyFlow>, level: nat)
    requires
        forall|j: int|
            0 <= j < kids.len() ==> dump_lines(#[trigger] kids[j], level).len() == preorder_paths(
                kids[j],
            ).len(),
    ensures
        dump_lines_of(kids, level).len() == preorder_paths_of(kids).len(),
    decreases kids.len(),
{
    if kids.len() > 0 {
        let front = kids.drop_last();
        assert forall|j: int| 0 <= j < front.len() implies dump_lines(
            #[trigger] front[j],
            level,
        ).len() == preorder_paths(front[j]).len() by {
            assert(front[j] == kids[j]);
        }
        lemma_dump_len(front, level);
        assert(kids.last() == kids[kids.len() - 1]);
    }
}

/// A dump has one line for each flow of the tree, in preorder, and that line is indented by the
/// number of flows above it.
pub proof fn law_dump_tells_every_flow(flow: AnyFlow, level: nat)
    ensures
        dump_lines(flow, level).len() == preorder_paths(flow).len(),
        forall|i: int|
            0 <= i < preorder_paths(flow).len() ==> {
                let path = #[trigger] preorder_paths(flow)[i];
                dump_lines(flow, level)[i] == dump_line(
                    level + path.len(),
                    flow_at(flow, path).debug_text(),
                )
            },
    decreases flow,
{
    let kids = flow.kids();
    assert forall|j: int| 0 <= j < kids.len() implies dump_lines(
        #[trigger] kids[j],
        level + 1,
    ).len() == preorder_paths(kids[j]).len() by {
        law_dump_tells_every_flow(kids[j], level + 1);
    }
    lemma_dump_len(kids, level + 1);
    assert forall|i: int| 0 <= i < preorder_paths(flow).len() implies {
        let path = #[trigger] preorder_paths(flow)[i];
        dump_lines(flow, level)[i] == dump_line(
            level + path.len(),
            flow_at(flow, path).debug_text(),
        )
    } by {
        let path = preorder_paths(flow)[i];
        if i > 0 {
            let (j, m) = find_dump(kids, level + 1, i - 1);
            law_dump_tells_every_flow(kids[j], level + 1);
            let below = preorder_paths(kids[j])[m];
            assert(path == seq![j] + below);
            assert(path.drop_first() =~= below);
            assert(flow_at(flow, path) == flow_at(kids[j], below));
        }
    }
}

/// The indentation of a line has two characters for each level.
proof fn lemma_indent(level: nat)
    ensures
        indent(level).len() == 2 * level,
        forall|k: int|
            0 <= k < level ==> #[trigger] indent(level)[2 * k] == '|' && indent(level)[2 * k + 1]
                == ' ',
    decreases level,
{
    reveal_strlit("| ");
    if level > 0 {
        lemma_indent((level - 1) as nat);
        let shorter = indent((level - 1) as nat);
        assert forall|k: int| 0 <= k < level implies #[trigger] indent(level)[2 * k] == '|'
            && indent(level)[2 * k + 1] == ' ' by {
            if k < level - 1 {
                assert(shorter[2 * k] == '|');
            }
        }
    }
}

/// The line of each flow in a dump is what the flow says of itself, behind a bar and a blank for
/// each level and a plus and a blank. A flow is one level further in than its parent, however deep
/// it is.
pub proof fn law_dump_indents_by_level(flow: AnyFlow, level: nat)
    ensures
        dump_lines(flow, level).len() == preorder_paths(flow).len(),
        forall|i: int|
            0 <= i < preorder_paths(flow).len() ==> {
                let path = #[trigger] preorder_paths(flow)[i];
                let line = dump_lines(flow, level)[i];
                let text = flow_at(flow, path)@.debug;
                let bars: int = (level + path.len()) as int;
                &&& line.len() == 2 * bars + 2 + text.len()
                &&& forall|k: int|
                    0 <= k < bars ==> #[trigger] line[2 * k] == '|' && line[2 * k + 1] == ' '
                &&& line[2 * bars] == '+'
                &&& line[2 * bars + 1] == ' '
                &&& line.skip(2 * bars + 2) == text
            },
{
    law_dump_tells_every_flow(flow, level);
    reveal_strlit("+ ");
    assert forall|i: int| 0 <= i < preorder_paths(flow).len() implies {
        let path = #[trigger] preorder_paths(flow)[i];
        let line = dump_lines(flow, level)[i];
        let text = flow_at(flow, path)@.debug;
        let bars: int = (level + path.len()) as int;
        &&& line.len() == 2 * bars + 2 + text.len()
        &&& forall|k: int|
            0 <= k < bars ==> #[trigger] line[2 * k] == '|' && line[2 * k + 1] == ' '
        &&& line[2 * bars] == '+'
        &&& line[2 * bars + 1] == ' '
        &&& line.skip(2 * bars + 2) == text
    } by {
        let path = preorder_paths(flow)[i];
        let line = dump_lines(flow, level)[i];
        let text = flow_at(flow, path)@.debug;
        let bars: int = (level + path.len()) as int;
        lemma_indent(bars as nat);
        assert(line == dump_line(bars as nat, text));
        assert forall|k: int| 0 <= k < bars implies #[trigger] line[2 * k] == '|' && line[2 * k + 1]
            == ' ' by {
            assert(indent(bars as nat)[2 * k] == '|');
        }
        assert(line.skip(2 * bars + 2) =~= text);
    }
}

/// The lines of a dump are told one for one, each character of them.
pub proof fn law_texts_tell_every_string(strings: Seq<String>)
    ensures
        texts(strings).len() == strings.len(),
        forall|i: int| 0 <= i < strings.len() ==> #[trigger] texts(strings)[i] == strings[i]@,
{
}

/// The depth of a tree is the number of flows on the longest way down: each path is shorter, and
/// one of them by one alone.
pub proof fn law_depth_is_that_of_the_deepest_flow(flow: AnyFlow)
    ensures
        forall|path: Seq<int>| #[trigger] leads_to(flow, path) ==> path.len() < flow.depth(),
        exists|path: Seq<int>| #[trigger] leads_to(flow, path) && path.len() + 1 == flow.depth(),
    decreases flow, 0nat,
{
    let kids = flow.kids();
    assert forall|path: Seq<int>| #[trigger] leads_to(flow, path) implies path.len()
        < flow.depth() by {
        if path.len() > 0 {
            let kid = kids[path[0]];
            law_depth_is_that_of_the_deepest_flow(kid);
            assert(leads_to(kid, path.drop_first()));
            lemma_kids_shallower(flow);
        }
    }
    if kids.len() == 0 {
        assert(leads_to(flow, Seq::empty()));
    } else {
        let j = lemma_deepest_of(kids);
        law_depth_is_that_of_the_deepest_flow(kids[j]);
        let below = choose|path: Seq<int>| #[trigger]
            leads_to(kids[j], path) && path.len() + 1 == kids[j].depth();
        let path = seq![j] + below;
        assert(path.drop_first() =~= below);
        assert(leads_to(flow, path));
    }
}

/// One of some trees has as many levels as the deepest of them.
proof fn lemma_deepest_of(flows: Seq<AnyFlow>) -> (j: int)
    requires
        flows.len() > 0,
    ensures
        0 <= j < flows.len(),
        flows[j].depth() == levels(flows),
    decreases flows.len(),
{
    let front = flows.drop_last();
    if flows.last().depth() > levels(front) || front.len() == 0 {
        flows.len() - 1
    } else {
        let j = lemma_deepest_of(front);
        assert(front[j] == flows[j]);
        j
    }
}

/// The number of items in a list, those inside clips included.
pub open spec fn item_count<E>(items: Seq<DisplayItem<E>>) -> nat
    decreases items, 1nat,
{
    if items.len() == 0 {
        0
    } else {
        item_count(items.drop_last()) + item_size(items.last())
    }
}

/// An item, and those inside it where it is a clip.
pub open spec fn item_size<E>(item: DisplayItem<E>) -> nat
    decreases item, 0nat,
{
    match item {
        DisplayItem::ClipDisplayItemClass(clip) => 1 + item_count(clip.child_list@),
        DisplayItem::Other(_) => 1,
    }
}

/// Lists one behind the other hold the items of both.
proof fn lemma_item_count_join<E>(first: Seq<DisplayItem<E>>, second: Seq<DisplayItem<E>>)
    ensures
        item_count(first + second) == item_count(first) + item_count(second),
    decreases second.len(),
{
    if second.len() == 0 {
        assert(first + second =~= first);
    } else {
        assert((first + second).drop_last() =~= first + second.drop_last());
        lemma_item_count_join(first, second.drop_last());
    }
}

/// Where two lists differ at one place alone, so do their counts.
proof fn lemma_item_count_change<E>(
    before: Seq<DisplayItem<E>>,
    after: Seq<DisplayItem<E>>,
    k: int,
)
    requires
        0 <= k < before.len(),
        after.len() == before.len(),
        forall|j: int| 0 <= j < before.len() && j != k ==> after[j] == before[j],
    ensures
        item_count(after) + item_size(before[k]) == item_count(before) + item_size(after[k]),
    decreases before.len(),
{
    if k == before.len() - 1 {
        assert(after.drop_last() =~= before.drop_last());
    } else {
        lemma_item_count_change(before.drop_last(), after.drop_last(), k);
    }
}

/// Moving a list into a clip of another loses no item and makes none.
pub proof fn law_attaching_keeps_every_item<E>(
    before: Seq<DisplayItem<E>>,
    more: Seq<DisplayItem<E>>,
    after: Seq<DisplayItem<E>>,
)
    requires
        attached(before, more, after),
    ensures
        item_count(after) == item_count(before) + item_count(more),
{
    let k = choose|k: int| #[trigger]
        last_clip(before, k) && {
            let old_clip = before[k]->ClipDisplayItemClass_0;
            let new_clip = after[k]->ClipDisplayItemClass_0;
            &&& after[k] is ClipDisplayItemClass
            &&& new_clip.extra == old_clip.extra
            &&& new_clip.child_list@ == old_clip.child_list@ + more
            &&& forall|j: int| 0 <= j < before.len() && j != k ==> after[j] == before[j]
        };
    lemma_item_count_change(before, after, k);
    lemma_item_count_join(before[k]->ClipDisplayItemClass_0.child_list@, more);
}

/// What the root was painted to, the list that it was painted onto, and the lists on the way from
/// child to child.
proof fn split_built<E>(
    painters: Painters<E>,
    flow: AnyFlow,
    list: DisplayList<E>,
    flow2: AnyFlow,
    list2: DisplayList<E>,
) -> (parts: (AnyFlow, DisplayList<E>, Seq<DisplayList<E>>))
    requires
        built(painters, flow, list, flow2, list2),
    ensures
        (painters.paints)(flow, list, parts.0, parts.1),
        parts.1.list@.len() == 0 ==> flow2 == parts.0 && list2 == parts.1,
        parts.1.list@.len() > 0 ==> {
            &&& parts.2.len() == parts.0.kids().len() + 1
            &&& parts.2[0].list@.len() == 0
            &&& flow2.kids().len() == parts.0.kids().len()
            &&& flow2@ == parts.0@.with_children(flow2.kids())
            &&& forall|j: int|
                0 <= j < parts.0.kids().len() ==> built(
                    painters,
                    #[trigger] parts.0.kids()[j],
                    parts.2[j],
                    flow2.kids()[j],
                    parts.2[j + 1],
                )
            &&& attached(parts.1.list@, parts.2.last().list@, list2.list@)
        },
{
    let (mid, own) = choose|mid: AnyFlow, own: DisplayList<E>|
        {
            &&& #[trigger] (painters.paints)(flow, list, mid, own)
            &&& if own.list@.len() == 0 {
                flow2 == mid && list2 == own
            } else {
                exists|lists: Seq<DisplayList<E>>|
                    {
                        &&& lists.len() == mid.kids().len() + 1
                        &&& lists[0].list@.len() == 0
                        &&& flow2.kids().len() == mid.kids().len()
                        &&& flow2@ == mid@.with_children(flow2.kids())
                        &&& forall|j: int|
                            0 <= j < mid.kids().len() ==> built(
                                painters,
                                #[trigger] mid.kids()[j],
                                lists[j],
                                flow2.kids()[j],
                                lists[j + 1],
                            )
                        &&& #[trigger] attached(own.list@, lists.last().list@, list2.list@)
                    }
            }
        };
    if own.list@.len() == 0 {
        (mid, own, Seq::empty())
    } else {
        let lists = choose|lists: Seq<DisplayList<E>>|
            {
                &&& lists.len() == mid.kids().len() + 1
                &&& lists[0].list@.len() == 0
                &&& flow2.kids().len() == mid.kids().len()
                &&& flow2@ == mid@.with_children(flow2.kids())
                &&& forall|j: int|
                    0 <= j < mid.kids().len() ==> built(
                        painters,
                        #[trigger] mid.kids()[j],
                        lists[j],
                        flow2.kids()[j],
                        lists[j + 1],
                    )
                &&& #[trigger] attached(own.list@, lists.last().list@, list2.list@)
            };
        (mid, own, lists)
    }
}

/// What is moved into a list goes into the clip behind which there is no other, behind what that
/// clip has already. Every other item stays.
pub proof fn law_attaching_goes_behind_the_last_clip<E>(
    before: Seq<DisplayItem<E>>,
    more: Seq<DisplayItem<E>>,
    after: Seq<DisplayItem<E>>,
    k: int,
)
    requires
        attached(before, more, after),
        0 <= k < before.len(),
        before[k] is ClipDisplayItemClass,
        forall|j: int| k < j < before.len() ==> (#[trigger] before[j]) is Other,
    ensures
        after.len() == before.len(),
        forall|j: int| 0 <= j < before.len() && j != k ==> #[trigger] after[j] == before[j],
        match (before[k], after[k]) {
            (
                DisplayItem::ClipDisplayItemClass(old_clip),
                DisplayItem::ClipDisplayItemClass(new_clip),
            ) => {
                let had = old_clip.child_list@;
                let has = new_clip.child_list@;
                &&& new_clip.extra == old_clip.extra
                &&& has.len() == had.len() + more.len()
                &&& forall|j: int| 0 <= j < had.len() ==> #[trigger] has[j] == had[j]
                &&& forall|j: int| 0 <= j < more.len() ==> has[had.len() + j] == #[trigger] more[j]
            },
            _ => false,
        },
{
    let at = choose|k: int| #[trigger]
        last_clip(before, k) && {
            let old_clip = before[k]->ClipDisplayItemClass_0;
            let new_clip = after[k]->ClipDisplayItemClass_0;
            &&& after[k] is ClipDisplayItemClass
            &&& new_clip.extra == old_clip.extra
            &&& new_clip.child_list@ == old_clip.child_list@ + more
            &&& forall|j: int| 0 <= j < before.len() && j != k ==> after[j] == before[j]
        };
    if at < k {
        assert(before[k] is Other);
    } else if k < at {
        assert(before[at] is Other);
    }
}

/// The display list of a tree has the items that the painter of its root left in it, and no others
/// beside them: what the children paint goes inside one of these. Where the painter left none, the
/// children are not come by.
pub proof fn law_children_are_painted_inside<E>(
    painters: Painters<E>,
    flow: AnyFlow,
    list: DisplayList<E>,
    flow2: AnyFlow,
    list2: DisplayList<E>,
)
    requires
        built(painters, flow, list, flow2, list2),
    ensures
        exists|mid: AnyFlow, own: DisplayList<E>|
            {
                &&& #[trigger] (painters.paints)(flow, list, mid, own)
                &&& list2.list@.len() == own.list@.len()
                &&& flow2@.with_children(mid.kids()) == mid@
                &&& own.list@.len() == 0 ==> flow2 == mid && list2 == own
                &&& own.list@.len() > 0 ==> exists|k: int|
                    #[trigger] last_clip(own.list@, k) && forall|j: int|
                        0 <= j < own.list@.len() && j != k ==> list2.list@[j] == own.list@[j]
            },
{
    let (mid, own, _) = split_built(painters, flow, list, flow2, list2);
    assert((painters.paints)(flow, list, mid, own));
    assert(flow2@.with_children(mid.kids()) =~= mid@);
}

/// The trees `kids` were built first to last, which left them as `kids2`: the first one onto an
/// empty list, each other one onto the list that the one before it left, and the last one left
/// `more`.
pub open spec fn built_in_turn<E>(
    painters: Painters<E>,
    kids: Seq<AnyFlow>,
    kids2: Seq<AnyFlow>,
    more: DisplayList<E>,
) -> bool {
    exists|lists: Seq<DisplayList<E>>|
        {
            &&& lists.len() == kids.len() + 1
            &&& lists[0].list@.len() == 0
            &&& #[trigger] lists[kids.len() as int] == more
            &&& forall|j: int|
                0 <= j < kids.len() ==> #[trigger] built(
                    painters,
                    kids[j],
                    lists[j],
                    kids2[j],
                    lists[j + 1],
                )
        }
}

/// The painter of a flow is called first, on the list as it is. Where it left the list empty, that
/// is all. Otherwise every child that it left to the flow is built in turn, first to last, onto one
/// list that starts out empty, and what that list holds in the end goes into the list that it left.
pub proof fn law_every_child_is_built_in_turn<E>(
    painters: Painters<E>,
    flow: AnyFlow,
    list: DisplayList<E>,
    flow2: AnyFlow,
    list2: DisplayList<E>,
)
    requires
        built(painters, flow, list, flow2, list2),
    ensures
        exists|mid: AnyFlow, own: DisplayList<E>|
            {
                &&& #[trigger] (painters.paints)(flow, list, mid, own)
                &&& own.list@.len() == 0 ==> flow2 == mid && list2 == own
                &&& own.list@.len() > 0 ==> {
                    &&& own_part(flow2) == own_part(mid)
                    &&& flow2.kids().len() == mid.kids().len()
                    &&& exists|more: DisplayList<E>| #[trigger]
                        attached(own.list@, more.list@, list2.list@) && built_in_turn(
                            painters,
                            mid.kids(),
                            flow2.kids(),
                            more,
                        )
                }
            },
{
    let (mid, own, lists) = split_built(painters, flow, list, flow2, list2);
    assert((painters.paints)(flow, list, mid, own));
    if own.list@.len() > 0 {
        let kids = mid.kids();
        let more = lists[kids.len() as int];
        assert(own_part(flow2) == own_part(mid));
        assert forall|j: int| 0 <= j < kids.len() implies #[trigger] built(
            painters,
            kids[j],
            lists[j],
            flow2.kids()[j],
            lists[j + 1],
        ) by {
            assert(mid.kids()[j] == kids[j]);
        }
        assert(built_in_turn(painters, kids, flow2.kids(), more));
        assert(attached(own.list@, more.list@, list2.list@));
    }
}

/// The weights of all the items in a list, those inside clips included.
pub open spec fn tally<E>(items: Seq<DisplayItem<E>>, weigh: spec_fn(E) -> nat) -> nat
    decreases items, 1nat,
{
    if items.len() == 0 {
        0
    } else {
        tally(items.drop_last(), weigh) + item_tally(items.last(), weigh)
    }
}

/// The weight of an item, and of those inside it where it is a clip.
pub open spec fn item_tally<E>(item: DisplayItem<E>, weigh: spec_fn(E) -> nat) -> nat
    decreases item, 0nat,
{
    match item {
        DisplayItem::ClipDisplayItemClass(clip) => weigh(clip.extra) + tally(
            clip.child_list@,
            weigh,
        ),
        DisplayItem::Other(extra) => weigh(extra),
    }
}

/// Lists one behind the other weigh what both weigh.
proof fn lemma_tally_join<E>(
    first: Seq<DisplayItem<E>>,
    second: Seq<DisplayItem<E>>,
    weigh: spec_fn(E) -> nat,
)
    ensures
        tally(first + second, weigh) == tally(first, weigh) + tally(second, weigh),
    decreases second.len(),
{
    if second.len() == 0 {
        assert(first + second =~= first);
    } else {
        assert((first + second).drop_last() =~= first + second.drop_last());
        lemma_tally_join(first, second.drop_last(), weigh);
    }
}

/// Where two lists differ at one place alone, so do their weights.
proof fn lemma_tally_change<E>(
    before: Seq<DisplayItem<E>>,
    after: Seq<DisplayItem<E>>,
    k: int,
    weigh: spec_fn(E) -> nat,
)
    requires
        0 <= k < before.len(),
        after.len() == before.len(),
        forall|j: int| 0 <= j < before.len() && j != k ==> after[j] == before[j],
    ensures
        tally(after, weigh) + item_tally(before[k], weigh) == tally(before, weigh) + item_tally(
            after[k],
            weigh,
        ),
    decreases before.len(),
{
    if k == before.len() - 1 {
        assert(after.drop_last() =~= before.drop_last());
    } else {
        lemma_tally_change(before.drop_last(), after.drop_last(), k, weigh);
    }
}

/// Moving a list into a clip of another keeps the weight of every item.
proof fn lemma_tally_attached<E>(
    before: Seq<DisplayItem<E>>,
    more: Seq<DisplayItem<E>>,
    after: Seq<DisplayItem<E>>,
    weigh: spec_fn(E) -> nat,
)
    requires
        attached(before, more, after),
    ensures
        tally(after, weigh) == tally(before, weigh) + tally(more, weigh),
{
    let k = choose|k: int| #[trigger]
        last_clip(before, k) && {
            let old_clip = before[k]->ClipDisplayItemClass_0;
            let new_clip = after[k]->ClipDisplayItemClass_0;
            &&& after[k] is ClipDisplayItemClass
            &&& new_clip.extra == old_clip.extra
            &&& new_clip.child_list@ == old_clip.child_list@ + more
            &&& forall|j: int| 0 <= j < before.len() && j != k ==> after[j] == before[j]
        };
    lemma_tally_change(before, after, k, weigh);
    lemma_tally_join(before[k]->ClipDisplayItemClass_0.child_list@, more, weigh);
}

/// The sum over the flows at the given paths.
pub open spec fn sum_over(flow: AnyFlow, paths: Seq<Seq<int>>, ink: spec_fn(FlowView) -> nat) -> nat
    decreases paths.len(),
{
    if paths.len() == 0 {
        0
    } else {
        sum_over(flow, paths.drop_last(), ink) + ink(own_part(flow_at(flow, paths.last())))
    }
}

/// The sum over paths one behind the other is that over both.
proof fn lemma_sum_over_join(
    flow: AnyFlow,
    first: Seq<Seq<int>>,
    second: Seq<Seq<int>>,
    ink: spec_fn(FlowView) -> nat,
)
    ensures
        sum_over(flow, first + second, ink) == sum_over(flow, first, ink) + sum_over(
            flow,
            second,
            ink,
        ),
    decreases second.len(),
{
    if second.len() == 0 {
        assert(first + second =~= first);
    } else {
        assert((first + second).drop_last() =~= first + second.drop_last());
        lemma_sum_over_join(flow, first, second.drop_last(), ink);
    }
}

/// The sum over the flows below a child is the same from the child and from its parent.
proof fn lemma_sum_over_kid(
    flow: AnyFlow,
    kid: int,
    paths: Seq<Seq<int>>,
    ink: spec_fn(FlowView) -> nat,
)
    ensures
        sum_over(flow, prefixed(kid, paths), ink) == sum_over(flow.kids()[kid], paths, ink),
    decreases paths.len(),
{
    if paths.len() > 0 {
        lemma_sum_over_kid(flow, kid, paths.drop_last(), ink);
        assert(prefixed(kid, paths).drop_last() =~= prefixed(kid, paths.drop_last()));
        assert((seq![kid] + paths.last()).drop_first() =~= paths.last());
    }
}

/// The weight of the list that the first `n` children are built onto.
proof fn lemma_tally_of_kids<E>(
    flow: AnyFlow,
    lists: Seq<DisplayList<E>>,
    n: nat,
    weigh: spec_fn(E) -> nat,
    ink: spec_fn(FlowView) -> nat,
)
    requires
        n <= flow.kids().len(),
        lists.len() == flow.kids().len() + 1,
        lists[0].list@.len() == 0,
        forall|j: int|
            0 <= j < flow.kids().len() ==> tally(lists[j + 1].list@, weigh) == tally(
                lists[j].list@,
                weigh,
            ) + sum_over(
                #[trigger] flow.kids()[j],
                preorder_paths(flow.kids()[j]),
                ink,
            ),
    ensures
        tally(lists[n as int].list@, weigh) == sum_over(
            flow,
            preorder_paths_of(flow.kids().take(n as int)),
            ink,
        ),
    decreases n,
{
    let kids = flow.kids().take(n as int);
    if n > 0 {
        let kid = n - 1;
        lemma_tally_of_kids(flow, lists, (n - 1) as nat, weigh, ink);
        assert(kids.drop_last() =~= flow.kids().take(kid));
        assert(kids.last() == flow.kids()[kid]);
        let own = preorder_paths(flow.kids()[kid]);
        lemma_sum_over_join(flow, preorder_paths_of(kids.drop_last()), prefixed(kid, own), ink);
        lemma_sum_over_kid(flow, kid, own, ink);
        assert(tally(lists[kid + 1].list@, weigh) == tally(lists[kid].list@, weigh) + sum_over(
            flow.kids()[kid],
            own,
            ink,
        ));
    }
}

/// Every flow of the tree is painted, each once, and all that is painted is in the list. Let the
/// items have weights, and let painting a flow add `ink` to the weight of the list, which is then
/// not empty. Then the display list of a tree adds the ink of all the flows of the tree, as
/// painting left it.
pub proof fn law_every_flow_is_painted_once<E>(
    painters: Painters<E>,
    flow: AnyFlow,
    list: DisplayList<E>,
    flow2: AnyFlow,
    list2: DisplayList<E>,
    weigh: spec_fn(E) -> nat,
    ink: spec_fn(FlowView) -> nat,
)
    requires
        built(painters, flow, list, flow2, list2),
        forall|before: AnyFlow, under: DisplayList<E>, after: AnyFlow, own: DisplayList<E>|
            #[trigger] (painters.paints)(before, under, after, own) ==> {
                &&& own.list@.len() > 0
                &&& tally(own.list@, weigh) == tally(under.list@, weigh) + ink(own_part(after))
            },
    ensures
        tally(list2.list@, weigh) == tally(list.list@, weigh) + sum_over(
            flow2,
            preorder_paths(flow2),
            ink,
        ),
    decreases flow2,
{
    let (mid, own, lists) = split_built(painters, flow, list, flow2, list2);
    let kids = flow2.kids();
    assert forall|j: int| 0 <= j < kids.len() implies tally(lists[j + 1].list@, weigh) == tally(
        lists[j].list@,
        weigh,
    ) + sum_over(#[trigger] kids[j], preorder_paths(kids[j]), ink) by {
        assert(built(painters, mid.kids()[j], lists[j], kids[j], lists[j + 1]));
        law_every_flow_is_painted_once(
            painters,
            mid.kids()[j],
            lists[j],
            kids[j],
            lists[j + 1],
            weigh,
            ink,
        );
    }
    lemma_tally_of_kids(flow2, lists, kids.len(), weigh, ink);
    assert(kids.take(kids.len() as int) =~= kids);
    lemma_tally_attached(own.list@, lists.last().list@, list2.list@, weigh);
    assert(own_part(flow2) == own_part(mid));
    let root = seq![Seq::<int>::empty()];
    lemma_sum_over_join(flow2, root, preorder_paths_of(kids), ink);
    assert(sum_over(flow2, root, ink) == ink(own_part(flow2))) by {
        reveal_with_fuel(sum_over, 2);
        assert(root.drop_last() =~= Seq::<Seq<int>>::empty());
        assert(root.last() == Seq::<int>::empty());
    }
}

/// What is attached to all the items in a list, bottom to top, a clip before what is inside it.
pub open spec fn inked<E>(items: Seq<DisplayItem<E>>) -> Seq<E>
    decreases items, 1nat,
{
    if items.len() == 0 {
        Seq::empty()
    } else {
        inked(items.drop_last()) + item_inked(items.last())
    }
}

/// What is attached to an item, and to those inside it where it is a clip.
pub open spec fn item_inked<E>(item: DisplayItem<E>) -> Seq<E>
    decreases item, 0nat,
{
    match item {
        DisplayItem::ClipDisplayItemClass(clip) => seq![clip.extra] + inked(clip.child_list@),
        DisplayItem::Other(extra) => seq![extra],
    }
}

/// What is attached to lists one behind the other.
proof fn lemma_inked_join<E>(first: Seq<DisplayItem<E>>, second: Seq<DisplayItem<E>>)
    ensures
        inked(first + second) == inked(first) + inked(second),
    decreases second.len(),
{
    if second.len() == 0 {
        assert(first + second =~= first);
        assert(inked(first) + inked(second) =~= inked(first));
    } else {
        assert((first + second).drop_last() =~= first + second.drop_last());
        lemma_inked_join(first, second.drop_last());
        assert(inked(first + second) =~= inked(first) + inked(second));
    }
}

/// What is moved into a list whose last item is a clip is on top of what that list has.
proof fn lemma_inked_attached<E>(
    before: Seq<DisplayItem<E>>,
    more: Seq<DisplayItem<E>>,
    after: Seq<DisplayItem<E>>,
)
    requires
        attached(before, more, after),
        before.len() > 0,
        before.last() is ClipDisplayItemClass,
    ensures
        inked(after) == inked(before) + inked(more),
{
    let k = before.len() - 1;
    law_attaching_goes_behind_the_last_clip(before, more, after, k);
    assert(after.drop_last() =~= before.drop_last());
    let had = before[k]->ClipDisplayItemClass_0.child_list@;
    let has = after[k]->ClipDisplayItemClass_0.child_list@;
    assert(has =~= had + more) by {
        assert forall|j: int| 0 <= j < has.len() implies has[j] == (had + more)[j] by {
            if j >= had.len() {
                assert(has[had.len() + (j - had.len())] == more[j - had.len()]);
            }
        }
    }
    lemma_inked_join(had, more);
    assert(after.last() == after[k] && before.last() == before[k]);
    assert(has == had + more);
    assert(item_inked(after[k]) =~= item_inked(before[k]) + inked(more));
    assert(inked(after) =~= inked(before) + inked(more));
}

/// What `ink` makes of the flows at the given paths, one behind the other.
pub open spec fn ink_along<E>(
    flow: AnyFlow,
    paths: Seq<Seq<int>>,
    ink: spec_fn(FlowView) -> Seq<E>,
) -> Seq<E>
    decreases paths.len(),
{
    if paths.len() == 0 {
        Seq::empty()
    } else {
        ink_along(flow, paths.drop_last(), ink) + ink(own_part(flow_at(flow, paths.last())))
    }
}

/// The ink along paths one behind the other.
proof fn lemma_ink_along_join<E>(
    flow: AnyFlow,
    first: Seq<Seq<int>>,
    second: Seq<Seq<int>>,
    ink: spec_fn(FlowView) -> Seq<E>,
)
    ensures
        ink_along(flow, first + second, ink) == ink_along(flow, first, ink) + ink_along(
            flow,
            second,
            ink,
        ),
    decreases second.len(),
{
    if second.len() == 0 {
        assert(first + second =~= first);
        assert(ink_along(flow, first, ink) + Seq::<E>::empty() =~= ink_along(flow, first, ink));
    } else {
        assert((first + second).drop_last() =~= first + second.drop_last());
        lemma_ink_along_join(flow, first, second.drop_last(), ink);
        assert(ink_along(flow, first + second, ink) =~= ink_along(flow, first, ink) + ink_along(
            flow,
            second,
            ink,
        ));
    }
}

/// The ink below a child is the same from the child and from its parent.
proof fn lemma_ink_along_kid<E>(
    flow: AnyFlow,
    kid: int,
    paths: Seq<Seq<int>>,
    ink: spec_fn(FlowView) -> Seq<E>,
)
    ensures
        ink_along(flow, prefixed(kid, paths), ink) == ink_along(flow.kids()[kid], paths, ink),
    decreases paths.len(),
{
    if paths.len() > 0 {
        lemma_ink_along_kid(flow, kid, paths.drop_last(), ink);
        assert(prefixed(kid, paths).drop_last() =~= prefixed(kid, paths.drop_last()));
        assert((seq![kid] + paths.last()).drop_first() =~= paths.last());
    }
}

/// What is attached to the items of the list that the first `n` children are built onto.
proof fn lemma_inked_of_kids<E>(
    flow: AnyFlow,
    lists: Seq<DisplayList<E>>,
    n: nat,
    ink: spec_fn(FlowView) -> Seq<E>,
)
    requires
        n <= flow.kids().len(),
        lists.len() == flow.kids().len() + 1,
        lists[0].list@.len() == 0,
        forall|j: int|
            0 <= j < flow.kids().len() ==> inked(lists[j + 1].list@) == inked(lists[j].list@)
                + ink_along(#[trigger] flow.kids()[j], preorder_paths(flow.kids()[j]), ink),
    ensures
        inked(lists[n as int].list@) == ink_along(
            flow,
            preorder_paths_of(flow.kids().take(n as int)),
            ink,
        ),
    decreases n,
{
    let kids = flow.kids().take(n as int);
    if n > 0 {
        let kid = n - 1;
        lemma_inked_of_kids(flow, lists, (n - 1) as nat, ink);
        assert(kids.drop_last() =~= flow.kids().take(kid));
        assert(kids.last() == flow.kids()[kid]);
        let own = preorder_paths(flow.kids()[kid]);
        lemma_ink_along_join(flow, preorder_paths_of(kids.drop_last()), prefixed(kid, own), ink);
        lemma_ink_along_kid(flow, kid, own, ink);
        assert(inked(lists[kid + 1].list@) == inked(lists[kid].list@) + ink_along(
            flow.kids()[kid],
            own,
            ink,
        ));
    }
}

/// The flows of a tree are painted in preorder. Let painting a flow put `ink` on top of the list,
/// with a clip as the last item. Then the display list of a tree puts the ink of all the flows of
/// the tree, as painting left it, on top of the list, in preorder.
pub proof fn law_flows_are_painted_in_preorder<E>(
    painters: Painters<E>,
    flow: AnyFlow,
    list: DisplayList<E>,
    flow2: AnyFlow,
    list2: DisplayList<E>,
    ink: spec_fn(FlowView) -> Seq<E>,
)
    requires
        built(painters, flow, list, flow2, list2),
        forall|before: AnyFlow, under: DisplayList<E>, after: AnyFlow, own: DisplayList<E>|
            #[trigger] (painters.paints)(before, under, after, own) ==> {
                &&& own.list@.len() > 0
                &&& own.list@.last() is ClipDisplayItemClass
                &&& inked(own.list@) == inked(under.list@) + ink(own_part(after))
            },
    ensures
        inked(list2.list@) == inked(list.list@) + ink_along(flow2, preorder_paths(flow2), ink),
    decreases flow2,
{
    let (mid, own, lists) = split_built(painters, flow, list, flow2, list2);
    let kids = flow2.kids();
    assert forall|j: int| 0 <= j < kids.len() implies inked(lists[j + 1].list@) == inked(
        lists[j].list@,
    ) + ink_along(#[trigger] kids[j], preorder_paths(kids[j]), ink) by {
        assert(built(painters, mid.kids()[j], lists[j], kids[j], lists[j + 1]));
        law_flows_are_painted_in_preorder(
            painters,
            mid.kids()[j],
            lists[j],
            kids[j],
            lists[j + 1],
            ink,
        );
    }
    lemma_inked_of_kids(flow2, lists, kids.len(), ink);
    assert(kids.take(kids.len() as int) =~= kids);
    lemma_inked_attached(own.list@, lists.last().list@, list2.list@);
    assert(own_part(flow2) == own_part(mid));
    let root = seq![Seq::<int>::empty()];
    lemma_ink_along_join(flow2, root, preorder_paths_of(kids), ink);
    assert(ink_along(flow2, root, ink) =~= ink(own_part(flow2))) by {
        reveal_with_fuel(ink_along, 2);
        assert(root.drop_last() =~= Seq::<Seq<int>>::empty());
        assert(root.last() == Seq::<int>::empty());
    }
    assert(inked(list2.list@) =~= inked(list.list@) + ink_along(flow2, preorder_paths(flow2), ink));
}

/// Building a display list changes the flows by painting alone. Where painting leaves a list that
/// is not empty, keeps the children of the flow and makes `becomes` of the rest of it, that is what
/// is made of each flow of the tree, and the tree keeps its shape.
pub proof fn law_flows_are_left_as_painted<E>(
    painters: Painters<E>,
    flow: AnyFlow,
    list: DisplayList<E>,
    flow2: AnyFlow,
    list2: DisplayList<E>,
    becomes: spec_fn(FlowView) -> FlowView,
    path: Seq<int>,
)
    requires
        built(painters, flow, list, flow2, list2),
        forall|before: AnyFlow, under: DisplayList<E>, after: AnyFlow, own: DisplayList<E>|
            #[trigger] (painters.paints)(before, under, after, own) ==> {
                &&& own.list@.len() > 0
                &&& after.kids() == before.kids()
                &&& own_part(after) == becomes(own_part(before))
            },
    ensures
        leads_to(flow2, path) <==> leads_to(flow, path),
        leads_to(flow, path) ==> own_part(flow_at(flow2, path)) == becomes(
            own_part(flow_at(flow, path)),
        ),
    decreases path.len(),
{
    let (mid, own, lists) = split_built(painters, flow, list, flow2, list2);
    assert(own_part(flow2) == own_part(mid));
    if path.len() > 0 && 0 <= path[0] < flow.kids().len() {
        let j = path[0];
        assert(built(painters, mid.kids()[j], lists[j], flow2.kids()[j], lists[j + 1]));
        law_flows_are_left_as_painted(
            painters,
            flow.kids()[j],
            lists[j],
            flow2.kids()[j],
            lists[j + 1],
            becomes,
            path.drop_first(),
        );
    }
}

/// Painters that leave each flow as it is leave the tree as it is.
pub proof fn law_idle_painters_change_no_flow<E>(
    painters: Painters<E>,
    flow: AnyFlow,
    list: DisplayList<E>,
    flow2: AnyFlow,
    list2: DisplayList<E>,
)
    requires
        built(painters, flow, list, flow2, list2),
        forall|before: AnyFlow, under: DisplayList<E>, after: AnyFlow, own: DisplayList<E>|
            #[trigger] (painters.paints)(before, under, after, own) ==> after == before,
    ensures
        same_tree(flow, flow2),
    decreases flow2,
{
    let (mid, own, lists) = split_built(painters, flow, list, flow2, list2);
    lemma_same_tree(flow);
    if own.list@.len() > 0 {
        assert(own_part(flow2) == own_part(mid));
        assert forall|j: int| 0 <= j < flow.kids().len() implies same_tree(
            #[trigger] flow.kids()[j],
            flow2.kids()[j],
        ) by {
            assert(built(painters, mid.kids()[j], lists[j], flow2.kids()[j], lists[j + 1]));
            law_idle_painters_change_no_flow(
                painters,
                flow.kids()[j],
                lists[j],
                flow2.kids()[j],
                lists[j + 1],
            );
        }
    }
}

/// A block flow is painted by the painter of block flows and an inline flow by that of inline
/// flows, with the dirty rectangle as it is and the list as it is. It stays a flow of its class. No
/// other flow is painted.
pub proof fn law_painters_get_what_is_handed_in<E, B, I>(
    paint_block: B,
    paint_inline: I,
    dirty: Rect<Au>,
    flow: AnyFlow,
    list: DisplayList<E>,
    flow2: AnyFlow,
    list2: DisplayList<E>,
) where
    B: Fn(BlockFlow, Rect<Au>, DisplayList<E>) -> (BlockFlow, DisplayList<E>),
    I: Fn(InlineFlow, Rect<Au>, DisplayList<E>) -> (InlineFlow, DisplayList<E>),

    ensures
        (painters(paint_block, paint_inline, dirty).paints)(flow, list, flow2, list2) <==> match (
            flow,
            flow2,
        ) {
            (AnyFlow::Block(before), AnyFlow::Block(after)) => call_ensures(
                paint_block,
                (before, dirty, list),
                (after, list2),
            ),
            (AnyFlow::Inline(before), AnyFlow::Inline(after)) => call_ensures(
                paint_inline,
                (before, dirty, list),
                (after, list2),
            ),
            _ => false,
        },
        (painters(paint_block, paint_inline, dirty).takes)(flow, list) <==> match flow {
            AnyFlow::Block(before) => call_requires(paint_block, (before, dirty, list)),
            AnyFlow::Inline(before) => call_requires(paint_inline, (before, dirty, list)),
            _ => false,
        },
{
}

/// A call of `dump_with_level` returns a line for each flow of the tree, in preorder.
pub proof fn law_dump_with_level_returns_every_flow(flow: AnyFlow, level: usize, lines: Vec<String>)
    requires
        call_ensures(<AnyFlow as ImmutableFlowUtils>::dump_with_level, (&flow, level), lines),
    ensures
        lines@.len() == preorder_paths(flow).len(),
        forall|i: int|
            0 <= i < lines@.len() ==> {
                let path = preorder_paths(flow)[i];
                let line = (#[trigger] lines@[i])@;
                let text = flow_at(flow, path)@.debug;
                let bars: int = (level + path.len()) as int;
                &&& line.len() == 2 * bars + 2 + text.len()
                &&& forall|k: int|
                    0 <= k < bars ==> #[trigger] line[2 * k] == '|' && line[2 * k + 1] == ' '
                &&& line[2 * bars] == '+'
                &&& line[2 * bars + 1] == ' '
                &&& line.skip(2 * bars + 2) == text
            },
{
    law_dump_indents_by_level(flow, level as nat);
    law_texts_tell_every_string(lines@);
    assert forall|i: int| 0 <= i < lines@.len() implies (#[trigger] lines@[i])@ == dump_lines(
        flow,
        level as nat,
    )[i] && preorder_paths(flow)[i] == preorder_paths(flow)[i] by {
        assert(texts(lines@)[i] == lines@[i]@);
    }
}

/// A call of `store_overflow` changes the overflow of the flow alone, and leaves its children
/// alone.
pub proof fn law_store_overflow_changes_the_overflow_alone()
    ensures
        forall|flow: &mut AnyFlow| #[trigger]
            call_ensures(<AnyFlow as MutableFlowUtils>::store_overflow, (flow,), ()) ==> {
                let before = *flow;
                let after = *final(flow);
                &&& after.kids() == before.kids()
                &&& after@ == before@.with_overflow(after@.data.overflow)
                &&& after@.data.overflow == overflow_of(before.data().position, before.kids())
            },
{
}

/// Adding a child puts it behind the others, and removing one takes the outer one away. The other
/// children stay in their order, and nothing else of the flow changes.
pub proof fn law_children_are_added_and_removed_at_the_ends()
    ensures
        forall|flow: &mut AnyFlow, new_child: AnyFlow| #[trigger]
            call_ensures(<AnyFlow as MutableFlowUtils>::add_new_child, (flow, new_child), ()) ==> {
                let before = (*flow).kids();
                let after = (*final(flow)).kids();
                &&& own_part(*final(flow)) == own_part(*flow)
                &&& after.len() == before.len() + 1
                &&& after[before.len() as int] == new_child
                &&& forall|j: int| 0 <= j < before.len() ==> #[trigger] after[j] == before[j]
            },
        forall|flow: &mut AnyFlow| #[trigger]
            call_ensures(<AnyFlow as MutableFlowUtils>::remove_first, (flow,), ()) ==> {
                let before = (*flow).kids();
                let after = (*final(flow)).kids();
                &&& own_part(*final(flow)) == own_part(*flow)
                &&& after.len() == if before.len() == 0 {
                    0
                } else {
                    before.len() - 1
                }
                &&& forall|j: int| 0 <= j < after.len() ==> #[trigger] after[j] == before[j + 1]
            },
        forall|flow: &mut AnyFlow| #[trigger]
            call_ensures(<AnyFlow as MutableFlowUtils>::remove_last, (flow,), ()) ==> {
                let before = (*flow).kids();
                let after = (*final(flow)).kids();
                &&& own_part(*final(flow)) == own_part(*flow)
                &&& after.len() == if before.len() == 0 {
                    0
                } else {
                    before.len() - 1
                }
                &&& forall|j: int| 0 <= j < after.len() ==> #[trigger] after[j] == before[j]
            },
{
}

/// A call of `traverse_preorder` makes a preorder run from the flow and the traversal as they were
/// to what they are afterwards.
pub proof fn law_traverse_preorder_runs_in_preorder<T: PreorderFlowTraversal>()
    ensures
        forall|flow: &mut AnyFlow, traversal: &mut T, done: bool| #[trigger]
            call_ensures(
                <AnyFlow as MutableFlowUtils>::traverse_preorder::<T>,
                (flow, traversal),
                done,
            ) ==> exists|log: Seq<Visit<T>>| #[trigger]
                threaded(*traversal, log, *final(traversal)) && preorder(
                    *flow,
                    log,
                    *final(flow),
                    done,
                ),
{
}

/// A call of `traverse_postorder` makes a postorder run from the flow and the traversal as they
/// were to what they are afterwards.
pub proof fn law_traverse_postorder_runs_in_postorder<T: PostorderFlowTraversal>()
    ensures
        forall|flow: &mut AnyFlow, traversal: &mut T, done: bool| #[trigger]
            call_ensures(
                <AnyFlow as MutableFlowUtils>::traverse_postorder::<T>,
                (flow, traversal),
                done,
            ) ==> exists|log: Seq<Visit<T>>| #[trigger]
                threaded(*traversal, log, *final(traversal)) && postorder(
                    *flow,
                    log,
                    *final(flow),
                    done,
                ),
{
}

} // verus!
