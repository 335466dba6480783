use layout_flow::display_list::{
    attach_to_last_clip, ClipDisplayItem, DisplayItem, DisplayList,
};
use layout_flow::flow::{
    base, mut_base, AbsoluteFlow, AnyFlow, BlockFlow, FlowData, InlineFlow,
};
use layout_flow::geometry::{Au, Point2D, Rect, Size2D};
use layout_flow::mutable::MutableFlowUtils;
use layout_flow::node::{AbstractNode, RestyleDamage};

fn data(id: isize) -> FlowData {
    FlowData::new(id, AbstractNode { address: 0, restyle_damage: RestyleDamage { bits: 0 } })
}

fn block(id: isize, kids: Vec<AnyFlow>) -> AnyFlow {
    let mut flow = AnyFlow::Block(BlockFlow { base: data(id), debug: String::new() });
    for kid in kids {
        flow.add_new_child(kid);
    }
    flow
}

fn inline(id: isize) -> AnyFlow {
    AnyFlow::Inline(InlineFlow { base: data(id), debug: String::new() })
}

fn clip(extra: &str) -> DisplayItem<String> {
    DisplayItem::ClipDisplayItemClass(ClipDisplayItem {
        extra: extra.to_string(),
        child_list: vec![],
    })
}

fn other(extra: &str) -> DisplayItem<String> {
    DisplayItem::Other(extra.to_string())
}

fn show(items: &[DisplayItem<String>]) -> String {
    let shown: Vec<String> = items
        .iter()
        .map(|item| match item {
            DisplayItem::ClipDisplayItemClass(clip) => {
                format!("{}({})", clip.extra, show(&clip.child_list))
            }
            DisplayItem::Other(extra) => extra.clone(),
        })
        .collect();
    shown.join(" ")
}

fn dirty() -> Rect<Au> {
    Rect {
        origin: Point2D { x: Au(1), y: Au(2) },
        size: Size2D { width: Au(3), height: Au(4) },
    }
}

/// Paints a clip for each flow, but nothing for those with a negative id.
fn paint_block(
    mut flow: BlockFlow,
    within: Rect<Au>,
    mut list: DisplayList<String>,
) -> (BlockFlow, DisplayList<String>) {
    assert_eq!(within, dirty());
    if flow.base.id >= 0 {
        list.list.push(clip(&format!("b{}", flow.base.id)));
    }
    for kid in flow.base.child_iter() {
        mut_base(kid).num_floats = 7;
    }
    (flow, list)
}

fn paint_inline(
    flow: InlineFlow,
    within: Rect<Au>,
    mut list: DisplayList<String>,
) -> (InlineFlow, DisplayList<String>) {
    assert_eq!(within, dirty());
    list.list.push(clip(&format!("i{}", flow.base.id)));
    list.list.push(other("text"));
    (flow, list)
}

fn build(flow: &mut AnyFlow, list: &mut DisplayList<String>) -> bool {
    flow.build_display_list(&paint_block, &paint_inline, &dirty(), list)
}

#[test]
fn children_are_painted_inside_their_parent() {
    let mut flow = block(1, vec![block(2, vec![inline(3)]), inline(4)]);
    let mut list = DisplayList::new();
    assert!(build(&mut flow, &mut list));
    assert_eq!(show(&list.list), "b1(b2(i3() text) i4() text)");
}

#[test]
fn painters_may_change_the_flows() {
    let mut flow = block(1, vec![block(2, vec![inline(3)])]);
    let mut list = DisplayList::new();
    assert!(build(&mut flow, &mut list));
    let kid = &base(&flow).children[0];
    assert_eq!(base(&flow).id, 1);
    assert_eq!(base(&flow).num_floats, 0);
    assert_eq!(base(kid).num_floats, 7);
    assert_eq!(base(&base(kid).children[0]).num_floats, 7);
}

#[test]
fn an_empty_list_ends_the_building() {
    let hidden = AnyFlow::Absolute(AbsoluteFlow::new(data(3)));
    let mut flow = block(-1, vec![block(2, vec![]), hidden]);
    let mut list = DisplayList::new();
    assert!(build(&mut flow, &mut list));
    assert_eq!(show(&list.list), "");
    assert_eq!(base(&flow).children.len(), 2);
}

#[test]
fn new_items_go_behind_those_of_the_list() {
    let mut list = DisplayList::new();
    list.list.push(other("bottom"));
    let mut flow = block(1, vec![inline(2)]);
    assert!(build(&mut flow, &mut list));
    assert_eq!(show(&list.list), "bottom b1(i2() text)");
}

#[test]
fn children_of_a_flow_that_paints_nothing_go_into_the_clip_before_it() {
    let mut flow = block(1, vec![block(2, vec![]), block(-3, vec![inline(4)])]);
    let mut list = DisplayList::new();
    assert!(build(&mut flow, &mut list));
    assert_eq!(show(&list.list), "b1(b2(i4() text))");
}

#[test]
fn the_last_clip_takes_the_items() {
    let mut list = DisplayList { list: vec![clip("a"), clip("b"), other("c")] };
    attach_to_last_clip(&mut list, DisplayList { list: vec![other("x"), clip("y")] });
    assert_eq!(show(&list.list), "a() b(x y()) c");
    attach_to_last_clip(&mut list, DisplayList { list: vec![other("z")] });
    assert_eq!(show(&list.list), "a() b(x y() z) c");
    attach_to_last_clip(&mut list, DisplayList::new());
    assert_eq!(show(&list.list), "a() b(x y() z) c");
}

/// Gives the block flow 1 a new child, and paints nothing for negative ids.
fn paint_growing(
    mut flow: BlockFlow,
    within: Rect<Au>,
    list: DisplayList<String>,
) -> (BlockFlow, DisplayList<String>) {
    if flow.base.id.abs() == 1 {
        flow.base.children.push(block(8, vec![]));
    }
    paint_block(flow, within, list)
}

#[test]
fn children_that_painting_added_are_painted() {
    let mut flow = block(1, vec![inline(2)]);
    let mut list = DisplayList::new();
    assert!(flow.build_display_list(&paint_growing, &paint_inline, &dirty(), &mut list));
    assert_eq!(show(&list.list), "b1(i2() text b8())");
    assert_eq!(base(&flow).children.len(), 2);
}

#[test]
fn children_that_painting_added_below_an_empty_list_are_not_come_by() {
    let mut flow = block(-1, vec![]);
    let mut list = DisplayList::new();
    assert!(flow.build_display_list(&paint_growing, &paint_inline, &dirty(), &mut list));
    assert_eq!(show(&list.list), "");
    assert_eq!(base(&flow).children.len(), 1);
}
