use layout_flow::box_iterator::BoxIterator;
use layout_flow::flow::{
    base, child_iter, imm_child_iter, last_child, mut_base, AbsoluteFlow, AnyFlow, BlockFlow, Flow,
    FlowClass, FlowData, InlineBlockFlow, InlineFlow, TableFlow,
};
use layout_flow::geometry::{Au, Point2D, Rect, Size2D};
use layout_flow::immutable::ImmutableFlowUtils;
use layout_flow::mutable::MutableFlowUtils;
use layout_flow::node::{AbstractNode, FloatContext, RestyleDamage};
use std::rc::Rc;

fn node() -> AbstractNode {
    AbstractNode { address: 77, restyle_damage: RestyleDamage { bits: 5 } }
}

fn data(id: isize) -> FlowData {
    FlowData::new(id, node())
}

fn block(id: isize) -> AnyFlow {
    AnyFlow::Block(BlockFlow { base: data(id), debug: format!("block {}", id) })
}

fn inline(id: isize) -> AnyFlow {
    AnyFlow::Inline(InlineFlow { base: data(id), debug: format!("inline {}", id) })
}

fn absolute(id: isize) -> AnyFlow {
    AnyFlow::Absolute(AbsoluteFlow::new(data(id)))
}

fn inline_block(id: isize) -> AnyFlow {
    AnyFlow::InlineBlock(InlineBlockFlow::new(data(id)))
}

fn table(id: isize) -> AnyFlow {
    AnyFlow::Table(TableFlow::new(data(id)))
}

fn kid_ids(flow: &AnyFlow) -> Vec<isize> {
    imm_child_iter(flow).map(|kid| base(kid).id).collect()
}

fn rect(x: i32, y: i32, width: i32, height: i32) -> Rect<Au> {
    Rect {
        origin: Point2D { x: Au(x), y: Au(y) },
        size: Size2D { width: Au(width), height: Au(height) },
    }
}

fn with_kids(position: Rect<Au>, overflows: &[Rect<Au>]) -> AnyFlow {
    let mut flow = block(0);
    mut_base(&mut flow).position = position;
    for overflow in overflows {
        let mut kid = inline(1);
        mut_base(&mut kid).overflow = *overflow;
        flow.add_new_child(kid);
    }
    flow
}

fn has_point(r: Rect<Au>, x: i32, y: i32) -> bool {
    r.origin.x.0 <= x
        && x < r.origin.x.0 + r.size.width.0
        && r.origin.y.0 <= y
        && y < r.origin.y.0 + r.size.height.0
}

#[test]
fn new_data_is_blank() {
    let made = data(-3);
    assert_eq!(made.node, node());
    assert_eq!(made.restyle_damage, RestyleDamage { bits: 5 });
    assert_eq!(made.children.len(), 0);
    assert_eq!(made.id, -3);
    assert_eq!(made.min_width, Au(0));
    assert_eq!(made.pref_width, Au(0));
    assert_eq!(made.position, rect(0, 0, 0, 0));
    assert_eq!(made.overflow, rect(0, 0, 0, 0));
    assert_eq!(made.floats_in, FloatContext::Invalid);
    assert_eq!(made.floats_out, FloatContext::Invalid);
    assert_eq!(made.num_floats, 0);
    assert_eq!(made.abs_position, Point2D { x: Au::new(0), y: Au::new(0) });
    assert!(!made.is_inorder);
}

#[test]
fn every_flow_knows_its_class() {
    assert_eq!(absolute(1).class(), FlowClass::AbsoluteFlowClass);
    assert_eq!(block(1).class(), FlowClass::BlockFlowClass);
    assert_eq!(inline_block(1).class(), FlowClass::InlineBlockFlowClass);
    assert_eq!(inline(1).class(), FlowClass::InlineFlowClass);
    assert_eq!(table(1).class(), FlowClass::TableFlowClass);
    assert_eq!(AbsoluteFlow::new(data(4)).class(), FlowClass::AbsoluteFlowClass);
    assert_eq!(InlineBlockFlow::new(data(4)).class(), FlowClass::InlineBlockFlowClass);
    assert_eq!(TableFlow::new(data(4)).class(), FlowClass::TableFlowClass);
    assert_eq!(TableFlow::new(data(4)).base.id, 4);
}

#[test]
fn class_predicates() {
    let flows = [absolute(0), block(0), inline_block(0), inline(0), table(0)];
    let like: Vec<bool> = flows.iter().map(|f| f.is_block_like()).collect();
    let starts_block: Vec<bool> = flows.iter().map(|f| f.starts_block_flow()).collect();
    let starts_inline: Vec<bool> = flows.iter().map(|f| f.starts_inline_flow()).collect();
    assert_eq!(like, [false, true, false, false, false]);
    assert_eq!(starts_block, [false, true, true, false, false]);
    assert_eq!(starts_inline, [false, false, false, true, false]);
}

#[test]
fn debug_strings_and_root_mark() {
    assert_eq!(absolute(1).debug_str(), "???");
    assert_eq!(inline_block(1).debug_str(), "???");
    assert_eq!(table(1).debug_str(), "???");
    let mut flow = block(9);
    flow.mark_as_root();
    assert_eq!(flow.debug_str(), "block 9");
    assert_eq!(inline(2).debug_str(), "inline 2");
}

#[test]
fn underlying_objects() {
    let mut b = block(1);
    b.as_block().base.id = 10;
    assert_eq!(base(&b).id, 10);
    let mut i = inline(2);
    i.as_inline().base.num_floats = 3;
    assert_eq!(i.as_immutable_inline().base.num_floats, 3);
    assert_eq!(i.as_immutable_inline().debug, "inline 2");
}

#[test]
fn data_of_every_class_can_be_reached() {
    for mut flow in [absolute(1), block(1), inline_block(1), inline(1), table(1)] {
        let class = flow.class();
        mut_base(&mut flow).id = 42;
        assert_eq!(base(&flow).id, 42);
        assert_eq!(flow.class(), class);
    }
}

#[test]
fn children_are_kept_in_order() {
    let mut flow = block(0);
    assert!(flow.is_leaf());
    flow.add_new_child(inline(1));
    flow.add_new_child(table(2));
    flow.add_new_child(absolute(3));
    assert!(!flow.is_leaf());
    assert_eq!(kid_ids(&flow), [1, 2, 3]);
    flow.remove_first();
    assert_eq!(kid_ids(&flow), [2, 3]);
    flow.remove_last();
    assert_eq!(kid_ids(&flow), [2]);
    flow.remove_last();
    assert_eq!(kid_ids(&flow), [0isize; 0]);
}

#[test]
fn removing_from_a_leaf_does_nothing() {
    let mut flow = table(5);
    flow.remove_first();
    flow.remove_last();
    assert!(flow.is_leaf());
    assert_eq!(base(&flow).id, 5);
}

#[test]
fn removing_the_last_child_undoes_an_addition() {
    let mut flow = block(0);
    flow.add_new_child(inline(1));
    flow.add_new_child(inline(2));
    flow.remove_last();
    assert_eq!(kid_ids(&flow), [1]);
}

#[test]
fn the_oldest_child_is_removed_first() {
    let mut flow = block(0);
    flow.add_new_child(inline(1));
    flow.add_new_child(inline(2));
    flow.remove_first();
    flow.add_new_child(inline(3));
    flow.remove_first();
    assert_eq!(kid_ids(&flow), [3]);
}

#[test]
fn last_child_can_be_changed() {
    let mut flow = block(0);
    assert!(last_child(&mut flow).is_none());
    flow.add_new_child(inline(1));
    flow.add_new_child(inline(2));
    mut_base(last_child(&mut flow).unwrap()).id = 20;
    assert_eq!(kid_ids(&flow), [1, 20]);
}

#[test]
fn closures_get_the_outer_children() {
    let mut flow = block(0);
    assert!(flow.with_first_child(|kid| kid.is_none()));
    assert!(flow.with_last_child(|kid| kid.is_none()));
    for id in 1..4 {
        flow.add_new_child(inline(id));
    }
    let first = flow.with_first_child(|kid| {
        let data = mut_base(kid.unwrap());
        data.id += 100;
        data.id
    });
    let last = flow.with_last_child(|kid| {
        let data = mut_base(kid.unwrap());
        data.id += 200;
        data.id
    });
    assert_eq!((first, last), (101, 203));
    assert_eq!(kid_ids(&flow), [101, 2, 203]);
}

#[test]
fn children_can_be_changed_in_place() {
    let mut flow = block(0);
    for id in 1..4 {
        flow.add_new_child(inline(id));
    }
    for kid in child_iter(&mut flow) {
        mut_base(kid).id *= 10;
    }
    assert_eq!(kid_ids(&flow), [10, 20, 30]);
    for kid in mut_base(&mut flow).child_iter() {
        mut_base(kid).id += 1;
    }
    assert_eq!(kid_ids(&flow), [11, 21, 31]);
}

#[test]
fn a_dump_has_an_indented_line_for_each_flow() {
    let mut inner = inline(2);
    inner.add_new_child(table(3));
    let mut flow = block(1);
    flow.add_new_child(inner);
    flow.add_new_child(block(4));
    assert_eq!(flow.dump(), ["+ block 1", "| + inline 2", "| | + ???", "| + block 4"]);
    assert_eq!(
        flow.dump_with_level(2),
        ["| | + block 1", "| | | + inline 2", "| | | | + ???", "| | | + block 4"]
    );
}

#[test]
fn overflow_of_a_leaf_is_its_position() {
    let mut flow = with_kids(rect(3, 4, 5, 6), &[]);
    flow.store_overflow();
    assert_eq!(base(&flow).overflow, rect(3, 4, 5, 6));
}

#[test]
fn overflow_is_the_bounding_box_of_the_shifted_children() {
    let mut flow =
        with_kids(rect(10, 20, 100, 50), &[rect(0, 0, 30, 30), rect(-5, 40, 200, 10)]);
    flow.store_overflow();
    assert_eq!(base(&flow).overflow, rect(5, 20, 200, 50));
    assert_eq!(base(&flow).position, rect(10, 20, 100, 50));
    assert_eq!(base(&base(&flow).children[1]).overflow, rect(-5, 40, 200, 10));
}

#[test]
fn a_child_without_extent_counts_for_nothing() {
    let mut flow = with_kids(rect(1, 1, 10, 10), &[rect(1000, 1000, 0, 0)]);
    flow.store_overflow();
    assert_eq!(base(&flow).overflow, rect(1, 1, 10, 10));
}

#[test]
fn a_flat_child_counts_by_its_edges() {
    let mut flow = with_kids(rect(0, 0, 10, 10), &[rect(50, 50, 5, 0)]);
    flow.store_overflow();
    assert_eq!(base(&flow).overflow, rect(0, 0, 55, 50));
}

#[test]
fn a_flow_without_extent_takes_the_place_of_its_child() {
    let mut flow = with_kids(rect(7, 8, 0, 0), &[rect(1, 2, 3, 4)]);
    flow.store_overflow();
    assert_eq!(base(&flow).overflow, rect(8, 10, 3, 4));
}

#[test]
fn overflow_includes_the_pixels_of_all_parts() {
    let position = rect(10, 10, 4, 4);
    let kids = [rect(-20, 3, 2, 2), rect(6, -9, 5, 3)];
    let mut flow = with_kids(position, &kids);
    flow.store_overflow();
    let overflow = base(&flow).overflow;
    for x in -30..30 {
        for y in -30..30 {
            let in_part =
                has_point(position, x, y) || kids.iter().any(|k| has_point(*k, x - 10, y - 10));
            assert!(!in_part || has_point(overflow, x, y));
        }
    }
    assert_eq!(overflow, rect(-10, 1, 31, 14));
}

#[test]
fn storing_the_overflow_twice_changes_nothing() {
    let mut flow = with_kids(rect(1, 2, 3, 4), &[rect(5, 6, 7, 8)]);
    flow.store_overflow();
    let once = base(&flow).overflow;
    flow.store_overflow();
    assert_eq!(base(&flow).overflow, once);
    assert_eq!(once, rect(1, 2, 12, 14));
}

#[test]
fn boxes_come_out_in_order_and_shared() {
    let boxes: Vec<Rc<String>> = ["a", "b", "c"].iter().map(|s| Rc::new(s.to_string())).collect();
    let mut iter = BoxIterator::new(boxes.clone());
    for expected in &boxes {
        let got = iter.next().unwrap();
        assert!(Rc::ptr_eq(&got, expected));
        assert_eq!(Rc::strong_count(&got), 3);
    }
    assert!(iter.next().is_none());
    assert!(iter.next().is_none());
}
