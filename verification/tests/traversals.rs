use layout_flow::flow::{base, mut_base, AnyFlow, BlockFlow, FlowData, TableFlow};
use layout_flow::mutable::MutableFlowUtils;
use layout_flow::node::{AbstractNode, RestyleDamage};
use layout_flow::traversal::{PostorderFlowTraversal, PreorderFlowTraversal};

fn tree(id: isize, kids: Vec<AnyFlow>) -> AnyFlow {
    let node = AbstractNode { address: 0, restyle_damage: RestyleDamage { bits: 0 } };
    let mut flow =
        AnyFlow::Block(BlockFlow { base: FlowData::new(id, node), debug: String::new() });
    for kid in kids {
        flow.add_new_child(kid);
    }
    flow
}

/// 1 with the children 2 (with 3 and 4) and 5 (with 6).
fn sample() -> AnyFlow {
    tree(
        1,
        vec![tree(2, vec![tree(3, vec![]), tree(4, vec![])]), tree(5, vec![tree(6, vec![])])],
    )
}

/// Only says what to do at each flow, and leaves the rest to the defaults.
struct Plain {
    seen: Vec<isize>,
    stop_at: isize,
}

impl PreorderFlowTraversal for Plain {
    fn process(&mut self, flow: &mut AnyFlow) -> bool {
        self.seen.push(base(flow).id);
        base(flow).id != self.stop_at
    }
}

impl PostorderFlowTraversal for Plain {
    fn process(&mut self, flow: &mut AnyFlow) -> bool {
        self.seen.push(base(flow).id);
        base(flow).id != self.stop_at
    }
}

/// Writes down every call.
struct Full {
    calls: Vec<String>,
    prune: isize,
    skip: isize,
}

impl PreorderFlowTraversal for Full {
    fn process(&mut self, flow: &mut AnyFlow) -> bool {
        self.calls.push(format!("process {}", base(flow).id));
        mut_base(flow).num_floats += 1;
        true
    }

    fn should_prune(&mut self, flow: &mut AnyFlow) -> bool {
        self.calls.push(format!("prune {}", base(flow).id));
        base(flow).id == self.prune
    }
}

impl PostorderFlowTraversal for Full {
    fn process(&mut self, flow: &mut AnyFlow) -> bool {
        self.calls.push(format!("process {}", base(flow).id));
        mut_base(flow).num_floats += 1;
        true
    }

    fn should_process(&mut self, flow: &mut AnyFlow) -> bool {
        self.calls.push(format!("should {}", base(flow).id));
        base(flow).id != self.skip
    }

    fn should_prune(&mut self, flow: &mut AnyFlow) -> bool {
        self.calls.push(format!("prune {}", base(flow).id));
        base(flow).id == self.prune
    }
}

fn processed(calls: &[String]) -> Vec<&str> {
    calls.iter().filter_map(|call| call.strip_prefix("process ")).collect()
}

#[test]
fn preorder_visits_parents_first() {
    let mut t = Plain { seen: vec![], stop_at: -1 };
    assert!(sample().traverse_preorder(&mut t));
    assert_eq!(t.seen, [1, 2, 3, 4, 5, 6]);
}

#[test]
fn postorder_visits_children_first() {
    let mut t = Plain { seen: vec![], stop_at: -1 };
    assert!(sample().traverse_postorder(&mut t));
    assert_eq!(t.seen, [3, 4, 2, 6, 5, 1]);
}

#[test]
fn preorder_stops_when_told_to() {
    let mut t = Plain { seen: vec![], stop_at: 3 };
    assert!(!sample().traverse_preorder(&mut t));
    assert_eq!(t.seen, [1, 2, 3]);
    let mut t = Plain { seen: vec![], stop_at: 1 };
    assert!(!sample().traverse_preorder(&mut t));
    assert_eq!(t.seen, [1]);
}

#[test]
fn postorder_stops_when_told_to() {
    let mut t = Plain { seen: vec![], stop_at: 2 };
    assert!(!sample().traverse_postorder(&mut t));
    assert_eq!(t.seen, [3, 4, 2]);
    let mut t = Plain { seen: vec![], stop_at: 1 };
    assert!(!sample().traverse_postorder(&mut t));
    assert_eq!(t.seen, [3, 4, 2, 6, 5, 1]);
}

#[test]
fn preorder_leaves_out_pruned_trees() {
    let mut t = Full { calls: vec![], prune: 2, skip: -1 };
    let mut flow = sample();
    assert!(PreorderFlowTraversal::process(&mut t, &mut tree(9, vec![])));
    t.calls.clear();
    assert!(flow.traverse_preorder(&mut t));
    assert_eq!(
        t.calls,
        ["prune 1", "process 1", "prune 2", "prune 5", "process 5", "prune 6", "process 6"]
    );
    assert_eq!(base(&flow).num_floats, 1);
    assert_eq!(base(&base(&flow).children[0]).num_floats, 0);
    assert_eq!(base(&base(&flow).children[1]).num_floats, 1);
}

#[test]
fn preorder_of_a_pruned_root_is_done_at_once() {
    let mut t = Full { calls: vec![], prune: 1, skip: -1 };
    assert!(sample().traverse_preorder(&mut t));
    assert_eq!(t.calls, ["prune 1"]);
}

#[test]
fn postorder_leaves_out_pruned_trees() {
    let mut t = Full { calls: vec![], prune: 2, skip: -1 };
    assert!(sample().traverse_postorder(&mut t));
    assert_eq!(
        t.calls,
        [
            "prune 1", "prune 2", "prune 5", "prune 6", "should 6", "process 6", "should 5",
            "process 5", "should 1", "process 1"
        ]
    );
}

#[test]
fn postorder_goes_on_below_what_it_should_not_process() {
    let mut t = Full { calls: vec![], prune: -1, skip: 2 };
    let mut flow = sample();
    assert!(flow.traverse_postorder(&mut t));
    assert_eq!(processed(&t.calls), ["3", "4", "6", "5", "1"]);
    assert!(t.calls.contains(&"should 2".to_string()));
    assert_eq!(base(&base(&flow).children[0]).num_floats, 0);
}

#[test]
fn should_prune_is_asked_before_and_should_process_after_the_children() {
    let mut t = Full { calls: vec![], prune: -1, skip: -1 };
    let mut flow = tree(1, vec![tree(2, vec![])]);
    assert!(flow.traverse_postorder(&mut t));
    assert_eq!(
        t.calls,
        ["prune 1", "prune 2", "should 2", "process 2", "should 1", "process 1"]
    );
}

/// Takes the children away from flow 2 before they are come by.
struct Cutter {
    seen: Vec<isize>,
}

impl PreorderFlowTraversal for Cutter {
    fn process(&mut self, flow: &mut AnyFlow) -> bool {
        self.seen.push(base(flow).id);
        if base(flow).id == 2 {
            flow.remove_first();
        }
        true
    }
}

#[test]
fn preorder_visits_the_children_that_processing_left() {
    let mut t = Cutter { seen: vec![] };
    assert!(sample().traverse_preorder(&mut t));
    assert_eq!(t.seen, [1, 2, 4, 5, 6]);
}

fn table(id: isize) -> AnyFlow {
    let node = AbstractNode { address: 0, restyle_damage: RestyleDamage { bits: 0 } };
    AnyFlow::Table(TableFlow::new(FlowData::new(id, node)))
}

/// Gives flow 0 the new child 9 when it is processed.
struct Adder {
    seen: Vec<isize>,
}

impl PreorderFlowTraversal for Adder {
    fn process(&mut self, flow: &mut AnyFlow) -> bool {
        self.seen.push(base(flow).id);
        if base(flow).id == 0 {
            flow.add_new_child(table(9));
        }
        true
    }
}

impl PostorderFlowTraversal for Adder {
    fn process(&mut self, flow: &mut AnyFlow) -> bool {
        PreorderFlowTraversal::process(self, flow)
    }
}

#[test]
fn preorder_visits_the_children_that_processing_added() {
    let mut t = Adder { seen: vec![] };
    let mut flow = table(0);
    assert!(flow.traverse_preorder(&mut t));
    assert_eq!(t.seen, [0, 9]);
    assert_eq!(base(&flow).children.len(), 1);
}

#[test]
fn postorder_does_not_visit_the_children_that_processing_added() {
    let mut t = Adder { seen: vec![] };
    let mut flow = table(0);
    assert!(flow.traverse_postorder(&mut t));
    assert_eq!(t.seen, [0]);
    assert_eq!(base(&flow).children.len(), 1);
}

/// Gives flows a new child, with the next lower id, and prunes those with an id below `from`. In
/// preorder the child comes with the processing, in postorder when it is asked whether to prune.
struct Grower {
    from: isize,
    seen: Vec<isize>,
}

impl PreorderFlowTraversal for Grower {
    fn process(&mut self, flow: &mut AnyFlow) -> bool {
        self.seen.push(base(flow).id);
        flow.add_new_child(table(base(flow).id - 1));
        true
    }

    fn should_prune(&mut self, flow: &mut AnyFlow) -> bool {
        base(flow).id < self.from
    }
}

impl PostorderFlowTraversal for Grower {
    fn process(&mut self, flow: &mut AnyFlow) -> bool {
        self.seen.push(base(flow).id);
        true
    }

    fn should_prune(&mut self, flow: &mut AnyFlow) -> bool {
        if base(flow).id > self.from {
            flow.add_new_child(table(base(flow).id - 1));
        }
        base(flow).id < self.from
    }
}

#[test]
fn preorder_of_a_growing_tree_ends_at_what_is_pruned() {
    let mut t = Grower { from: 5, seen: vec![] };
    let mut flow = table(7);
    assert!(flow.traverse_preorder(&mut t));
    assert_eq!(t.seen, [7, 6, 5]);
    let mut flow = table(4);
    t.seen.clear();
    assert!(flow.traverse_preorder(&mut t));
    assert!(t.seen.is_empty());
    assert!(base(&flow).children.is_empty());
}

#[test]
fn postorder_visits_the_children_that_asking_added() {
    let mut t = Grower { from: 5, seen: vec![] };
    let mut flow = table(7);
    assert!(flow.traverse_postorder(&mut t));
    assert_eq!(t.seen, [5, 6, 7]);
}

#[test]
fn what_is_processed_is_decided_flow_by_flow() {
    let mut t = Full { calls: vec![], prune: 4, skip: 5 };
    assert!(sample().traverse_preorder(&mut t));
    assert_eq!(processed(&t.calls), ["1", "2", "3", "5", "6"]);
    let mut t = Full { calls: vec![], prune: 4, skip: 5 };
    assert!(sample().traverse_postorder(&mut t));
    assert_eq!(processed(&t.calls), ["3", "2", "6", "1"]);
}

#[test]
fn both_orders_process_the_same_flows() {
    for prune in [-1, 1, 2, 5, 6] {
        let mut first = Full { calls: vec![], prune, skip: -1 };
        assert!(sample().traverse_preorder(&mut first));
        let mut second = Full { calls: vec![], prune, skip: -1 };
        assert!(sample().traverse_postorder(&mut second));
        let (mut first, mut second) = (processed(&first.calls), processed(&second.calls));
        first.sort();
        second.sort();
        assert_eq!(first, second);
    }
}
