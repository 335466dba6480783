//! Questions that can be asked of any flow.
use vstd::prelude::*;

use crate::flow::{base, lemma_kids_shallower, AnyFlow, Flow, FlowClass};

verus! {

/// Flows of this class are block or float flows.
pub open spec fn block_like(class: FlowClass) -> bool {
    class == FlowClass::BlockFlowClass
}

/// Flows of this class start a block flow.
pub open spec fn block_starting(class: FlowClass) -> bool {
    class == FlowClass::BlockFlowClass || class == FlowClass::InlineBlockFlowClass
}

/// Flows of this class start an inline flow.
pub open spec fn inline_starting(class: FlowClass) -> bool {
    class == FlowClass::InlineFlowClass
}

/// What stands for the levels above, in front of a line of a dump.
pub open spec fn indent(level: nat) -> Seq<char>
    decreases level,
{
    if level == 0 {
        Seq::empty()
    } else {
        indent((level - 1) as nat) + "| "@
    }
}

/// The line of a dump for one flow.
pub open spec fn dump_line(level: nat, text: Seq<char>) -> Seq<char> {
    indent(level) + "+ "@ + text
}

/// The lines of the dump of a tree: the flow, then its children, one level further in.
pub open spec fn dump_lines(flow: AnyFlow, level: nat) -> Seq<Seq<char>>
    decreases flow, 0nat,
{
    seq![dump_line(level, flow.debug_text())] + dump_lines_of(flow.kids(), level + 1)
}

/// The lines of the dumps of some trees, first to last.
pub open spec fn dump_lines_of(flows: Seq<AnyFlow>, level: nat) -> Seq<Seq<char>>
    decreases flows, 1nat,
{
    if flows.len() == 0 {
        Seq::empty()
    } else {
        dump_lines_of(flows.drop_last(), level) + dump_lines(flows.last(), level)
    }
}

/// What some strings say.
pub open spec fn texts(strings: Seq<String>) -> Seq<Seq<char>> {
    Seq::new(strings.len(), |i: int| strings[i]@)
}

/// Convenience functions of flows.
pub trait ImmutableFlowUtils: Sized {
    /// The flow that is asked, in contracts.
    spec fn flow(&self) -> AnyFlow;

    /// Returns true if this flow is a block or a float flow.
    fn is_block_like(&self) -> (answer: bool)
        ensures
            answer == block_like(self.flow().flow_class()),
    ;

    /// Returns true if this flow has no children.
    fn is_leaf(&self) -> (answer: bool)
        ensures
            answer == (self.flow().kids().len() == 0),
    ;

    /// Returns true if this flow is a block flow, an inline-block flow, or a float flow.
    fn starts_block_flow(&self) -> (answer: bool)
        ensures
            answer == block_starting(self.flow().flow_class()),
    ;

    /// Returns true if this flow is an inline flow.
    fn starts_inline_flow(&self) -> (answer: bool)
        ensures
            answer == inline_starting(self.flow().flow_class()),
    ;

    /// Dumps the flow tree for debugging: returns one line for each flow.
    fn dump(&self) -> (lines: Vec<String>)
        requires
            self.flow().depth() - 1 <= usize::MAX,
        ensures
            texts(lines@) == dump_lines(self.flow(), 0),
    ;

    /// Dumps the flow tree for debugging, with a prefix to indicate that we're at the given level.
    fn dump_with_level(&self, level: usize) -> (lines: Vec<String>)
        requires
            level + self.flow().depth() - 1 <= usize::MAX,
        ensures
            texts(lines@) == dump_lines(self.flow(), level as nat),
    ;
}

impl ImmutableFlowUtils for AnyFlow {
    open spec fn flow(&self) -> AnyFlow {
        *self
    }

    fn is_block_like(&self) -> bool {
        match self.class() {
            FlowClass::BlockFlowClass => true,
            FlowClass::AbsoluteFlowClass
            | FlowClass::InlineBlockFlowClass
            | FlowClass::InlineFlowClass
            | FlowClass::TableFlowClass => false,
        }
    }

    fn is_leaf(&self) -> bool {
        base(self).children.len() == 0
    }

    fn starts_block_flow(&self) -> bool {
        match self.class() {
            FlowClass::BlockFlowClass | FlowClass::InlineBlockFlowClass => true,
            FlowClass::AbsoluteFlowClass
            | FlowClass::InlineFlowClass
            | FlowClass::TableFlowClass => false,
        }
    }

    fn starts_inline_flow(&self) -> bool {
        match self.class() {
            FlowClass::InlineFlowClass => true,
            FlowClass::AbsoluteFlowClass
            | FlowClass::BlockFlowClass
            | FlowClass::InlineBlockFlowClass
            | FlowClass::TableFlowClass => false,
        }
    }

    fn dump(&self) -> Vec<String> {
        self.dump_with_level(0)
    }

    fn dump_with_level(&self, level: usize) -> (lines: Vec<String>)
        decreases self,
    {
        let mut line = String::new();
        let mut done: usize = 0;
        while done < level
            invariant
                done <= level,
                line@ == indent(done as nat),
            decreases level - done,
        {
            line.append("| ");
            done += 1;
        }
        line.append("+ ");
        line.append(self.debug_str().as_str());
        let mut lines: Vec<String> = Vec::new();
        lines.push(line);
        let kids = base(self).children.as_slice();
        let mut i: usize = 0;
        proof {
            lemma_kids_shallower(*self);
            assert(texts(lines@) =~= seq![dump_line(level as nat, self.debug_text())]
                + dump_lines_of(self.kids().take(0), (level + 1) as nat));
        }
        while i < kids.len()
            invariant
                i <= kids.len(),
                kids@ == self.kids(),
                level + self.depth() - 1 <= usize::MAX,
                forall|j: int|
                    0 <= j < self.kids().len() ==> (#[trigger] self.kids()[j]).depth()
                        < self.depth(),
                texts(lines@) == seq![dump_line(level as nat, self.debug_text())] + dump_lines_of(
                    self.kids().take(i as int),
                    (level + 1) as nat,
                ),
            decreases kids.len() - i,
        {
            let ghost before = lines@;
            assert(self.kids()[i as int] == kids@[i as int]);
            let mut more = kids[i].dump_with_level(level + 1);
            let ghost added = more@;
            lines.append(&mut more);
            proof {
                let head = self.kids().take(i as int);
                let longer = self.kids().take(i + 1);
                assert(longer.drop_last() =~= head);
                assert(texts(lines@) =~= texts(before) + texts(added));
                assert(texts(lines@) =~= seq![dump_line(level as nat, self.debug_text())]
                    + dump_lines_of(longer, (level + 1) as nat));
            }
            i += 1;
        }
        proof {
            assert(self.kids().take(i as int) =~= self.kids());
        }
        lines
    }
}

} // verus!
