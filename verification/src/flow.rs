//! Flows: the interior nodes of the layout tree.
//!
//! A flow is one of five classes. What all of them share is in `FlowData`, which also owns the
//! children; `AnyFlow` is a flow of whatever class.
use vstd::prelude::*;

use crate::geometry::{Au, Point2D, Rect};
use crate::node::{AbstractNode, FloatContext, RestyleDamage};

verus! {

/// The class of a flow.
#[derive(Clone, Copy, PartialEq, Eq, Structural, Debug)]
pub enum FlowClass {
    AbsoluteFlowClass,
    BlockFlowClass,
    InlineBlockFlowClass,
    InlineFlowClass,
    TableFlowClass,
}

/// Data common to all flows.
pub struct FlowData {
    pub node: AbstractNode,
    pub restyle_damage: RestyleDamage,
    /// The children, first to last.
    pub children: Vec<AnyFlow>,
    /// For debugging only.
    pub id: isize,
    pub min_width: Au,
    pub pref_width: Au,
    /// The position of the upper left corner of the border box of this flow, relative to the
    /// containing block.
    pub position: Rect<Au>,
    /// The amount of overflow of this flow, relative to the containing block. Must include all the
    /// pixels of all the display list items for correct invalidation.
    pub overflow: Rect<Au>,
    pub floats_in: FloatContext,
    pub floats_out: FloatContext,
    pub num_floats: usize,
    pub abs_position: Point2D<Au>,
    pub is_inorder: bool,
}

/// An absolutely positioned flow.
pub struct AbsoluteFlow {
    pub base: FlowData,
}

/// A flow that establishes a block context.
pub struct BlockFlow {
    pub base: FlowData,
    /// What `debug_str` says of this flow.
    pub debug: String,
}

/// An inline-block flow.
pub struct InlineBlockFlow {
    pub base: FlowData,
}

/// A flow that establishes an inline context.
pub struct InlineFlow {
    pub base: FlowData,
    /// What `debug_str` says of this flow.
    pub debug: String,
}

/// A table flow.
pub struct TableFlow {
    pub base: FlowData,
}

/// A flow of any class.
pub enum AnyFlow {
    Absolute(AbsoluteFlow),
    Block(BlockFlow),
    InlineBlock(InlineBlockFlow),
    Inline(InlineFlow),
    Table(TableFlow),
}

/// What `FlowData` stands for: the same record, with the children as a sequence.
#[verifier::ext_equal]
pub struct FlowDataView {
    pub node: AbstractNode,
    pub restyle_damage: RestyleDamage,
    pub children: Seq<AnyFlow>,
    pub id: int,
    pub min_width: Au,
    pub pref_width: Au,
    pub position: Rect<Au>,
    pub overflow: Rect<Au>,
    pub floats_in: FloatContext,
    pub floats_out: FloatContext,
    pub num_floats: nat,
    pub abs_position: Point2D<Au>,
    pub is_inorder: bool,
}

/// What a flow stands for: its class, what it says of itself, and its data.
#[verifier::ext_equal]
pub struct FlowView {
    pub class: FlowClass,
    pub debug: Seq<char>,
    pub data: FlowDataView,
}

impl View for FlowData {
    type V = FlowDataView;

    open spec fn view(&self) -> FlowDataView {
        FlowDataView {
            node: self.node,
            restyle_damage: self.restyle_damage,
            children: self.children@,
            id: self.id as int,
            min_width: self.min_width,
            pref_width: self.pref_width,
            position: self.position,
            overflow: self.overflow,
            floats_in: self.floats_in,
            floats_out: self.floats_out,
            num_floats: self.num_floats as nat,
            abs_position: self.abs_position,
            is_inorder: self.is_inorder,
        }
    }
}

impl View for AnyFlow {
    type V = FlowView;

    open spec fn view(&self) -> FlowView {
        FlowView { class: self.flow_class(), debug: self.debug_text(), data: self.data()@ }
    }
}

impl FlowView {
    /// The same flow with other children.
    pub open spec fn with_children(self, children: Seq<AnyFlow>) -> FlowView {
        FlowView { data: FlowDataView { children, ..self.data }, ..self }
    }

    /// The same flow with another overflow.
    pub open spec fn with_overflow(self, overflow: Rect<Au>) -> FlowView {
        FlowView { data: FlowDataView { overflow, ..self.data }, ..self }
    }
}

impl AnyFlow {
    /// The class of the flow.
    pub open spec fn flow_class(self) -> FlowClass {
        match self {
            AnyFlow::Absolute(_) => FlowClass::AbsoluteFlowClass,
            AnyFlow::Block(_) => FlowClass::BlockFlowClass,
            AnyFlow::InlineBlock(_) => FlowClass::InlineBlockFlowClass,
            AnyFlow::Inline(_) => FlowClass::InlineFlowClass,
            AnyFlow::Table(_) => FlowClass::TableFlowClass,
        }
    }

    /// What the flow says of itself for debugging.
    pub open spec fn debug_text(self) -> Seq<char> {
        match self {
            AnyFlow::Block(flow) => flow.debug@,
            AnyFlow::Inline(flow) => flow.debug@,
            _ => "???"@,
        }
    }

    /// The data that the flow shares with flows of every class.
    pub open spec fn data(self) -> FlowData {
        match self {
            AnyFlow::Absolute(flow) => flow.base,
            AnyFlow::Block(flow) => flow.base,
            AnyFlow::InlineBlock(flow) => flow.base,
            AnyFlow::Inline(flow) => flow.base,
            AnyFlow::Table(flow) => flow.base,
        }
    }

    /// The same flow with other data.
    pub open spec fn with_data(self, base: FlowData) -> AnyFlow {
        match self {
            AnyFlow::Absolute(_) => AnyFlow::Absolute(AbsoluteFlow { base }),
            AnyFlow::Block(flow) => AnyFlow::Block(BlockFlow { base, ..flow }),
            AnyFlow::InlineBlock(_) => AnyFlow::InlineBlock(InlineBlockFlow { base }),
            AnyFlow::Inline(flow) => AnyFlow::Inline(InlineFlow { base, ..flow }),
            AnyFlow::Table(_) => AnyFlow::Table(TableFlow { base }),
        }
    }

    /// The children of the flow, first to last.
    pub open spec fn kids(self) -> Seq<AnyFlow> {
        self.data().children@
    }

    /// The number of levels in the tree below and with this flow.
    pub open spec fn depth(self) -> nat
        decreases self, 0nat,
    {
        1 + levels(self.kids())
    }

    /// If this is a block flow, returns the underlying object.
    pub fn as_block(&mut self) -> (flow: &mut BlockFlow)
        requires
            old(self).flow_class() == FlowClass::BlockFlowClass,
        ensures
            *old(self) == AnyFlow::Block(*flow),
            *final(self) == AnyFlow::Block(*final(flow)),
    {
        match self {
            AnyFlow::Block(flow) => flow,
            _ => vstd::pervasive::unreached(),
        }
    }

    /// If this is an inline flow, returns the underlying object, borrowed immutably.
    pub fn as_immutable_inline(&self) -> (flow: &InlineFlow)
        requires
            self.flow_class() == FlowClass::InlineFlowClass,
        ensures
            *self == AnyFlow::Inline(*flow),
    {
        match self {
            AnyFlow::Inline(flow) => flow,
            _ => vstd::pervasive::unreached(),
        }
    }

    /// If this is an inline flow, returns the underlying object.
    pub fn as_inline(&mut self) -> (flow: &mut InlineFlow)
        requires
            old(self).flow_class() == FlowClass::InlineFlowClass,
        ensures
            *old(self) == AnyFlow::Inline(*flow),
            *final(self) == AnyFlow::Inline(*final(flow)),
    {
        match self {
            AnyFlow::Inline(flow) => flow,
            _ => vstd::pervasive::unreached(),
        }
    }
}

/// The number of levels in the deepest of the given trees.
pub open spec fn levels(flows: Seq<AnyFlow>) -> nat
    decreases flows, 1nat,
{
    if flows.len() == 0 {
        0
    } else {
        let last = flows.last().depth();
        let others = levels(flows.drop_last());
        if last > others {
            last
        } else {
            others
        }
    }
}

/// Each of the given trees has no more levels than the deepest one.
pub proof fn lemma_levels_bound(flows: Seq<AnyFlow>)
    ensures
        forall|j: int| 0 <= j < flows.len() ==> (#[trigger] flows[j]).depth() <= levels(flows),
    decreases flows.len(),
{
    if flows.len() > 0 {
        lemma_levels_bound(flows.drop_last());
        assert forall|j: int| 0 <= j < flows.len() implies (#[trigger] flows[j]).depth() <= levels(
            flows,
        ) by {
            if j < flows.len() - 1 {
                assert(flows.drop_last()[j] == flows[j]);
            }
        }
    }
}

/// The tree below a child has fewer levels than the tree below its parent.
pub proof fn lemma_kids_shallower(flow: AnyFlow)
    ensures
        forall|j: int|
            0 <= j < flow.kids().len() ==> (#[trigger] flow.kids()[j]).depth() < flow.depth(),
{
    lemma_levels_bound(flow.kids());
}

/// Virtual methods of a flow.
pub trait Flow: Sized {
    /// The class of the flow, in contracts.
    spec fn class_of(&self) -> FlowClass;

    /// Returns the class of flow that this is.
    fn class(&self) -> (class: FlowClass)
        ensures
            class == self.class_of(),
    ;

    /// Marks this flow as the root flow. The default implementation is a no-op.
    fn mark_as_root(&mut self)
        default_ensures
            *final(self) == *old(self),
    {
    }

    /// Returns a debugging string describing this flow.
    fn debug_str(&self) -> (text: String)
        default_ensures
            text@ == "???"@,
    {
        "???".to_owned()
    }
}

impl Flow for AbsoluteFlow {
    open spec fn class_of(&self) -> FlowClass {
        FlowClass::AbsoluteFlowClass
    }

    fn class(&self) -> FlowClass {
        FlowClass::AbsoluteFlowClass
    }
}

impl Flow for BlockFlow {
    open spec fn class_of(&self) -> FlowClass {
        FlowClass::BlockFlowClass
    }

    fn class(&self) -> FlowClass {
        FlowClass::BlockFlowClass
    }

    fn debug_str(&self) -> (text: String)
        ensures
            text@ == self.debug@,
    {
        self.debug.clone()
    }
}

impl Flow for InlineBlockFlow {
    open spec fn class_of(&self) -> FlowClass {
        FlowClass::InlineBlockFlowClass
    }

    fn class(&self) -> FlowClass {
        FlowClass::InlineBlockFlowClass
    }
}

impl Flow for InlineFlow {
    open spec fn class_of(&self) -> FlowClass {
        FlowClass::InlineFlowClass
    }

    fn class(&self) -> FlowClass {
        FlowClass::InlineFlowClass
    }

    fn debug_str(&self) -> (text: String)
        ensures
            text@ == self.debug@,
    {
        self.debug.clone()
    }
}

impl Flow for TableFlow {
    open spec fn class_of(&self) -> FlowClass {
        FlowClass::TableFlowClass
    }

    fn class(&self) -> FlowClass {
        FlowClass::TableFlowClass
    }
}

impl Flow for AnyFlow {
    open spec fn class_of(&self) -> FlowClass {
        self.flow_class()
    }

    fn class(&self) -> FlowClass {
        match self {
            AnyFlow::Absolute(flow) => flow.class(),
            AnyFlow::Block(flow) => flow.class(),
            AnyFlow::InlineBlock(flow) => flow.class(),
            AnyFlow::Inline(flow) => flow.class(),
            AnyFlow::Table(flow) => flow.class(),
        }
    }

    fn mark_as_root(&mut self)
        ensures
            *final(self) == *old(self),
    {
        match self {
            AnyFlow::Absolute(flow) => flow.mark_as_root(),
            AnyFlow::Block(flow) => flow.mark_as_root(),
            AnyFlow::InlineBlock(flow) => flow.mark_as_root(),
            AnyFlow::Inline(flow) => flow.mark_as_root(),
            AnyFlow::Table(flow) => flow.mark_as_root(),
        }
    }

    fn debug_str(&self) -> (text: String)
        ensures
            text@ == self.debug_text(),
    {
        match self {
            AnyFlow::Absolute(flow) => flow.debug_str(),
            AnyFlow::Block(flow) => flow.debug_str(),
            AnyFlow::InlineBlock(flow) => flow.debug_str(),
            AnyFlow::Inline(flow) => flow.debug_str(),
            AnyFlow::Table(flow) => flow.debug_str(),
        }
    }
}

impl AbsoluteFlow {
    /// Makes an absolutely positioned flow of the given data.
    pub fn new(base: FlowData) -> (flow: AbsoluteFlow)
        ensures
            flow == (AbsoluteFlow { base }),
    {
        AbsoluteFlow { base }
    }
}

impl InlineBlockFlow {
    /// Makes an inline-block flow of the given data.
    pub fn new(base: FlowData) -> (flow: InlineBlockFlow)
        ensures
            flow == (InlineBlockFlow { base }),
    {
        InlineBlockFlow { base }
    }
}

impl TableFlow {
    /// Makes a table flow of the given data.
    pub fn new(base: FlowData) -> (flow: TableFlow)
        ensures
            flow == (TableFlow { base }),
    {
        TableFlow { base }
    }
}

impl FlowData {
    /// Makes the data of a flow for `node`: no children, no extent anywhere, no floats yet, and
    /// the restyle damage of the node.
    pub fn new(id: isize, node: AbstractNode) -> (data: FlowData)
        ensures
            data@ == (FlowDataView {
                node,
                restyle_damage: node.restyle_damage,
                children: Seq::empty(),
                id: id as int,
                min_width: Au(0),
                pref_width: Au(0),
                position: Au::spec_zero_rect(),
                overflow: Au::spec_zero_rect(),
                floats_in: FloatContext::Invalid,
                floats_out: FloatContext::Invalid,
                num_floats: 0,
                abs_position: Point2D { x: Au(0), y: Au(0) },
                is_inorder: false,
            }),
    {
        FlowData {
            node,
            restyle_damage: node.restyle_damage(),
            children: Vec::new(),
            id,
            min_width: Au::new(0),
            pref_width: Au::new(0),
            position: Au::zero_rect(),
            overflow: Au::zero_rect(),
            floats_in: FloatContext::Invalid,
            floats_out: FloatContext::Invalid,
            num_floats: 0,
            abs_position: Point2D { x: Au::new(0), y: Au::new(0) },
            is_inorder: false,
        }
    }

    /// Hands out the children, first to last, for the caller to change in place.
    pub fn child_iter(&mut self) -> (kids: &mut [AnyFlow])
        ensures
            kids@ == old(self).children@,
            final(self)@ == (FlowDataView { children: final(kids)@, ..old(self)@ }),
    {
        self.children.as_mut_slice()
    }
}

/// Returns the data that a flow shares with flows of every class.
pub fn base(this: &AnyFlow) -> (data: &FlowData)
    ensures
        *data == this.data(),
{
    match this {
        AnyFlow::Absolute(flow) => &flow.base,
        AnyFlow::Block(flow) => &flow.base,
        AnyFlow::InlineBlock(flow) => &flow.base,
        AnyFlow::Inline(flow) => &flow.base,
        AnyFlow::Table(flow) => &flow.base,
    }
}

/// Returns the data that a flow shares with flows of every class, for the caller to change.
pub fn mut_base(this: &mut AnyFlow) -> (data: &mut FlowData)
    ensures
        *data == old(this).data(),
        *final(this) == old(this).with_data(*final(data)),
{
    match this {
        AnyFlow::Absolute(flow) => &mut flow.base,
        AnyFlow::Block(flow) => &mut flow.base,
        AnyFlow::InlineBlock(flow) => &mut flow.base,
        AnyFlow::Inline(flow) => &mut flow.base,
        AnyFlow::Table(flow) => &mut flow.base,
    }
}

/// Iterates over the children of this immutable flow.
pub fn imm_child_iter(flow: &AnyFlow) -> (kids: std::slice::Iter<'_, AnyFlow>)
    ensures
        vstd::std_specs::iter::IteratorSpec::remaining(&kids) == flow.kids().as_ref(),
        vstd::std_specs::iter::IteratorSpec::decrease(&kids) is Some,
{
    base(flow).children.as_slice().iter()
}

/// Returns the last child of this flow.
pub fn last_child(flow: &mut AnyFlow) -> (kid: Option<&mut AnyFlow>)
    ensures
        match kid {
            Some(kid) => {
                let kids = old(flow).kids();
                &&& kids.len() > 0
                &&& *kid == kids.last()
                &&& final(flow)@ == old(flow)@.with_children(
                    kids.update(kids.len() - 1, *final(kid)),
                )
            },
            None => old(flow).kids().len() == 0 && final(flow)@ == old(flow)@,
        },
{
    mut_base(flow).children.last_mut()
}

/// Hands out the children of this flow, first to last, for the caller to change in place.
pub fn child_iter(flow: &mut AnyFlow) -> (kids: &mut [AnyFlow])
    ensures
        kids@ == old(flow).kids(),
        final(flow)@ == old(flow)@.with_children(final(kids)@),
{
    mut_base(flow).child_iter()
}

} // verus!
