//! What a flow keeps of the node that it was made for, and of the floats around it.
use vstd::prelude::*;

verus! {

/// Which of its styles changed since the last layout, as a set of flag bits.
#[derive(Clone, Copy, PartialEq, Eq, Debug)]
pub struct RestyleDamage {
    pub bits: isize,
}

/// A DOM node as layout sees it.
#[derive(Clone, Copy, PartialEq, Eq, Debug)]
pub struct AbstractNode {
    /// Tells the node from every other node of its document.
    pub address: usize,
    /// The damage that the styling of the node left behind.
    pub restyle_damage: RestyleDamage,
}

impl AbstractNode {
    /// Returns the damage that the styling of the node left behind.
    pub fn restyle_damage(&self) -> (damage: RestyleDamage)
        ensures
            damage == self.restyle_damage,
    {
        self.restyle_damage
    }
}

/// The floats that a flow has to make room for.
#[derive(Clone, Copy, PartialEq, Eq, Debug)]
pub enum FloatContext {
    /// Not computed yet.
    Invalid,
    /// Computed, and kept by the float code under this number.
    Valid(usize),
}

} // verus!
