//! Walking the render boxes of a flow.
use std::rc::Rc;
use vstd::prelude::*;

verus! {

/// Hands out render boxes, first to last. `B` is the type of a render box, which is shared.
pub struct BoxIterator<B> {
    boxes: Vec<Rc<B>>,
    index: usize,
}

/// Calls `Rc::clone`, which makes another pointer to the same value: the two pointers share it.
#[verifier::external_body]
fn share<B>(shared: &Rc<B>) -> (another: Rc<B>)
    ensures
        another == *shared,
{
    shared.clone()
}

impl<B> BoxIterator<B> {
    /// All the boxes, those handed out already among them.
    pub closed spec fn boxes(self) -> Seq<Rc<B>> {
        self.boxes@
    }

    /// The place of the next box to hand out. There is none where this is not the place of a box.
    pub closed spec fn index(self) -> nat {
        self.index as nat
    }

    /// Starts at the first of `boxes`.
    pub fn new(boxes: Vec<Rc<B>>) -> (iter: BoxIterator<B>)
        ensures
            iter.boxes() == boxes@,
            iter.index() == 0,
    {
        BoxIterator { boxes, index: 0 }
    }

    /// Returns the next box and moves on behind it. Where there is none left, returns `None` and
    /// stays where it is.
    pub fn next(&mut self) -> (next: Option<Rc<B>>)
        ensures
            final(self).boxes() == old(self).boxes(),
            next is None <==> old(self).index() >= old(self).boxes().len(),
            next is None ==> *final(self) == *old(self),
            next is Some ==> {
                &&& next == Some(old(self).boxes()[old(self).index() as int])
                &&& final(self).index() == old(self).index() + 1
            },
    {
        if self.index >= self.boxes.len() {
            None
        } else {
            let v = share(&self.boxes[self.index]);
            self.index += 1;
            Some(v)
        }
    }
}

} // verus!
