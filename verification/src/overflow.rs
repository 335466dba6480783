//! The overflow region of a flow: what its own box and the overflow of its children take up.
use vstd::prelude::*;

use crate::flow::AnyFlow;
use crate::geometry::{Au, Rect};

verus! {

/// What a child takes up in its parent's parent, where the parent is at `position`.
pub open spec fn shifted_overflow(position: Rect<Au>, kid: AnyFlow) -> Rect<Au> {
    kid.data().overflow.translated(position.origin)
}

/// The union of `position` with what each of `kids` takes up.
pub open spec fn overflow_of(position: Rect<Au>, kids: Seq<AnyFlow>) -> Rect<Au>
    decreases kids.len(),
{
    if kids.len() == 0 {
        position
    } else {
        overflow_of(position, kids.drop_last()).united(shifted_overflow(position, kids.last()))
    }
}

/// No number on the way to the overflow is out of range.
pub open spec fn overflow_fits(position: Rect<Au>, kids: Seq<AnyFlow>) -> bool
    decreases kids.len(),
{
    kids.len() > 0 ==> {
        &&& overflow_fits(position, kids.drop_last())
        &&& kids.last().data().overflow.translate_fits(position.origin)
        &&& overflow_of(position, kids.drop_last()).union_fits(
            shifted_overflow(position, kids.last()),
        )
    }
}

/// Where the numbers fit for all of some children, they fit for the first ones.
pub proof fn lemma_fits_prefix(position: Rect<Au>, kids: Seq<AnyFlow>, n: int)
    requires
        overflow_fits(position, kids),
        0 <= n <= kids.len(),
    ensures
        overflow_fits(position, kids.take(n)),
    decreases kids.len(),
{
    if n == kids.len() {
        assert(kids.take(n) =~= kids);
    } else {
        lemma_fits_prefix(position, kids.drop_last(), n);
        assert(kids.drop_last().take(n) =~= kids.take(n));
    }
}

/// The overflow includes every pixel of the flow's own box, and every pixel of the overflow of
/// each child.
pub proof fn law_overflow_includes_all_pixels(
    position: Rect<Au>,
    kids: Seq<AnyFlow>,
    x: int,
    y: int,
)
    requires
        overflow_fits(position, kids),
    ensures
        position.has_point(x, y) ==> overflow_of(position, kids).has_point(x, y),
        forall|j: int|
            0 <= j < kids.len() && shifted_overflow(position, #[trigger] kids[j]).has_point(x, y)
                ==> overflow_of(position, kids).has_point(x, y),
    decreases kids.len(),
{
    if kids.len() > 0 {
        law_overflow_includes_all_pixels(position, kids.drop_last(), x, y);
        assert forall|j: int|
            0 <= j < kids.len() && shifted_overflow(position, #[trigger] kids[j]).has_point(
                x,
                y,
            ) implies overflow_of(position, kids).has_point(x, y) by {
            if j < kids.len() - 1 {
                assert(kids.drop_last()[j] == kids[j]);
            }
        }
    }
}

/// The overflow is no larger than it has to be: a rectangle around the flow's own box and around
/// the overflow of each child, as far as these have an extent, is one around the overflow, as far
/// as that has an extent.
pub proof fn law_overflow_is_smallest(position: Rect<Au>, kids: Seq<AnyFlow>, outer: Rect<Au>)
    requires
        overflow_fits(position, kids),
        position.no_extent() || outer.surrounds(position),
        forall|j: int|
            0 <= j < kids.len() ==> {
                let part = shifted_overflow(position, #[trigger] kids[j]);
                part.no_extent() || outer.surrounds(part)
            },
    ensures
        overflow_of(position, kids).no_extent() || outer.surrounds(overflow_of(position, kids)),
    decreases kids.len(),
{
    if kids.len() > 0 {
        assert forall|j: int| 0 <= j < kids.drop_last().len() implies {
            let part = shifted_overflow(position, #[trigger] kids.drop_last()[j]);
            part.no_extent() || outer.surrounds(part)
        } by {
            assert(kids.drop_last()[j] == kids[j]);
        }
        law_overflow_is_smallest(position, kids.drop_last(), outer);
        assert(kids.last() == kids[kids.len() - 1]);
    }
}

/// What one more child does to the overflow. Its own overflow counts from the upper left corner of
/// the flow, whatever the class of the child. Where the two have an extent, each edge is the outer
/// one of the two; one of no extent counts for nothing.
pub proof fn law_overflow_of_one_more_child(position: Rect<Au>, kids: Seq<AnyFlow>, kid: AnyFlow)
    requires
        overflow_fits(position, kids.push(kid)),
    ensures
        ({
            let before = overflow_of(position, kids);
            let after = overflow_of(position, kids.push(kid));
            let more = kid.data().overflow;
            let left = position.origin.x.0 + more.origin.x.0;
            let top = position.origin.y.0 + more.origin.y.0;
            if before.size.width.0 == 0 && before.size.height.0 == 0 {
                &&& after.origin.x.0 == left && after.origin.y.0 == top
                &&& after.size == more.size
            } else if more.size.width.0 == 0 && more.size.height.0 == 0 {
                after == before
            } else {
                let right = left + more.size.width.0;
                let bottom = top + more.size.height.0;
                let old_right = before.origin.x.0 + before.size.width.0;
                let old_bottom = before.origin.y.0 + before.size.height.0;
                let new_right = after.origin.x.0 + after.size.width.0;
                let new_bottom = after.origin.y.0 + after.size.height.0;
                &&& after.origin.x.0 <= left && after.origin.x.0 <= before.origin.x.0
                &&& after.origin.x.0 == left || after.origin.x.0 == before.origin.x.0
                &&& after.origin.y.0 <= top && after.origin.y.0 <= before.origin.y.0
                &&& after.origin.y.0 == top || after.origin.y.0 == before.origin.y.0
                &&& right <= new_right && old_right <= new_right
                &&& new_right == right || new_right == old_right
                &&& bottom <= new_bottom && old_bottom <= new_bottom
                &&& new_bottom == bottom || new_bottom == old_bottom
            }
        }),
{
    assert(kids.push(kid).drop_last() =~= kids);
    assert(kids.push(kid).last() == kid);
}

/// A point in the overflow of a child, seen from the upper left corner of the flow, is a point of
/// the overflow of the flow, and so is a point in the box of the flow itself.
pub proof fn law_overflow_includes_the_points_of_children(
    position: Rect<Au>,
    kids: Seq<AnyFlow>,
    x: int,
    y: int,
)
    requires
        overflow_fits(position, kids),
    ensures
        ({
            let all = overflow_of(position, kids);
            let right = all.origin.x.0 + all.size.width.0;
            let bottom = all.origin.y.0 + all.size.height.0;
            &&& position.origin.x.0 <= x < position.origin.x.0 + position.size.width.0
                && position.origin.y.0 <= y < position.origin.y.0 + position.size.height.0
                ==> all.origin.x.0 <= x < right && all.origin.y.0 <= y < bottom
            &&& forall|j: int|
                0 <= j < kids.len() ==> {
                    let own = (#[trigger] kids[j]).data().overflow;
                    own.origin.x.0 <= x < own.origin.x.0 + own.size.width.0 && own.origin.y.0 <= y
                        < own.origin.y.0 + own.size.height.0 ==> {
                        &&& all.origin.x.0 <= x + position.origin.x.0 < right
                        &&& all.origin.y.0 <= y + position.origin.y.0 < bottom
                    }
                }
        }),
{
    law_overflow_includes_all_pixels(position, kids, x, y);
    law_overflow_includes_all_pixels(
        position,
        kids,
        x + position.origin.x.0,
        y + position.origin.y.0,
    );
    assert forall|j: int| 0 <= j < kids.len() implies {
        let own = (#[trigger] kids[j]).data().overflow;
        own.has_point(x, y) ==> overflow_of(position, kids).has_point(
            x + position.origin.x.0,
            y + position.origin.y.0,
        )
    } by {
        lemma_fits_prefix(position, kids, j + 1);
        assert(kids.take(j + 1).last() == kids[j]);
    }
}

/// Edges around the box of the flow, and around the overflow of each child as seen from the upper
/// left corner of the flow, are around the overflow of the flow. A rectangle of no extent counts
/// for nothing.
pub proof fn law_overflow_stays_within_the_parts(
    position: Rect<Au>,
    kids: Seq<AnyFlow>,
    left: int,
    top: int,
    right: int,
    bottom: int,
)
    requires
        overflow_fits(position, kids),
        position.size.width.0 == 0 && position.size.height.0 == 0 || {
            &&& left <= position.origin.x.0
            &&& top <= position.origin.y.0
            &&& position.origin.x.0 + position.size.width.0 <= right
            &&& position.origin.y.0 + position.size.height.0 <= bottom
        },
        forall|j: int|
            0 <= j < kids.len() ==> {
                let own = (#[trigger] kids[j]).data().overflow;
                own.size.width.0 == 0 && own.size.height.0 == 0 || {
                    &&& left <= position.origin.x.0 + own.origin.x.0
                    &&& top <= position.origin.y.0 + own.origin.y.0
                    &&& position.origin.x.0 + own.origin.x.0 + own.size.width.0 <= right
                    &&& position.origin.y.0 + own.origin.y.0 + own.size.height.0 <= bottom
                }
            },
    ensures
        ({
            let all = overflow_of(position, kids);
            all.size.width.0 == 0 && all.size.height.0 == 0 || {
                &&& left <= all.origin.x.0
                &&& top <= all.origin.y.0
                &&& all.origin.x.0 + all.size.width.0 <= right
                &&& all.origin.y.0 + all.size.height.0 <= bottom
            }
        }),
    decreases kids.len(),
{
    if kids.len() > 0 {
        assert forall|j: int| 0 <= j < kids.drop_last().len() implies {
            let own = (#[trigger] kids.drop_last()[j]).data().overflow;
            own.size.width.0 == 0 && own.size.height.0 == 0 || {
                &&& left <= position.origin.x.0 + own.origin.x.0
                &&& top <= position.origin.y.0 + own.origin.y.0
                &&& position.origin.x.0 + own.origin.x.0 + own.size.width.0 <= right
                &&& position.origin.y.0 + own.origin.y.0 + own.size.height.0 <= bottom
            }
        } by {
            assert(kids.drop_last()[j] == kids[j]);
        }
        law_overflow_stays_within_the_parts(position, kids.drop_last(), left, top, right, bottom);
        assert(kids.drop_last().push(kids.last()) =~= kids);
        law_overflow_of_one_more_child(position, kids.drop_last(), kids.last());
        assert(kids.last() == kids[kids.len() - 1]);
    }
}

} // verus!
