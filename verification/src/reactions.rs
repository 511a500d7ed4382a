//! The reactions a creature part shows to events of its creature: at most four at a time,
//! oldest first, each with the delay before it shows.

use vstd::prelude::*;

use tinyvec::ArrayVec;

use crate::parts::Reactable;

verus! {

/// Number of reactions that a part keeps at once.
pub const MAX_REACTIONS: usize = 4;

/// The reactions held by a reaction list, oldest first: each is the bit pattern of its delay
/// (an `f32`) and the event reacted to.
pub uninterp spec fn reactions(v: ArrayVec<[(u32, Reactable); 4]>) -> Seq<(u32, Reactable)>;

/// Appends `r` if the list has room (`ArrayVec::try_push`), else hands it back and leaves the
/// list unchanged; a list never holds more than its capacity of four.
#[verifier::external_body]
fn try_push_reaction(v: &mut ArrayVec<[(u32, Reactable); 4]>, r: (u32, Reactable)) -> (back: Option<
    (u32, Reactable),
>)
    ensures
        match back {
            None => reactions(*old(v)).len() < MAX_REACTIONS && reactions(*final(v)) == reactions(
                *old(v),
            ).push(r),
            Some(x) => reactions(*old(v)).len() == MAX_REACTIONS && x == r && reactions(*final(v))
                == reactions(*old(v)),
        },
{
    v.try_push(r)
}

/// Removes and returns the oldest reaction (`ArrayVec::remove` at 0); the rest keep their order.
#[verifier::external_body]
fn remove_oldest_reaction(v: &mut ArrayVec<[(u32, Reactable); 4]>) -> (r: (u32, Reactable))
    requires
        reactions(*old(v)).len() > 0,
    ensures
        r == reactions(*old(v))[0],
        reactions(*final(v)) == reactions(*old(v)).drop_first(),
{
    v.remove(0)
}

/// Appends `r` to a list with room (`ArrayVec::push`).
#[verifier::external_body]
fn push_reaction_with_room(v: &mut ArrayVec<[(u32, Reactable); 4]>, r: (u32, Reactable))
    requires
        reactions(*old(v)).len() < MAX_REACTIONS,
    ensures
        reactions(*final(v)) == reactions(*old(v)).push(r),
{
    v.push(r)
}

/// The reactions after `r` is added to `old`: appended, and when the list was full the oldest
/// goes.
pub open spec fn after_reaction(old: Seq<(u32, Reactable)>, r: (u32, Reactable)) -> Seq<(u32, Reactable)> {
    if old.len() < MAX_REACTIONS {
        old.push(r)
    } else {
        old.drop_first().push(r)
    }
}

/// Adds the reaction `r` as the newest one of a part: when the part already shows four, the
/// oldest one is dropped.
pub fn push_reaction(active: &mut ArrayVec<[(u32, Reactable); 4]>, r: (u32, Reactable))
    ensures
        reactions(*final(active)) == after_reaction(reactions(*old(active)), r),
        reactions(*final(active)).len() <= MAX_REACTIONS,
{
    match try_push_reaction(active, r) {
        None => {},
        Some(overflowed) => {
            remove_oldest_reaction(active);
            push_reaction_with_room(active, overflowed);
        },
    }
}

} // verus!
