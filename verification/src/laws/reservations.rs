//! What becomes of reserved room in the log.

use crate::reservation::{zeroed, Reservation};
use vstd::prelude::*;

verus! {

/// Room that is given up has a zero in every place that the data would have
/// taken, however long they are, and everything behind that is as it was.
pub proof fn law_room_that_is_given_up_is_zero(room: Seq<u8>, n: nat)
    ensures
        zeroed(room, n).len() == room.len(),
        forall|i: int| 0 <= i < n && i < room.len() ==> #[trigger] zeroed(room, n)[i] == 0,
        forall|i: int| n <= i < room.len() ==> #[trigger] zeroed(room, n)[i] == room[i],
{
}

/// Giving up the same room twice is giving it up once, and nothing of what was
/// in it can be told from the result.
pub proof fn law_nothing_is_left_of_what_was_there(room: Seq<u8>, other: Seq<u8>)
    requires
        room.len() == other.len(),
    ensures
        zeroed(room, room.len()) == zeroed(other, other.len()),
        forall|n: nat| #[trigger] zeroed(zeroed(room, n), n) == zeroed(room, n),
{
    assert(zeroed(room, room.len()) =~= zeroed(other, other.len()));
    assert forall|n: nat| #[trigger] zeroed(zeroed(room, n), n) == zeroed(room, n) by {
        assert(zeroed(zeroed(room, n), n) =~= zeroed(room, n));
    }
}

/// A reservation is given up on its own if and only if there is something to
/// write and it has been neither completed nor aborted.
pub proof fn law_when_a_reservation_is_given_up(r: Reservation)
    ensures
        r.aborts_on_drop() <==> !(r.data@.len() == 0 || r.flushed),
{
}

} // verus!
