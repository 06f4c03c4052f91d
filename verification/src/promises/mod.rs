//! What callers can rely on, said of the calls themselves: of their arguments and of what they
//! return.

pub mod checking;
pub mod compacting;
pub mod images;
pub mod interface;
pub mod layout;
pub mod opening;
pub mod reading;
pub mod writing;

use crate::room;
use crate::room::Room;
use vstd::prelude::*;

verus! {

/// Whether memory is there for every reservation of up to `limit`: all are granted, or the
/// allocator refused none.
pub open spec fn memory_is_there(room: Room, limit: int) -> bool {
    match room {
        Room::Ask => forall|additional: int|
            0 < additional <= limit ==> !#[trigger] room::memory_refused(additional),
        Room::Granted => true,
        Room::Refused => false,
    }
}

/// Memory is there for what is asked for at once wherever it is there for more.
pub proof fn law_memory_for_less(room: Room, limit: int, less: int)
    requires
        memory_is_there(room, limit),
        less <= limit,
    ensures
        memory_is_there(room, less),
{
}

/// Memory is there, where the allocator is asked, exactly where it refused nothing up to the
/// limit.
pub proof fn law_memory_of_the_allocator(limit: int)
    ensures
        memory_is_there(Room::Ask, limit) <==> !room::refused_within(limit),
        memory_is_there(Room::Granted, limit),
        !memory_is_there(Room::Refused, limit),
{
}

} // verus!
