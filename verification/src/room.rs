//! Reservations of memory, and how they are answered.

use crate::database::overlay_map::OverlayMap;
use crate::database::state::OverlayEntry;
use crate::error::ErrorView;
use crate::format::validate;
use crate::key_map;
use crate::key_map::KeyMap;
use std::collections::TryReserveError;
use vstd::prelude::*;

verus! {

/// Calls `reserve` on `held`. What comes back is what that call returned.
pub(crate) fn ask<T, R, F: FnOnce(&mut T, usize) -> R>(
    reserve: F,
    held: &mut T,
    additional: usize,
) -> (answer: R)
    requires
        forall|lent: &mut T|
            *lent == *old(held) ==> #[trigger] reserve.requires((lent, additional)),
    ensures
        exists|lent: &mut T|
            #![trigger reserve.ensures((lent, additional), answer)]
            reserve.ensures((lent, additional), answer) && *lent == *old(held) && *final(lent)
                == *final(held),
{
    reserve(held, additional)
}

/// Whether `Vec::try_reserve` answered that room for `additional` more bytes cannot be had.
pub closed spec fn bytes_refused(additional: int) -> bool {
    exists|lent: &mut Vec<u8>, asked: usize, error: TryReserveError|
        asked == additional && #[trigger] call_ensures(
            Vec::<u8>::try_reserve,
            (lent, asked),
            Err(error),
        )
}

/// Whether `Vec::try_reserve` answered that room for `additional` more bytes is had.
pub closed spec fn bytes_granted(additional: int) -> bool {
    exists|lent: &mut Vec<u8>, asked: usize, granted: ()|
        asked == additional && #[trigger] call_ensures(
            Vec::<u8>::try_reserve,
            (lent, asked),
            Ok(granted),
        )
}

/// Whether the allocator answered that room for `additional` more of something cannot be had.
pub open spec fn memory_refused(additional: int) -> bool {
    ||| bytes_refused(additional)
    ||| key_map::keys_refused(additional)
    ||| OverlayMap::<OverlayEntry>::slots_refused(additional)
    ||| validate::records_refused(additional)
}

/// Whether the allocator answered no when it was asked for some room, and for no more than
/// `limit`.
pub open spec fn refused_within(limit: int) -> bool {
    exists|additional: int| 0 < additional <= limit && #[trigger] memory_refused(additional)
}

/// Whether the allocator answered that room for `additional` more of something is had.
pub open spec fn memory_granted(additional: int) -> bool {
    ||| bytes_granted(additional)
    ||| key_map::keys_granted(additional)
    ||| OverlayMap::<OverlayEntry>::slots_granted(additional)
    ||| validate::records_granted(additional)
}

/// Whether the allocator answered yes when it was asked for room for `least` or more.
pub open spec fn granted_from(least: int) -> bool {
    exists|additional: int| least <= additional && #[trigger] memory_granted(additional)
}

/// Memory is refused for nothing but an answer of `try_reserve`, to bytes, to keys, to the
/// positions of an Overlay or to records that are validated.
pub proof fn law_refusal_is_an_answer(limit: int)
    requires
        refused_within(limit),
    ensures
        exists|additional: int|
            0 < additional <= limit && (#[trigger] bytes_refused(additional)
                || key_map::keys_refused(additional) || OverlayMap::<OverlayEntry>::slots_refused(
                additional,
            ) || validate::records_refused(additional)),
        forall|additional: int| #[trigger]
            bytes_refused(additional) ==> exists|
                lent: &mut Vec<u8>,
                asked: usize,
                error: TryReserveError,
            |
                asked == additional && #[trigger] call_ensures(
                    Vec::<u8>::try_reserve,
                    (lent, asked),
                    Err(error),
                ),
{
}

/// Who answers when memory is reserved. What happens where memory is there, and where it is
/// not, can so be had without asking for it. A reservation of nothing is always granted.
#[derive(Clone, Copy, Debug, PartialEq, Eq, Structural)]
pub enum Room {
    /// The allocator.
    Ask,
    /// Every reservation is granted.
    Granted,
    /// Every reservation of something is refused.
    Refused,
}

impl Default for Room {
    fn default() -> (room: Self)
        ensures
            room == Room::Ask,
    {
        Room::Ask
    }
}

impl Room {
    /// Whether something that is reserved is refused for certain. `reserves` says whether
    /// anything is reserved.
    pub open spec fn refuses(self, reserves: bool) -> bool {
        reserves && self == Room::Refused
    }

    /// Whether something that is reserved may be refused, where `limit` is the most that is
    /// asked for at once. The allocator is not said to refuse what it was not asked for.
    pub open spec fn may_refuse(self, reserves: bool, limit: int) -> bool {
        reserves && match self {
            Room::Ask => refused_within(limit),
            Room::Granted => false,
            Room::Refused => true,
        }
    }

    /// Whether something that is reserved was granted, where `least` is the least that is asked
    /// for at once. The allocator does not grant what it was not asked for.
    pub open spec fn grants(self, reserves: bool, least: int) -> bool {
        reserves ==> match self {
            Room::Ask => granted_from(least),
            Room::Granted => true,
            Room::Refused => false,
        }
    }

    /// Whether `result` is what work can give that has the outcome `exact` where memory is
    /// granted. `reserves` says whether it reserves anything, `limit` how much at once, and
    /// `failed` whether `result` reports a reservation that was refused.
    pub open spec fn gives<T>(
        self,
        reserves: bool,
        limit: int,
        exact: std::result::Result<T, ErrorView>,
        failed: bool,
        result: std::result::Result<T, ErrorView>,
    ) -> bool {
        ||| result == exact && self.grants(reserves, 1)
        ||| failed && self.may_refuse(reserves, limit)
    }

    /// Whether `reserved` can be the answer to a reservation of `additional` items.
    pub open spec fn answers(self, additional: int, reserved: bool) -> bool {
        if reserved {
            self.grants(additional > 0, additional)
        } else {
            additional > 0 && match self {
                Room::Ask => memory_refused(additional),
                Room::Granted => false,
                Room::Refused => true,
            }
        }
    }

    /// What was granted is not refused, and what may be refused is not granted without asking.
    pub proof fn law_granted_is_not_refused(self, reserves: bool, least: int, limit: int)
        ensures
            self.grants(reserves, least) ==> !self.refuses(reserves),
            self.may_refuse(reserves, limit) ==> reserves && self != Room::Granted,
            self == Room::Refused ==> self.refuses(reserves) == self.may_refuse(reserves, limit),
    {
    }

    /// Where the allocator never says no, work that it is asked for has its exact outcome.
    pub proof fn law_memory_that_is_there_is_had<T>(
        self,
        reserves: bool,
        limit: int,
        exact: std::result::Result<T, ErrorView>,
        failed: bool,
        result: std::result::Result<T, ErrorView>,
    )
        requires
            self != Room::Refused,
            forall|additional: int|
                0 < additional <= limit ==> !#[trigger] memory_refused(additional),
            self.gives(reserves, limit, exact, failed, result),
        ensures
            result == exact,
    {
    }

    /// The answer to a reservation, where the allocator is not asked.
    pub fn answer(self, additional: usize) -> (answer: Option<bool>)
        ensures
            match answer {
                Some(reserved) => self.answers(additional as int, reserved),
                None => self == Room::Ask && additional > 0,
            },
            self != Room::Ask ==> answer is Some,
            self == Room::Ask && additional > 0 ==> answer is None,
    {
        if additional == 0 {
            return Some(true);
        }
        match self {
            Room::Ask => None,
            Room::Granted => Some(true),
            Room::Refused => Some(false),
        }
    }

    /// Reserves bytes.
    pub fn reserve_bytes(self, bytes: &mut Vec<u8>, additional: usize) -> (reserved: bool)
        ensures
            final(bytes)@ == old(bytes)@,
            self.answers(additional as int, reserved),
    {
        match self.answer(additional) {
            Some(reserved) => reserved,
            None => {
                match ask(Vec::<u8>::try_reserve, bytes, additional) {
                    Ok(granted) => {
                        assert(exists|lent: &mut Vec<u8>|
                            #![trigger call_ensures(
                                Vec::<u8>::try_reserve,
                                (lent, additional),
                                Ok(granted),
                            )]
                            call_ensures(Vec::<u8>::try_reserve, (lent, additional), Ok(granted)));
                        assert(bytes_granted(additional as int));
                        assert(memory_granted(additional as int));
                        true
                    },
                    Err(error) => {
                        assert(exists|lent: &mut Vec<u8>|
                            #![trigger call_ensures(
                                Vec::<u8>::try_reserve,
                                (lent, additional),
                                Err(error),
                            )]
                            call_ensures(Vec::<u8>::try_reserve, (lent, additional), Err(error)));
                        false
                    },
                }
            },
        }
    }

    /// Reserves room for keys of a map.
    pub fn reserve_keys<V>(self, map: &mut KeyMap<V>, additional: usize) -> (reserved: bool)
        requires
            old(map).wf(),
        ensures
            final(map).wf(),
            final(map).keys() == old(map).keys(),
            final(map).values() == old(map).values(),
            final(map)@ == old(map)@,
            self.answers(additional as int, reserved),
    {
        match self.answer(additional) {
            Some(reserved) => reserved,
            None => {
                let reserved: bool = map.try_reserve(additional);
                assert(reserved ==> memory_granted(additional as int));
                reserved
            },
        }
    }

    /// Reserves room for keys of an Overlay.
    pub fn reserve_overlay<V>(self, map: &mut OverlayMap<V>, additional: usize) -> (reserved: bool)
        requires
            old(map).wf(),
        ensures
            final(map).wf(),
            final(map).keys() == old(map).keys(),
            final(map).values() == old(map).values(),
            final(map)@ == old(map)@,
            reserved ==> (additional > 0 ==> match self {
                Room::Ask => OverlayMap::<V>::slots_granted(additional as int),
                Room::Granted => true,
                Room::Refused => false,
            }),
            !reserved ==> additional > 0 && match self {
                Room::Ask => OverlayMap::<V>::slots_refused(additional as int),
                Room::Granted => false,
                Room::Refused => true,
            },
    {
        match self.answer(additional) {
            Some(reserved) => reserved,
            None => map.try_reserve(additional),
        }
    }
}

} // verus!
