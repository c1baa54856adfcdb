use vstd::prelude::*;

use crate::error::Error;

verus! {

/// The largest `usize` that does not exceed the number.
pub open spec fn clamp_usize(value: int) -> usize {
    if value < 0 {
        0
    } else if value > usize::MAX {
        usize::MAX
    } else {
        value as usize
    }
}

/// The largest `u64` that does not exceed the number.
pub open spec fn clamp_u64(value: int) -> u64 {
    if value < 0 {
        0
    } else if value > u64::MAX {
        u64::MAX
    } else {
        value as u64
    }
}

/// A number that can be held is held unchanged, and any larger one as the largest.
pub proof fn what_a_count_stops_at(value: int)
    requires
        value >= 0,
    ensures
        value <= usize::MAX ==> clamp_usize(value) == value,
        value > usize::MAX ==> clamp_usize(value) == usize::MAX,
        value <= u64::MAX ==> clamp_u64(value) == value,
        value > u64::MAX ==> clamp_u64(value) == u64::MAX,
{
}

/// Multiply, stopping at the largest representable number.
pub fn saturating_product(left: usize, right: usize) -> (result: usize)
    ensures
        result == clamp_usize(left * right),
{
    proof {
        assert(left * right >= 0) by (nonlinear_arith);
    }
    match left.checked_mul(right) {
        Some(product) => product,
        None => usize::MAX,
    }
}

/// The error that reports `count` values of a type could not be stored.
pub open spec fn allocation_error<T>(count: int) -> Error {
    Error::Allocation { requested: clamp_usize(count * vstd::layout::size_of::<T>()) }
}

/// What could not be stored is reported with the bytes that it would have taken, as far
/// as they can be counted.
pub proof fn what_a_failed_allocation_reports<T>(count: int)
    requires
        0 <= count * vstd::layout::size_of::<T>() <= usize::MAX,
    ensures
        allocation_error::<T>(count) matches Error::Allocation { requested } && requested == count
            * vstd::layout::size_of::<T>(),
{
}

/// Whether one vector can hold so many values at all: they can be counted, and
/// together they are no larger than an allocation may be.
pub open spec fn storable<T>(count: int) -> bool {
    count <= usize::MAX && count * vstd::layout::size_of::<T>() <= isize::MAX
}

/// Whether a vector with these elements gave the answer when it was asked, through
/// `Vec::try_reserve`, for room for so many more.
pub open spec fn answers_request<T>(held: Seq<T>, additional: usize, granted: bool) -> bool {
    exists|items: &mut Vec<T>, answer: Result<(), std::collections::TryReserveError>| #[trigger]
        call_ensures(Vec::<T>::try_reserve, (items, additional), answer) && items@ == held
            && granted == (answer is Ok)
}

/// Whether a vector with these elements gave the answer when it was asked, through
/// `Vec::try_reserve_exact`, for room for exactly so many more.
pub closed spec fn answers_exact_request<T>(
    held: Seq<T>,
    additional: usize,
    granted: bool,
) -> bool {
    exists|items: &mut Vec<T>| #[trigger]
        call_ensures(try_reserve_exact::<T>, (items, additional), granted) && items@ == held
}

/// What an attempt to make room for further elements comes to. Nothing asked for is
/// always granted, and what no vector can hold never is; in between the vector is
/// asked, and its answer stands.
pub open spec fn is_reservation<T>(
    held: Seq<T>,
    additional: usize,
    result: Result<(), Error>,
) -> bool {
    &&& result is Ok || result == Err::<(), Error>(allocation_error::<T>(additional as int))
    &&& additional == 0 ==> result is Ok
    &&& additional > 0 && !storable::<T>(held.len() + additional) ==> result is Err
    &&& additional > 0 && storable::<T>(held.len() + additional) ==> answers_request(
        held,
        additional,
        result is Ok,
    )
}

/// What an attempt to make room for exactly so many further elements comes to, by the
/// same rules as [`is_reservation`].
pub open spec fn is_exact_reservation<T>(
    held: Seq<T>,
    additional: usize,
    result: Result<(), Error>,
) -> bool {
    &&& result is Ok || result == Err::<(), Error>(allocation_error::<T>(additional as int))
    &&& additional == 0 ==> result is Ok
    &&& additional > 0 && !storable::<T>(held.len() + additional) ==> result is Err
    &&& additional > 0 && storable::<T>(held.len() + additional) ==> answers_exact_request(
        held,
        additional,
        result is Ok,
    )
}

/// Whether a new vector was granted room for exactly so many elements.
pub open spec fn granted_exactly<T>(count: usize) -> bool {
    is_exact_reservation(Seq::<T>::empty(), count, Ok::<(), Error>(()))
}

/// Whether an error reports that a new vector was refused room for exactly so many
/// elements. No room for nothing is never refused.
pub open spec fn refused_exactly<T>(count: usize, error: Error) -> bool {
    is_exact_reservation(Seq::<T>::empty(), count, Err::<(), Error>(error))
}

/// Room is refused only where some was asked for, with the bytes that were asked for, and
/// only where no vector can be so large or a vector with these elements said no.
pub proof fn when_room_is_refused<T>(held: Seq<T>, additional: usize, error: Error)
    requires
        is_reservation(held, additional, Err::<(), Error>(error)),
    ensures
        additional > 0,
        error == (Error::Allocation {
            requested: clamp_usize(additional * vstd::layout::size_of::<T>()),
        }),
        held.len() + additional > usize::MAX || (held.len() + additional)
            * vstd::layout::size_of::<T>() > isize::MAX || exists|
            items: &mut Vec<T>,
            answer: Result<(), std::collections::TryReserveError>,
        | #[trigger]
            call_ensures(Vec::<T>::try_reserve, (items, additional), answer) && items@ == held
                && answer is Err,
{
}

/// Room for exactly some elements of a new vector is refused only where there are some,
/// with the bytes that they take, and room for none is always granted.
pub proof fn when_exact_room_is_refused<T>(count: usize, error: Error)
    ensures
        granted_exactly::<T>(0),
        refused_exactly::<T>(count, error) ==> count > 0 && error == (Error::Allocation {
            requested: clamp_usize(count * vstd::layout::size_of::<T>()),
        }),
        count > 0 && count * vstd::layout::size_of::<T>() > isize::MAX
            ==> !granted_exactly::<T>(count),
{
}

/// Whether one vector can hold so many values beside those that it holds.
fn can_hold<T>(held: usize, additional: usize) -> (result: bool)
    ensures
        result == storable::<T>(held + additional),
{
    match held.checked_add(additional) {
        None => false,
        Some(count) => match count.checked_mul(core::mem::size_of::<T>()) {
            None => false,
            Some(bytes) => bytes <= isize::MAX as usize,
        },
    }
}

/// Ask for room through `Vec::try_reserve_exact`, which never changes the
/// vector's elements; whether the allocator grants the room is left open.
#[verifier::external_body]
fn try_reserve_exact<T>(items: &mut Vec<T>, additional: usize) -> (reserved: bool)
    ensures
        final(items)@ == old(items)@,
{
    items.try_reserve_exact(additional).is_ok()
}

/// Make room for exactly `additional` further elements.
pub fn reserve_exact<T>(items: &mut Vec<T>, additional: usize) -> (result: Result<(), Error>)
    ensures
        final(items)@ == old(items)@,
        is_exact_reservation(old(items)@, additional, result),
{
    if additional == 0 || (can_hold::<T>(items.len(), additional) && try_reserve_exact(
        items,
        additional,
    )) {
        Ok(())
    } else {
        Err(Error::Allocation {
            requested: saturating_product(additional, core::mem::size_of::<T>()),
        })
    }
}

/// Make room for at least `additional` further elements.
pub fn reserve<T>(items: &mut Vec<T>, additional: usize) -> (result: Result<(), Error>)
    ensures
        final(items)@ == old(items)@,
        is_reservation(old(items)@, additional, result),
{
    if additional == 0 {
        return Ok(());
    }
    if can_hold::<T>(items.len(), additional) {
        if let Ok(()) = items.try_reserve(additional) {
            return Ok(());
        }
    }
    Err(Error::Allocation { requested: saturating_product(additional, core::mem::size_of::<T>()) })
}

} // verus!
