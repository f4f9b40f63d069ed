use vstd::prelude::*;

verus! {

/// `String::push`: the contract claims that the string gains `c` at its end.
#[verifier::external_body]
pub(crate) fn push_char(s: &mut String, c: char)
    ensures
        final(s)@ == old(s)@.push(c),
{
    s.push(c);
}

/// `String::try_reserve`: asks for room for `additional` more bytes. The contract claims only
/// that the contents never change; whether the room is granted depends on the allocator and
/// is not stated.
#[verifier::external_body]
pub(crate) fn reserve_in_string(s: &mut String, additional: usize) -> (granted: bool)
    ensures
        final(s)@ == old(s)@,
{
    s.try_reserve(additional).is_ok()
}

} // verus!
