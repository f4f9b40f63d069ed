use vstd::prelude::*;

verus! {

/// The firmware's final memory map, which can be counted and sorted in place.
pub trait FinalMap: Sized {
    /// How many descriptors the map holds.
    spec fn entry_count(&self) -> usize;

    /// This map is `earlier` brought into ascending address order.
    spec fn sorted_from(&self, earlier: Self) -> bool;

    fn len(&self) -> (r: usize)
        ensures
            r == self.entry_count(),
    ;

    fn sort(&mut self)
        ensures
            final(self).entry_count() == old(self).entry_count(),
            final(self).sorted_from(*old(self)),
    ;
}

/// Sorts the final map, but only if it fits the `maximum_regions` the hand-off record
/// can hold; an oversized map is rejected untouched.
pub fn sort_final_map<M: FinalMap>(map: &mut M, maximum_regions: usize) -> (r: Result<(), ()>)
    ensures
        old(map).entry_count() > maximum_regions ==> r == Err::<(), ()>(()) && *final(map) == *old(
            map,
        ),
        old(map).entry_count() <= maximum_regions ==> r == Ok::<(), ()>(())
            && final(map).entry_count() == old(map).entry_count() && final(map).sorted_from(
            *old(map),
        ),
{
    if map.len() > maximum_regions {
        return Err(());
    }
    map.sort();
    Ok(())
}

} // verus!
