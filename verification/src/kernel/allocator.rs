use vstd::prelude::*;

verus! {

/// Size of the kernel's bootstrap heap.
pub const HEAP_SIZE: usize = 64 * 1024;

/// `a` is a power of two.
pub open spec fn power_of_two(a: usize) -> bool {
    a != 0 && a & ((a - 1) as usize) == 0
}

/// A bump allocator over one fixed heap: allocations are handed out in address order and
/// never given back.
pub struct BumpAllocator {
    start: usize,
    end: usize,
    next: usize,
}

impl BumpAllocator {
    /// First byte of the heap, or 0 before `initialize`.
    pub closed spec fn start(&self) -> usize {
        self.start
    }

    /// First byte past the heap.
    pub closed spec fn end(&self) -> usize {
        self.end
    }

    /// First byte not yet handed out.
    pub closed spec fn next(&self) -> usize {
        self.next
    }

    /// Handed-out bytes lie in the heap.
    pub closed spec fn wf(&self) -> bool {
        self.start <= self.next <= self.end
    }

    /// An allocator with no heap yet; every allocation fails until `initialize`.
    pub fn new() -> (r: Self)
        ensures
            r.wf(),
            r.start() == 0,
            r.end() == 0,
            r.next() == 0,
    {
        BumpAllocator { start: 0, end: 0, next: 0 }
    }

    /// Gives the allocator the `HEAP_SIZE` bytes starting at `heap_start`, all free.
    pub fn initialize(&mut self, heap_start: usize)
        requires
            heap_start + HEAP_SIZE <= usize::MAX,
        ensures
            final(self).wf(),
            final(self).start() == heap_start,
            final(self).end() == heap_start + HEAP_SIZE,
            final(self).next() == heap_start,
    {
        self.start = heap_start;
        self.end = heap_start + HEAP_SIZE;
        self.next = heap_start;
    }

    /// Hands out `size` bytes at the first multiple of `align` at or after the first free
    /// byte; refused (`None`) before `initialize`, or when the block would not fit the heap.
    pub fn allocate(&mut self, size: usize, align: usize) -> (r: Option<usize>)
        requires
            old(self).wf(),
            power_of_two(align),
        ensures
            final(self).wf(),
            final(self).start() == old(self).start(),
            final(self).end() == old(self).end(),
            match r {
                Some(address) => {
                    &&& old(self).start() != 0
                    &&& old(self).next() + align - 1 <= usize::MAX
                    &&& address == rounded_up(old(self).next(), align)
                    &&& address + size <= old(self).end()
                    &&& final(self).next() == address + size
                    &&& address & ((align - 1) as usize) == 0
                    &&& old(self).next() <= address < old(self).next() + align
                },
                None => {
                    &&& final(self).next() == old(self).next()
                    &&& (old(self).start() == 0 || old(self).next() + align - 1 > usize::MAX
                        || rounded_up(old(self).next(), align) + size > old(self).end())
                },
            },
            allocation_step(*old(self), *final(self), size, r),
    {
        let padded = match self.next.checked_add(align - 1) {
            Some(padded) => padded,
            None => return None,
        };
        let mask = align - 1;
        let aligned = padded & !mask;
        proof {
            lemma_round_down(padded, align, mask);
        }
        let end = match aligned.checked_add(size) {
            Some(end) => end,
            None => return None,
        };
        if self.start == 0 || end > self.end {
            return None;
        }
        self.next = end;
        Some(aligned)
    }
}

/// What one allocation does to the allocator: the first free byte never moves back, and a
/// block handed out starts at or after it and ends where the free bytes now begin.
pub open spec fn allocation_step(
    before: BumpAllocator,
    after: BumpAllocator,
    size: usize,
    r: Option<usize>,
) -> bool {
    &&& before.next() <= after.next()
    &&& match r {
        Some(address) => before.next() <= address && address + size == after.next(),
        None => after.next() == before.next(),
    }
}

/// Blocks handed out by successive allocations do not overlap and come in address order.
pub proof fn lemma_successive_blocks_ascend(
    first_state: BumpAllocator,
    middle_state: BumpAllocator,
    last_state: BumpAllocator,
    first_size: usize,
    second_size: usize,
    first: usize,
    second: usize,
)
    requires
        allocation_step(first_state, middle_state, first_size, Some(first)),
        allocation_step(middle_state, last_state, second_size, Some(second)),
    ensures
        first + first_size <= second,
{
}

/// Over a run of allocations the first free byte only moves forward.
pub proof fn lemma_next_never_decreases(
    states: Seq<BumpAllocator>,
    sizes: Seq<usize>,
    results: Seq<Option<usize>>,
    i: int,
    j: int,
)
    requires
        states.len() == sizes.len() + 1,
        results.len() == sizes.len(),
        forall|k: int|
            0 <= k < sizes.len() ==> allocation_step(
                #[trigger] states[k],
                states[k + 1],
                sizes[k],
                results[k],
            ),
        0 <= i <= j < states.len(),
    ensures
        states[i].next() <= states[j].next(),
    decreases j - i,
{
    if i < j {
        lemma_next_never_decreases(states, sizes, results, i, j - 1);
        assert(allocation_step(states[j - 1], states[j], sizes[j - 1], results[j - 1]));
    }
}

/// Over any run of allocations, every block handed out lies above and apart from every
/// block handed out before it.
pub proof fn lemma_blocks_ascend(
    states: Seq<BumpAllocator>,
    sizes: Seq<usize>,
    results: Seq<Option<usize>>,
)
    requires
        states.len() == sizes.len() + 1,
        results.len() == sizes.len(),
        forall|k: int|
            0 <= k < sizes.len() ==> allocation_step(
                #[trigger] states[k],
                states[k + 1],
                sizes[k],
                results[k],
            ),
    ensures
        forall|i: int, j: int|
            0 <= i < j < sizes.len() && results[i] is Some && results[j] is Some ==> #[trigger] results[i]->Some_0 + sizes[i]
                <= #[trigger] results[j]->Some_0,
{
    assert forall|i: int, j: int|
        0 <= i < j < sizes.len() && results[i] is Some && results[j] is Some implies #[trigger] results[i]->Some_0 + sizes[i]
            <= #[trigger] results[j]->Some_0 by {
        lemma_next_never_decreases(states, sizes, results, i + 1, j);
        assert(allocation_step(states[i], states[i + 1], sizes[i], results[i]));
        assert(allocation_step(states[j], states[j + 1], sizes[j], results[j]));
    }
}

/// The first multiple of the power of two `align` at or after `next`.
pub open spec fn rounded_up(next: usize, align: usize) -> usize {
    ((next + align - 1) as usize) & !((align - 1) as usize)
}

/// Clearing the bits below a power of two rounds down to an address with those bits clear,
/// by less than the power of two.
proof fn lemma_round_down(x: usize, align: usize, mask: usize)
    requires
        power_of_two(align),
        mask == align - 1,
    ensures
        (x & !mask) & mask == 0,
        x & !mask <= x,
        x - (x & !mask) <= mask,
{
    assert((x & !mask) & mask == 0 && x & !mask <= x && x - (x & !mask) <= mask) by (bit_vector);
}

} // verus!
