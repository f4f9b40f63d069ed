use vstd::prelude::*;

use super::cpu::{PagingDepth, canonical, is_canonical, level_index, page_indices};
use super::elf::{ELF_PF_W, ELF_PF_X, SegmentFlags};
use super::memory::{Allocation, PAGE_SIZE, PHYSICAL_MEMORY_OFFSET};
use super::transition::TransitionPage;

verus! {

/// Entries in one page table.
pub const ENTRIES: usize = 512;

pub const PRESENT: u64 = 0x1;

pub const WRITABLE: u64 = 0x2;

pub const WRITE_THROUGH: u64 = 0x8;

pub const CACHE_DISABLE: u64 = 0x10;

/// A page-directory entry that maps a 2 MiB page rather than pointing to a page table.
pub const PAGE_SIZE_2M: u64 = 0x80;

pub const NO_EXECUTE: u64 = 0x8000_0000_0000_0000;

/// Bits of an entry that hold a physical address.
pub const ADDRESS_MASK: u64 = 0x000f_ffff_ffff_f000;

/// Size of a large page.
pub const TWO_MIB: u64 = 0x20_0000;

/// End of the low physical range that is identity-mapped for the switch to the kernel.
pub const IDENTITY_BOOTSTRAP_END: u64 = 0x1_0000_0000;

/// Highest physical address the kernel's direct map can reach.
pub const MAX_DIRECT_MAPPED_PHYSICAL: u64 = 0x7fff_ffff_ffff;

/// Virtual address at which PCI BAR windows are mapped, one after another.
pub const PCI_BAR_VIRTUAL_START: u64 = 0xffff_c000_0000_0000;

/// Entry bits for kernel data: present, writable, not executable.
pub const DATA_BITS: u64 = PRESENT | WRITABLE | NO_EXECUTE;

/// Entry bits for device memory: kernel data, uncached and written through.
pub const DEVICE_BITS: u64 = PRESENT | WRITABLE | NO_EXECUTE | CACHE_DISABLE | WRITE_THROUGH;

/// Most tables one hierarchy may hold. While the hierarchy is built, a pointer entry holds
/// its table's number in the address bits; this bound keeps every number well inside them
/// and is far beyond what the loader's mappings need.
pub const MAX_TABLES: usize = 0x10_0000;

#[derive(Clone, Copy, Debug, PartialEq, Eq, Structural)]
pub enum PagingError {
    AddressOverflow,
    Allocation,
    AlreadyMapped,
    HugePageConflict,
}

pub open spec fn present(entry: u64) -> bool {
    entry & PRESENT != 0
}

pub open spec fn huge(entry: u64) -> bool {
    entry & PAGE_SIZE_2M != 0
}

/// The table an entry points to: tables are numbered in the order they were created, and
/// a pointer entry holds that number where the table's page number will go.
pub open spec fn child_of(entry: u64) -> int {
    ((entry & ADDRESS_MASK) >> 12u64) as int
}

/// Level of the root table: the fifth level is skipped with four-level paging.
pub open spec fn first_level(depth: PagingDepth) -> int {
    match depth {
        PagingDepth::FourLevel => 1,
        PagingDepth::FiveLevel => 0,
    }
}

/// The index `address` selects in a table of `level` (0 is the fifth level, 4 the page
/// table).
pub open spec fn index_at(address: u64, level: int) -> int {
    level_index(address, (48 - 9 * level) as u64) as int
}

/// Entry `i` of table `t` in a flat array of tables.
pub open spec fn slot(t: int, i: int) -> int {
    t * 512 + i
}

/// The table of `level` that translating `address` passes through, starting from the root
/// (table 0) at level `first`: `None` where an entry on the way is absent or maps a page.
pub open spec fn walk(entries: Seq<u64>, address: u64, first: int, level: int) -> Option<int>
    decreases level - first,
{
    if level <= first {
        if level == first {
            Some(0)
        } else {
            None
        }
    } else {
        match walk(entries, address, first, level - 1) {
            Some(t) => {
                let entry = entries[slot(t, index_at(address, level - 1))];
                if present(entry) && !huge(entry) {
                    Some(child_of(entry))
                } else {
                    None
                }
            },
            None => None,
        }
    }
}

/// The entry that maps `address`, reading from table `t` of `level` down: a 2 MiB entry of
/// the page directory or a page-table entry; `None` where the walk meets an absent entry or
/// a large page above the page directory.
pub open spec fn lookup_from(entries: Seq<u64>, address: u64, level: int, t: int) -> Option<u64>
    decreases 5 - level,
{
    if level > 4 || level < 0 {
        None
    } else {
        let entry = entries[slot(t, index_at(address, level))];
        if !present(entry) {
            None
        } else if level == 3 && huge(entry) {
            Some(entry)
        } else if level == 4 {
            Some(entry)
        } else if huge(entry) {
            None
        } else {
            lookup_from(entries, address, level + 1, child_of(entry))
        }
    }
}

/// A pointer entry to table `child`, present and writable.
proof fn lemma_pointer_entry(child: u64)
    requires
        child < 0x100_0000_0000,
    ensures
        present((child << 12u64) | PRESENT | WRITABLE),
        !huge((child << 12u64) | PRESENT | WRITABLE),
        child_of((child << 12u64) | PRESENT | WRITABLE) == child,
{
    let e = (child << 12u64) | PRESENT | WRITABLE;
    assert(e & 1 != 0 && e & 0x80 == 0 && (e & 0x000f_ffff_ffff_f000) >> 12u64 == child)
        by (bit_vector)
        requires
            child < 0x100_0000_0000,
            e == (child << 12u64) | 1 | 2,
    ;
}

/// A mapping entry carries the present bit of its flags.
proof fn lemma_leaf_entry(address: u64, flags: u64)
    ensures
        present(flags) ==> present(address | flags),
        huge(address | flags | PAGE_SIZE_2M),
{
    assert((flags & 1 != 0 ==> (address | flags) & 1 != 0) && (address | flags | 0x80) & 0x80
        != 0) by (bit_vector);
}

/// Entry `i` of table `t` points to a table one level down.
pub open spec fn points_down(levels: Seq<usize>, entries: Seq<u64>, t: int, i: int) -> bool {
    &&& 0 <= t < levels.len()
    &&& 0 <= i < 512
    &&& levels[t] < 4
    &&& present(entries[slot(t, i)])
    &&& !huge(entries[slot(t, i)])
}

/// `a` and `b` have the same table index at every level from `first` to `last`.
pub open spec fn agree(a: u64, b: u64, first: int, last: int) -> bool {
    forall|l: int| #![trigger index_at(a, l)] first <= l <= last ==> index_at(a, l) == index_at(b, l)
}

/// Translating `a` and `b` reads the same entry of every table from level `first` down, so
/// one page-table entry maps both.
pub open spec fn shares_entry(a: u64, b: u64, first: int) -> bool {
    agree(a, b, first, 4)
}

/// Page tables under construction. Tables live in one flat array of 512-entry tables; the
/// root is table 0. Entries that point to a table hold its number where its page number
/// will go, so the hierarchy can be placed anywhere once it is complete.
pub struct PageTables {
    depth: PagingDepth,
    entries: Vec<u64>,
    levels: Vec<usize>,
    next_pci_bar: u64,
}

/// `new` is `old` with entries only added: every entry that was present is unchanged.
pub open spec fn only_fills(old: PageTables, new: PageTables) -> bool {
    &&& new.depth_spec() == old.depth_spec()
    &&& old.entries_spec().len() <= new.entries_spec().len()
    &&& forall|k: int|
        0 <= k < old.entries_spec().len() ==> #[trigger] new.entries_spec()[k]
            == old.entries_spec()[k] || !present(old.entries_spec()[k])
}

/// Every address `old` maps is mapped the same way by `new`.
pub open spec fn keeps_mappings(old: PageTables, new: PageTables) -> bool {
    forall|address: u64| #[trigger] old.lookup(address) is Some ==> new.lookup(address) == old.lookup(
        address,
    )
}

impl PageTables {
    pub closed spec fn depth_spec(&self) -> PagingDepth {
        self.depth
    }

    /// The entries of all tables, table after table.
    pub closed spec fn entries_spec(&self) -> Seq<u64> {
        self.entries@
    }

    /// The level of each table.
    pub closed spec fn levels_spec(&self) -> Seq<usize> {
        self.levels@
    }

    /// Virtual address where the next PCI BAR window goes.
    pub closed spec fn next_pci_bar_spec(&self) -> u64 {
        self.next_pci_bar
    }

    /// The entry that maps `address`, if any.
    pub open spec fn lookup(&self, address: u64) -> Option<u64> {
        lookup_from(self.entries_spec(), address, first_level(self.depth_spec()), 0)
    }

    /// Every table has 512 entries and a level from the root's down to the page table's,
    /// the root is table 0, and every pointer entry above the page tables points to an
    /// existing table one level down.
    pub closed spec fn wf(&self) -> bool {
        let levels = self.levels@;
        let entries = self.entries@;
        &&& 1 <= levels.len() <= MAX_TABLES
        &&& entries.len() == 512 * levels.len()
        &&& levels[0] == first_level(self.depth)
        &&& forall|t: int|
            0 <= t < levels.len() ==> first_level(self.depth) <= #[trigger] levels[t] <= 4
        &&& forall|t: int, i: int|
            #![trigger entries[slot(t, i)]]
            0 <= t < levels.len() && 0 <= i < 512 && levels[t] < 4 && present(entries[slot(t, i)])
                && !huge(entries[slot(t, i)]) ==> {
                &&& 0 <= child_of(entries[slot(t, i)]) < levels.len()
                &&& levels[child_of(entries[slot(t, i)])] == levels[t] + 1
            }
        &&& forall|t: int, i: int|
            #![trigger entries[slot(t, i)]]
            0 <= t < levels.len() && 0 <= i < 512 && levels[t] < 3 && present(entries[slot(t, i)])
                ==> !huge(entries[slot(t, i)])
        &&& forall|t1: int, i1: int, t2: int, i2: int|
            #![trigger entries[slot(t1, i1)], entries[slot(t2, i2)]]
            points_down(levels, entries, t1, i1) && points_down(levels, entries, t2, i2)
                && child_of(entries[slot(t1, i1)]) == child_of(entries[slot(t2, i2)]) ==> t1 == t2
                && i1 == i2
    }

    /// A hierarchy with an empty root table.
    pub fn new(depth: PagingDepth) -> (r: Result<Self, PagingError>)
        ensures
            r matches Ok(tables) && tables.wf() && tables.depth_spec() == depth
                && tables.next_pci_bar_spec() == PCI_BAR_VIRTUAL_START
                && tables.levels_spec().len() == 1 && (forall|address: u64|
                tables.lookup(address) == None::<u64>) && (forall|address: u64|
                #[trigger] walk(tables.entries_spec(), address, first_level(depth), 4) is None),
    {
        let mut entries: Vec<u64> = Vec::new();
        let mut i: usize = 0;
        while i < ENTRIES
            invariant
                i <= 512,
                entries@.len() == i,
                forall|k: int| 0 <= k < i ==> entries@[k] == 0,
            decreases 512 - i,
        {
            entries.push(0);
            i = i + 1;
        }
        let first: usize = match depth {
            PagingDepth::FourLevel => 1,
            PagingDepth::FiveLevel => 0,
        };
        let mut levels: Vec<usize> = Vec::new();
        levels.push(first);
        let tables = PageTables { depth, entries, levels, next_pci_bar: PCI_BAR_VIRTUAL_START };
        proof {
            lemma_zero_absent();
            assert(forall|t: int, i: int|
                0 <= t < 1 && 0 <= i < 512 ==> !present(#[trigger] tables.entries@[slot(t, i)]));
            assert(tables.wf());
            assert forall|address: u64| tables.lookup(address) == None::<u64> by {
                let level = first_level(depth);
                let index = index_at(address, level);
                assert(0 <= index < 512) by {
                    lemma_nine_bits();
                }
                assert(tables.entries@[slot(0, index)] == 0);
                lemma_zero_absent();
            }
            assert forall|address: u64|
                #[trigger] walk(tables.entries@, address, first_level(depth), 4) is None by {
                let level = first_level(depth);
                let index = index_at(address, level);
                lemma_index_bound(address, level);
                assert(tables.entries@[slot(0, index)] == 0);
                lemma_zero_absent();
                assert(walk(tables.entries@, address, level, level) == Some(0int));
                assert(walk(tables.entries@, address, level, level + 1) is None);
                if walk(tables.entries@, address, level, 4) is Some {
                    lemma_walk_prefix(tables.entries@, address, level, level + 1, 4);
                }
            }
        }
        Ok(tables)
    }

    /// The table that translating `address` reaches at `level` lies at that level.
    proof fn lemma_walk_level(&self, address: u64, level: int)
        requires
            self.wf(),
            first_level(self.depth) <= level <= 4,
        ensures
            walk(self.entries@, address, first_level(self.depth), level) matches Some(t) ==> 0
                <= t < self.levels@.len() && self.levels@[t] == level,
        decreases level - first_level(self.depth),
    {
        let first = first_level(self.depth);
        if level > first {
            self.lemma_walk_level(address, level - 1);
            lemma_index_bound(address, level - 1);
        }
    }

    /// A table's entries are those of `earlier` wherever `earlier` had a table above `level`,
    /// so translating any address reaches the same tables down to `level`.
    proof fn lemma_walk_frame(&self, earlier: PageTables, address: u64, level: int)
        requires
            earlier.wf(),
            self.depth == earlier.depth,
            first_level(self.depth) <= level <= 4,
            earlier.entries@.len() <= self.entries@.len(),
            forall|t: int, i: int|
                #![trigger self.entries@[slot(t, i)]]
                0 <= t < earlier.levels@.len() && 0 <= i < 512 && earlier.levels@[t] < level
                    ==> self.entries@[slot(t, i)] == earlier.entries@[slot(t, i)],
        ensures
            walk(self.entries@, address, first_level(self.depth), level) == walk(
                earlier.entries@,
                address,
                first_level(self.depth),
                level,
            ),
        decreases level - first_level(self.depth),
    {
        let first = first_level(self.depth);
        if level > first {
            self.lemma_walk_frame(earlier, address, level - 1);
            earlier.lemma_walk_level(address, level - 1);
            lemma_index_bound(address, level - 1);
        }
    }

    /// Allocation-free part of `next_table`: the table that entry `index` of table `t`
    /// points to, creating it when the entry is absent.
    fn next_table(&mut self, t: usize, level: usize, index: usize) -> (r: Result<usize, PagingError>)
        requires
            old(self).wf(),
            t < old(self).levels@.len(),
            old(self).levels@[t as int] == level,
            level < 4,
            index < 512,
        ensures
            final(self).wf(),
            final(self).depth == old(self).depth,
            final(self).next_pci_bar == old(self).next_pci_bar,
            old(self).levels@.len() <= final(self).levels@.len(),
            final(self).levels@.subrange(0, old(self).levels@.len() as int) == old(self).levels@,
            forall|k: int|
                0 <= k < old(self).entries@.len() && k != slot(t as int, index as int)
                    ==> #[trigger] final(self).entries@[k] == old(self).entries@[k],
            r is Err ==> *final(self) == *old(self),
            r is Err ==> r == Err::<usize, PagingError>(PagingError::HugePageConflict) || r == Err::<
                usize,
                PagingError,
            >(PagingError::Allocation),
            only_fills(*old(self), *final(self)),
            r matches Ok(child) ==> {
                let entry = final(self).entries@[slot(t as int, index as int)];
                &&& present(entry)
                &&& !huge(entry)
                &&& child_of(entry) == child
                &&& child < final(self).levels@.len()
                &&& final(self).levels@[child as int] == level + 1
            },
            r == Err::<usize, PagingError>(PagingError::HugePageConflict) ==> {
                let entry = old(self).entries@[slot(t as int, index as int)];
                present(entry) && huge(entry)
            },
            r == Err::<usize, PagingError>(PagingError::Allocation) ==> old(self).levels@.len()
                >= MAX_TABLES && !present(old(self).entries@[slot(t as int, index as int)]),
            final(self).levels@.len() <= old(self).levels@.len() + 1,
            forall|b: u64| #[trigger] final(self).lookup(b) == old(self).lookup(b),
            ({
                let entry = old(self).entries@[slot(t as int, index as int)];
                present(entry) && !huge(entry)
            }) ==> *final(self) == *old(self),
            ({
                let entry = old(self).entries@[slot(t as int, index as int)];
                present(entry) && huge(entry)
            }) ==> r == Err::<usize, PagingError>(PagingError::HugePageConflict) && *final(self)
                == *old(self),
            forall|b: u64|
                #[trigger] walk(final(self).entries@, b, first_level(old(self).depth), 4) matches Some(
                    x,
                ) ==> walk(old(self).entries@, b, first_level(old(self).depth), 4) == Some(x) || (
                level == 3 && r == Ok::<usize, PagingError>(x as usize)),
    {
        let position = t * ENTRIES + index;
        let entry = self.entries[position];
        if entry & PRESENT != 0 {
            if entry & PAGE_SIZE_2M != 0 {
                return Err(PagingError::HugePageConflict);
            }
            let child = ((entry & ADDRESS_MASK) >> 12u64) as usize;
            return Ok(child);
        }
        let count = self.levels.len();
        if count >= MAX_TABLES {
            return Err(PagingError::Allocation);
        }
        let ghost before = *self;
        let mut i: usize = 0;
        while i < ENTRIES
            invariant
                self.depth == before.depth,
                self.levels == before.levels,
                self.next_pci_bar == before.next_pci_bar,
                before.entries@.len() == 512 * before.levels@.len(),
                i <= 512,
                self.entries@.len() == before.entries@.len() + i,
                forall|k: int| 0 <= k < before.entries@.len() ==> #[trigger] self.entries@[k] == before.entries@[k],
                forall|k: int|
                    before.entries@.len() <= k < self.entries@.len() ==> #[trigger] self.entries@[k] == 0,
            decreases 512 - i,
        {
            self.entries.push(0);
            i = i + 1;
        }
        self.levels.push(level + 1);
        let pointer = ((count as u64) << 12u64) | PRESENT | WRITABLE;
        proof {
            lemma_pointer_entry(count as u64);
            lemma_zero_absent();
        }
        self.entries.set(position, pointer);
        proof {
            assert(self.levels@.subrange(0, before.levels@.len() as int) =~= before.levels@);
            assert forall|t2: int| 0 <= t2 < self.levels@.len() implies first_level(self.depth)
                <= #[trigger] self.levels@[t2] <= 4 by {
                if t2 < before.levels@.len() {
                    assert(self.levels@[t2] == before.levels@[t2]);
                }
            }
            assert forall|t2: int, i2: int|
                #![trigger self.entries@[slot(t2, i2)]]
                0 <= t2 < self.levels@.len() && 0 <= i2 < 512 && self.levels@[t2] < 4 && present(
                    self.entries@[slot(t2, i2)],
                ) && !huge(self.entries@[slot(t2, i2)]) implies {
                &&& 0 <= child_of(self.entries@[slot(t2, i2)]) < self.levels@.len()
                &&& self.levels@[child_of(self.entries@[slot(t2, i2)])] == self.levels@[t2] + 1
            } by {
                if t2 < before.levels@.len() {
                    assert(self.levels@[t2] == before.levels@[t2]);
                    if slot(t2, i2) != position {
                        assert(self.entries@[slot(t2, i2)] == before.entries@[slot(t2, i2)]);
                        assert(before.levels@[child_of(before.entries@[slot(t2, i2)])] == before.levels@[t2] + 1);
                    }
                } else {
                    assert(self.entries@[slot(t2, i2)] == 0);
                }
            }
            assert(self.levels@[0] == first_level(self.depth));
            assert forall|b: u64| #[trigger] self.lookup(b) == before.lookup(b) by {
                lemma_fresh_table_keeps_lookup_from(
                    before,
                    *self,
                    t as int,
                    index as int,
                    b,
                    first_level(self.depth),
                    0,
                );
            }
            assert forall|b: u64|
                (#[trigger] walk(self.entries@, b, first_level(self.depth), 4)) is Some implies walk(
                    before.entries@,
                    b,
                    first_level(self.depth),
                    4,
                ) == walk(self.entries@, b, first_level(self.depth), 4) || (level == 3 && walk(
                    self.entries@,
                    b,
                    first_level(self.depth),
                    4,
                ) == Some(count as int)) by {
                lemma_fresh_table_walk(before, *self, t as int, index as int, b, 4);
            }
        }
        Ok(count)
    }

    /// The table of `leaf_level` that translates `address`, creating the missing tables on
    /// the way.
    fn leaf_table(&mut self, address: u64, leaf_level: usize) -> (r: Result<usize, PagingError>)
        requires
            old(self).wf(),
            3 <= leaf_level <= 4,
        ensures
            final(self).wf(),
            final(self).depth == old(self).depth,
            final(self).next_pci_bar == old(self).next_pci_bar,
            only_fills(*old(self), *final(self)),
            r is Err ==> r == Err::<usize, PagingError>(PagingError::HugePageConflict) || r == Err::<
                usize,
                PagingError,
            >(PagingError::Allocation),
            r matches Ok(t) ==> {
                &&& t < final(self).levels@.len()
                &&& final(self).levels@[t as int] == leaf_level
                &&& walk(final(self).entries@, address, first_level(final(self).depth), leaf_level as int) == Some(t as int)
            },
            final(self).levels@.len() <= old(self).levels@.len() + leaf_level - first_level(
                old(self).depth,
            ),
            forall|b: u64| #[trigger] final(self).lookup(b) == old(self).lookup(b),
            walk(old(self).entries@, address, first_level(old(self).depth), leaf_level as int) is Some
                ==> *final(self) == *old(self) && r is Ok,
            old(self).levels@.len() + leaf_level - first_level(old(self).depth) <= MAX_TABLES && (
            leaf_level == 3 || !(old(self).lookup(address) matches Some(e) && huge(e))) ==> r is Ok,
            leaf_level == 4 && huge_at_directory(
                old(self).entries@,
                address,
                first_level(old(self).depth),
            ) ==> r == Err::<usize, PagingError>(PagingError::HugePageConflict) && *final(self)
                == *old(self),
            forall|b: u64|
                #[trigger] walk(final(self).entries@, b, first_level(old(self).depth), 4) matches Some(
                    x,
                ) ==> walk(old(self).entries@, b, first_level(old(self).depth), 4) == Some(x) || (
                leaf_level == 4 && r == Ok::<usize, PagingError>(x as usize)),
    {
        let indices = page_indices(address, self.depth);
        proof {
            lemma_indices(indices@, address);
        }
        let mut level: usize = match self.depth {
            PagingDepth::FourLevel => 1,
            PagingDepth::FiveLevel => 0,
        };
        let mut t: usize = 0;
        while level < leaf_level
            invariant
                self.wf(),
                self.depth == old(self).depth,
                self.next_pci_bar == old(self).next_pci_bar,
                only_fills(*old(self), *self),
                3 <= leaf_level <= 4,
                first_level(self.depth) <= level <= leaf_level,
                forall|l: int| 0 <= l < 5 ==> #[trigger] indices@[l] == index_at(address, l),
                forall|l: int| 0 <= l < 5 ==> #[trigger] indices@[l] < 512,
                t < self.levels@.len(),
                self.levels@[t as int] == level,
                walk(self.entries@, address, first_level(self.depth), level as int) == Some(t as int),
                self.levels@.len() <= old(self).levels@.len() + level - first_level(self.depth),
                forall|b: u64| #[trigger] self.lookup(b) == old(self).lookup(b),
                walk(old(self).entries@, address, first_level(self.depth), leaf_level as int) is Some
                    ==> *self == *old(self),
                walk(old(self).entries@, address, first_level(self.depth), 3) is Some && level <= 3
                    ==> *self == *old(self),
                leaf_level == 4 && level > 3 ==> !huge_at_directory(
                    old(self).entries@,
                    address,
                    first_level(self.depth),
                ),
                forall|b: u64|
                    #[trigger] walk(self.entries@, b, first_level(self.depth), 4) matches Some(x)
                        ==> walk(old(self).entries@, b, first_level(self.depth), 4) == Some(x) || (
                    leaf_level == 4 && level == 4 && t == x),
            decreases leaf_level - level,
        {
            let ghost before = *self;
            let index = indices[level];
            proof {
                if walk(old(self).entries@, address, first_level(self.depth), leaf_level as int) is Some {
                    lemma_walk_prefix(
                        self.entries@,
                        address,
                        first_level(self.depth),
                        level + 1,
                        leaf_level as int,
                    );
                }
                if walk(old(self).entries@, address, first_level(self.depth), 3) is Some && level
                    < 3 {
                    lemma_walk_prefix(
                        old(self).entries@,
                        address,
                        first_level(self.depth),
                        level + 1,
                        3,
                    );
                }
            }
            let child = match self.next_table(t, level, index) {
                Ok(child) => child,
                Err(e) => {
                    proof {
                        let entry = before.entries@[slot(t as int, index as int)];
                        if e == PagingError::HugePageConflict && level == 3 {
                            before.lemma_walk_lookup(address, 3, t as int);
                        }
                    }
                    return Err(e);
                },
            };
            proof {
                self.lemma_walk_frame(before, address, level as int);
                before.lemma_walk_level(address, level as int);
                let first = first_level(self.depth);
                assert forall|b: u64|
                    (#[trigger] walk(self.entries@, b, first, 4)) is Some implies walk(
                        old(self).entries@,
                        b,
                        first,
                        4,
                    ) == walk(self.entries@, b, first, 4) || (leaf_level == 4 && level + 1 == 4
                        && walk(self.entries@, b, first, 4) == Some(child as int)) by {
                    self.lemma_walk_level(b, 4);
                    if walk(before.entries@, b, first, 4) is Some {
                        assert(walk(before.entries@, b, first, 4) == walk(
                            old(self).entries@,
                            b,
                            first,
                            4,
                        ) || (leaf_level == 4 && level == 4));
                    }
                }
            }
            t = child;
            level = level + 1;
        }
        Ok(t)
    }

    /// Maps the 4 KiB page at `virtual_address` to `physical_address` with `flags`; both
    /// addresses must be page-aligned, and the page must not be mapped yet.
    fn map_4k(&mut self, virtual_address: u64, physical_address: u64, flags: u64) -> (r: Result<
        (),
        PagingError,
    >)
        requires
            old(self).wf(),
            present(flags),
        ensures
            final(self).wf(),
            final(self).depth == old(self).depth,
            final(self).next_pci_bar == old(self).next_pci_bar,
            (virtual_address % 4096 != 0 || physical_address % 4096 != 0) ==> r == Err::<
                (),
                PagingError,
            >(PagingError::AddressOverflow) && *final(self) == *old(self),
            only_fills(*old(self), *final(self)),
            r is Ok ==> final(self).lookup(virtual_address) == Some(physical_address | flags),
            r == Err::<(), PagingError>(PagingError::AlreadyMapped) ==> final(self).lookup(
                virtual_address,
            ) is Some,
            final(self).levels@.len() <= old(self).levels@.len() + 4,
            r is Err ==> forall|b: u64| #[trigger] final(self).lookup(b) == old(self).lookup(b),
            r is Ok ==> forall|b: u64|
                #[trigger] final(self).lookup(b) == if shares_entry(
                    b,
                    virtual_address,
                    first_level(old(self).depth),
                ) {
                    Some(physical_address | flags)
                } else {
                    old(self).lookup(b)
                },
            virtual_address % 4096 == 0 && physical_address % 4096 == 0 && (old(self).levels@.len()
                + 4 <= MAX_TABLES || walk(
                old(self).entries@,
                virtual_address,
                first_level(old(self).depth),
                4,
            ) is Some) && old(self).lookup(virtual_address) is None ==> r is Ok,
            r is Ok || r == Err::<(), PagingError>(PagingError::AlreadyMapped) ==> walk(
                final(self).entries@,
                virtual_address,
                first_level(old(self).depth),
                4,
            ) is Some,
            walk(old(self).entries@, virtual_address, first_level(old(self).depth), 4) is Some
                ==> final(self).levels@.len() == old(self).levels@.len(),
            virtual_address % 4096 == 0 && physical_address % 4096 == 0 && (old(self).lookup(
                virtual_address,
            ) matches Some(e) && huge(e)) && (walk(
                old(self).entries@,
                virtual_address,
                first_level(old(self).depth),
                4,
            ) is None) ==> (r == Err::<(), PagingError>(PagingError::HugePageConflict)
                && *final(self) == *old(self)),
            forall|b: u64|
                (#[trigger] walk(final(self).entries@, b, first_level(old(self).depth), 4)) is Some
                    ==> walk(old(self).entries@, b, first_level(old(self).depth), 4) is Some
                    || agree(b, virtual_address, first_level(old(self).depth), 3),
            virtual_address % 4096 == 0 && physical_address % 4096 == 0 && (old(self).lookup(
                virtual_address,
            ) matches Some(e) && !huge(e)) ==> r == Err::<(), PagingError>(
                PagingError::AlreadyMapped,
            ) && *final(self) == *old(self),
    {
        if virtual_address % PAGE_SIZE != 0 || physical_address % PAGE_SIZE != 0 {
            return Err(PagingError::AddressOverflow);
        }
        proof {
            if self.lookup(virtual_address) matches Some(e) && huge(e) && walk(
                self.entries@,
                virtual_address,
                first_level(self.depth),
                4,
            ) is None {
                lemma_lookup_huge_at_directory(
                    self.entries@,
                    virtual_address,
                    first_level(self.depth),
                    first_level(self.depth),
                    0,
                );
            }
            if self.lookup(virtual_address) matches Some(e) && !huge(e) {
                lemma_lookup_reaches_leaf_table(
                    self.entries@,
                    virtual_address,
                    first_level(self.depth),
                    first_level(self.depth),
                    0,
                );
            }
        }
        let t = match self.leaf_table(virtual_address, 4) {
            Ok(t) => t,
            Err(e) => return Err(e),
        };
        let indices = page_indices(virtual_address, self.depth);
        proof {
            lemma_indices(indices@, virtual_address);
        }
        let position = t * ENTRIES + indices[4];
        let entry = self.entries[position];
        proof {
            self.lemma_walk_lookup(virtual_address, 4, t as int);
            assert(self.lookup(virtual_address) == old(self).lookup(virtual_address));
            let first = first_level(self.depth);
            assert forall|b: u64|
                (#[trigger] walk(self.entries@, b, first, 4)) is Some implies walk(
                    old(self).entries@,
                    b,
                    first,
                    4,
                ) is Some || agree(b, virtual_address, first, 3) by {
                if walk(old(self).entries@, b, first, 4) is None {
                    self.lemma_walk_level(b, 4);
                    assert(walk(self.entries@, b, first, 4) == Some(t as int));
                    self.lemma_walk_injective(virtual_address, b, 4);
                }
            }
        }
        if entry & PRESENT != 0 {
            return Err(PagingError::AlreadyMapped);
        }
        let ghost before = *self;
        let value = physical_address | flags;
        self.entries.set(position, value);
        proof {
            lemma_leaf_entry(physical_address, flags);
            self.lemma_wf_after_leaf_write(before, t as int, position as int);
            self.lemma_walk_frame(before, virtual_address, 4);
            self.lemma_walk_lookup(virtual_address, 4, t as int);
            let first = first_level(self.depth);
            assert forall|b: u64|
                (#[trigger] walk(self.entries@, b, first, 4)) is Some implies walk(
                    old(self).entries@,
                    b,
                    first,
                    4,
                ) is Some || agree(b, virtual_address, first, 3) by {
                self.lemma_walk_frame(before, b, 4);
                assert((walk(before.entries@, b, first, 4)) is Some);
            }
            assert forall|b: u64|
                #[trigger] self.lookup(b) == if shares_entry(b, virtual_address, first) {
                    Some(value)
                } else {
                    old(self).lookup(b)
                } by {
                if shares_entry(b, virtual_address, first) {
                    lemma_shared_lookup_from(self.entries@, b, virtual_address, first, 0);
                    assert(self.lookup(virtual_address) == Some(value));
                } else {
                    lemma_leaf_write_frame(before, *self, virtual_address, 4, t as int, b, first, 0);
                    assert(before.lookup(b) == old(self).lookup(b));
                }
            }
        }
        Ok(())
    }

    /// Maps the 2 MiB page at `virtual_address` to `physical_address` with `flags`; both
    /// addresses must be 2 MiB-aligned, and the page must not be mapped yet.
    fn map_2m(&mut self, virtual_address: u64, physical_address: u64, flags: u64) -> (r: Result<
        (),
        PagingError,
    >)
        requires
            old(self).wf(),
            present(flags),
        ensures
            final(self).wf(),
            final(self).depth == old(self).depth,
            final(self).next_pci_bar == old(self).next_pci_bar,
            (virtual_address % TWO_MIB != 0 || physical_address % TWO_MIB != 0) ==> r == Err::<
                (),
                PagingError,
            >(PagingError::AddressOverflow) && *final(self) == *old(self),
            only_fills(*old(self), *final(self)),
            r is Ok ==> final(self).lookup(virtual_address) == Some(
                physical_address | flags | PAGE_SIZE_2M,
            ),
            final(self).levels@.len() <= old(self).levels@.len() + 4,
            r is Err ==> forall|b: u64| #[trigger] final(self).lookup(b) == old(self).lookup(b),
            r is Ok ==> forall|b: u64|
                #[trigger] final(self).lookup(b) == old(self).lookup(b) || agree(
                    b,
                    virtual_address,
                    first_level(old(self).depth),
                    3,
                ),
            virtual_address % TWO_MIB == 0 && physical_address % TWO_MIB == 0 && old(
                self,
            ).levels@.len() + 4 <= MAX_TABLES ==> r is Ok || r == Err::<(), PagingError>(
                PagingError::AlreadyMapped,
            ),
            r is Ok ==> forall|b: u64|
                agree(b, virtual_address, first_level(old(self).depth), 3)
                    ==> #[trigger] final(self).lookup(b) == Some(
                    physical_address | flags | PAGE_SIZE_2M,
                ),
            virtual_address % TWO_MIB == 0 && physical_address % TWO_MIB == 0 && old(
                self,
            ).levels@.len() + 4 <= MAX_TABLES && old(self).lookup(virtual_address) is None && (walk(
                old(self).entries@,
                virtual_address,
                first_level(old(self).depth),
                4,
            ) is None) ==> r is Ok,
            forall|b: u64|
                (#[trigger] walk(final(self).entries@, b, first_level(old(self).depth), 4)) is Some
                    ==> walk(old(self).entries@, b, first_level(old(self).depth), 4) is Some,
    {
        if virtual_address % TWO_MIB != 0 || physical_address % TWO_MIB != 0 {
            return Err(PagingError::AddressOverflow);
        }
        let t = match self.leaf_table(virtual_address, 3) {
            Ok(t) => t,
            Err(e) => return Err(e),
        };
        let indices = page_indices(virtual_address, self.depth);
        proof {
            lemma_indices(indices@, virtual_address);
        }
        let position = t * ENTRIES + indices[3];
        let entry = self.entries[position];
        if entry & PRESENT != 0 {
            proof {
                self.lemma_walk_lookup(virtual_address, 3, t as int);
                assert(self.lookup(virtual_address) == old(self).lookup(virtual_address));
                let unfolded = walk(self.entries@, virtual_address, first_level(self.depth), 4);
            }
            return Err(PagingError::AlreadyMapped);
        }
        let ghost before = *self;
        let value = physical_address | flags | PAGE_SIZE_2M;
        self.entries.set(position, value);
        proof {
            lemma_leaf_entry(physical_address, flags);
            lemma_flags_present(physical_address, flags);
            self.lemma_wf_after_leaf_write(before, t as int, position as int);
            self.lemma_walk_frame(before, virtual_address, 3);
            self.lemma_walk_lookup(virtual_address, 3, t as int);
            let first = first_level(self.depth);
            lemma_index_bound(virtual_address, 3);
            assert forall|b: u64|
                (#[trigger] walk(self.entries@, b, first, 4)) is Some implies walk(
                    old(self).entries@,
                    b,
                    first,
                    4,
                ) is Some by {
                self.lemma_walk_frame(before, b, 3);
                lemma_index_bound(b, 3);
                let w = walk(before.entries@, b, first, 3);
                if w is Some {
                    before.lemma_walk_level(b, 3);
                    if slot(w->Some_0, index_at(b, 3)) == position as int {
                        lemma_slot_unique(w->Some_0, index_at(b, 3), t as int, index_at(
                            virtual_address,
                            3,
                        ));
                    } else {
                        assert(walk(before.entries@, b, first, 4) is Some);
                    }
                }
            }
            assert forall|b: u64|
                agree(b, virtual_address, first, 3) implies #[trigger] self.lookup(b) == Some(
                value,
            ) by {
                lemma_shared_walk(self.entries@, b, virtual_address, first, 3);
                self.lemma_walk_lookup(b, 3, t as int);
                assert(index_at(b, 3) == index_at(virtual_address, 3));
            }
            assert forall|b: u64|
                #[trigger] self.lookup(b) == old(self).lookup(b) || agree(
                    b,
                    virtual_address,
                    first,
                    3,
                ) by {
                if !agree(b, virtual_address, first, 3) {
                    lemma_leaf_write_frame(before, *self, virtual_address, 3, t as int, b, first, 0);
                    assert(before.lookup(b) == old(self).lookup(b));
                }
            }
        }
        Ok(())
    }

    /// Writing a mapping (present and large, or in a page table) keeps the hierarchy
    /// well formed.
    proof fn lemma_wf_after_leaf_write(&self, before: PageTables, t: int, position: int)
        requires
            before.wf(),
            self.depth == before.depth,
            self.levels == before.levels,
            0 <= t < before.levels@.len(),
            0 <= position - slot(t, 0) < 512,
            self.entries@ == before.entries@.update(position, self.entries@[position]),
            before.levels@[t] == 4 || (before.levels@[t] == 3 && present(self.entries@[position])
                && huge(self.entries@[position])),
        ensures
            self.wf(),
    {
        let levels = self.levels@;
        assert forall|t2: int, i2: int|
            #![trigger self.entries@[slot(t2, i2)]]
            0 <= t2 < levels.len() && 0 <= i2 < 512 && levels[t2] < 3 && present(
                self.entries@[slot(t2, i2)],
            ) implies !huge(self.entries@[slot(t2, i2)]) by {
            if slot(t2, i2) != position {
                assert(self.entries@[slot(t2, i2)] == before.entries@[slot(t2, i2)]);
            } else {
                lemma_slot_unique(t2, i2, t, position - slot(t, 0));
            }
        }
        assert forall|t1: int, i1: int, t2: int, i2: int|
            #![trigger self.entries@[slot(t1, i1)], self.entries@[slot(t2, i2)]]
            points_down(levels, self.entries@, t1, i1) && points_down(levels, self.entries@, t2, i2)
                && child_of(self.entries@[slot(t1, i1)]) == child_of(self.entries@[slot(t2, i2)])
                implies t1 == t2 && i1 == i2 by {
            if slot(t1, i1) == position {
                lemma_slot_unique(t1, i1, t, position - slot(t, 0));
            } else if slot(t2, i2) == position {
                lemma_slot_unique(t2, i2, t, position - slot(t, 0));
            } else {
                assert(self.entries@[slot(t1, i1)] == before.entries@[slot(t1, i1)]);
                assert(self.entries@[slot(t2, i2)] == before.entries@[slot(t2, i2)]);
                assert(points_down(before.levels@, before.entries@, t1, i1));
                assert(points_down(before.levels@, before.entries@, t2, i2));
            }
        }
        assert forall|t2: int, i2: int|
            #![trigger self.entries@[slot(t2, i2)]]
            0 <= t2 < levels.len() && 0 <= i2 < 512 && levels[t2] < 4 && present(
                self.entries@[slot(t2, i2)],
            ) && !huge(self.entries@[slot(t2, i2)]) implies {
            &&& 0 <= child_of(self.entries@[slot(t2, i2)]) < levels.len()
            &&& levels[child_of(self.entries@[slot(t2, i2)])] == levels[t2] + 1
        } by {
            if slot(t2, i2) != position {
                assert(self.entries@[slot(t2, i2)] == before.entries@[slot(t2, i2)]);
            } else {
                assert(t2 == t);
            }
        }
    }

    /// Tables form a tree: two addresses whose translations reach the same table at `level`
    /// agree on every index above it.
    proof fn lemma_walk_injective(&self, a: u64, b: u64, level: int)
        requires
            self.wf(),
            first_level(self.depth) <= level <= 4,
            walk(self.entries@, a, first_level(self.depth), level) is Some,
            walk(self.entries@, a, first_level(self.depth), level) == walk(
                self.entries@,
                b,
                first_level(self.depth),
                level,
            ),
        ensures
            forall|l: int|
                first_level(self.depth) <= l < level ==> index_at(a, l) == index_at(b, l),
        decreases level - first_level(self.depth),
    {
        let first = first_level(self.depth);
        if level > first {
            let ta = walk(self.entries@, a, first, level - 1)->Some_0;
            let tb = walk(self.entries@, b, first, level - 1)->Some_0;
            self.lemma_walk_level(a, level - 1);
            self.lemma_walk_level(b, level - 1);
            lemma_index_bound(a, level - 1);
            lemma_index_bound(b, level - 1);
            let ia = index_at(a, level - 1);
            let ib = index_at(b, level - 1);
            assert(points_down(self.levels@, self.entries@, ta, ia));
            assert(points_down(self.levels@, self.entries@, tb, ib));
            assert(self.entries@[slot(ta, ia)] == self.entries@[slot(ta, ia)]);
            assert(self.entries@[slot(tb, ib)] == self.entries@[slot(tb, ib)]);
            self.lemma_walk_injective(a, b, level - 1);
        }
    }

    /// Once translating `address` reaches table `t` at `level`, the entry that maps it is
    /// found from there.
    proof fn lemma_walk_lookup(&self, address: u64, level: int, t: int)
        requires
            first_level(self.depth) <= level <= 4,
            walk(self.entries@, address, first_level(self.depth), level) == Some(t),
        ensures
            self.lookup(address) == lookup_from(self.entries@, address, level, t),
        decreases level - first_level(self.depth),
    {
        let first = first_level(self.depth);
        if level > first {
            let previous = walk(self.entries@, address, first, level - 1)->Some_0;
            self.lemma_walk_lookup(address, level - 1, previous);
        }
    }

    proof fn lemma_fills_keep_lookup_from(
        &self,
        later: PageTables,
        address: u64,
        level: int,
        t: int,
    )
        requires
            self.wf(),
            only_fills(*self, later),
            first_level(self.depth) <= level <= 4,
            0 <= t < self.levels@.len(),
            self.levels@[t] == level,
        ensures
            lookup_from(self.entries@, address, level, t) is Some ==> lookup_from(
                later.entries@,
                address,
                level,
                t,
            ) == lookup_from(self.entries@, address, level, t),
        decreases 5 - level,
    {
        lemma_index_bound(address, level);
        let entry = self.entries@[slot(t, index_at(address, level))];
        assert(later.entries_spec()[slot(t, index_at(address, level))] == self.entries_spec()[slot(
            t,
            index_at(address, level),
        )] || !present(self.entries_spec()[slot(t, index_at(address, level))]));
        if level < 4 && present(entry) && !huge(entry) {
            self.lemma_fills_keep_lookup_from(later, address, level + 1, child_of(entry));
        }
    }

    /// Filling absent entries never changes how an already mapped address is translated.
    pub proof fn lemma_filling_keeps_mappings(&self, later: PageTables)
        requires
            self.wf(),
            only_fills(*self, later),
        ensures
            keeps_mappings(*self, later),
    {
        assert forall|address: u64| #[trigger] self.lookup(address) is Some implies later.lookup(
            address,
        ) == self.lookup(address) by {
            self.lemma_fills_keep_lookup_from(later, address, first_level(self.depth), 0);
        }
    }

    /// The entry that maps `virtual_address`: a page-table entry, or a page-directory entry
    /// of a 2 MiB page.
    pub fn mapped_leaf_entry(&self, virtual_address: u64) -> (r: Option<u64>)
        requires
            self.wf(),
        ensures
            r == self.lookup(virtual_address),
    {
        let indices = page_indices(virtual_address, self.depth);
        proof {
            lemma_indices(indices@, virtual_address);
        }
        let mut level: usize = match self.depth {
            PagingDepth::FourLevel => 1,
            PagingDepth::FiveLevel => 0,
        };
        let mut t: usize = 0;
        while level <= 4
            invariant
                self.wf(),
                first_level(self.depth) <= level <= 4,
                forall|l: int| 0 <= l < 5 ==> #[trigger] indices@[l] == index_at(virtual_address, l),
                forall|l: int| 0 <= l < 5 ==> #[trigger] indices@[l] < 512,
                t < self.levels@.len() && self.levels@[t as int] == level,
                self.lookup(virtual_address) == lookup_from(self.entries@, virtual_address, level as int, t as int),
            decreases 5 - level,
        {
            let entry = self.entries[t * ENTRIES + indices[level]];
            if entry & PRESENT == 0 {
                return None;
            }
            if level == 3 && entry & PAGE_SIZE_2M != 0 {
                return Some(entry);
            }
            if level == 4 {
                return Some(entry);
            }
            if entry & PAGE_SIZE_2M != 0 {
                return None;
            }
            t = ((entry & ADDRESS_MASK) >> 12u64) as usize;
            level = level + 1;
        }
        None
    }

    /// The leaf entry translating `virtual_address`, as the transition page sees it.
    pub fn transition_leaf_entry(&self, virtual_address: u64) -> (r: Option<u64>)
        requires
            self.wf(),
        ensures
            r == self.lookup(virtual_address),
    {
        self.mapped_leaf_entry(virtual_address)
    }

    /// Whether `address` is mapped by an executable 2 MiB identity page.
    fn has_executable_identity_huge_page(&self, address: u64) -> (r: bool)
        requires
            self.wf(),
        ensures
            r == (self.lookup(address) matches Some(entry) && executable_identity_huge(
                entry,
                address,
            )),
    {
        match self.mapped_leaf_entry(address) {
            None => false,
            Some(entry) => entry & (PRESENT | PAGE_SIZE_2M) == PRESENT | PAGE_SIZE_2M && entry
                & NO_EXECUTE == 0 && entry & ADDRESS_MASK == address & !0x1f_ffffu64,
        }
    }

    /// Whether `address` is mapped by an executable 4 KiB identity page.
    fn has_executable_identity_4k_page(&self, address: u64) -> (r: bool)
        requires
            self.wf(),
        ensures
            r == (self.lookup(address) matches Some(entry) && executable_identity_4k(
                entry,
                address,
            )),
    {
        match self.mapped_leaf_entry(address) {
            None => false,
            Some(entry) => entry & (PRESENT | PAGE_SIZE_2M | NO_EXECUTE) == PRESENT && entry
                & ADDRESS_MASK == address,
        }
    }

    /// Identity-maps the page holding the switch to the kernel's tables, executable and
    /// read-only. The page must be canonical and page-aligned; an executable 2 MiB identity
    /// page that already covers it is accepted as it is.
    pub fn map_transition_page(&mut self, page: TransitionPage) -> (r: Result<(), PagingError>)
        requires
            old(self).wf(),
        ensures
            only_fills(*old(self), *final(self)),
            final(self).wf(),
            final(self).depth_spec() == old(self).depth_spec(),
            final(self).next_pci_bar_spec() == old(self).next_pci_bar_spec(),
            (!canonical(page.physical_start, old(self).depth_spec()) || page.physical_start % 4096
                != 0) ==> r == Err::<(), PagingError>(PagingError::AddressOverflow) && *final(self)
                == *old(self),
            r is Ok ==> final(self).lookup(page.physical_start) == Some(
                page.physical_start | PRESENT,
            ) || (final(self).lookup(page.physical_start) matches Some(entry)
                && executable_identity_huge(entry, page.physical_start)),
            canonical(page.physical_start, old(self).depth_spec()) && page.physical_start % 4096
                == 0 && old(self).levels_spec().len() + 4 <= MAX_TABLES && (old(self).lookup(
                page.physical_start,
            ) is None || (old(self).lookup(page.physical_start) matches Some(entry)
                && executable_identity_huge(entry, page.physical_start) && walk(
                old(self).entries_spec(),
                page.physical_start,
                first_level(old(self).depth_spec()),
                4,
            ) is None)) ==> r is Ok,
    {
        if !is_canonical(page.physical_start, self.depth) || page.physical_start % PAGE_SIZE != 0 {
            return Err(PagingError::AddressOverflow);
        }
        proof {
            assert(present(PRESENT)) by (bit_vector);
            let found = self.lookup(page.physical_start);
            if found is Some {
                let entry = found->Some_0;
                assert(entry & (1u64 | 0x80u64) == (1u64 | 0x80u64) ==> entry & 0x80u64 != 0)
                    by (bit_vector);
            }
        }
        match self.map_4k(page.physical_start, page.physical_start, PRESENT) {
            Err(PagingError::HugePageConflict) => {
                if self.has_executable_identity_huge_page(page.physical_start) {
                    Ok(())
                } else {
                    Err(PagingError::HugePageConflict)
                }
            },
            result => result,
        }
    }

    /// The 2 MiB-aligned range at `start` fits below 2^64, four more tables fit, and each of
    /// its pages is unmapped or already an executable identity page.
    spec fn identity_block_ready(&self, start: u64) -> bool {
        &&& start % 0x20_0000 == 0
        &&& start + 0x20_0000 <= u64::MAX
        &&& self.levels@.len() + 4 <= MAX_TABLES
        &&& forall|k: int|
            0 <= k < 512 ==> unmapped_or_executable_identity_4k(
                #[trigger] self.lookup((start + k * 4096) as u64),
                (start + k * 4096) as u64,
            )
    }

    /// Identity-maps the 2 MiB range at `start` with 4 KiB pages, writable, keeping pages
    /// that are already executable identity mappings.
    fn map_identity_2m_as_4k(&mut self, start: u64) -> (r: Result<(), PagingError>)
        requires
            old(self).wf(),
        ensures
            only_fills(*old(self), *final(self)),
            final(self).wf(),
            final(self).depth == old(self).depth,
            final(self).next_pci_bar == old(self).next_pci_bar,
            r is Ok ==> forall|k: int|
                0 <= k < 512 ==> (#[trigger] final(self).lookup((start + k * 4096) as u64)) is Some,
            old(self).identity_block_ready(start) ==> r is Ok && final(self).levels@.len() <= old(
                self,
            ).levels@.len() + 4,
            start % 0x20_0000 == 0 ==> forall|b: u64|
                #[trigger] final(self).lookup(b) == old(self).lookup(b) || agree(
                    b,
                    start,
                    first_level(old(self).depth),
                    3,
                ),
    {
        let ghost fits = self.identity_block_ready(start);
        let end = match start.checked_add(TWO_MIB) {
            Some(end) => end,
            None => return Err(PagingError::AddressOverflow),
        };
        proof {
            assert(present(PRESENT | WRITABLE)) by (bit_vector);
            assert(forall|e: u64|
                e & (1u64 | 0x80u64 | 0x8000_0000_0000_0000u64) == 1u64 ==> e & 0x80u64 == 0)
                by (bit_vector);
        }
        let mut address = start;
        let ghost mut done: int = 0;
        while address < end
            invariant
                self.wf(),
                only_fills(*old(self), *self),
                self.depth == old(self).depth,
                self.next_pci_bar == old(self).next_pci_bar,
                present(PRESENT | WRITABLE),
                forall|e: u64|
                    e & (1u64 | 0x80u64 | 0x8000_0000_0000_0000u64) == 1u64 ==> e & 0x80u64 == 0,
                end == start + 0x20_0000,
                done >= 0,
                address == start + done * 4096,
                forall|k: int|
                    0 <= k < done ==> (#[trigger] self.lookup((start + k * 4096) as u64)) is Some,
                fits == old(self).identity_block_ready(start),
                done == 0 ==> *self == *old(self),
                fits ==> self.levels@.len() <= old(self).levels@.len() + 4,
                fits && done > 0 ==> walk(self.entries@, start, first_level(self.depth), 4) is Some,
                start % 0x20_0000 == 0 ==> forall|b: u64|
                    #[trigger] self.lookup(b) == old(self).lookup(b) || agree(
                        b,
                        start,
                        first_level(self.depth),
                        3,
                    ),
                fits ==> forall|k: int|
                    done <= k < 512 ==> #[trigger] self.lookup((start + k * 4096) as u64)
                        == old(self).lookup((start + k * 4096) as u64),
            decreases end + PAGE_SIZE - address,
        {
            let ghost previous = *self;
            proof {
                if start % 0x20_0000 == 0 && done < 512 {
                    lemma_same_block(start, address);
                    lemma_shared_walk(self.entries@, address, start, first_level(self.depth), 4);
                }
                if fits {
                    assert(done < 512);
                    assert(address == (start + done * 4096) as u64);
                    assert(self.lookup(address) == old(self).lookup((start + done * 4096) as u64));
                    assert(unmapped_or_executable_identity_4k(self.lookup(address), address));
                    assert(address % 4096 == 0);
                }
            }
            match self.map_4k(address, address, PRESENT | WRITABLE) {
                Ok(()) => {},
                Err(PagingError::AlreadyMapped) => {
                    if !self.has_executable_identity_4k_page(address) {
                        return Err(PagingError::AlreadyMapped);
                    }
                },
                Err(e) => return Err(e),
            }
            proof {
                previous.lemma_filling_keeps_mappings(*self);
                assert forall|k: int| 0 <= k < done + 1 implies (#[trigger] self.lookup(
                    (start + k * 4096) as u64,
                )) is Some by {
                    if k < done {
                        assert(previous.lookup((start + k * 4096) as u64) is Some);
                    }
                }
                if start % 0x20_0000 == 0 {
                    lemma_shared_walk(self.entries@, address, start, first_level(self.depth), 4);
                    assert forall|b: u64|
                        #[trigger] self.lookup(b) == old(self).lookup(b) || agree(
                            b,
                            start,
                            first_level(self.depth),
                            3,
                        ) by {
                        assert(previous.lookup(b) == old(self).lookup(b) || agree(
                            b,
                            start,
                            first_level(self.depth),
                            3,
                        ));
                        if shares_entry(b, address, first_level(self.depth)) {
                            assert(agree(b, start, first_level(self.depth), 3));
                        }
                    }
                }
                if fits {
                    assert forall|k: int| done + 1 <= k < 512 implies #[trigger] self.lookup(
                        (start + k * 4096) as u64,
                    ) == old(self).lookup((start + k * 4096) as u64) by {
                        let other = (start + k * 4096) as u64;
                        lemma_distinct_pages(address, other, first_level(self.depth));
                        assert(previous.lookup(other) == old(self).lookup(other));
                    }
                }
            }
            address = match address.checked_add(PAGE_SIZE) {
                Some(next) => next,
                None => return Err(PagingError::AddressOverflow),
            };
            proof {
                done = done + 1;
            }
        }
        Ok(())
    }

    /// Identity-maps the first 4 GiB with writable 2 MiB pages; a 2 MiB range that already
    /// holds a 4 KiB mapping (the transition page) is filled with 4 KiB pages instead. Every
    /// 2 MiB boundary below 4 GiB is then mapped.
    pub fn map_identity_first_4g(&mut self) -> (r: Result<(), PagingError>)
        requires
            old(self).wf(),
        ensures
            only_fills(*old(self), *final(self)),
            final(self).wf(),
            final(self).depth_spec() == old(self).depth_spec(),
            final(self).next_pci_bar_spec() == old(self).next_pci_bar_spec(),
            r is Ok ==> forall|k: int|
                0 <= k < 2048 ==> (#[trigger] final(self).lookup((k * 0x20_0000) as u64)) is Some,
            old(self).levels_spec().len() + 8 * 2048 <= MAX_TABLES && (forall|b: int, j: int|
                0 <= b < 2048 && 0 <= j < 512 ==> unmapped_or_executable_identity_4k(
                    #[trigger] old(self).lookup((b * 0x20_0000 + j * 4096) as u64),
                    (b * 0x20_0000 + j * 4096) as u64,
                )) ==> r is Ok,
    {
        let ghost fits = old(self).levels@.len() + 8 * 2048 <= MAX_TABLES && (forall|b: int, j: int|
            0 <= b < 2048 && 0 <= j < 512 ==> unmapped_or_executable_identity_4k(
                #[trigger] old(self).lookup((b * 0x20_0000 + j * 4096) as u64),
                (b * 0x20_0000 + j * 4096) as u64,
            ));
        proof {
            assert(present(PRESENT | WRITABLE)) by (bit_vector);
        }
        let mut address: u64 = 0;
        let ghost mut done: int = 0;
        while address < IDENTITY_BOOTSTRAP_END
            invariant
                self.wf(),
                only_fills(*old(self), *self),
                self.depth == old(self).depth,
                self.next_pci_bar == old(self).next_pci_bar,
                present(PRESENT | WRITABLE),
                address <= IDENTITY_BOOTSTRAP_END,
                done >= 0,
                address == done * 0x20_0000,
                forall|k: int|
                    0 <= k < done ==> (#[trigger] self.lookup((k * 0x20_0000) as u64)) is Some,
                fits == (old(self).levels@.len() + 8 * 2048 <= MAX_TABLES && (forall|b: int, j: int|
                    0 <= b < 2048 && 0 <= j < 512 ==> unmapped_or_executable_identity_4k(
                        #[trigger] old(self).lookup((b * 0x20_0000 + j * 4096) as u64),
                        (b * 0x20_0000 + j * 4096) as u64,
                    ))),
                fits ==> self.levels@.len() <= old(self).levels@.len() + 8 * done,
                fits ==> forall|b: int, j: int|
                    done <= b < 2048 && 0 <= j < 512 ==> #[trigger] self.lookup(
                        (b * 0x20_0000 + j * 4096) as u64,
                    ) == old(self).lookup((b * 0x20_0000 + j * 4096) as u64),
            decreases IDENTITY_BOOTSTRAP_END - address,
        {
            let ghost previous = *self;
            let ghost first = first_level(self.depth);
            proof {
                if fits {
                    assert(done < 2048);
                    assert(self.levels@.len() + 4 <= MAX_TABLES);
                }
            }
            match self.map_2m(address, address, PRESENT | WRITABLE) {
                Ok(()) => {
                    proof {
                        if fits {
                            assert forall|b: int, j: int|
                                done + 1 <= b < 2048 && 0 <= j < 512 implies #[trigger] self.lookup(
                                (b * 0x20_0000 + j * 4096) as u64,
                            ) == old(self).lookup((b * 0x20_0000 + j * 4096) as u64) by {
                                let page = (b * 0x20_0000 + j * 4096) as u64;
                                lemma_distinct_blocks(address, page, first);
                                assert(previous.lookup(page) == old(self).lookup(page));
                            }
                        }
                    }
                },
                Err(PagingError::AlreadyMapped) => {
                    let ghost split = *self;
                    proof {
                        if fits {
                            assert forall|k: int| 0 <= k < 512 implies unmapped_or_executable_identity_4k(
                                #[trigger] split.lookup((address + k * 4096) as u64),
                                (address + k * 4096) as u64,
                            ) by {
                                assert(previous.lookup((done * 0x20_0000 + k * 4096) as u64)
                                    == old(self).lookup((done * 0x20_0000 + k * 4096) as u64));
                                assert(split.lookup((address + k * 4096) as u64) == previous.lookup(
                                    (address + k * 4096) as u64,
                                ));
                            }
                            assert(split.identity_block_ready(address));
                        }
                    }
                    match self.map_identity_2m_as_4k(address) {
                        Ok(()) => {},
                        Err(e) => return Err(e),
                    }
                    proof {
                        assert(self.lookup((address + 0 * 4096) as u64) is Some);
                        split.lemma_filling_keeps_mappings(*self);
                        if fits {
                            assert forall|b: int, j: int|
                                done + 1 <= b < 2048 && 0 <= j < 512 implies #[trigger] self.lookup(
                                (b * 0x20_0000 + j * 4096) as u64,
                            ) == old(self).lookup((b * 0x20_0000 + j * 4096) as u64) by {
                                let page = (b * 0x20_0000 + j * 4096) as u64;
                                lemma_distinct_blocks(address, page, first);
                                assert(split.lookup(page) == previous.lookup(page));
                                assert(previous.lookup(page) == old(self).lookup(page));
                            }
                        }
                    }
                },
                Err(e) => return Err(e),
            }
            proof {
                previous.lemma_filling_keeps_mappings(*self);
                assert forall|k: int| 0 <= k < done + 1 implies (#[trigger] self.lookup(
                    (k * 0x20_0000) as u64,
                )) is Some by {
                    if k < done {
                        assert(previous.lookup((k * 0x20_0000) as u64) is Some);
                    }
                }
            }
            address = address + TWO_MIB;
            proof {
                done = done + 1;
            }
        }
        Ok(())
    }

    /// Maps `pages` pages of a kernel segment from `virtual_start` to `physical_start`,
    /// writable only if the segment is and executable only if it is.
    pub fn map_kernel_segment(
        &mut self,
        virtual_start: u64,
        physical_start: u64,
        pages: usize,
        flags: SegmentFlags,
    ) -> (r: Result<(), PagingError>)
        requires
            old(self).wf(),
        ensures
            only_fills(*old(self), *final(self)),
            final(self).wf(),
            final(self).depth_spec() == old(self).depth_spec(),
            final(self).next_pci_bar_spec() == old(self).next_pci_bar_spec(),
            r is Ok ==> forall|k: int|
                0 <= k < pages ==> #[trigger] final(self).lookup((virtual_start + k * 4096) as u64)
                    == Some(((physical_start + k * 4096) as u64) | segment_bits_spec(flags)),
            virtual_start % 4096 == 0 && physical_start % 4096 == 0 && virtual_start + pages * 4096
                <= u64::MAX && physical_start + pages * 4096 <= u64::MAX && pages * 4096
                <= 0x1_0000_0000_0000 && old(self).levels_spec().len() + 4 * pages <= MAX_TABLES
                && (forall|k: int|
                0 <= k < pages ==> #[trigger] old(self).lookup((virtual_start + k * 4096) as u64)
                    is None) ==> r is Ok,
    {
        let bits = segment_entry_bits(flags);
        let mut virtual_address = virtual_start;
        let mut physical_address = physical_start;
        let mut done: usize = 0;
        let ghost fits = virtual_start % 4096 == 0 && physical_start % 4096 == 0 && virtual_start
            + pages * 4096 <= u64::MAX && physical_start + pages * 4096 <= u64::MAX && pages * 4096
            <= 0x1_0000_0000_0000 && old(self).levels@.len() + 4 * pages <= MAX_TABLES && (forall|
            k: int|
            0 <= k < pages ==> #[trigger] old(self).lookup((virtual_start + k * 4096) as u64)
                is None);
        while done < pages
            invariant
                self.wf(),
                only_fills(*old(self), *self),
                self.depth == old(self).depth,
                self.next_pci_bar == old(self).next_pci_bar,
                present(bits),
                bits == segment_bits_spec(flags),
                done <= pages,
                virtual_address == virtual_start + done * 4096,
                physical_address == physical_start + done * 4096,
                forall|k: int|
                    0 <= k < done ==> #[trigger] self.lookup((virtual_start + k * 4096) as u64)
                        == Some(((physical_start + k * 4096) as u64) | bits),
                self.levels@.len() <= old(self).levels@.len() + 4 * done,
                fits == (virtual_start % 4096 == 0 && physical_start % 4096 == 0 && virtual_start
                    + pages * 4096 <= u64::MAX && physical_start + pages * 4096 <= u64::MAX && pages
                    * 4096 <= 0x1_0000_0000_0000 && old(self).levels@.len() + 4 * pages
                    <= MAX_TABLES && (forall|k: int|
                    0 <= k < pages ==> #[trigger] old(self).lookup(
                        (virtual_start + k * 4096) as u64,
                    ) is None)),
                fits ==> forall|k: int|
                    done <= k < pages ==> #[trigger] self.lookup((virtual_start + k * 4096) as u64)
                        is None,
            decreases pages - done,
        {
            let ghost previous = *self;
            proof {
                if fits {
                    assert(self.lookup((virtual_start + done * 4096) as u64) is None);
                    assert(virtual_address == (virtual_start + done * 4096) as u64);
                    assert(self.lookup(virtual_address) is None);
                    assert(virtual_address % 4096 == 0);
                    assert(physical_address % 4096 == 0);
                    assert(self.levels@.len() + 4 <= MAX_TABLES);
                }
            }
            match self.map_4k(virtual_address, physical_address, bits) {
                Ok(()) => {},
                Err(e) => return Err(e),
            }
            proof {
                previous.lemma_filling_keeps_mappings(*self);
                assert forall|k: int| 0 <= k < done + 1 implies #[trigger] self.lookup(
                    (virtual_start + k * 4096) as u64,
                ) == Some(((physical_start + k * 4096) as u64) | bits) by {
                    if k < done {
                        assert(previous.lookup((virtual_start + k * 4096) as u64) is Some);
                    }
                }
                if fits {
                    assert forall|k: int| done + 1 <= k < pages implies #[trigger] self.lookup(
                        (virtual_start + k * 4096) as u64,
                    ) is None by {
                        let other = (virtual_start + k * 4096) as u64;
                        lemma_distinct_pages(virtual_address, other, first_level(self.depth));
                        assert(previous.lookup(other) is None);
                    }
                }
            }
            virtual_address = match virtual_address.checked_add(PAGE_SIZE) {
                Some(next) => next,
                None => return Err(PagingError::AddressOverflow),
            };
            physical_address = match physical_address.checked_add(PAGE_SIZE) {
                Some(next) => next,
                None => return Err(PagingError::AddressOverflow),
            };
            done = done + 1;
        }
        Ok(())
    }

    /// Identity-maps the part of `allocation` above the 4 GiB bootstrap range, writable and
    /// not executable.
    pub fn map_identity_allocation(&mut self, allocation: Allocation) -> (r: Result<
        (),
        PagingError,
    >)
        requires
            old(self).wf(),
        ensures
            only_fills(*old(self), *final(self)),
            final(self).wf(),
            final(self).depth_spec() == old(self).depth_spec(),
            final(self).next_pci_bar_spec() == old(self).next_pci_bar_spec(),
            r is Ok ==> forall|k: int|
                #![trigger final(self).lookup((identity_start(allocation.physical_start) + k * 4096) as u64)]
                0 <= k && identity_start(allocation.physical_start) + k * 4096
                    < allocation.physical_start + allocation.pages * 4096 ==> final(self).lookup(
                    (identity_start(allocation.physical_start) + k * 4096) as u64,
                ) == Some(((identity_start(allocation.physical_start) + k * 4096) as u64) | DATA_BITS),
            allocation.physical_start % 4096 == 0 && allocation.pages * 4096 <= usize::MAX
                && allocation.pages * 4096 <= 0x1_0000_0000_0000 && allocation.physical_start
                + allocation.pages * 4096 <= u64::MAX && old(self).levels_spec().len() + 4
                * allocation.pages <= MAX_TABLES && (forall|k: int|
                #![trigger old(self).lookup((identity_start(allocation.physical_start) + k * 4096) as u64)]
                0 <= k && identity_start(allocation.physical_start) + k * 4096
                    < allocation.physical_start + allocation.pages * 4096 ==> old(self).lookup(
                    (identity_start(allocation.physical_start) + k * 4096) as u64,
                ) is None) ==> r is Ok,
    {
        let ghost fits = allocation.physical_start % 4096 == 0 && allocation.pages * 4096
            <= usize::MAX && allocation.pages * 4096 <= 0x1_0000_0000_0000
            && allocation.physical_start + allocation.pages * 4096 <= u64::MAX
            && old(self).levels@.len() + 4 * allocation.pages <= MAX_TABLES && (forall|k: int|
            #![trigger old(self).lookup((identity_start(allocation.physical_start) + k * 4096) as u64)]
            0 <= k && identity_start(allocation.physical_start) + k * 4096
                < allocation.physical_start + allocation.pages * 4096 ==> old(self).lookup(
                (identity_start(allocation.physical_start) + k * 4096) as u64,
            ) is None);
        let end = match allocation.end() {
            Ok(end) => end,
            Err(_) => return Err(PagingError::AddressOverflow),
        };
        let first = if allocation.physical_start > IDENTITY_BOOTSTRAP_END {
            allocation.physical_start
        } else {
            IDENTITY_BOOTSTRAP_END
        };
        let mut physical = first;
        let ghost mut done: int = 0;
        proof {
            assert(present(DATA_BITS)) by (bit_vector);
        }
        while physical < end
            invariant
                self.wf(),
                only_fills(*old(self), *self),
                self.depth == old(self).depth,
                self.next_pci_bar == old(self).next_pci_bar,
                present(DATA_BITS),
                first == identity_start(allocation.physical_start),
                end == allocation.physical_start + allocation.pages * 4096,
                done >= 0,
                physical == first + done * 4096,
                forall|k: int|
                    #![trigger self.lookup((first + k * 4096) as u64)]
                    0 <= k < done ==> self.lookup((first + k * 4096) as u64) == Some(
                        ((first + k * 4096) as u64) | DATA_BITS,
                    ),
                self.levels@.len() <= old(self).levels@.len() + 4 * done,
                fits == (allocation.physical_start % 4096 == 0 && allocation.pages * 4096
                    <= usize::MAX && allocation.pages * 4096 <= 0x1_0000_0000_0000
                    && allocation.physical_start + allocation.pages * 4096 <= u64::MAX
                    && old(self).levels@.len() + 4 * allocation.pages <= MAX_TABLES && (forall|
                    k: int|
                    #![trigger old(self).lookup((identity_start(allocation.physical_start) + k * 4096) as u64)]
                    0 <= k && identity_start(allocation.physical_start) + k * 4096
                        < allocation.physical_start + allocation.pages * 4096 ==> old(self).lookup(
                        (identity_start(allocation.physical_start) + k * 4096) as u64,
                    ) is None)),
                fits ==> forall|k: int|
                    #![trigger self.lookup((first + k * 4096) as u64)]
                    done <= k && first + k * 4096 < end ==> self.lookup((first + k * 4096) as u64)
                        is None,
            decreases end + PAGE_SIZE - physical,
        {
            let ghost previous = *self;
            proof {
                if fits {
                    let m = allocation.physical_start / 4096;
                    assert(allocation.physical_start == 4096 * m);
                    assert(physical + 4096 <= end);
                    assert(4 * done + 4 <= 4 * allocation.pages);
                    assert(self.lookup((first + done * 4096) as u64) is None);
                    assert(physical == (first + done * 4096) as u64);
                }
            }
            match self.map_4k(physical, physical, DATA_BITS) {
                Ok(()) => {},
                Err(e) => return Err(e),
            }
            proof {
                previous.lemma_filling_keeps_mappings(*self);
                assert forall|k: int|
                    #![trigger self.lookup((first + k * 4096) as u64)]
                    0 <= k < done + 1 implies self.lookup((first + k * 4096) as u64) == Some(
                    ((first + k * 4096) as u64) | DATA_BITS,
                ) by {
                    if k < done {
                        assert(previous.lookup((first + k * 4096) as u64) is Some);
                    }
                }
                if fits {
                    assert forall|k: int|
                        #![trigger self.lookup((first + k * 4096) as u64)]
                        done + 1 <= k && first + k * 4096 < end implies self.lookup(
                        (first + k * 4096) as u64,
                    ) is None by {
                        let other = (first + k * 4096) as u64;
                        lemma_distinct_pages(physical, other, first_level(self.depth));
                        assert(previous.lookup(other) is None);
                    }
                }
            }
            physical = match physical.checked_add(PAGE_SIZE) {
                Some(next) => next,
                None => return Err(PagingError::AddressOverflow),
            };
            proof {
                done = done + 1;
            }
        }
        Ok(())
    }

    /// Identity-maps the pages covering the `bytes` bytes at `physical_start` that lie above
    /// the 4 GiB bootstrap range, writable and executable; an empty range, or one that
    /// overflows or ends beyond the direct map, is refused.
    pub fn map_identity_execution_range(&mut self, physical_start: u64, bytes: u64) -> (r: Result<
        (),
        PagingError,
    >)
        requires
            old(self).wf(),
        ensures
            only_fills(*old(self), *final(self)),
            final(self).wf(),
            final(self).depth_spec() == old(self).depth_spec(),
            final(self).next_pci_bar_spec() == old(self).next_pci_bar_spec(),
            (bytes == 0 || physical_start + bytes > u64::MAX || physical_start + bytes - 1
                > MAX_DIRECT_MAPPED_PHYSICAL) ==> r == Err::<(), PagingError>(
                PagingError::AddressOverflow,
            ) && *final(self) == *old(self),
            r is Ok ==> forall|k: int|
                #![trigger final(self).lookup((execution_first(physical_start) + k * 4096) as u64)]
                0 <= k && execution_first(physical_start) + k * 4096 < execution_end(
                    physical_start,
                    bytes,
                ) ==> final(self).lookup((execution_first(physical_start) + k * 4096) as u64)
                    == Some(((execution_first(physical_start) + k * 4096) as u64) | (PRESENT
                    | WRITABLE)),
            !(bytes == 0 || physical_start + bytes > u64::MAX || physical_start + bytes - 1
                > MAX_DIRECT_MAPPED_PHYSICAL) && old(self).levels_spec().len() + 4 * ((
            physical_start % 4096 + bytes + 4095) / 4096) <= MAX_TABLES && (forall|k: int|
                #![trigger old(self).lookup((execution_first(physical_start) + k * 4096) as u64)]
                0 <= k && execution_first(physical_start) + k * 4096 < execution_end(
                    physical_start,
                    bytes,
                ) ==> old(self).lookup((execution_first(physical_start) + k * 4096) as u64)
                    is None) ==> r is Ok,
    {
        let ghost fits = !(bytes == 0 || physical_start + bytes > u64::MAX || physical_start
            + bytes - 1 > MAX_DIRECT_MAPPED_PHYSICAL) && old(self).levels@.len() + 4 * ((
        physical_start % 4096 + bytes + 4095) / 4096) <= MAX_TABLES && (forall|k: int|
            #![trigger old(self).lookup((execution_first(physical_start) + k * 4096) as u64)]
            0 <= k && execution_first(physical_start) + k * 4096 < execution_end(
                physical_start,
                bytes,
            ) ==> old(self).lookup((execution_first(physical_start) + k * 4096) as u64) is None);
        if bytes == 0 {
            return Err(PagingError::AddressOverflow);
        }
        let end = match physical_start.checked_add(bytes) {
            Some(end) => end,
            None => return Err(PagingError::AddressOverflow),
        };
        if end - 1 > MAX_DIRECT_MAPPED_PHYSICAL {
            return Err(PagingError::AddressOverflow);
        }
        let mapped_end = (end + (PAGE_SIZE - 1)) & !(PAGE_SIZE - 1);
        let start_page = physical_start & !(PAGE_SIZE - 1);
        proof {
            lemma_page_floor();
            assert(start_page == physical_start - physical_start % 4096);
            assert(mapped_end == execution_end(physical_start, bytes));
        }
        let mut physical = if start_page > IDENTITY_BOOTSTRAP_END {
            start_page
        } else {
            IDENTITY_BOOTSTRAP_END
        };
        let ghost first = physical as int;
        let ghost mut done: int = 0;
        proof {
            assert(present(PRESENT | WRITABLE)) by (bit_vector);
        }
        while physical < mapped_end
            invariant
                !(bytes == 0 || physical_start + bytes > u64::MAX || physical_start + bytes - 1
                    > MAX_DIRECT_MAPPED_PHYSICAL),
                self.wf(),
                only_fills(*old(self), *self),
                self.depth == old(self).depth,
                self.next_pci_bar == old(self).next_pci_bar,
                present(PRESENT | WRITABLE),
                first == execution_first(physical_start),
                first % 4096 == 0,
                mapped_end == execution_end(physical_start, bytes),
                mapped_end <= MAX_DIRECT_MAPPED_PHYSICAL + 4097,
                first >= physical_start - physical_start % 4096,
                done >= 0,
                physical == first + done * 4096,
                forall|k: int|
                    #![trigger self.lookup((first + k * 4096) as u64)]
                    0 <= k < done ==> self.lookup((first + k * 4096) as u64) == Some(
                        ((first + k * 4096) as u64) | (PRESENT | WRITABLE),
                    ),
                self.levels@.len() <= old(self).levels@.len() + 4 * done,
                fits == (!(bytes == 0 || physical_start + bytes > u64::MAX || physical_start
                    + bytes - 1 > MAX_DIRECT_MAPPED_PHYSICAL) && old(self).levels@.len() + 4 * ((
                physical_start % 4096 + bytes + 4095) / 4096) <= MAX_TABLES && (forall|k: int|
                    #![trigger old(self).lookup((execution_first(physical_start) + k * 4096) as u64)]
                    0 <= k && execution_first(physical_start) + k * 4096 < execution_end(
                        physical_start,
                        bytes,
                    ) ==> old(self).lookup((execution_first(physical_start) + k * 4096) as u64)
                        is None)),
                fits ==> forall|k: int|
                    #![trigger self.lookup((first + k * 4096) as u64)]
                    done <= k && first + k * 4096 < mapped_end ==> self.lookup(
                        (first + k * 4096) as u64,
                    ) is None,
            decreases mapped_end + PAGE_SIZE - physical,
        {
            let ghost previous = *self;
            proof {
                let n = physical_start % 4096 + bytes;
                assert(done * 4096 < n + 4095 - (physical_start + bytes + 4095) % 4096 + 4096);
                assert(done + 1 <= (n + 4095) / 4096) by (nonlinear_arith)
                    requires
                        done * 4096 < mapped_end - (physical_start - physical_start % 4096),
                        mapped_end == physical_start + bytes + 4095 - (physical_start + bytes
                            + 4095) % 4096,
                        n == physical_start % 4096 + bytes,
                        physical_start % 4096 >= 0,
                        done >= 0,
                ;
                if fits {
                    assert(self.lookup((first + done * 4096) as u64) is None);
                    assert(physical == (first + done * 4096) as u64);
                    assert(physical % 4096 == 0);
                }
            }
            match self.map_4k(physical, physical, PRESENT | WRITABLE) {
                Ok(()) => {},
                Err(e) => return Err(e),
            }
            proof {
                previous.lemma_filling_keeps_mappings(*self);
                assert forall|k: int|
                    #![trigger self.lookup((first + k * 4096) as u64)]
                    0 <= k < done + 1 implies self.lookup((first + k * 4096) as u64) == Some(
                    ((first + k * 4096) as u64) | (PRESENT | WRITABLE),
                ) by {
                    if k < done {
                        assert(previous.lookup((first + k * 4096) as u64) is Some);
                    }
                }
                if fits {
                    assert forall|k: int|
                        #![trigger self.lookup((first + k * 4096) as u64)]
                        done + 1 <= k && first + k * 4096 < mapped_end implies self.lookup(
                        (first + k * 4096) as u64,
                    ) is None by {
                        let other = (first + k * 4096) as u64;
                        lemma_distinct_pages(physical, other, first_level(self.depth));
                        assert(previous.lookup(other) is None);
                    }
                }
            }
            physical = match physical.checked_add(PAGE_SIZE) {
                Some(next) => next,
                None => return Err(PagingError::AddressOverflow),
            };
            proof {
                done = done + 1;
            }
        }
        Ok(())
    }

    /// Maps usable RAM `physical_start .. physical_end` into the kernel's direct map,
    /// writable and not executable, with 2 MiB pages where the range allows; a reversed range
    /// or one that ends beyond the direct map is refused.
    pub fn map_usable_ram(&mut self, physical_start: u64, physical_end: u64) -> (r: Result<
        (),
        PagingError,
    >)
        requires
            old(self).wf(),
        ensures
            only_fills(*old(self), *final(self)),
            final(self).wf(),
            final(self).depth_spec() == old(self).depth_spec(),
            final(self).next_pci_bar_spec() == old(self).next_pci_bar_spec(),
            (physical_start > physical_end || (physical_end > 0 && physical_end - 1
                > MAX_DIRECT_MAPPED_PHYSICAL)) ==> r == Err::<(), PagingError>(
                PagingError::AddressOverflow,
            ) && *final(self) == *old(self),
            r is Ok ==> forall|k: int|
                #![trigger final(self).lookup((PHYSICAL_MEMORY_OFFSET + physical_start + k * 4096) as u64)]
                0 <= k && physical_start + k * 4096 < physical_end ==> final(self).lookup(
                    (PHYSICAL_MEMORY_OFFSET + physical_start + k * 4096) as u64,
                ) == Some(
                    usable_ram_entry(
                        physical_start + k * 4096,
                        physical_start as int,
                        physical_end as int,
                    ),
                ),
            usable_ram_ready(*old(self), physical_start, physical_end) ==> r is Ok,
    {
        let ghost fits = usable_ram_ready(*old(self), physical_start, physical_end);
        if physical_start > physical_end {
            return Err(PagingError::AddressOverflow);
        }
        if physical_end > 0 && physical_end - 1 > MAX_DIRECT_MAPPED_PHYSICAL {
            return Err(PagingError::AddressOverflow);
        }
        proof {
            assert(present(DATA_BITS)) by (bit_vector);
            reveal(usable_mapped);
            reveal(usable_pending);
        }
        let mut physical = physical_start;
        let ghost mut done: int = 0;
        let ghost first = first_level(self.depth);
        while physical < physical_end
            invariant
                !(physical_start > physical_end || (physical_end > 0 && physical_end - 1
                    > MAX_DIRECT_MAPPED_PHYSICAL)),
                self.wf(),
                only_fills(*old(self), *self),
                self.depth == old(self).depth,
                self.next_pci_bar == old(self).next_pci_bar,
                present(DATA_BITS),
                physical_end - 1 <= MAX_DIRECT_MAPPED_PHYSICAL,
                first == first_level(self.depth),
                done >= 0,
                physical == physical_start + done * 4096,
                physical % 0x20_0000 != 0 ==> !(physical_start <= physical - physical % 0x20_0000
                    && physical - physical % 0x20_0000 + 0x20_0000 <= physical_end),
                usable_mapped(*self, physical_start, physical_end, done),
                self.levels@.len() <= old(self).levels@.len() + 4 * done,
                fits == usable_ram_ready(*old(self), physical_start, physical_end),
                fits ==> usable_pending(*self, physical_start, physical_end, done, first),
                fits ==> physical_start % 4096 == 0 && old(self).levels@.len() + 4 * ((
                physical_end - physical_start) / 4096 + 1) <= MAX_TABLES,
            decreases physical_end + TWO_MIB - physical,
        {
            let virtual_address = match PHYSICAL_MEMORY_OFFSET.checked_add(physical) {
                Some(address) => address,
                None => return Err(PagingError::AddressOverflow),
            };
            let ghost previous = *self;
            proof {
                assert(virtual_address == (PHYSICAL_MEMORY_OFFSET + physical_start + done * 4096) as u64);
                if fits {
                    assert(done + 1 <= (physical_end - physical_start) / 4096 + 1) by (nonlinear_arith)
                        requires
                            done * 4096 < physical_end - physical_start,
                            done >= 0,
                    ;
                    assert(self.levels@.len() + 4 <= MAX_TABLES);
                    assert(self.lookup(virtual_address) is None) by {
                        reveal(usable_pending);
                    }
                    assert(physical % 4096 == 0);
                    assert(virtual_address % 4096 == 0);
                }
            }
            if physical % TWO_MIB == 0 && physical_end - physical >= TWO_MIB {
                proof {
                    if fits {
                        assert(walk(self.entries@, virtual_address, first, 4) is None) by {
                            reveal(usable_pending);
                        }
                    }
                    assert(virtual_address % 0x20_0000 == 0);
                }
                match self.map_2m(virtual_address, physical, DATA_BITS) {
                    Ok(()) => {},
                    Err(e) => return Err(e),
                }
                proof {
                    previous.lemma_filling_keeps_mappings(*self);
                    lemma_usable_block(previous, *self, physical_start, physical_end, done, first);
                }
                physical = physical + TWO_MIB;
                proof {
                    done = done + 512;
                }
            } else {
                match self.map_4k(virtual_address, physical, DATA_BITS) {
                    Ok(()) => {},
                    Err(e) => return Err(e),
                }
                proof {
                    previous.lemma_filling_keeps_mappings(*self);
                    lemma_usable_page(previous, *self, physical_start, physical_end, done, first);
                    assert(physical % 4096 == 0);
                    if (physical + 4096) % 0x20_0000 != 0 {
                        lemma_block_step(physical as int);
                    }
                }
                physical = match physical.checked_add(PAGE_SIZE) {
                    Some(next) => next,
                    None => return Err(PagingError::AddressOverflow),
                };
                proof {
                    done = done + 1;
                }
            }
        }
        proof {
            reveal(usable_mapped);
        }
        Ok(())
    }

    /// Maps the framebuffer's pages into the direct map, writable, not executable and
    /// uncached; a range that overflows or ends beyond the direct map is refused.
    pub fn map_framebuffer(&mut self, physical_start: u64, bytes: u64) -> (r: Result<
        (),
        PagingError,
    >)
        requires
            old(self).wf(),
        ensures
            only_fills(*old(self), *final(self)),
            final(self).wf(),
            final(self).depth_spec() == old(self).depth_spec(),
            final(self).next_pci_bar_spec() == old(self).next_pci_bar_spec(),
            (physical_start + bytes > u64::MAX || (physical_start + bytes > 0 && physical_start
                + bytes - 1 > MAX_DIRECT_MAPPED_PHYSICAL)) ==> r == Err::<(), PagingError>(
                PagingError::AddressOverflow,
            ) && *final(self) == *old(self),
            r is Ok ==> forall|k: int|
                #![trigger final(self).lookup((PHYSICAL_MEMORY_OFFSET + physical_start - physical_start % 4096 + k * 4096) as u64)]
                0 <= k && physical_start - physical_start % 4096 + k * 4096 < physical_start
                    + bytes ==> final(self).lookup(
                    (PHYSICAL_MEMORY_OFFSET + physical_start - physical_start % 4096 + k * 4096) as u64,
                ) == Some(((physical_start - physical_start % 4096 + k * 4096) as u64) | DEVICE_BITS),
            physical_start + bytes <= u64::MAX && (physical_start + bytes > 0 ==> physical_start
                + bytes - 1 <= MAX_DIRECT_MAPPED_PHYSICAL) && old(self).levels_spec().len() + 4 * ((
            physical_start % 4096 + bytes + 4095) / 4096) <= MAX_TABLES && (forall|k: int|
                #![trigger old(self).lookup((PHYSICAL_MEMORY_OFFSET + physical_start - physical_start % 4096 + k * 4096) as u64)]
                0 <= k && physical_start - physical_start % 4096 + k * 4096 < physical_start
                    + bytes ==> old(self).lookup(
                    (PHYSICAL_MEMORY_OFFSET + physical_start - physical_start % 4096 + k * 4096) as u64,
                ) is None) ==> r is Ok,
    {
        let ghost fits = physical_start + bytes <= u64::MAX && (physical_start + bytes > 0
            ==> physical_start + bytes - 1 <= MAX_DIRECT_MAPPED_PHYSICAL) && old(
            self,
        ).levels@.len() + 4 * ((physical_start % 4096 + bytes + 4095) / 4096) <= MAX_TABLES && (
        forall|k: int|
            #![trigger old(self).lookup((PHYSICAL_MEMORY_OFFSET + physical_start - physical_start % 4096 + k * 4096) as u64)]
            0 <= k && physical_start - physical_start % 4096 + k * 4096 < physical_start + bytes
                ==> old(self).lookup(
                (PHYSICAL_MEMORY_OFFSET + physical_start - physical_start % 4096 + k * 4096) as u64,
            ) is None);
        let end = match physical_start.checked_add(bytes) {
            Some(end) => end,
            None => return Err(PagingError::AddressOverflow),
        };
        if end > 0 && end - 1 > MAX_DIRECT_MAPPED_PHYSICAL {
            return Err(PagingError::AddressOverflow);
        }
        proof {
            assert(present(DEVICE_BITS)) by (bit_vector);
        }
        let first = physical_start & !(PAGE_SIZE - 1);
        proof {
            lemma_page_floor();
        }
        let mut physical = first;
        let ghost mut done: int = 0;
        while physical < end
            invariant
                !(physical_start + bytes > u64::MAX || (physical_start + bytes > 0 && physical_start
                    + bytes - 1 > MAX_DIRECT_MAPPED_PHYSICAL)),
                self.wf(),
                only_fills(*old(self), *self),
                self.depth == old(self).depth,
                self.next_pci_bar == old(self).next_pci_bar,
                present(DEVICE_BITS),
                first == physical_start - physical_start % 4096,
                end == physical_start + bytes,
                done >= 0,
                physical == first + done * 4096,
                forall|k: int|
                    #![trigger self.lookup((PHYSICAL_MEMORY_OFFSET + first + k * 4096) as u64)]
                    0 <= k < done ==> self.lookup((PHYSICAL_MEMORY_OFFSET + first + k * 4096) as u64)
                        == Some(((first + k * 4096) as u64) | DEVICE_BITS),
                self.levels@.len() <= old(self).levels@.len() + 4 * done,
                fits == (physical_start + bytes <= u64::MAX && (physical_start + bytes > 0
                    ==> physical_start + bytes - 1 <= MAX_DIRECT_MAPPED_PHYSICAL) && old(
                    self,
                ).levels@.len() + 4 * ((physical_start % 4096 + bytes + 4095) / 4096)
                    <= MAX_TABLES && (forall|k: int|
                    #![trigger old(self).lookup((PHYSICAL_MEMORY_OFFSET + physical_start - physical_start % 4096 + k * 4096) as u64)]
                    0 <= k && physical_start - physical_start % 4096 + k * 4096 < physical_start
                        + bytes ==> old(self).lookup(
                        (PHYSICAL_MEMORY_OFFSET + physical_start - physical_start % 4096 + k
                            * 4096) as u64,
                    ) is None)),
                fits ==> forall|k: int|
                    #![trigger self.lookup((PHYSICAL_MEMORY_OFFSET + first + k * 4096) as u64)]
                    done <= k && first + k * 4096 < end ==> self.lookup(
                        (PHYSICAL_MEMORY_OFFSET + first + k * 4096) as u64,
                    ) is None,
            decreases end + PAGE_SIZE - physical,
        {
            proof {
                let n = physical_start % 4096 + bytes;
                assert(done + 1 <= (n + 4095) / 4096) by (nonlinear_arith)
                    requires
                        done * 4096 < n,
                        done >= 0,
                ;
                assert(physical == (first + done * 4096) as u64);
            }
            let virtual_address = match PHYSICAL_MEMORY_OFFSET.checked_add(physical) {
                Some(address) => address,
                None => return Err(PagingError::AddressOverflow),
            };
            let ghost previous = *self;
            proof {
                if fits {
                    assert(virtual_address == (PHYSICAL_MEMORY_OFFSET + first + done * 4096) as u64);
                    assert(self.lookup(virtual_address) is None);
                    assert(virtual_address % 4096 == 0);
                    assert(physical % 4096 == 0);
                }
            }
            match self.map_4k(virtual_address, physical, DEVICE_BITS) {
                Ok(()) => {},
                Err(e) => return Err(e),
            }
            proof {
                previous.lemma_filling_keeps_mappings(*self);
                assert forall|k: int|
                    #![trigger self.lookup((PHYSICAL_MEMORY_OFFSET + first + k * 4096) as u64)]
                    0 <= k < done + 1 implies self.lookup(
                    (PHYSICAL_MEMORY_OFFSET + first + k * 4096) as u64,
                ) == Some(((first + k * 4096) as u64) | DEVICE_BITS) by {
                    if k < done {
                        assert(previous.lookup((PHYSICAL_MEMORY_OFFSET + first + k * 4096) as u64)
                            is Some);
                    }
                }
                if fits {
                    assert forall|k: int|
                        #![trigger self.lookup((PHYSICAL_MEMORY_OFFSET + first + k * 4096) as u64)]
                        done + 1 <= k && first + k * 4096 < end implies self.lookup(
                        (PHYSICAL_MEMORY_OFFSET + first + k * 4096) as u64,
                    ) is None by {
                        let other = (PHYSICAL_MEMORY_OFFSET + first + k * 4096) as u64;
                        lemma_distinct_pages(virtual_address, other, first_level(self.depth));
                        assert(previous.lookup(other) is None);
                    }
                }
            }
            physical = match physical.checked_add(PAGE_SIZE) {
                Some(next) => next,
                None => return Err(PagingError::AddressOverflow),
            };
            proof {
                done = done + 1;
            }
        }
        Ok(())
    }

    /// Maps a PCI BAR at the next free BAR window, uncached and not executable, and gives
    /// the virtual address of its first byte; the window then advances past the BAR's pages.
    pub fn map_pci_bar(&mut self, physical_start: u64, bytes: u64) -> (r: Result<u64, PagingError>)
        requires
            old(self).wf(),
        ensures
            only_fills(*old(self), *final(self)),
            final(self).wf(),
            final(self).depth_spec() == old(self).depth_spec(),
            bar_range_spec(physical_start, bytes) is Err ==> r == Err::<u64, PagingError>(
                PagingError::AddressOverflow,
            ) && *final(self) == *old(self),
            r matches Ok(address) ==> bar_range_spec(physical_start, bytes) matches Ok(
                (page_start, pages, offset),
            ) && address == old(self).next_pci_bar_spec() + offset
                && final(self).next_pci_bar_spec() == old(self).next_pci_bar_spec() + pages
                * 4096 && forall|k: int|
                #![trigger final(self).lookup((old(self).next_pci_bar_spec() + k * 4096) as u64)]
                0 <= k < pages ==> final(self).lookup(
                    (old(self).next_pci_bar_spec() + k * 4096) as u64,
                ) == Some(((page_start + k * 4096) as u64) | DEVICE_BITS),
            pci_bar_ready(*old(self), physical_start, bytes) ==> r is Ok,
    {
        let ghost fits = pci_bar_ready(*old(self), physical_start, bytes);
        let (physical_page, pages, offset) = match bar_mapping_range(physical_start, bytes) {
            Ok(range) => range,
            Err(e) => return Err(e),
        };
        let virtual_start = self.next_pci_bar;
        let length = match pages.checked_mul(PAGE_SIZE) {
            Some(length) => length,
            None => return Err(PagingError::AddressOverflow),
        };
        let virtual_end = match virtual_start.checked_add(length) {
            Some(end) => end,
            None => return Err(PagingError::AddressOverflow),
        };
        proof {
            assert(present(DEVICE_BITS)) by (bit_vector);
        }
        let mut physical = physical_page;
        let mut virtual_address = virtual_start;
        let mut done: u64 = 0;
        while done < pages
            invariant
                bar_range_spec(physical_start, bytes) == Ok::<(u64, u64, u64), PagingError>(
                    (physical_page, pages, offset),
                ),
                self.wf(),
                only_fills(*old(self), *self),
                self.depth == old(self).depth,
                self.next_pci_bar == old(self).next_pci_bar,
                virtual_start == old(self).next_pci_bar,
                present(DEVICE_BITS),
                done <= pages,
                physical == physical_page + done * 4096,
                virtual_address == virtual_start + done * 4096,
                forall|k: int|
                    #![trigger self.lookup((virtual_start + k * 4096) as u64)]
                    0 <= k < done ==> self.lookup((virtual_start + k * 4096) as u64) == Some(
                        ((physical_page + k * 4096) as u64) | DEVICE_BITS,
                    ),
                self.levels@.len() <= old(self).levels@.len() + 4 * done,
                fits == pci_bar_ready(*old(self), physical_start, bytes),
                physical_page == physical_start - physical_start % 4096,
                fits ==> forall|k: int|
                    done <= k < pages ==> #[trigger] self.lookup((virtual_start + k * 4096) as u64)
                        is None,
            decreases pages - done,
        {
            let ghost previous = *self;
            proof {
                if fits {
                    assert(self.lookup((virtual_start + done * 4096) as u64) is None);
                    assert(virtual_address == (virtual_start + done * 4096) as u64);
                    assert(virtual_address % 4096 == 0);
                    assert(physical % 4096 == 0);
                }
            }
            match self.map_4k(virtual_address, physical, DEVICE_BITS) {
                Ok(()) => {},
                Err(e) => return Err(e),
            }
            proof {
                previous.lemma_filling_keeps_mappings(*self);
                assert forall|k: int|
                    #![trigger self.lookup((virtual_start + k * 4096) as u64)]
                    0 <= k < done + 1 implies self.lookup((virtual_start + k * 4096) as u64)
                    == Some(((physical_page + k * 4096) as u64) | DEVICE_BITS) by {
                    if k < done {
                        assert(previous.lookup((virtual_start + k * 4096) as u64) is Some);
                    }
                }
                if fits {
                    assert forall|k: int| done + 1 <= k < pages implies #[trigger] self.lookup(
                        (virtual_start + k * 4096) as u64,
                    ) is None by {
                        let other = (virtual_start + k * 4096) as u64;
                        lemma_distinct_pages(virtual_address, other, first_level(self.depth));
                        assert(previous.lookup(other) is None);
                    }
                }
            }
            physical = match physical.checked_add(PAGE_SIZE) {
                Some(next) => next,
                None => return Err(PagingError::AddressOverflow),
            };
            virtual_address = match virtual_address.checked_add(PAGE_SIZE) {
                Some(next) => next,
                None => return Err(PagingError::AddressOverflow),
            };
            done = done + 1;
        }
        let ghost mapped = *self;
        self.next_pci_bar = virtual_end;
        proof {
            assert forall|k: int|
                #![trigger self.lookup((virtual_start + k * 4096) as u64)]
                0 <= k < pages implies self.lookup((virtual_start + k * 4096) as u64) == Some(
                ((physical_page + k * 4096) as u64) | DEVICE_BITS,
            ) by {
                assert(mapped.lookup((virtual_start + k * 4096) as u64) == Some(
                    ((physical_page + k * 4096) as u64) | DEVICE_BITS,
                ));
                assert(self.entries_spec() == mapped.entries_spec());
            }
            assert(only_fills(mapped, *self));
            if fits {
                assert(pages >= 1);
            }
        }
        match virtual_start.checked_add(offset) {
            Some(address) => Ok(address),
            None => Err(PagingError::AddressOverflow),
        }
    }

    /// The tables' entries once table `t` has been placed at physical page `placement[t]`:
    /// each pointer entry gets the page address of the table it points to, and every other
    /// entry is kept. Placements must be page-aligned addresses below 2^52.
    pub fn table_images(&self, placement: &[u64]) -> (r: Result<Vec<u64>, PagingError>)
        requires
            self.wf(),
        ensures
            placement@.len() != self.levels_spec().len() ==> r == Err::<Vec<u64>, PagingError>(
                PagingError::AddressOverflow,
            ),
            r is Ok <==> (placement@.len() == self.levels_spec().len() && forall|k: int|
                0 <= k < placement@.len() ==> #[trigger] placement@[k] & !ADDRESS_MASK == 0),
            r matches Ok(images) ==> images@.len() == self.entries_spec().len() && forall|
                k: int,
            |
                0 <= k < images@.len() ==> #[trigger] images@[k] == placed_entry(
                    self.entries_spec()[k],
                    self.levels_spec()[k / 512] as int,
                    placement@,
                ),
    {
        let count = self.levels.len();
        if placement.len() != count {
            return Err(PagingError::AddressOverflow);
        }
        let mut k: usize = 0;
        while k < count
            invariant
                count == self.levels@.len(),
                placement@.len() == count,
                k <= count,
                forall|j: int| 0 <= j < k ==> #[trigger] placement@[j] & !ADDRESS_MASK == 0,
            decreases count - k,
        {
            if placement[k] & !ADDRESS_MASK != 0 {
                return Err(PagingError::AddressOverflow);
            }
            k = k + 1;
        }
        let mut images: Vec<u64> = Vec::new();
        let total = self.entries.len();
        let mut position: usize = 0;
        while position < total
            invariant
                self.wf(),
                count == self.levels@.len(),
                placement@.len() == count,
                total == self.entries@.len(),
                total == 512 * count,
                position <= total,
                images@.len() == position,
                forall|j: int|
                    0 <= j < position ==> #[trigger] images@[j] == placed_entry(
                        self.entries@[j],
                        self.levels@[j / 512] as int,
                        placement@,
                    ),
            decreases total - position,
        {
            let entry = self.entries[position];
            let table = position / ENTRIES;
            let level = self.levels[table];
            let value = if level < 4 && entry & PRESENT != 0 && entry & PAGE_SIZE_2M == 0 {
                proof {
                    let i = position - table * 512;
                    assert(position == slot(table as int, i));
                }
                let child = ((entry & ADDRESS_MASK) >> 12u64) as usize;
                placement[child] | (entry & !ADDRESS_MASK)
            } else {
                entry
            };
            images.push(value);
            position = position + 1;
        }
        Ok(images)
    }

    /// How many tables the hierarchy holds.
    pub fn table_count(&self) -> (r: usize)
        requires
            self.wf(),
        ensures
            r == self.levels_spec().len(),
    {
        self.levels.len()
    }
}

/// An executable 2 MiB page that maps `address` to itself.
pub open spec fn executable_identity_huge(entry: u64, address: u64) -> bool {
    &&& entry & (PRESENT | PAGE_SIZE_2M) == PRESENT | PAGE_SIZE_2M
    &&& entry & NO_EXECUTE == 0
    &&& entry & ADDRESS_MASK == address & !0x1f_ffffu64
}

/// `address` is not mapped, or mapped by an executable 4 KiB page to itself.
pub open spec fn unmapped_or_executable_identity_4k(mapping: Option<u64>, address: u64) -> bool {
    match mapping {
        None => true,
        Some(entry) => executable_identity_4k(entry, address),
    }
}

/// First page identity-mapped for an execution range at `physical_start`: the page holding
/// it, or the end of the 4 GiB bootstrap range if that is higher.
pub open spec fn execution_first(physical_start: u64) -> int {
    let page = physical_start - physical_start % 4096;
    if page > IDENTITY_BOOTSTRAP_END {
        page
    } else {
        IDENTITY_BOOTSTRAP_END as int
    }
}

/// End of an execution range rounded up to a page boundary.
pub open spec fn execution_end(physical_start: u64, bytes: u64) -> int {
    let end = physical_start + bytes;
    end + 4095 - (end + 4095) % 4096
}

/// The entry that maps page `p` of usable RAM `start .. end` in the direct map: the
/// 2 MiB page of its block when the whole aligned block lies in the range, else its own
/// 4 KiB page.
pub open spec fn usable_ram_entry(p: int, start: int, end: int) -> u64 {
    let block = p - p % 0x20_0000;
    if start <= block && block + 0x20_0000 <= end {
        (block as u64) | DATA_BITS | PAGE_SIZE_2M
    } else {
        (p as u64) | DATA_BITS
    }
}

/// The first `done` pages of usable RAM `start .. end` are in the direct map as
/// `usable_ram_entry` gives.
#[verifier::opaque]
pub open spec fn usable_mapped(tables: PageTables, start: u64, end: u64, done: int) -> bool {
    forall|k: int|
        #![trigger tables.lookup((PHYSICAL_MEMORY_OFFSET + start + k * 4096) as u64)]
        0 <= k < done && start + k * 4096 < end ==> tables.lookup(
            (PHYSICAL_MEMORY_OFFSET + start + k * 4096) as u64,
        ) == Some(usable_ram_entry(start + k * 4096, start as int, end as int))
}

/// The pages of usable RAM `start .. end` from page `done` on are unmapped, and none of its
/// 2 MiB blocks from there on has a page table.
#[verifier::opaque]
pub open spec fn usable_pending(tables: PageTables, start: u64, end: u64, done: int, first: int) -> bool {
    &&& forall|k: int|
        #![trigger tables.lookup((PHYSICAL_MEMORY_OFFSET + start + k * 4096) as u64)]
        done <= k && start + k * 4096 < end ==> tables.lookup(
            (PHYSICAL_MEMORY_OFFSET + start + k * 4096) as u64,
        ) is None
    &&& forall|k: int|
        #![trigger walk(tables.entries_spec(), (PHYSICAL_MEMORY_OFFSET + start + k * 4096) as u64, first, 4)]
        done <= k && start + k * 4096 + 0x20_0000 <= end && (start + k * 4096) % 0x20_0000 == 0
            ==> walk(
            tables.entries_spec(),
            (PHYSICAL_MEMORY_OFFSET + start + k * 4096) as u64,
            first,
            4,
        ) is None
}

/// After a 2 MiB block at page `done` of usable RAM is mapped, the block's pages are mapped
/// and the later pages and blocks are as they were.
proof fn lemma_usable_block(
    previous: PageTables,
    current: PageTables,
    start: u64,
    end: u64,
    done: int,
    first: int,
)
    requires
        done >= 0,
        start + done * 4096 + 0x20_0000 <= end,
        end - 1 <= MAX_DIRECT_MAPPED_PHYSICAL,
        (start + done * 4096) % 0x20_0000 == 0,
        0 <= first <= 1,
        forall|b: u64|
            agree(b, (PHYSICAL_MEMORY_OFFSET + start + done * 4096) as u64, first, 3)
                ==> #[trigger] current.lookup(b) == Some(
                ((start + done * 4096) as u64) | DATA_BITS | PAGE_SIZE_2M,
            ),
        forall|b: u64|
            #[trigger] current.lookup(b) == previous.lookup(b) || agree(
                b,
                (PHYSICAL_MEMORY_OFFSET + start + done * 4096) as u64,
                first,
                3,
            ),
        forall|b: u64|
            (#[trigger] walk(current.entries_spec(), b, first, 4)) is Some ==> walk(
                previous.entries_spec(),
                b,
                first,
                4,
            ) is Some,
        keeps_mappings(previous, current),
        usable_mapped(previous, start, end, done),
    ensures
        usable_mapped(current, start, end, done + 512),
        usable_pending(previous, start, end, done, first) ==> usable_pending(
            current,
            start,
            end,
            done + 512,
            first,
        ),
{
    reveal(usable_mapped);
    reveal(usable_pending);
    let va = (PHYSICAL_MEMORY_OFFSET + start + done * 4096) as u64;
    let block = start + done * 4096;
    assert forall|k: int|
        #![trigger current.lookup((PHYSICAL_MEMORY_OFFSET + start + k * 4096) as u64)]
        0 <= k < done + 512 && start + k * 4096 < end implies current.lookup(
            (PHYSICAL_MEMORY_OFFSET + start + k * 4096) as u64,
        ) == Some(usable_ram_entry(start + k * 4096, start as int, end as int)) by {
        let page = (PHYSICAL_MEMORY_OFFSET + start + k * 4096) as u64;
        if k < done {
            assert(previous.lookup(page) is Some);
        } else {
            lemma_same_block(va, page);
            lemma_block_of_page(block, k - done);
        }
    }
    if usable_pending(previous, start, end, done, first) {
        assert forall|k: int|
            #![trigger current.lookup((PHYSICAL_MEMORY_OFFSET + start + k * 4096) as u64)]
            done + 512 <= k && start + k * 4096 < end implies current.lookup(
                (PHYSICAL_MEMORY_OFFSET + start + k * 4096) as u64,
            ) is None by {
            let page = (PHYSICAL_MEMORY_OFFSET + start + k * 4096) as u64;
            lemma_distinct_blocks(va, page, first);
            assert(previous.lookup(page) is None);
        }
        assert forall|k: int|
            #![trigger walk(current.entries_spec(), (PHYSICAL_MEMORY_OFFSET + start + k * 4096) as u64, first, 4)]
            done + 512 <= k && start + k * 4096 + 0x20_0000 <= end && (start + k * 4096)
                % 0x20_0000 == 0 implies walk(
                current.entries_spec(),
                (PHYSICAL_MEMORY_OFFSET + start + k * 4096) as u64,
                first,
                4,
            ) is None by {
            let page = (PHYSICAL_MEMORY_OFFSET + start + k * 4096) as u64;
            assert(walk(previous.entries_spec(), page, first, 4) is None);
        }
    }
}

/// After the 4 KiB page `done` of usable RAM is mapped, outside any 2 MiB block wholly in
/// the range, that page is mapped and the later pages and blocks are as they were.
proof fn lemma_usable_page(
    previous: PageTables,
    current: PageTables,
    start: u64,
    end: u64,
    done: int,
    first: int,
)
    requires
        done >= 0,
        start + done * 4096 < end,
        end - 1 <= MAX_DIRECT_MAPPED_PHYSICAL,
        (start + done * 4096) % 4096 == 0,
        0 <= first <= 1,
        ({
            let p = start + done * 4096;
            !(start <= p - p % 0x20_0000 && p - p % 0x20_0000 + 0x20_0000 <= end)
        }),
        forall|b: u64|
            #[trigger] current.lookup(b) == if shares_entry(
                b,
                (PHYSICAL_MEMORY_OFFSET + start + done * 4096) as u64,
                first,
            ) {
                Some(((start + done * 4096) as u64) | DATA_BITS)
            } else {
                previous.lookup(b)
            },
        forall|b: u64|
            (#[trigger] walk(current.entries_spec(), b, first, 4)) is Some ==> walk(
                previous.entries_spec(),
                b,
                first,
                4,
            ) is Some || agree(b, (PHYSICAL_MEMORY_OFFSET + start + done * 4096) as u64, first, 3),
        keeps_mappings(previous, current),
        usable_mapped(previous, start, end, done),
    ensures
        usable_mapped(current, start, end, done + 1),
        usable_pending(previous, start, end, done, first) ==> usable_pending(
            current,
            start,
            end,
            done + 1,
            first,
        ),
{
    reveal(usable_mapped);
    reveal(usable_pending);
    let va = (PHYSICAL_MEMORY_OFFSET + start + done * 4096) as u64;
    assert(shares_entry(va, va, first));
    assert forall|k: int|
        #![trigger current.lookup((PHYSICAL_MEMORY_OFFSET + start + k * 4096) as u64)]
        0 <= k < done + 1 && start + k * 4096 < end implies current.lookup(
            (PHYSICAL_MEMORY_OFFSET + start + k * 4096) as u64,
        ) == Some(usable_ram_entry(start + k * 4096, start as int, end as int)) by {
        let page = (PHYSICAL_MEMORY_OFFSET + start + k * 4096) as u64;
        if k < done {
            assert(previous.lookup(page) is Some);
        }
    }
    if usable_pending(previous, start, end, done, first) {
        assert forall|k: int|
            #![trigger current.lookup((PHYSICAL_MEMORY_OFFSET + start + k * 4096) as u64)]
            done + 1 <= k && start + k * 4096 < end implies current.lookup(
                (PHYSICAL_MEMORY_OFFSET + start + k * 4096) as u64,
            ) is None by {
            let page = (PHYSICAL_MEMORY_OFFSET + start + k * 4096) as u64;
            lemma_distinct_pages(va, page, first);
            assert(previous.lookup(page) is None);
        }
        let block = (va - va % 0x20_0000) as u64;
        lemma_same_block(block, va);
        assert forall|k: int|
            #![trigger walk(current.entries_spec(), (PHYSICAL_MEMORY_OFFSET + start + k * 4096) as u64, first, 4)]
            done + 1 <= k && start + k * 4096 + 0x20_0000 <= end && (start + k * 4096)
                % 0x20_0000 == 0 implies walk(
                current.entries_spec(),
                (PHYSICAL_MEMORY_OFFSET + start + k * 4096) as u64,
                first,
                4,
            ) is None by {
            let page = (PHYSICAL_MEMORY_OFFSET + start + k * 4096) as u64;
            assert(walk(previous.entries_spec(), page, first, 4) is None);
            lemma_distinct_blocks(block, page, first);
            if agree(page, va, first, 3) {
                assert(agree(page, block, first, 3));
            }
        }
    }
}

/// Mapping usable RAM `start .. end` into the direct map cannot fail on `tables`: the range
/// is in order, page-aligned and within the direct map, the tables have room, no page of it
/// is mapped yet, and no 2 MiB block wholly inside it has a page table.
pub open spec fn usable_ram_ready(tables: PageTables, start: u64, end: u64) -> bool {
    &&& start <= end
    &&& end > 0 ==> end - 1 <= MAX_DIRECT_MAPPED_PHYSICAL
    &&& start % 4096 == 0
    &&& tables.levels_spec().len() + 4 * ((end - start) / 4096 + 1) <= MAX_TABLES
    &&& forall|k: int|
        0 <= k && start + k * 4096 < end ==> #[trigger] tables.lookup(
            (PHYSICAL_MEMORY_OFFSET + start + k * 4096) as u64,
        ) is None
    &&& forall|k: int|
        0 <= k && start + k * 4096 + 0x20_0000 <= end && (start + k * 4096) % 0x20_0000 == 0
            ==> #[trigger] walk(
            tables.entries_spec(),
            (PHYSICAL_MEMORY_OFFSET + start + k * 4096) as u64,
            first_level(tables.depth_spec()),
            4,
        ) is None
}

/// An executable 4 KiB page that maps `address` to itself.
pub open spec fn executable_identity_4k(entry: u64, address: u64) -> bool {
    &&& entry & (PRESENT | PAGE_SIZE_2M | NO_EXECUTE) == PRESENT
    &&& entry & ADDRESS_MASK == address
}

/// An entry of a table of `level` once tables are placed at `placement`.
pub open spec fn placed_entry(entry: u64, level: int, placement: Seq<u64>) -> u64 {
    if level < 4 && present(entry) && !huge(entry) {
        placement[child_of(entry)] | (entry & !ADDRESS_MASK)
    } else {
        entry
    }
}

/// First address identity-mapped for an allocation: allocations below 4 GiB are already
/// covered by the bootstrap identity map.
pub open spec fn identity_start(physical_start: u64) -> int {
    if physical_start > IDENTITY_BOOTSTRAP_END {
        physical_start as int
    } else {
        IDENTITY_BOOTSTRAP_END as int
    }
}

/// Entry bits for a kernel segment's pages: present, writable if the segment is, and
/// not executable unless it is.
pub open spec fn segment_bits_spec(flags: SegmentFlags) -> u64 {
    PRESENT | (if flags.bits_view() & 2 == 2 {
        WRITABLE
    } else {
        0
    }) | (if flags.bits_view() & 1 == 1 {
        0
    } else {
        NO_EXECUTE
    })
}

/// A kernel segment's page is mapped present; writable exactly when the segment has the ELF
/// write permission; executable (no `NO_EXECUTE`) exactly when it has the ELF execute
/// permission; and a page-aligned frame keeps its address, with no other bit set.
pub proof fn lemma_segment_permissions(flags: SegmentFlags, frame: u64)
    requires
        frame % 4096 == 0,
        frame < 0x10_0000_0000_0000,
    ensures
        ({
            let entry = frame | segment_bits_spec(flags);
            &&& entry & PRESENT != 0
            &&& (entry & WRITABLE != 0 <==> flags.bits_view() & ELF_PF_W == ELF_PF_W)
            &&& (entry & NO_EXECUTE == 0 <==> flags.bits_view() & ELF_PF_X == ELF_PF_X)
            &&& entry & ADDRESS_MASK == frame
            &&& entry & !(ADDRESS_MASK | PRESENT | WRITABLE | NO_EXECUTE) == 0
        }),
{
    assert(forall|f: u64, w: u64, x: u64|
        #![trigger f | (1u64 | w | x)]
        f % 4096 == 0 && f < 0x10_0000_0000_0000 && (w == 0 || w == 2) && (x == 0 || x
            == 0x8000_0000_0000_0000u64) ==> {
            let e = f | (1u64 | w | x);
            &&& e & 1 != 0
            &&& (e & 2 != 0 <==> w == 2)
            &&& (e & 0x8000_0000_0000_0000u64 == 0 <==> x == 0)
            &&& e & 0x000f_ffff_ffff_f000u64 == f
            &&& e & !(0x000f_ffff_ffff_f000u64 | 1u64 | 2u64 | 0x8000_0000_0000_0000u64) == 0
        }) by (bit_vector);
    let w: u64 = if flags.bits_view() & 2 == 2 { WRITABLE } else { 0 };
    let x: u64 = if flags.bits_view() & 1 == 1 { 0 } else { NO_EXECUTE };
    assert(segment_bits_spec(flags) == 1u64 | w | x);
}

/// Entry bits for a kernel segment with permissions `flags`.
pub fn segment_entry_bits(flags: SegmentFlags) -> (r: u64)
    ensures
        r == segment_bits_spec(flags),
        present(r),
{
    let mut bits = PRESENT;
    if flags.contains(SegmentFlags::write()) {
        bits = bits | WRITABLE;
    }
    if !flags.contains(SegmentFlags::execute()) {
        bits = bits | NO_EXECUTE;
    }
    assert(forall|w: u64, x: u64| (1u64 | w | x) & 1 != 0) by (bit_vector);
    assert(1u64 | 0u64 | 0u64 == 1u64) by (bit_vector);
    assert(forall|x: u64| 1u64 | 0u64 | x == 1u64 | x) by (bit_vector);
    assert(forall|w: u64| 1u64 | w | 0u64 == 1u64 | w) by (bit_vector);
    bits
}

/// Translation reaches a table at `level` only through tables above it.
proof fn lemma_walk_prefix(entries: Seq<u64>, address: u64, first: int, lower: int, level: int)
    requires
        first <= lower <= level,
        walk(entries, address, first, level) is Some,
    ensures
        walk(entries, address, first, lower) is Some,
    decreases level - lower,
{
    if lower < level {
        lemma_walk_prefix(entries, address, first, lower, level - 1);
    }
}

/// Translation depends on nothing but the indices of the levels it passes.
proof fn lemma_shared_walk(entries: Seq<u64>, a: u64, b: u64, first: int, level: int)
    requires
        forall|l: int| first <= l < level ==> index_at(a, l) == index_at(b, l),
    ensures
        walk(entries, a, first, level) == walk(entries, b, first, level),
    decreases level - first,
{
    if level > first {
        lemma_shared_walk(entries, a, b, first, level - 1);
    }
}

/// Addresses that agree on the indices from `level` down are mapped by the same entry.
proof fn lemma_shared_lookup_from(entries: Seq<u64>, a: u64, b: u64, level: int, t: int)
    requires
        forall|l: int| level <= l <= 4 ==> index_at(a, l) == index_at(b, l),
    ensures
        lookup_from(entries, a, level, t) == lookup_from(entries, b, level, t),
    decreases 5 - level,
{
    if 0 <= level <= 4 {
        let entry = entries[slot(t, index_at(a, level))];
        lemma_shared_lookup_from(entries, a, b, level + 1, child_of(entry));
    }
}

/// A mapping that is not a large page sits in a page table the translation reaches.
proof fn lemma_lookup_reaches_leaf_table(
    entries: Seq<u64>,
    address: u64,
    first: int,
    level: int,
    t: int,
)
    requires
        first <= level <= 4,
        walk(entries, address, first, level) == Some(t),
        lookup_from(entries, address, level, t) matches Some(e) && !huge(e),
    ensures
        walk(entries, address, first, 4) is Some,
    decreases 4 - level,
{
    if level < 4 {
        let entry = entries[slot(t, index_at(address, level))];
        lemma_lookup_reaches_leaf_table(entries, address, first, level + 1, child_of(entry));
    }
}

/// Translating `address` from root `first` meets a present large-page entry in the page
/// directory.
pub open spec fn huge_at_directory(entries: Seq<u64>, address: u64, first: int) -> bool {
    walk(entries, address, first, 3) matches Some(t) && present(
        entries[slot(t, index_at(address, 3))],
    ) && huge(entries[slot(t, index_at(address, 3))])
}

/// A large mapping found without reaching a page table is a page-directory entry.
proof fn lemma_lookup_huge_at_directory(
    entries: Seq<u64>,
    address: u64,
    first: int,
    level: int,
    t: int,
)
    requires
        first <= level <= 4,
        walk(entries, address, first, level) == Some(t),
        lookup_from(entries, address, level, t) matches Some(e) && huge(e),
        walk(entries, address, first, 4) is None,
    ensures
        huge_at_directory(entries, address, first),
    decreases 4 - level,
{
    if level < 4 {
        let entry = entries[slot(t, index_at(address, level))];
        if !(level == 3 && huge(entry)) {
            lemma_lookup_huge_at_directory(entries, address, first, level + 1, child_of(entry));
        }
    }
}

/// Pointing an absent entry at a new, empty table opens no path that was closed: a table
/// translation reaches is one it reached before, or the new table itself.
proof fn lemma_fresh_table_walk(
    before: PageTables,
    after: PageTables,
    tp: int,
    ip: int,
    address: u64,
    level: int,
)
    requires
        before.wf(),
        0 <= tp < before.levels@.len(),
        0 <= ip < 512,
        before.levels@[tp] < 4,
        !present(before.entries@[slot(tp, ip)]),
        after.entries@.len() == before.entries@.len() + 512,
        forall|k: int|
            0 <= k < before.entries@.len() && k != slot(tp, ip) ==> #[trigger] after.entries@[k]
                == before.entries@[k],
        forall|k: int|
            before.entries@.len() <= k < after.entries@.len() ==> #[trigger] after.entries@[k]
                == 0,
        present(after.entries@[slot(tp, ip)]),
        !huge(after.entries@[slot(tp, ip)]),
        child_of(after.entries@[slot(tp, ip)]) == before.levels@.len(),
        first_level(before.depth) <= level <= 4,
    ensures
        walk(after.entries@, address, first_level(before.depth), level) matches Some(t) ==> (walk(
            before.entries@,
            address,
            first_level(before.depth),
            level,
        ) == Some(t) || (t == before.levels@.len() && level == before.levels@[tp] + 1)),
    decreases level - first_level(before.depth),
{
    let first = first_level(before.depth);
    if level > first {
        lemma_fresh_table_walk(before, after, tp, ip, address, level - 1);
        lemma_index_bound(address, level - 1);
        let i = index_at(address, level - 1);
        match walk(after.entries@, address, first, level - 1) {
            Some(t) => {
                if walk(before.entries@, address, first, level - 1) == Some(t) {
                    before.lemma_walk_level(address, level - 1);
                    if slot(t, i) == slot(tp, ip) {
                        lemma_slot_unique(t, i, tp, ip);
                    } else {
                        assert(after.entries@[slot(t, i)] == before.entries@[slot(t, i)]);
                    }
                } else {
                    let c = before.levels@.len() as int;
                    assert(after.entries@[slot(c, i)] == 0);
                    lemma_zero_absent();
                }
            },
            None => {},
        }
    }
}

/// Pointing an absent entry of a table above the page tables at a new, empty table changes
/// no translation.
proof fn lemma_fresh_table_keeps_lookup_from(
    before: PageTables,
    after: PageTables,
    tp: int,
    ip: int,
    address: u64,
    level: int,
    t: int,
)
    requires
        before.wf(),
        0 <= tp < before.levels@.len(),
        0 <= ip < 512,
        before.levels@[tp] < 4,
        !present(before.entries@[slot(tp, ip)]),
        after.entries@.len() == before.entries@.len() + 512,
        forall|k: int|
            0 <= k < before.entries@.len() && k != slot(tp, ip) ==> #[trigger] after.entries@[k]
                == before.entries@[k],
        forall|k: int|
            before.entries@.len() <= k < after.entries@.len() ==> #[trigger] after.entries@[k]
                == 0,
        present(after.entries@[slot(tp, ip)]),
        !huge(after.entries@[slot(tp, ip)]),
        child_of(after.entries@[slot(tp, ip)]) == before.levels@.len(),
        0 <= t < before.levels@.len(),
        before.levels@[t] == level,
    ensures
        lookup_from(after.entries@, address, level, t) == lookup_from(
            before.entries@,
            address,
            level,
            t,
        ),
    decreases 5 - level,
{
    lemma_index_bound(address, level);
    lemma_index_bound(address, level + 1);
    let i = index_at(address, level);
    assert(before.levels@[t] <= 4);
    if slot(t, i) == slot(tp, ip) {
        lemma_slot_unique(t, i, tp, ip);
        let c = before.levels@.len() as int;
        assert(after.entries@[slot(c, index_at(address, level + 1))] == 0);
        lemma_zero_absent();
        assert(lookup_from(after.entries@, address, level + 1, c) == None::<u64>);
    } else {
        let entry = before.entries@[slot(t, i)];
        assert(after.entries@[slot(t, i)] == entry);
        if level < 4 && present(entry) && !huge(entry) {
            lemma_fresh_table_keeps_lookup_from(
                before,
                after,
                tp,
                ip,
                address,
                level + 1,
                child_of(entry),
            );
        }
    }
}

/// Writing the entry of the table of level `leaf` that translates `target` changes the
/// translation of no address that does not agree with `target` down to that level.
proof fn lemma_leaf_write_frame(
    before: PageTables,
    after: PageTables,
    target: u64,
    leaf: int,
    t: int,
    address: u64,
    level: int,
    ta: int,
)
    requires
        before.wf(),
        first_level(before.depth) <= leaf <= 4,
        walk(before.entries@, target, first_level(before.depth), leaf) == Some(t),
        after.entries@ == before.entries@.update(
            slot(t, index_at(target, leaf)),
            after.entries@[slot(t, index_at(target, leaf))],
        ),
        !agree(address, target, first_level(before.depth), leaf),
        first_level(before.depth) <= level <= 4,
        walk(before.entries@, address, first_level(before.depth), level) == Some(ta),
    ensures
        lookup_from(after.entries@, address, level, ta) == lookup_from(
            before.entries@,
            address,
            level,
            ta,
        ),
    decreases 5 - level,
{
    let first = first_level(before.depth);
    before.lemma_walk_level(address, level);
    before.lemma_walk_level(target, leaf);
    lemma_index_bound(address, level);
    lemma_index_bound(target, leaf);
    let i = index_at(address, level);
    if slot(ta, i) == slot(t, index_at(target, leaf)) {
        lemma_slot_unique(ta, i, t, index_at(target, leaf));
        before.lemma_walk_injective(target, address, leaf);
        assert(agree(address, target, first, leaf));
    } else {
        let entry = before.entries@[slot(ta, i)];
        assert(after.entries@[slot(ta, i)] == entry);
        if level < 4 && present(entry) && !huge(entry) {
            lemma_leaf_write_frame(
                before,
                after,
                target,
                leaf,
                t,
                address,
                level + 1,
                child_of(entry),
            );
        }
    }
}

/// Addresses in one aligned 2 MiB range pass through the same tables down to the page
/// table.
proof fn lemma_same_block(start: u64, address: u64)
    requires
        start % 0x20_0000 == 0,
        start <= address < start + 0x20_0000,
    ensures
        agree(address, start, 0, 3),
{
    assert((start % 0x20_0000 == 0 && start <= address && address - start < 0x20_0000) ==> ((
    address >> 48u64) & 0x1ff == (start >> 48u64) & 0x1ff && (address >> 39u64) & 0x1ff == (start
        >> 39u64) & 0x1ff && (address >> 30u64) & 0x1ff == (start >> 30u64) & 0x1ff && (address
        >> 21u64) & 0x1ff == (start >> 21u64) & 0x1ff)) by (bit_vector);
    assert forall|l: int| 0 <= l <= 3 implies index_at(address, l) == index_at(start, l) by {
        if l == 0 {
        } else if l == 1 {
        } else if l == 2 {
        } else {
        }
    }
}

/// An address at least 2 MiB above an aligned 2 MiB range, and less than 256 TiB, leaves
/// it through a different table entry above the page tables.
proof fn lemma_distinct_blocks(start: u64, address: u64, first: int)
    requires
        start % 0x20_0000 == 0,
        start + 0x20_0000 <= address,
        address - start < 0x1_0000_0000_0000,
        first <= 1,
    ensures
        !agree(address, start, first, 3),
{
    lemma_nine_bits();
    assert(((start >> 39u64) & 0x1ff == (address >> 39u64) & 0x1ff && (start >> 30u64) & 0x1ff
        == (address >> 30u64) & 0x1ff && (start >> 21u64) & 0x1ff == (address >> 21u64) & 0x1ff
        && start % 0x20_0000 == 0 && start < address && address - start
        < 0x1_0000_0000_0000) ==> address - start < 0x20_0000) by (bit_vector);
    if agree(address, start, first, 3) {
        assert(index_at(address, 1) == index_at(start, 1));
        assert(index_at(address, 2) == index_at(start, 2));
        assert(index_at(address, 3) == index_at(start, 3));
    }
}

/// A page of an aligned 2 MiB block lies `4096 * j` bytes into it.
proof fn lemma_block_of_page(block: int, j: int)
    by (nonlinear_arith)
    requires
        block >= 0,
        block % 0x20_0000 == 0,
        0 <= j < 512,
    ensures
        (block + j * 4096) % 0x20_0000 == j * 4096,
        (block + j * 4096) - (block + j * 4096) % 0x20_0000 == block,
{
}

/// The next page lies in the same 2 MiB block unless it starts a new one.
proof fn lemma_block_step(p: int)
    by (nonlinear_arith)
    requires
        p >= 0,
        p % 4096 == 0,
        (p + 4096) % 0x20_0000 != 0,
    ensures
        (p + 4096) - (p + 4096) % 0x20_0000 == p - p % 0x20_0000,
{
}

/// Different page-aligned addresses less than 256 TiB apart are mapped by different entries.
proof fn lemma_distinct_pages(a: u64, b: u64, first: int)
    requires
        a % 4096 == 0,
        b % 4096 == 0,
        a < b,
        b - a < 0x1_0000_0000_0000,
        first <= 1,
    ensures
        !shares_entry(a, b, first),
        !shares_entry(b, a, first),
{
    lemma_nine_bits();
    assert(((a >> 39u64) & 0x1ff == (b >> 39u64) & 0x1ff && (a >> 30u64) & 0x1ff == (b >> 30u64)
        & 0x1ff && (a >> 21u64) & 0x1ff == (b >> 21u64) & 0x1ff && (a >> 12u64) & 0x1ff == (b
        >> 12u64) & 0x1ff && a % 4096 == 0 && b % 4096 == 0 && a < b) ==> b - a
        >= 0x1_0000_0000_0000) by (bit_vector);
    if shares_entry(a, b, first) || shares_entry(b, a, first) {
        assert(index_at(a, 1) == index_at(b, 1));
        assert(index_at(a, 2) == index_at(b, 2));
        assert(index_at(a, 3) == index_at(b, 3));
        assert(index_at(a, 4) == index_at(b, 4));
    }
}

/// Entries of different tables, or at different indices, lie at different places.
proof fn lemma_slot_unique(t1: int, i1: int, t2: int, i2: int)
    requires
        0 <= i1 < 512,
        0 <= i2 < 512,
        slot(t1, i1) == slot(t2, i2),
    ensures
        t1 == t2,
        i1 == i2,
{
}

/// Nine bits taken from a word are below 512.
proof fn lemma_nine_bits()
    by (bit_vector)
    ensures
        forall|a: u64, s: u64| #[trigger] ((a >> s) & 0x1ff) <= 0x1ff,
{
}

/// The empty entry is absent.
proof fn lemma_zero_absent()
    by (bit_vector)
    ensures
        !present(0u64),
{
}

/// Clearing the low twelve bits rounds down to a page boundary.
proof fn lemma_page_floor()
    by (bit_vector)
    ensures
        forall|x: u64| #[trigger] (x & !4095u64) == (x - x % 4096) as u64,
{
}

/// A table index has nine bits.
proof fn lemma_index_bound(address: u64, level: int)
    ensures
        0 <= index_at(address, level) < 512,
{
    lemma_nine_bits();
}

/// The indices `page_indices` gives are those of each level.
proof fn lemma_indices(indices: Seq<usize>, address: u64)
    requires
        indices == seq![
            level_index(address, 48),
            level_index(address, 39),
            level_index(address, 30),
            level_index(address, 21),
            level_index(address, 12),
        ],
    ensures
        forall|l: int| 0 <= l < 5 ==> #[trigger] indices[l] == index_at(address, l),
        forall|l: int| 0 <= l < 5 ==> #[trigger] indices[l] < 512,
{
    lemma_nine_bits();
    assert forall|l: int| 0 <= l < 5 implies #[trigger] indices[l] == index_at(address, l) by {
        if l == 0 {
        } else if l == 1 {
        } else if l == 2 {
        } else if l == 3 {
        } else {
        }
    }
}

/// A large-page entry carries the present bit of its flags.
proof fn lemma_flags_present(address: u64, flags: u64)
    ensures
        present(flags) ==> present(address | flags | PAGE_SIZE_2M),
{
    assert(flags & 1 != 0 ==> (address | flags | 0x80) & 1 != 0) by (bit_vector);
}

/// The page-aligned start, page count and in-page offset of the window that covers the
/// `bytes` bytes at `physical_start`; refused when empty, when its end does not fit 64 bits
/// or lies beyond the direct map.
pub open spec fn bar_range_spec(physical_start: u64, bytes: u64) -> Result<
    (u64, u64, u64),
    PagingError,
> {
    let offset = physical_start % 4096;
    if bytes == 0 || physical_start + bytes > u64::MAX || physical_start + bytes - 1
        > MAX_DIRECT_MAPPED_PHYSICAL {
        Err(PagingError::AddressOverflow)
    } else {
        Ok(
            (
                (physical_start - offset) as u64,
                ((offset + bytes + 4095) / 4096) as u64,
                offset as u64,
            ),
        )
    }
}

/// Mapping a PCI BAR of `bytes` bytes at `physical_start` cannot fail on `tables`: the BAR
/// is in range, the next window is page-aligned, ends below 2^64 and spans less than 256 TiB,
/// the tables have room, and no page of the window is mapped yet.
pub open spec fn pci_bar_ready(tables: PageTables, physical_start: u64, bytes: u64) -> bool {
    bar_range_spec(physical_start, bytes) matches Ok((page_start, pages, offset)) && {
        let window = tables.next_pci_bar_spec();
        &&& window % 4096 == 0
        &&& window + pages * 4096 <= u64::MAX
        &&& pages * 4096 <= 0x1_0000_0000_0000
        &&& tables.levels_spec().len() + 4 * pages <= MAX_TABLES
        &&& forall|k: int|
            0 <= k < pages ==> #[trigger] tables.lookup((window + k * 4096) as u64) is None
    }
}

/// The window of whole pages that covers a PCI BAR.
pub fn bar_mapping_range(physical_start: u64, bytes: u64) -> (r: Result<
    (u64, u64, u64),
    PagingError,
>)
    ensures
        r == bar_range_spec(physical_start, bytes),
{
    if bytes == 0 {
        return Err(PagingError::AddressOverflow);
    }
    let offset = physical_start & (PAGE_SIZE - 1);
    assert(physical_start & 4095u64 == physical_start % 4096) by (bit_vector);
    let covered = match offset.checked_add(bytes) {
        Some(covered) => covered,
        None => return Err(PagingError::AddressOverflow),
    };
    let end = match physical_start.checked_add(bytes) {
        Some(end) => end,
        None => return Err(PagingError::AddressOverflow),
    };
    if end - 1 > MAX_DIRECT_MAPPED_PHYSICAL {
        return Err(PagingError::AddressOverflow);
    }
    let padded = match covered.checked_add(PAGE_SIZE - 1) {
        Some(padded) => padded,
        None => return Err(PagingError::AddressOverflow),
    };
    Ok((physical_start - offset, padded / PAGE_SIZE, offset))
}

} // verus!
