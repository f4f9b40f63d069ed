use vstd::prelude::*;

verus! {

/// How many levels of page tables translate addresses.
#[derive(Clone, Copy, Debug, PartialEq, Eq, Structural)]
pub enum PagingDepth {
    FourLevel,
    FiveLevel,
}

/// Whether `address` is canonical under `depth`: its top bits copy the highest
/// translated bit (bit 47 with four levels, bit 56 with five).
pub open spec fn canonical(address: u64, depth: PagingDepth) -> bool {
    match depth {
        PagingDepth::FourLevel => address < 0x0000_8000_0000_0000 || address
            >= 0xffff_8000_0000_0000,
        PagingDepth::FiveLevel => address < 0x0100_0000_0000_0000 || address
            >= 0xff00_0000_0000_0000,
    }
}

/// Whether `address` is canonical under `depth`.
pub fn is_canonical(address: u64, depth: PagingDepth) -> (r: bool)
    ensures
        r == canonical(address, depth),
{
    match depth {
        PagingDepth::FourLevel => {
            let low = address & (1u64 << 47u64) == 0;
            assert(low == (address < 0x0000_8000_0000_0000 || (0x0001_0000_0000_0000 <= address
                && address % 0x0001_0000_0000_0000 < 0x0000_8000_0000_0000))) by (bit_vector)
                requires
                    low == (address & (1u64 << 47u64) == 0),
            ;
            if low {
                let r = address >> 48u64 == 0;
                assert(r == (address < 0x0001_0000_0000_0000)) by (bit_vector)
                    requires
                        r == (address >> 48u64 == 0),
                ;
                r
            } else {
                let r = address >> 48u64 == 0xffff;
                assert(r == (address >= 0xffff_0000_0000_0000)) by (bit_vector)
                    requires
                        r == (address >> 48u64 == 0xffff),
                ;
                assert(address & (1u64 << 47u64) != 0 ==> (address >= 0xffff_0000_0000_0000
                    <==> address >= 0xffff_8000_0000_0000)) by (bit_vector);
                assert(address & (1u64 << 47u64) != 0 ==> address >= 0x0000_8000_0000_0000)
                    by (bit_vector);
                r
            }
        },
        PagingDepth::FiveLevel => {
            let low = address & (1u64 << 56u64) == 0;
            if low {
                let r = address >> 57u64 == 0;
                assert(r == (address < 0x0200_0000_0000_0000)) by (bit_vector)
                    requires
                        r == (address >> 57u64 == 0),
                ;
                assert(address & (1u64 << 56u64) == 0 ==> (address < 0x0200_0000_0000_0000
                    <==> address < 0x0100_0000_0000_0000)) by (bit_vector);
                assert(address & (1u64 << 56u64) == 0 ==> address < 0xff00_0000_0000_0000
                    || address < 0x0100_0000_0000_0000 || address >= 0x0200_0000_0000_0000)
                    by (bit_vector);
                assert(address & (1u64 << 56u64) == 0 ==> !(address >= 0xff00_0000_0000_0000))
                    by (bit_vector);
                r
            } else {
                let r = address >> 57u64 == 0x7f;
                assert(r == (address >= 0xfe00_0000_0000_0000)) by (bit_vector)
                    requires
                        r == (address >> 57u64 == 0x7f),
                ;
                assert(address & (1u64 << 56u64) != 0 ==> (address >= 0xfe00_0000_0000_0000
                    <==> address >= 0xff00_0000_0000_0000)) by (bit_vector);
                assert(address & (1u64 << 56u64) != 0 ==> address >= 0x0100_0000_0000_0000)
                    by (bit_vector);
                r
            }
        },
    }
}

/// The paging depth selected by the LA57 bit (bit 12) of CR4.
pub fn paging_depth_from_cr4(cr4: u64) -> (r: PagingDepth)
    ensures
        r == (if cr4 & 0x1000 == 0 {
            PagingDepth::FourLevel
        } else {
            PagingDepth::FiveLevel
        }),
{
    if cr4 & (1u64 << 12u64) == 0 {
        assert(1u64 << 12u64 == 0x1000) by (bit_vector);
        PagingDepth::FourLevel
    } else {
        assert(1u64 << 12u64 == 0x1000) by (bit_vector);
        PagingDepth::FiveLevel
    }
}

/// The 9-bit table index that `address` selects at the level whose pages are
/// `2^shift` bytes.
pub open spec fn level_index(address: u64, shift: u64) -> usize {
    ((address >> shift) & 0x1ff) as usize
}

/// The table indices of `address`, from the fifth level down to the page table. With four
/// levels the first index is unused.
pub fn page_indices(address: u64, depth: PagingDepth) -> (r: [usize; 5])
    ensures
        r@ == seq![
            level_index(address, 48),
            level_index(address, 39),
            level_index(address, 30),
            level_index(address, 21),
            level_index(address, 12),
        ],
        forall|k: int| 0 <= k < 5 ==> #[trigger] r@[k] < 512,
{
    let i0 = ((address >> 48u64) & 0x1ff) as usize;
    let i1 = ((address >> 39u64) & 0x1ff) as usize;
    let i2 = ((address >> 30u64) & 0x1ff) as usize;
    let i3 = ((address >> 21u64) & 0x1ff) as usize;
    let i4 = ((address >> 12u64) & 0x1ff) as usize;
    assert(forall|a: u64, s: u64| (a >> s) & 0x1ff <= 0x1ff) by (bit_vector);
    let r = [i0, i1, i2, i3, i4];
    assert(r@ =~= seq![i0, i1, i2, i3, i4]);
    r
}

} // verus!
