use vstd::prelude::*;

verus! {

/// One 16-byte interrupt gate of the interrupt descriptor table.
#[derive(Clone, Copy, Debug, PartialEq, Eq, Structural)]
pub struct IdtEntry {
    pub offset_low: u16,
    pub selector: u16,
    pub options: u16,
    pub offset_middle: u16,
    pub offset_high: u32,
    pub reserved: u32,
}

/// Kernel code segment selector of the loader's descriptor table.
pub const KERNEL_CODE_SELECTOR: u16 = 0x08;

/// Present, ring-0, 64-bit interrupt gate.
pub const INTERRUPT_GATE_OPTIONS: u16 = 0x8e00;

impl IdtEntry {
    /// A gate that is not present.
    pub fn empty() -> (r: Self)
        ensures
            r == (IdtEntry {
                offset_low: 0,
                selector: 0,
                options: 0,
                offset_middle: 0,
                offset_high: 0,
                reserved: 0,
            }),
    {
        IdtEntry {
            offset_low: 0,
            selector: 0,
            options: 0,
            offset_middle: 0,
            offset_high: 0,
            reserved: 0,
        }
    }

    /// A present interrupt gate into kernel code at `address`, split into its three parts.
    pub fn handler(address: usize) -> (r: Self)
        ensures
            r.offset_low == address as int % 0x1_0000,
            r.offset_middle == (address as int / 0x1_0000) % 0x1_0000,
            r.offset_high == address as int / 0x1_0000_0000,
            r.selector == KERNEL_CODE_SELECTOR,
            r.options == INTERRUPT_GATE_OPTIONS,
            r.reserved == 0,
    {
        let address = address as u64;
        let r = IdtEntry {
            offset_low: (address & 0xffff) as u16,
            selector: KERNEL_CODE_SELECTOR,
            options: INTERRUPT_GATE_OPTIONS,
            offset_middle: ((address >> 16u64) & 0xffff) as u16,
            offset_high: (address >> 32u64) as u32,
            reserved: 0,
        };
        assert(address & 0xffff == address % 0x1_0000) by (bit_vector);
        assert((address >> 16u64) & 0xffff == (address / 0x1_0000) % 0x1_0000) by (bit_vector);
        assert(address >> 32u64 == address / 0x1_0000_0000) by (bit_vector);
        r
    }
}

/// The assembly entry stubs, one per architectural exception vector and one shared by all
/// other vectors.
#[derive(Clone, Copy, Debug, PartialEq, Eq, Structural)]
pub enum ExceptionStub {
    DivideError,
    Debug,
    Nmi,
    Breakpoint,
    Overflow,
    BoundRange,
    InvalidOpcode,
    DeviceNotAvailable,
    DoubleFault,
    CoprocessorSegmentOverrun,
    InvalidTss,
    SegmentNotPresent,
    StackSegmentFault,
    GeneralProtection,
    PageFault,
    Reserved15,
    X87FloatingPoint,
    AlignmentCheck,
    MachineCheck,
    SimdFloatingPoint,
    Virtualization,
    ControlProtection,
    Reserved22,
    Reserved23,
    Reserved24,
    Reserved25,
    Reserved26,
    Reserved27,
    HypervisorInjection,
    VmmCommunication,
    Security,
    Reserved31,
    Unhandled,
}

impl ExceptionStub {
    /// The vector number the stub reports.
    pub open spec fn vector_spec(self) -> u8 {
        match self {
            ExceptionStub::DivideError => 0,
            ExceptionStub::Debug => 1,
            ExceptionStub::Nmi => 2,
            ExceptionStub::Breakpoint => 3,
            ExceptionStub::Overflow => 4,
            ExceptionStub::BoundRange => 5,
            ExceptionStub::InvalidOpcode => 6,
            ExceptionStub::DeviceNotAvailable => 7,
            ExceptionStub::DoubleFault => 8,
            ExceptionStub::CoprocessorSegmentOverrun => 9,
            ExceptionStub::InvalidTss => 10,
            ExceptionStub::SegmentNotPresent => 11,
            ExceptionStub::StackSegmentFault => 12,
            ExceptionStub::GeneralProtection => 13,
            ExceptionStub::PageFault => 14,
            ExceptionStub::Reserved15 => 15,
            ExceptionStub::X87FloatingPoint => 16,
            ExceptionStub::AlignmentCheck => 17,
            ExceptionStub::MachineCheck => 18,
            ExceptionStub::SimdFloatingPoint => 19,
            ExceptionStub::Virtualization => 20,
            ExceptionStub::ControlProtection => 21,
            ExceptionStub::Reserved22 => 22,
            ExceptionStub::Reserved23 => 23,
            ExceptionStub::Reserved24 => 24,
            ExceptionStub::Reserved25 => 25,
            ExceptionStub::Reserved26 => 26,
            ExceptionStub::Reserved27 => 27,
            ExceptionStub::HypervisorInjection => 28,
            ExceptionStub::VmmCommunication => 29,
            ExceptionStub::Security => 30,
            ExceptionStub::Reserved31 => 31,
            ExceptionStub::Unhandled => 255,
        }
    }

    /// The vector number the stub reports to the diagnostic handler.
    #[verifier::when_used_as_spec(vector_spec)]
    pub fn vector(self) -> (r: u8)
        ensures
            r == self.vector_spec(),
    {
        match self {
            ExceptionStub::DivideError => 0,
            ExceptionStub::Debug => 1,
            ExceptionStub::Nmi => 2,
            ExceptionStub::Breakpoint => 3,
            ExceptionStub::Overflow => 4,
            ExceptionStub::BoundRange => 5,
            ExceptionStub::InvalidOpcode => 6,
            ExceptionStub::DeviceNotAvailable => 7,
            ExceptionStub::DoubleFault => 8,
            ExceptionStub::CoprocessorSegmentOverrun => 9,
            ExceptionStub::InvalidTss => 10,
            ExceptionStub::SegmentNotPresent => 11,
            ExceptionStub::StackSegmentFault => 12,
            ExceptionStub::GeneralProtection => 13,
            ExceptionStub::PageFault => 14,
            ExceptionStub::Reserved15 => 15,
            ExceptionStub::X87FloatingPoint => 16,
            ExceptionStub::AlignmentCheck => 17,
            ExceptionStub::MachineCheck => 18,
            ExceptionStub::SimdFloatingPoint => 19,
            ExceptionStub::Virtualization => 20,
            ExceptionStub::ControlProtection => 21,
            ExceptionStub::Reserved22 => 22,
            ExceptionStub::Reserved23 => 23,
            ExceptionStub::Reserved24 => 24,
            ExceptionStub::Reserved25 => 25,
            ExceptionStub::Reserved26 => 26,
            ExceptionStub::Reserved27 => 27,
            ExceptionStub::HypervisorInjection => 28,
            ExceptionStub::VmmCommunication => 29,
            ExceptionStub::Security => 30,
            ExceptionStub::Reserved31 => 31,
            ExceptionStub::Unhandled => 255,
        }
    }

    /// Whether the processor pushes an error code for this stub's exception.
    pub fn pushes_error_code(self) -> (r: bool)
        ensures
            r <==> (self.vector_spec() == 8 || (10 <= self.vector_spec() <= 14)
                || self.vector_spec() == 17 || self.vector_spec() == 21
                || self.vector_spec() == 29 || self.vector_spec() == 30),
    {
        match self {
            ExceptionStub::DoubleFault | ExceptionStub::InvalidTss
            | ExceptionStub::SegmentNotPresent | ExceptionStub::StackSegmentFault
            | ExceptionStub::GeneralProtection | ExceptionStub::PageFault
            | ExceptionStub::AlignmentCheck | ExceptionStub::ControlProtection
            | ExceptionStub::VmmCommunication | ExceptionStub::Security => true,
            _ => false,
        }
    }
}

/// The entry stub that serves interrupt `vector`: each architectural exception vector
/// (below 32) has its own stub, reporting its own number; every other vector goes to the
/// shared stub, which reports 255.
pub fn handler_for(vector: u8) -> (r: ExceptionStub)
    ensures
        vector < 32 ==> r.vector_spec() == vector,
        vector >= 32 ==> r == ExceptionStub::Unhandled,
{
    match vector {
        0 => ExceptionStub::DivideError,
        1 => ExceptionStub::Debug,
        2 => ExceptionStub::Nmi,
        3 => ExceptionStub::Breakpoint,
        4 => ExceptionStub::Overflow,
        5 => ExceptionStub::BoundRange,
        6 => ExceptionStub::InvalidOpcode,
        7 => ExceptionStub::DeviceNotAvailable,
        8 => ExceptionStub::DoubleFault,
        9 => ExceptionStub::CoprocessorSegmentOverrun,
        10 => ExceptionStub::InvalidTss,
        11 => ExceptionStub::SegmentNotPresent,
        12 => ExceptionStub::StackSegmentFault,
        13 => ExceptionStub::GeneralProtection,
        14 => ExceptionStub::PageFault,
        15 => ExceptionStub::Reserved15,
        16 => ExceptionStub::X87FloatingPoint,
        17 => ExceptionStub::AlignmentCheck,
        18 => ExceptionStub::MachineCheck,
        19 => ExceptionStub::SimdFloatingPoint,
        20 => ExceptionStub::Virtualization,
        21 => ExceptionStub::ControlProtection,
        22 => ExceptionStub::Reserved22,
        23 => ExceptionStub::Reserved23,
        24 => ExceptionStub::Reserved24,
        25 => ExceptionStub::Reserved25,
        26 => ExceptionStub::Reserved26,
        27 => ExceptionStub::Reserved27,
        28 => ExceptionStub::HypervisorInjection,
        29 => ExceptionStub::VmmCommunication,
        30 => ExceptionStub::Security,
        31 => ExceptionStub::Reserved31,
        _ => ExceptionStub::Unhandled,
    }
}

} // verus!
