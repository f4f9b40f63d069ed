use relay::abi::FramebufferInfo as BootFramebufferInfo;
use relay::console::PixelFormat;
use relay::kernel::console::console_surface;
use relay::kernel::{BumpAllocator, ExceptionStub, HEAP_SIZE, IdtEntry, handler_for};

#[test]
fn bump_allocator_refuses_before_initialization() {
    let mut allocator = BumpAllocator::new();
    assert_eq!(allocator.allocate(16, 8), None);
}

#[test]
fn bump_allocator_aligns_and_advances_without_overlap() {
    let mut allocator = BumpAllocator::new();
    allocator.initialize(0x10_0000);

    assert_eq!(allocator.allocate(3, 1), Some(0x10_0000));
    assert_eq!(allocator.allocate(8, 16), Some(0x10_0010));
    assert_eq!(allocator.allocate(1, 4096), Some(0x10_1000));
    assert_eq!(allocator.allocate(0, 1), Some(0x10_1001));
}

#[test]
fn bump_allocator_refuses_a_block_past_the_heap_end() {
    let mut allocator = BumpAllocator::new();
    allocator.initialize(0x10_0000);

    assert_eq!(allocator.allocate(HEAP_SIZE + 1, 1), None);
    assert_eq!(allocator.allocate(HEAP_SIZE, 1), Some(0x10_0000));
    assert_eq!(allocator.allocate(1, 1), None);
}

#[test]
fn bump_allocator_refuses_alignment_overflow() {
    let mut allocator = BumpAllocator::new();
    allocator.initialize(usize::MAX - HEAP_SIZE);
    assert_eq!(allocator.allocate(1, 1 << (usize::BITS - 1)), None);
}

#[test]
fn interrupt_gate_splits_the_handler_address() {
    let entry = IdtEntry::handler(0x1234_5678_9abc_def0);
    assert_eq!(entry.offset_low, 0xdef0);
    assert_eq!(entry.offset_middle, 0x9abc);
    assert_eq!(entry.offset_high, 0x1234_5678);
    assert_eq!(entry.selector, 0x08);
    assert_eq!(entry.options, 0x8e00);
    assert_eq!(entry.reserved, 0);
    assert_eq!(IdtEntry::empty().options, 0);
}

#[test]
fn architectural_vectors_have_their_own_stubs() {
    for vector in 0..32u8 {
        assert_eq!(handler_for(vector).vector(), vector);
    }
    assert_eq!(handler_for(14), ExceptionStub::PageFault);
    assert!(handler_for(14).pushes_error_code());
    assert!(!handler_for(3).pushes_error_code());
    assert_eq!(handler_for(32), ExceptionStub::Unhandled);
    assert_eq!(handler_for(255).vector(), 255);
}

fn boot_framebuffer(pixel_format: u32) -> BootFramebufferInfo {
    BootFramebufferInfo {
        physical_base: 0x8000_0000,
        byte_len: 4 * 64 * 48,
        width: 48,
        height: 64,
        stride_pixels: 64,
        bytes_per_pixel: 4,
        pixel_format,
        red_mask: 0xff_0000,
        green_mask: 0xff00,
        blue_mask: 0xff,
        reserved_mask: 0,
    }
}

#[test]
fn console_surface_maps_the_handoff_pixel_format() {
    let surface = console_surface(&boot_framebuffer(1)).unwrap();
    assert_eq!(surface.byte_len, 4 * 64 * 48);
    assert_eq!(surface.info.pixel_format, PixelFormat::Bgr);
    assert_eq!(surface.info.stride_pixels, 64);
    assert_eq!(
        console_surface(&boot_framebuffer(2)).unwrap().info.pixel_format,
        PixelFormat::Bitmask
    );
    assert!(console_surface(&boot_framebuffer(3)).is_err());
}

#[test]
fn successive_bump_allocations_are_disjoint_and_ascending() {
    let mut allocator = BumpAllocator::new();
    allocator.initialize(0x10_0000);
    let first = allocator.allocate(24, 8).unwrap();
    let second = allocator.allocate(100, 64).unwrap();
    let third = allocator.allocate(1, 1).unwrap();
    assert_eq!(first, 0x10_0000);
    assert!(first + 24 <= second);
    assert_eq!(second % 64, 0);
    assert_eq!(third, second + 100);
}
