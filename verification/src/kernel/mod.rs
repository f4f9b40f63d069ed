pub mod allocator;
pub mod console;
pub mod exceptions;

pub use allocator::{BumpAllocator, HEAP_SIZE};
pub use exceptions::{ExceptionStub, IdtEntry, handler_for};
