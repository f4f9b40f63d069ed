pub mod framebuffer;

use vstd::prelude::*;

pub use framebuffer::{
    Console, Framebuffer, FramebufferConsole, FramebufferError, FramebufferInfo, PixelFormat,
    SliceFramebuffer,
};

verus! {

/// A sink for console text.
pub trait TextOutput: Sized {
    /// The output is in a state to accept text.
    spec fn ready(&self) -> bool;

    /// `self` is what `before` becomes once it has been handed `bytes`.
    spec fn wrote(&self, before: Self, bytes: &[u8]) -> bool;

    fn write_bytes(&mut self, bytes: &[u8])
        requires
            old(self).ready(),
        ensures
            final(self).ready(),
            final(self).wrote(*old(self), bytes),
    ;
}

/// Two outputs that receive the same text.
pub struct Mirror<A, B> {
    pub primary: A,
    pub diagnostic: B,
}

impl<A: TextOutput, B: TextOutput> TextOutput for Mirror<A, B> {
    open spec fn ready(&self) -> bool {
        self.primary.ready() && self.diagnostic.ready()
    }

    open spec fn wrote(&self, before: Self, bytes: &[u8]) -> bool {
        self.primary.wrote(before.primary, bytes) && self.diagnostic.wrote(
            before.diagnostic,
            bytes,
        )
    }

    /// Hands the same bytes to the primary output and then to the diagnostic one.
    fn write_bytes(&mut self, bytes: &[u8]) {
        self.primary.write_bytes(bytes);
        self.diagnostic.write_bytes(bytes);
    }
}

} // verus!
