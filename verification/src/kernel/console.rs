use vstd::prelude::*;

use crate::abi::FramebufferInfo as BootFramebufferInfo;
use crate::console::{FramebufferInfo, PixelFormat};

verus! {

/// Hand-off code of an RGB framebuffer.
pub const BOOT_PIXEL_RGB: u32 = 0;

/// Hand-off code of a BGR framebuffer.
pub const BOOT_PIXEL_BGR: u32 = 1;

/// Hand-off code of a framebuffer described by channel masks.
pub const BOOT_PIXEL_BITMASK: u32 = 2;

/// The console geometry of the framebuffer the loader handed over.
pub struct ConsoleSurface {
    pub byte_len: usize,
    pub info: FramebufferInfo,
}

pub open spec fn pixel_format_of(code: u32) -> Option<PixelFormat> {
    if code == BOOT_PIXEL_RGB {
        Some(PixelFormat::Rgb)
    } else if code == BOOT_PIXEL_BGR {
        Some(PixelFormat::Bgr)
    } else if code == BOOT_PIXEL_BITMASK {
        Some(PixelFormat::Bitmask)
    } else {
        None
    }
}

/// Reads the hand-off framebuffer description as console geometry; refused when its byte
/// length does not fit a `usize` or its pixel format code is unknown.
pub fn console_surface(boot: &BootFramebufferInfo) -> (r: Result<ConsoleSurface, ()>)
    ensures
        r is Ok <==> (boot.byte_len <= usize::MAX && pixel_format_of(boot.pixel_format) is Some),
        r matches Ok(surface) ==> {
            &&& surface.byte_len == boot.byte_len
            &&& surface.info == (FramebufferInfo {
                width: boot.width,
                height: boot.height,
                stride_pixels: boot.stride_pixels,
                bytes_per_pixel: boot.bytes_per_pixel,
                pixel_format: pixel_format_of(boot.pixel_format)->Some_0,
                red_mask: boot.red_mask,
                green_mask: boot.green_mask,
                blue_mask: boot.blue_mask,
                reserved_mask: boot.reserved_mask,
            })
        },
{
    if boot.byte_len > usize::MAX as u64 {
        return Err(());
    }
    let byte_len = boot.byte_len as usize;
    let pixel_format = if boot.pixel_format == BOOT_PIXEL_RGB {
        PixelFormat::Rgb
    } else if boot.pixel_format == BOOT_PIXEL_BGR {
        PixelFormat::Bgr
    } else if boot.pixel_format == BOOT_PIXEL_BITMASK {
        PixelFormat::Bitmask
    } else {
        return Err(());
    };
    Ok(
        ConsoleSurface {
            byte_len,
            info: FramebufferInfo {
                width: boot.width,
                height: boot.height,
                stride_pixels: boot.stride_pixels,
                bytes_per_pixel: boot.bytes_per_pixel,
                pixel_format,
                red_mask: boot.red_mask,
                green_mask: boot.green_mask,
                blue_mask: boot.blue_mask,
                reserved_mask: boot.reserved_mask,
            },
        },
    )
}

} // verus!
