pub mod config;
pub mod cpu;
pub mod elf;
pub mod error;
pub mod files;
pub mod handoff;
pub mod memory;
pub mod paging;
pub mod post_ebs;
pub mod transition;

pub use elf::{
    ELF_PF_R, ELF_PF_W, ELF_PF_X, LoadPlan, LoadSegment, SegmentFlags, parse_load_plan,
};
pub use cpu::{PagingDepth, page_indices, paging_depth_from_cr4};
pub use config::{LoaderConfig, parse_config};
pub use error::{ConfigError, ElfLoadError};
pub use transition::TransitionPage;
