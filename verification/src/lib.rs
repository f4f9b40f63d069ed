pub mod abi;
pub mod block;
pub mod console;
pub mod ext2;
pub mod fs;
pub mod gpt;
pub mod kernel;
pub mod le;
pub mod loader;
pub mod memory;
pub mod shell;
pub mod vfs;
mod text;
