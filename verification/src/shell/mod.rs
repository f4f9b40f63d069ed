use vstd::prelude::*;

mod commands;
mod parser;

pub use commands::{
    Command, collect_arguments, command_result, join_arguments, joined, optional_argument,
    parse_command, require_argument_then_join, require_no_arguments, require_one_argument,
};
pub use parser::{
    MAX_INPUT_BYTES, ParseError, QuoteState, finish_token, finished, input_check, is_control,
    is_control_byte, is_printable, is_shell_space, is_whitespace, lex, push_byte, push_escaped,
    string_views, tokenize, tokenize_spec,
};

verus! {

/// Why a shell request failed.
#[derive(Clone, Copy, Debug, PartialEq, Eq)]
pub enum ShellError {
    Parse(ParseError),
    Vfs(crate::vfs::VfsError),
    Unavailable,
    Allocation,
}

} // verus!
