//! Tab-completion engine: command specs, completion candidates, the
//! interactive picker's state, and the shell-integration text.
pub mod command_spec;
pub mod complete;
pub mod installer;
pub mod shell;
pub mod text;
pub mod tui;

pub use command_spec::{
    Completion, CompletionKind, DirEntry, GeneratorKind, Lookups, Needs, Opt, Spec, Subcommand,
    Template,
};
pub use complete::{find_spec, generate_completions, is_spec_file};
