//! Encodes a tree of text files into one flat blob and applies such a blob
//! back onto a directory as writes and deletes.
pub mod apply;
pub mod cli;
pub mod codec;
pub mod paths;
pub mod text;

pub use apply::distribution_plan;
pub use cli::{AppCommand, Cli, Options};
pub use codec::{
    combine_file_contents, parse_combined_contents, FileAction, DELETED_FILE_IDENTIFIER,
    PATH_LINE_IDENTIFIER,
};
pub use paths::{is_valid_file, join_path, make_relative, select_files};
