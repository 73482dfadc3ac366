//! Parsing and application of unified diffs and git patches.

pub mod bytes;
pub mod error;
pub mod kw;
pub mod outside;
pub mod binary;
pub mod paths;
pub mod model;
pub mod lexer;
pub mod parser;
pub mod matcher;
pub mod writer;
pub mod engine;
pub mod stream;
pub mod fsplan;
pub mod laws;

pub use binary::{apply_delta, decode_base85, new_base85_decoder, Base85Reader, InvalidBinaryLineError};
pub use bytes::{get_line, parse_int, strip_git_prefix};
pub use engine::{apply, patch_is_well_formed, try_apply, Applier};
pub use error::{Error, ErrorKind, IoKind};
pub use fsplan::{plan_file_change, plan_streamed_change, FileAction, FilePlan};
pub use lexer::{hunk_label, index_from_fields, ranges_from_fields, BinaryPaths, Lexer, LexerItem, LexerMode, TokenKind};
pub use matcher::Matcher;
pub use model::{BinaryFragment, BinaryKind, Hunk, Line, LineKind, Patch};
pub use parser::Parser;
pub use stream::{apply_streamed, try_stream};
