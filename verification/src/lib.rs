//! An in-memory virtual directory tree grown from a compact path shorthand.
//!
//! A shorthand token such as `foo/bar,baz` names one or more directories at
//! a single nesting depth under a shared parent path. Tokens are parsed by
//! `VfsParser::parse_item`, which inserts the named directories (and all
//! their ancestors) into a virtual tree, and the final tree is rendered as a
//! textual diagram.

pub mod grammar;
pub mod laws;
pub mod order;
pub mod parser;
pub mod render;
pub mod tree;

pub use parser::ParseError;
pub use parser::VfsParser;
pub use tree::DirectoryNode;
pub use tree::PathError;
pub use tree::VirtualTree;
