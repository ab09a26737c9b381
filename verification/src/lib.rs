//! A verified parser for SGF-style game records: a sequence of parenthesized
//! game trees, each tree a run of semicolon-prefixed nodes, each node a set of
//! uppercase property identifiers mapped to one or more bracketed,
//! escape-aware string values.

pub mod board;
pub mod grammar;
pub mod parser;
pub mod tree;

pub use parser::parse_game_tree;
pub use parser::parse_identifier;
pub use parser::parse_node;
pub use parser::parse_property;
pub use parser::parse_sequence;
pub use parser::parse_sgf_string;
pub use parser::parse_value;
pub use tree::SGFNode;
pub use tree::SGFTree;
