//! Parser for a plain-text outline of tasks: dash markers give the nesting
//! depth of each block, and each block holds an optional checkbox, a title
//! ended by `;;`, an optional `:date-time:` stamp and an optional body.

pub mod types;
pub mod text;
pub mod literals;
pub mod entry;
pub mod blocks;
