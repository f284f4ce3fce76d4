//! A matcher for hierarchical names such as DNS domains.
//!
//! A pattern is a sequence of segments divided by a separator. A segment is a
//! literal label or one of four wildcards:
//!
//! | token | takes                |
//! |-------|----------------------|
//! | `*`   | zero or one label    |
//! | `+`   | exactly one label    |
//! | `**`  | zero or more labels  |
//! | `**+` | one or more labels   |
//!
//! [`DomainPattern::parse`] compiles a pattern into steps, folding adjacent
//! wildcards, and [`DomainPattern::matches`] decides whether a name is matched
//! by simulating all live positions in the step sequence at once.

pub mod buffers;
pub mod compile;
pub mod engine;
pub mod error;
pub mod folding;
pub mod pattern;
pub mod semantics;
pub mod step;
pub mod text;

pub use error::InvalidToken;
pub use pattern::DomainPattern;
pub use step::{DomainPatternPart, DomainPatternWildcard, Step};
