//! Command-line flag binding: typed slots registered under flag names,
//! filled from a sequence of argument tokens, plus a line cutter that
//! consumes the parsed configuration.
pub mod arg_list;
pub mod cli;
pub mod cut;
pub mod flags;
pub mod laws;
pub mod number;
pub mod scan;
pub mod value;

pub use arg_list::ArgList;
pub use cut::{Cutter, Mode};
pub use flags::{FlagError, FlagSet};
pub use value::Value;
