//! A library for declaring a tree of commands, each with its own typed
//! options and positional arguments, and for resolving a raw argument
//! vector into a selected command plus strongly-typed values.

pub mod arg;
pub mod error;
pub mod group;
pub mod help;
pub mod laws;
pub mod option;
pub mod parser;
pub mod text;
pub mod value;

pub use arg::ArgType;
pub use error::ParserError;
pub use group::Consumer;
pub use group::Group;
pub use help::DefaultHelpPrinter;
pub use help::HelpEntry;
pub use help::HelpPrinter;
