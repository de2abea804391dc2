pub mod args;
pub mod entry;
pub mod laws;
pub mod numerals;
pub mod textops;
pub mod todo;

pub use args::help;
pub use args::split_args;
pub use entry::Entry;
pub use todo::Todo;
pub use todo::TodoError;
