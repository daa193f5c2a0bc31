pub mod format;
pub mod warnings;
