pub mod error;
pub mod fs;
pub mod process;
pub mod syscall;

pub use error::Error;
