//! A minimal buffered logger: entries are stamped with an approximate
//! calendar timestamp and accumulated in memory; when the buffer grows past a
//! size threshold, or when the logger is closed, the library hands the caller
//! a pending file write (path and content) to carry out.

pub mod logger;
pub mod timestamp;

pub use logger::FlushJob;
pub use logger::Logger;
pub use timestamp::LogTimeStamp;
pub use timestamp::get_current_time;
