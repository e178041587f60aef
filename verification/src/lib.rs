pub mod loaddata;
pub mod script;
pub mod sync;
pub mod words;
