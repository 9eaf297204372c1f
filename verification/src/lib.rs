pub mod cfg;
pub mod heap;
pub mod mir;
pub mod report;
pub mod samples;
pub mod summary;
pub mod sym;
pub mod text;
pub mod walk;
