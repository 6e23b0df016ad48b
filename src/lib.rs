pub mod errors;
pub mod log_record;
pub mod options;
pub mod index;
pub mod data_file;
pub mod db;
pub mod batch;
