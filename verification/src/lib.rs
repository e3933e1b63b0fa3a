pub mod text;
pub mod number;
pub mod counts;
pub mod json;
pub mod messages;
pub mod manager;
pub mod job_manager;
pub mod worker;
pub mod slave;
pub mod ip_finder;
pub mod mapreduce;
pub mod singlenode;
pub mod pipeline;
