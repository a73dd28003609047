pub mod threads;

pub use threads::{Job, Threads, Worker, WorkerState};
