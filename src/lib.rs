pub mod task;
pub mod admission;
pub mod queue;
pub mod scheduler;
pub mod laws;
