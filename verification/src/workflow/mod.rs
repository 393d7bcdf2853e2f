pub mod workflow;
