//! KernelWhisper core: the verified logic behind the telemetry pipeline.

pub mod text;
pub mod stacks;
pub mod flame;
pub mod types;
pub mod profiler;
pub mod engine;
pub mod rules;
pub mod storage;
pub mod tracer;
pub mod dashboard;
pub mod playbook;
pub mod counts;
