pub mod behavior_wander;
pub mod job_scoring;
