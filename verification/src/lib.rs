//! Core platform logic of the Apollo agent runtime: scheduling, governance,
//! health intelligence, orchestration, routing and launch resolution.

pub mod text;
pub mod ids;
pub mod types;
pub mod calendar;
pub mod cron;
pub mod scheduler;
pub mod orchestration;
pub mod policy;
pub mod arch_selector;
pub mod health;
pub mod alerting;
pub mod fetch;
pub mod secrets;
pub mod messaging;
pub mod memory;
pub mod tracing;
pub mod model_router;
pub mod runtime_registry;
pub mod fleet;
pub mod display;
pub mod operator;
pub mod instances;
pub mod node_ops;
pub mod layout;
pub mod views;
