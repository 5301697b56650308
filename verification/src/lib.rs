//! A verified core for an agent plane: the journal, its leases and its seal
//! log, the case layer, inbound events, batches, standing authority, governed
//! memory, and the sweep that keeps all of them moving.

pub mod admissions;
pub mod authority;
pub mod batches;
pub mod batches_laws;
pub mod cases;
pub mod cases_answers;
pub mod cases_laws;
pub mod delivery_laws;
pub mod domain;
pub mod error;
pub mod events;
pub mod events_laws;
pub mod journal;
pub mod journal_answers;
pub mod journal_laws;
pub mod memory;
pub mod memory_laws;
pub mod postgres;
pub mod postgres_authority;
pub mod postgres_batches;
pub mod postgres_cases;
pub mod postgres_cases_laws;
pub mod postgres_events;
pub mod postgres_events_laws;
pub mod postgres_journal;
pub mod postgres_memory;
pub mod postgres_memory_laws;
pub mod push;
pub mod quota;
pub mod registry;
pub mod row;
pub mod store;
pub mod sweeper;
pub mod sweeper_answers;
pub mod sweeper_laws;
pub mod table;
pub mod tasks;
pub mod tasks_laws;
pub mod telemetry;
pub mod text;
pub mod timers;

