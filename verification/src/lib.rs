//! A watchdog for the resident memory of every process that carries a given
//! name.
//!
//! The crate holds the rules of the watchdog and nothing that touches the
//! operating system: how a memory limit expression becomes a byte threshold
//! ([`threshold`], with [`decimal`], [`percentage`] and [`byte_size`] beneath
//! it), which processes are over it and which of them are signalled a second
//! time ([`escalation`]), in which order a monitoring loop asks for samples,
//! signals, the grace sleep and the liveness ping ([`monitor`]), and how a
//! shutdown request reaches it ([`run_state`]). A driver performs the
//! requested actions and reports back what happened.

pub mod byte_size;
pub mod decimal;
pub mod error;
pub mod escalation;
pub mod monitor;
pub mod percentage;
pub mod run_state;
pub mod threshold;
