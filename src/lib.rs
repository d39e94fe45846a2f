//! Reconciles DNS host overrides and firewall port-forward rules with the labels of
//! running containers.
//!
//! - `labels` groups `port_forward.<rule>.<property>` labels into rules;
//! - `firewall` builds rule requests with the system-set properties in place;
//! - `reconcile` derives the desired state of a container and decides, item by item,
//!   which creates are due, and states the laws of a reconciliation cycle;
//! - `tracker` holds the identity keys already applied;
//! - `scheduler` decides the steps of the poll loop.
pub mod pairs;
pub mod labels;
pub mod tracker;
pub mod firewall;
pub mod reconcile;
pub mod scheduler;
