//! Dependency satisfiability checks over the package metadata of an
//! RPM-style repository.
//!
//! A [`catalog::Catalog`] holds the packages of one repository. A
//! [`index::CapabilityIndex`] maps each capability name to the packages that
//! provide it, and [`solve::check`] decides whether the requirements of a
//! named package can be met from the catalog without conflicts. Versions are
//! ordered as [`version::version_relation`] says; [`order`] and [`laws`] hold
//! what is proved of the ordering and of the check.

pub mod segment;
pub mod version;
pub mod order;
pub mod capability;
pub mod catalog;
pub mod index;
pub mod solve;
pub mod laws;
pub mod metadata;
pub mod repo;
pub mod report;
