//! Verified core of the Cargo team's maintenance tools.
pub mod text;
pub mod changelog;
pub mod version;
pub mod calendar;
pub mod notes;
pub mod sorting;
pub mod tracker;
pub mod activity;
pub mod release;
