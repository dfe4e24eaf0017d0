//! Infinite Worlds: the decision logic of a planet generator.
//!
//! Everything that decides rather than measures lives here: which cells belong
//! to which plate, where water goes, which step runs next, what a stored file
//! must look like. Quantities measured in floating point enter as integers that
//! order them or as their bit patterns.

pub mod graph;
pub mod sort;
pub mod heap;
pub mod flood;
pub mod plate;
pub mod contact;
pub mod topology;
pub mod renumber;
pub mod rift;
pub mod boundary;
pub mod drift;
pub mod process;
pub mod claims;
pub mod advect;
pub mod fields;
pub mod partition;
pub mod hydro;
pub mod surface;
pub mod river;
pub mod phase;
pub mod sim;
pub mod chronicle;
pub mod worker;
pub mod order;
pub mod bytes;
pub mod store;
pub mod view;
pub mod half;
pub mod geometry;
pub mod test_util;
pub mod uploads;
pub mod device;
pub mod frame;
pub mod keys;
pub mod retess;
pub mod shell;
pub mod closed;
pub mod genesis;
pub mod stream;
pub mod text;
pub mod narrator;
