//! Audit resolution for the dependencies of a Cargo workspace.

pub mod audit_graph;
pub mod chains;
pub mod complaints;
pub mod conclusions;
pub mod conflicts;
pub mod criteria;
pub mod delta;
pub mod demands;
pub mod dev_features;
pub mod directed;
pub mod edges;
pub mod entries;
pub mod exempting;
pub mod healing;
pub mod hints;
pub mod implications;
pub mod json;
pub mod keeping;
pub mod keys;
pub mod listings;
pub mod meanings;
pub mod order;
pub mod package_graph;
pub mod packages;
pub mod plans;
pub mod policy;
pub mod preserve;
pub mod print;
pub mod records;
pub mod remedies;
pub mod reports;
pub mod required;
pub mod requirements;
pub mod resolve;
pub mod retain;
pub mod search;
pub mod searches;
pub mod sorted_map;
pub mod success;
pub mod suggest;
pub mod text;
pub mod update;
pub mod version;
pub mod visits;

