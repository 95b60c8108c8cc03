//! Scan a tree of Terraform configuration and report literal string values
//! that repeat across many addresses — a signal of copy-pasted values that
//! should be parameterized.
//!
//! - [`document`] models a parsed configuration file and holds the trusted
//!   boundary to the `hcl` parser.
//! - [`terraform`] classifies files against the remote-state root schema and
//!   extracts every (address, literal string) leaf pair of a document.
//! - [`walk`] models the scanned filesystem tree, discovers configuration
//!   files and roots, and runs the whole repetition scan.
//! - [`report`] builds the value-to-addresses index and its ranked,
//!   threshold-pruned report, and proves the report's ordering and pruning
//!   laws.
//! - [`policy`] is the data model of the JSON access-policy converter.

pub mod document;
pub mod policy;
pub mod report;
pub mod terraform;
pub mod walk;
