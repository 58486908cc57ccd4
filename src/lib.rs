//! Composition validator and constrained randomizer for character play sets.

/// Characters, their categories and identifiers.
pub mod character;
/// The rules that characters carry.
pub mod condition;
/// Fixed names, addresses and limits.
pub mod consts;
/// Catalogue data and scripts.
pub mod data;
/// Properties of the rule evaluator.
pub mod laws;
/// Randomized search for a valid play set.
pub mod search;
/// The selection tool's state and its operations.
pub mod state;
/// The rule evaluator.
pub mod validate;
