//! An embeddable, single-process document/entity store with transactional
//! mutation, linear undo/redo, and live composition of documents inside one
//! another.  A document is a tree of named entities; every mutation is
//! recorded in a pending transaction, applied by deterministic replay, and
//! archived in a per-document history that drives undo and redo.
//!
//! The executable engine lives in [`entity`], [`property`] and
//! [`transaction`].  Its behaviour is specified by the pure replay
//! interpreter in [`model`], which every apply, undo and switch operation
//! is proved to implement; [`laws`] proves the engine's global properties
//! over that interpreter: committed history is never rewritten, sibling
//! names stay unique, undo followed by redo restores the content, and
//! reapplying a pending update is idempotent.

#![verifier::loop_isolation(false)]

pub mod property;
pub mod transaction;
pub mod entity;
pub mod model;
pub mod laws;
