//! Absorb a git submodule into its parent repository's history.
//!
//! The engine works on an in-memory model of a git object store: commits,
//! trees and blobs held as plain values with dense integer identifiers,
//! appended in dependency order so that every reference points backwards.
//! Every rewriting step — enumerating histories parents-first, relocating
//! the submodule history under its target directory, editing `.gitmodules`,
//! auditing gitlinks, splicing subtrees into parent commits and retargeting
//! branch tips — is verified against that model. The front end around the
//! library reads a repository into the model, runs the engine, and writes
//! the rewritten objects back.
//!
//! - [`store`]: the object model and its well-formedness invariant.
//! - [`walk`]: the revision walker.
//! - [`maps`]: the rewrite map and the user-supplied gitlink mappings.
//! - [`gitmodules`]: removing a stanza from `.gitmodules` content.
//! - [`tree_edit`]: path lookup, relocation and subtree splicing.
//! - [`rewrite`]: the submodule and parent history rewrites, the
//!   dangling-reference audit and branch retargeting.
//! - [`engine`]: the orchestrator, exit statuses, and the laws that hold of
//!   a finished run.
//! - [`hex`]: textual object identifiers.

#![verifier::loop_isolation(false)]

use vstd::prelude::*;

pub mod engine;
pub mod gitmodules;
pub mod hex;
pub mod maps;
pub mod rewrite;
pub mod store;
pub mod tree_edit;
pub mod walk;

verus! {

} // verus!
