//! Value carriers for the scripting collaborator.
//!
//! The engine only emits opaque action names; a scripting environment
//! interprets them. These types name the shapes such an environment
//! exchanges. The environment itself lives outside the library.

use vstd::prelude::*;

verus! {

/// A list value handed to or received from the scripting collaborator.
pub struct ScriptList<T>(pub T);

/// A dictionary value handed to or received from the scripting collaborator.
pub struct ScriptDictionary<T>(pub T);

/// A callable value of the scripting collaborator.
pub struct ScriptFunction<T>(pub T);

/// An error reported by the scripting collaborator, carried as its message.
pub struct ScriptError(pub String);

/// A handle under which the scripting collaborator reaches an outbound
/// request facility.
pub struct Request;

} // verus!
