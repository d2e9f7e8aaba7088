//! The catalog entries as they come from the external catalog documents:
//! events, game values and actions, each carrying identifiers drawn from the
//! closed sets generated at build time.  These describe the catalogs
//! themselves; only the identifiers inside them reach the encoded stream.

use vstd::prelude::*;

use crate::module::{ActionId, ActionObject, ActionType, ArgType, EventId, GameValueId, ValueType};

verus! {

/// One event catalog entry.
#[derive(Clone, Copy, Debug, PartialEq, Eq, Structural)]
pub struct Event {
    pub id: EventId,
    pub cancellable: bool,
}

/// One game-value catalog entry: its identifier and its value-kind tag.
#[derive(Clone, Copy, Debug, PartialEq, Eq, Structural)]
pub struct GameValue {
    pub id: GameValueId,
    pub value_type: ValueType,
}

/// One action catalog entry: its identifier, its type and object-kind tags,
/// and the kinds of the arguments it declares.
#[derive(Debug)]
pub struct Action {
    pub id: ActionId,
    pub action_type: ActionType,
    pub object: ActionObject,
    pub args: Vec<Arg>,
}

/// One declared action argument.  Every declared kind is accepted alike, so
/// one alternative covers them all.
#[derive(Clone, Copy, Debug, PartialEq, Eq, Structural)]
pub enum Arg {
    Any,
}

} // verus!
