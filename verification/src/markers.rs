//! Marker types for the embedding application's interface layer.
//!
//! The game that consumes this index tags a few of its interface entities
//! with these zero-sized types. They carry no data and no behaviour; they
//! live in this crate so that the application layers share one home for
//! their common vocabulary.

use vstd::prelude::*;

verus! {

/// Tags the end-of-round message shown when a session is over.
#[derive(Debug, Copy, Clone, Ord, PartialOrd, Eq, PartialEq, Hash)]
pub struct EndMessage;

/// Tags the root element of the main menu.
pub struct MenuUIRoot;

/// What a main-menu button does when activated.
pub enum MenuButtonAction {
    StartGame,
    Quit,
}

} // verus!
