//! The messages passed between the window, the presenter and the server of
//! the program's author.
use vstd::prelude::*;

pub use crate::presenter::PresenterReady;
pub use crate::view::Progress;

use crate::text::string_from;

verus! {

/// What the program tells its author's server.
pub enum MessageToServer {
    /// A world was loaded from the game's server.
    LoadServer(String),
    /// The stored configuration that the program started with.
    StoredConfig(String),
}

/// What the presenter tells the window.
#[derive(Debug, Clone, Copy, PartialEq, Eq, Structural)]
pub enum MessageToView {
    GotServer,
}

impl MessageToView {
    /// The message as text (`Display`).
    pub fn to_string(self) -> (r: String)
        ensures
            r@ == "MessageToView::GotServer"@,
    {
        string_from("MessageToView::GotServer")
    }
}

} // verus!
