//! Completion logic of a Neovim completion engine: entries and their fuzzy
//! scores, the menu of entries shown to the user, the completor's state, the
//! sources that produce entries and the notifications the editor sends.

pub mod completor;
pub mod entry;
pub mod handle;
mod keys;
pub mod matcher;
mod order;
pub mod ranking;
pub mod score;
pub mod source;
pub mod text;

pub use completor::Completor;
pub use entry::{CompleteItem, Entry};
pub use score::Score;
pub use source::{Counter, LuaFn, LuaRequest};
