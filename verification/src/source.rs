//! The sources that produce completion entries.

pub mod counter;
pub mod lua;
pub mod lua_request;

pub use counter::Counter;
pub use lua::LuaFn;
pub use lua_request::LuaRequest;
