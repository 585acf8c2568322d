use vstd::prelude::*;
use vstd::string::*;

verus! {

/// What a notification from the editor asks for.
#[derive(Debug, Clone, Copy, PartialEq, Eq, Structural)]
pub enum Notification {
    /// Show the completion menu.
    Complete,
    /// The user typed a character.
    VChar,
    /// The user left insert mode.
    InsertLeave,
    /// The buffer-words source should read the buffer again.
    UpdateBufferWords,
    /// Register a Lua source.
    AddLuaSource,
    /// A notification this engine does not handle.
    Ignored,
}

/// Which notification the name `name` denotes.
pub fn route(name: &str) -> (n: Notification)
    ensures
        match n {
            Notification::Complete => name@ == "complete"@,
            Notification::VChar => name@ == "v_char"@,
            Notification::InsertLeave => name@ == "insert_leave"@,
            Notification::UpdateBufferWords => name@ == "update_buffer_words"@,
            Notification::AddLuaSource => name@ == "add_lua_source"@,
            Notification::Ignored => {
                &&& name@ != "complete"@
                &&& name@ != "v_char"@
                &&& name@ != "insert_leave"@
                &&& name@ != "update_buffer_words"@
                &&& name@ != "add_lua_source"@
            },
        },
{
    let name = name.to_owned();
    if name == String::from_str("complete") {
        Notification::Complete
    } else if name == String::from_str("v_char") {
        Notification::VChar
    } else if name == String::from_str("insert_leave") {
        Notification::InsertLeave
    } else if name == String::from_str("update_buffer_words") {
        Notification::UpdateBufferWords
    } else if name == String::from_str("add_lua_source") {
        Notification::AddLuaSource
    } else {
        Notification::Ignored
    }
}

/// Why the text of a typed-character notification is refused.
#[derive(Debug, Clone, Copy, PartialEq, Eq, Structural)]
pub enum VCharError {
    /// The text holds no character.
    Empty,
    /// The text holds more than one character.
    NotOneChar,
}

/// The one character that a typed-character notification carries.
pub fn parse_v_char(text: &str) -> (r: Result<char, VCharError>)
    ensures
        match r {
            Ok(c) => text@.len() == 1 && c == text@[0],
            Err(VCharError::Empty) => text@.len() == 0,
            Err(VCharError::NotOneChar) => text@.len() > 1,
        },
{
    let n = text.unicode_len();
    if n == 0 {
        Err(VCharError::Empty)
    } else if n == 1 {
        Ok(text.get_char(0))
    } else {
        Err(VCharError::NotOneChar)
    }
}

} // verus!
