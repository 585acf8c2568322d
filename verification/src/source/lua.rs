use vstd::prelude::*;
use vstd::string::*;

verus! {

/// A source whose entries a Lua function of the editor's plugin computes.
#[derive(Debug, Clone, PartialEq, Eq)]
pub struct LuaFn {
    pub name: String,
}

impl LuaFn {
    pub fn new(name: String) -> (f: LuaFn)
        ensures
            f.name == name,
    {
        LuaFn { name }
    }

    /// The Lua chunk that asks the plugin for this source's entries.
    pub fn lua_call(&self) -> (code: String)
        ensures
            code@ == "return require'rofl'.call_source('"@ + self.name@ + "')"@,
    {
        let mut code = String::from_str("return require'rofl'.call_source('");
        code.append(self.name.as_str());
        code.append("')");
        code
    }
}

} // verus!
