use vstd::prelude::*;
use vstd::string::*;

verus! {

/// A source whose entries a Lua expression of the editor's plugin evaluates
/// to.
#[derive(Debug, Clone, PartialEq, Eq)]
pub struct LuaRequest {
    pub name: String,
}

impl LuaRequest {
    pub fn new(name: String) -> (r: LuaRequest)
        ensures
            r.name == name,
    {
        LuaRequest { name }
    }

    /// The Lua expression whose value is this source's entries.
    pub fn lua_expr(&self) -> (expr: String)
        ensures
            expr@ == "require'rofl'.call_source('"@ + self.name@ + "')"@,
    {
        let mut expr = String::from_str("require'rofl'.call_source('");
        expr.append(self.name.as_str());
        expr.append("')");
        expr
    }
}

} // verus!
