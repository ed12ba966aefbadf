//! Data model of the service manager: descriptors, requests and responses.

use vstd::prelude::*;

verus! {

/// Echo request of the health-check operation.
pub struct PingRequest {
    pub value: Option<String>,
}

/// Echo response of the health-check operation.
pub struct PingResponse {
    pub value: Option<String>,
}

/// A caller-supplied launch specification for one external tool provider.
pub struct MCPItem {
    pub id: String,
    pub name: String,
    pub command: String,
    pub args: Vec<String>,
    pub env: Vec<(String, String)>,
}

/// A stored launch specification, as the registry keeps it.
pub struct McpServerInstance {
    pub id: String,
    pub name: String,
    pub command: String,
    pub args: Vec<String>,
    pub env: Vec<(String, String)>,
}

/// Spec-level mirror of one launch specification.
pub struct ServerModel {
    pub id: Seq<char>,
    pub name: Seq<char>,
    pub command: Seq<char>,
    pub args: Seq<Seq<char>>,
    pub env: Seq<(Seq<char>, Seq<char>)>,
}

impl View for MCPItem {
    type V = ServerModel;

    open spec fn view(&self) -> ServerModel {
        ServerModel {
            id: self.id@,
            name: self.name@,
            command: self.command@,
            args: self.args.deep_view(),
            env: Seq::new(self.env@.len(), |i: int| (self.env@[i].0@, self.env@[i].1@)),
        }
    }
}

impl View for McpServerInstance {
    type V = ServerModel;

    open spec fn view(&self) -> ServerModel {
        ServerModel {
            id: self.id@,
            name: self.name@,
            command: self.command@,
            args: self.args.deep_view(),
            env: Seq::new(self.env@.len(), |i: int| (self.env@[i].0@, self.env@[i].1@)),
        }
    }
}

impl Clone for McpServerInstance {
    fn clone(&self) -> (r: Self)
        ensures
            r@ == self@,
    {
        let r = McpServerInstance {
            id: self.id.clone(),
            name: self.name.clone(),
            command: self.command.clone(),
            args: clone_string_vec(&self.args),
            env: clone_string_pairs(&self.env),
        };
        assert(r@.args =~= self@.args);
        assert(r@.env =~= self@.env);
        r
    }
}

/// Duplicates a vector of strings, keeping every element's characters.
pub fn clone_string_vec(v: &Vec<String>) -> (r: Vec<String>)
    ensures
        r@.len() == v@.len(),
        forall|i: int| 0 <= i < v@.len() ==> r@[i]@ == v@[i]@,
        r.deep_view() == v.deep_view(),
{
    let mut r: Vec<String> = Vec::new();
    let mut i: usize = 0;
    while i < v.len()
        invariant
            i <= v.len(),
            r@.len() == i,
            forall|j: int| 0 <= j < i ==> r@[j]@ == v@[j]@,
        decreases v.len() - i,
    {
        r.push(v[i].clone());
        i = i + 1;
    }
    assert(r.deep_view() =~= v.deep_view());
    r
}

/// Duplicates a vector of string pairs, keeping every pair's characters.
pub fn clone_string_pairs(v: &Vec<(String, String)>) -> (r: Vec<(String, String)>)
    ensures
        r@.len() == v@.len(),
        forall|i: int|
            0 <= i < v@.len() ==> r@[i].0@ == v@[i].0@ && r@[i].1@ == v@[i].1@,
{
    let mut r: Vec<(String, String)> = Vec::new();
    let mut i: usize = 0;
    while i < v.len()
        invariant
            i <= v.len(),
            r@.len() == i,
            forall|j: int| 0 <= j < i ==> r@[j].0@ == v@[j].0@ && r@[j].1@ == v@[j].1@,
        decreases v.len() - i,
    {
        let p = &v[i];
        r.push((p.0.clone(), p.1.clone()));
        i = i + 1;
    }
    r
}

/// A discovered capability of a live connection, as one aggregate listing
/// reports it.
pub struct McpToolCall {
    pub id: String,
    pub name: String,
    pub description: String,
    pub parameters: serde_json::Value,
    pub required: Vec<String>,
    pub request_body: serde_json::Value,
}

/// Spec-level mirror of one reported capability.
pub struct CallModel {
    pub id: Seq<char>,
    pub name: Seq<char>,
    pub description: Seq<char>,
    pub parameters: serde_json::Value,
    pub required: Seq<Seq<char>>,
    pub request_body: serde_json::Value,
}

impl View for McpToolCall {
    type V = CallModel;

    open spec fn view(&self) -> CallModel {
        CallModel {
            id: self.id@,
            name: self.name@,
            description: self.description@,
            parameters: self.parameters,
            required: self.required.deep_view(),
            request_body: self.request_body,
        }
    }
}

/// A caller's request to invoke a tool: the provider id and the request
/// envelope ({name, arguments}).
pub struct ExecuteToolCallRequest {
    pub id: String,
    pub input: serde_json::Value,
}

/// The structured value a successful tool invocation returned.
pub struct ExecuteToolCallResponse {
    pub result: serde_json::Value,
}

impl McpServerInstance {
    /// The stored form of a caller-supplied launch specification: the same
    /// id, display name, command, arguments and environment.
    pub fn from_item(item: &MCPItem) -> (r: McpServerInstance)
        ensures
            r@ == item@,
    {
        let r = McpServerInstance {
            id: item.id.clone(),
            name: item.name.clone(),
            command: item.command.clone(),
            args: clone_string_vec(&item.args),
            env: clone_string_pairs(&item.env),
        };
        assert(r@.args =~= item@.args);
        assert(r@.env =~= item@.env);
        r
    }
}

} // verus!
