//! The tool bridge: turning per-connection discovery outcomes into the
//! aggregate tool listing.
//!
//! Discovery runs against each registered server's live connection; its
//! outcome for one server is either the fresh tool catalog or a failure.
//! A failing provider degrades to exactly one placeholder entry instead of
//! aborting the aggregation, so one broken server never hides the others.

use vstd::prelude::*;

use crate::mcp_models::{CallModel, McpServerInstance, McpToolCall, ServerModel};
use crate::mcp_json::clone_json;

verus! {

/// One capability as discovery reports it from a live connection.
pub struct DiscoveredTool {
    pub name: String,
    pub description: Option<String>,
    pub input_schema: serde_json::Value,
}

/// Spec-level mirror of one discovered capability.
pub struct ToolModel {
    pub name: Seq<char>,
    pub description: Option<Seq<char>>,
    pub input_schema: serde_json::Value,
}

impl View for DiscoveredTool {
    type V = ToolModel;

    open spec fn view(&self) -> ToolModel {
        ToolModel {
            name: self.name@,
            description: match self.description {
                Some(d) => Some(d@),
                None => None,
            },
            input_schema: self.input_schema,
        }
    }
}

/// What discovery against one server's connection came to.
pub enum DiscoveryOutcome {
    /// The connection answered with its current tool catalog.
    Found(Vec<DiscoveredTool>),
    /// Acquiring the connection or querying the catalog failed.
    Failed,
}

/// Spec-level mirror of one discovery outcome.
pub enum OutcomeModel {
    Found(Seq<ToolModel>),
    Failed,
}

impl View for DiscoveryOutcome {
    type V = OutcomeModel;

    open spec fn view(&self) -> OutcomeModel {
        match self {
            DiscoveryOutcome::Found(ts) => OutcomeModel::Found(
                ts@.map_values(|t: DiscoveredTool| t@),
            ),
            DiscoveryOutcome::Failed => OutcomeModel::Failed,
        }
    }
}

/// The listing entry for one discovered tool: the provider's id, the tool's
/// name and schema, a defaulted description, and an empty request-body
/// placeholder.
pub open spec fn spec_tool_call(
    server: ServerModel,
    t: ToolModel,
    empty_body: serde_json::Value,
) -> CallModel {
    CallModel {
        id: server.id,
        name: t.name,
        description: match t.description {
            Some(d) => d,
            None => Seq::empty(),
        },
        parameters: t.input_schema,
        required: Seq::empty(),
        request_body: empty_body,
    }
}

/// The single placeholder entry for a server whose discovery failed: a name
/// derived from the display name, an empty parameter schema, and an empty
/// request-body placeholder.
pub open spec fn spec_placeholder_call(
    server: ServerModel,
    schema: serde_json::Value,
    empty_body: serde_json::Value,
) -> CallModel {
    CallModel {
        id: server.id,
        name: server.name + "_tool"@,
        description: "Tool from MCP server: "@ + server.name,
        parameters: schema,
        required: Seq::empty(),
        request_body: empty_body,
    }
}

/// What one server contributes to the aggregate listing: its real tools on
/// success, exactly one placeholder on failure.
pub open spec fn spec_segment(
    server: ServerModel,
    outcome: OutcomeModel,
    schema: serde_json::Value,
    empty_body: serde_json::Value,
) -> Seq<CallModel> {
    match outcome {
        OutcomeModel::Found(ts) => Seq::new(ts.len(), |i: int| spec_tool_call(server, ts[i], empty_body)),
        OutcomeModel::Failed => seq![spec_placeholder_call(server, schema, empty_body)],
    }
}

/// The aggregate listing: each server's contribution, in server order.
pub open spec fn spec_aggregate(
    servers: Seq<ServerModel>,
    outcomes: Seq<OutcomeModel>,
    schema: serde_json::Value,
    empty_body: serde_json::Value,
) -> Seq<CallModel>
    decreases servers.len(),
{
    if servers.len() == 0 {
        Seq::empty()
    } else {
        spec_aggregate(servers.drop_last(), outcomes.drop_last(), schema, empty_body)
            + spec_segment(servers.last(), outcomes.last(), schema, empty_body)
    }
}

/// The listing entries as spec values.
pub open spec fn calls_view(s: Seq<McpToolCall>) -> Seq<CallModel> {
    s.map_values(|c: McpToolCall| c@)
}

/// Builds the aggregate tool listing from each server's discovery outcome.
/// `schema` is the empty parameter schema used for placeholders; `empty_body`
/// is the empty request-body placeholder every entry carries.
pub fn aggregate_tool_calls(
    servers: &Vec<McpServerInstance>,
    outcomes: &Vec<DiscoveryOutcome>,
    schema: &serde_json::Value,
    empty_body: &serde_json::Value,
) -> (r: Vec<McpToolCall>)
    requires
        servers@.len() == outcomes@.len(),
    ensures
        calls_view(r@) == spec_aggregate(
            servers@.map_values(|d: McpServerInstance| d@),
            outcomes@.map_values(|o: DiscoveryOutcome| o@),
            *schema,
            *empty_body,
        ),
{
    let ghost sview = servers@.map_values(|d: McpServerInstance| d@);
    let ghost oview = outcomes@.map_values(|o: DiscoveryOutcome| o@);
    let mut r: Vec<McpToolCall> = Vec::new();
    let mut i: usize = 0;
    while i < servers.len()
        invariant
            servers@.len() == outcomes@.len(),
            i <= servers@.len(),
            sview == servers@.map_values(|d: McpServerInstance| d@),
            oview == outcomes@.map_values(|o: DiscoveryOutcome| o@),
            calls_view(r@) == spec_aggregate(
                sview.take(i as int),
                oview.take(i as int),
                *schema,
                *empty_body,
            ),
        decreases servers@.len() - i,
    {
        let server = &servers[i];
        proof {
            assert(sview.take(i as int + 1).drop_last() =~= sview.take(i as int));
            assert(oview.take(i as int + 1).drop_last() =~= oview.take(i as int));
            assert(sview.take(i as int + 1).last() == server@);
            assert(oview.take(i as int + 1).last() == outcomes@[i as int]@);
        }
        let ghost base = calls_view(r@);
        let ghost seg = spec_segment(server@, outcomes@[i as int]@, *schema, *empty_body);
        match &outcomes[i] {
            DiscoveryOutcome::Found(ts) => {
                let mut k: usize = 0;
                while k < ts.len()
                    invariant
                        k <= ts@.len(),
                        seg == spec_segment(
                            server@,
                            OutcomeModel::Found(ts@.map_values(|t: DiscoveredTool| t@)),
                            *schema,
                            *empty_body,
                        ),
                        calls_view(r@) == base + seg.take(k as int),
                    decreases ts@.len() - k,
                {
                    let t = &ts[k];
                    let tc = McpToolCall {
                        id: server.id.clone(),
                        name: t.name.clone(),
                        description: match &t.description {
                            Some(d) => d.clone(),
                            None => String::new(),
                        },
                        parameters: clone_json(&t.input_schema),
                        required: Vec::new(),
                        request_body: clone_json(empty_body),
                    };
                    proof {
                        assert(tc@.required =~= Seq::<Seq<char>>::empty());
                        assert(tc@.description == spec_tool_call(server@, t@, *empty_body).description);
                        assert(tc@ == spec_tool_call(server@, t@, *empty_body));
                        assert(seg[k as int] == spec_tool_call(server@, t@, *empty_body));
                    }
                    let ghost rold = r@;
                    r.push(tc);
                    k = k + 1;
                    proof {
                        assert(r@ == rold.push(tc));
                        assert(calls_view(rold).len() == rold.len());
                        assert(calls_view(r@).len() == r@.len());
                        assert(rold.len() == base.len() + (k - 1));
                        assert forall|j: int|
                            0 <= j < r@.len() implies #[trigger] calls_view(r@)[j] == (base
                            + seg.take(k as int))[j] by {
                            assert(calls_view(r@)[j] == r@[j]@);
                            if j < rold.len() {
                                assert(r@[j] == rold[j]);
                                assert(calls_view(rold)[j] == rold[j]@);
                                assert(calls_view(rold)[j] == (base + seg.take(k as int - 1))[j]);
                                if j < base.len() {
                                    assert((base + seg.take(k as int - 1))[j] == base[j]);
                                    assert((base + seg.take(k as int))[j] == base[j]);
                                } else {
                                    assert((base + seg.take(k as int - 1))[j] == seg.take(
                                        k as int - 1,
                                    )[j - base.len()]);
                                    assert(seg.take(k as int - 1)[j - base.len()] == seg[j
                                        - base.len()]);
                                    assert((base + seg.take(k as int))[j] == seg.take(
                                        k as int,
                                    )[j - base.len()]);
                                }
                            } else {
                                assert(r@[j] == tc);
                                assert(j == base.len() + (k - 1));
                                assert((base + seg.take(k as int))[j] == seg.take(k as int)[k - 1]);
                            }
                        }
                        assert(calls_view(r@) =~= base + seg.take(k as int));
                    }
                }
                proof {
                    assert(seg.take(ts@.len() as int) =~= seg);
                }
            },
            DiscoveryOutcome::Failed => {
                let mut name = server.name.clone();
                name.append("_tool");
                let description = String::from_str("Tool from MCP server: ").concat(
                    server.name.as_str(),
                );
                let tc = McpToolCall {
                    id: server.id.clone(),
                    name,
                    description,
                    parameters: clone_json(schema),
                    required: Vec::new(),
                    request_body: clone_json(empty_body),
                };
                proof {
                    assert(tc@.required =~= Seq::<Seq<char>>::empty());
                    assert(tc@ =~= spec_placeholder_call(server@, *schema, *empty_body));
                }
                r.push(tc);
                proof {
                    assert(calls_view(r@) =~= base + seg);
                }
            },
        }
        i = i + 1;
        proof {
            assert(calls_view(r@) =~= spec_aggregate(
                sview.take(i as int),
                oview.take(i as int),
                *schema,
                *empty_body,
            ));
        }
    }
    proof {
        assert(sview.take(servers@.len() as int) =~= sview);
        assert(oview.take(outcomes@.len() as int) =~= oview);
    }
    r
}

} // verus!
