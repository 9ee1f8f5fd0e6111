//! Model Context Protocol values that Cortex offers.

use vstd::prelude::*;

use crate::text::texts;

verus! {

/// A resource a client can read.
pub struct MCPResource {
    pub uri: String,
    pub name: String,
    pub mime_type: String,
}

/// A call of a tool by a client.
pub struct MCPToolCall {
    pub name: String,
    pub arguments: serde_json::Value,
}

/// A piece of text in a tool's answer.
pub struct MCPTextContent {
    pub content_type: String,
    pub text: String,
}

/// A tool's answer.
pub struct MCPToolResult {
    pub content: Vec<MCPTextContent>,
    pub is_error: Option<bool>,
}

/// A resource as text: uri, name and MIME type.
pub open spec fn resource_view(r: MCPResource) -> (Seq<char>, Seq<char>, Seq<char>) {
    (r.uri@, r.name@, r.mime_type@)
}

/// The resources Cortex offers: the memory store, the project list and the
/// system health, all as JSON.
pub open spec fn cortex_resources() -> Seq<(Seq<char>, Seq<char>, Seq<char>)> {
    seq![
        ("cortex://memory"@, "Memory Store"@, "application/json"@),
        ("cortex://projects"@, "Projects List"@, "application/json"@),
        ("cortex://health"@, "System Health"@, "application/json"@),
    ]
}

/// The resources Cortex offers (see `cortex_resources`).
pub fn get_cortex_resources() -> (r: Vec<MCPResource>)
    ensures
        r@.map_values(|x: MCPResource| resource_view(x)) == cortex_resources(),
{
    let mut r: Vec<MCPResource> = Vec::new();
    r.push(
        MCPResource {
            uri: "cortex://memory".to_owned(),
            name: "Memory Store".to_owned(),
            mime_type: "application/json".to_owned(),
        },
    );
    r.push(
        MCPResource {
            uri: "cortex://projects".to_owned(),
            name: "Projects List".to_owned(),
            mime_type: "application/json".to_owned(),
        },
    );
    r.push(
        MCPResource {
            uri: "cortex://health".to_owned(),
            name: "System Health".to_owned(),
            mime_type: "application/json".to_owned(),
        },
    );
    assert(r@.map_values(|x: MCPResource| resource_view(x)) =~= cortex_resources());
    r
}


// ---------------------------------------------------------------------------
// Tools
// ---------------------------------------------------------------------------

/// One input property of a tool: its name, JSON type, description and
/// default value, if any.
pub struct ToolProperty {
    pub name: String,
    pub kind: String,
    pub description: String,
    pub default: Option<u64>,
}

/// The input schema of a tool (an object): its properties, and the names
/// that must be given, when the schema lists them.
pub struct ToolSchema {
    pub properties: Vec<ToolProperty>,
    pub required: Option<Vec<String>>,
}

/// A tool a client can call: its name, description and input schema.
pub struct McpToolSpec {
    pub name: String,
    pub description: String,
    pub input_schema: ToolSchema,
}

/// A property as text: name, type, description, default.
pub type PropertyView = (Seq<char>, Seq<char>, Seq<char>, Option<u64>);

/// A schema as text: properties and required names.
pub type SchemaView = (Seq<PropertyView>, Option<Seq<Seq<char>>>);

/// A tool as text: name, description, schema.
pub type ToolView = (Seq<char>, Seq<char>, SchemaView);

impl View for ToolProperty {
    type V = PropertyView;

    open spec fn view(&self) -> PropertyView {
        (self.name@, self.kind@, self.description@, self.default)
    }
}

impl View for ToolSchema {
    type V = SchemaView;

    open spec fn view(&self) -> SchemaView {
        (
            self.properties@.map_values(|p: ToolProperty| p@),
            match self.required {
                Some(r) => Some(texts(r@)),
                None => None,
            },
        )
    }
}

impl View for McpToolSpec {
    type V = ToolView;

    open spec fn view(&self) -> ToolView {
        (self.name@, self.description@, self.input_schema@)
    }
}

/// A property of JSON type `string` with no default.
pub open spec fn text_prop(name: Seq<char>, description: Seq<char>) -> PropertyView {
    (name, "string"@, description, None)
}

/// The tools Cortex offers.
pub open spec fn cortex_tools_spec() -> Seq<ToolView> {
    seq![
        (
            "create_memory"@,
            "Create a new memory document in Cortex"@,
            (
                seq![
                    text_prop("path"@, "Path/identifier for the memory"@),
                    text_prop("content"@, "Content of the memory"@),
                    ("metadata"@, "object"@, "Optional metadata"@, None),
                ],
                Some(seq!["path"@, "content"@]),
            ),
        ),
        (
            "search_memory"@,
            "Search memory documents in Cortex"@,
            (
                seq![
                    text_prop("query"@, "Search query"@),
                    ("limit"@, "number"@, "Maximum results"@, Some(10u64)),
                ],
                Some(seq!["query"@]),
            ),
        ),
        (
            "get_memory"@,
            "Get a specific memory by ID"@,
            (seq![text_prop("id"@, "Memory ID"@)], Some(seq!["id"@])),
        ),
        ("list_projects"@, "List all projects in Cortex"@, (Seq::empty(), None)),
        (
            "get_project_context"@,
            "Get full context for a project"@,
            (seq![text_prop("project_id"@, "Project identifier"@)], Some(seq!["project_id"@])),
        ),
        (
            "sync_gitcore"@,
            "Sync documentation from GitCore project"@,
            (
                seq![text_prop("project_path"@, "Path to GitCore project"@)],
                Some(seq!["project_path"@]),
            ),
        ),
    ]
}

fn property(name: &str, kind: &str, description: &str, default: Option<u64>) -> (p: ToolProperty)
    ensures
        p@ == (name@, kind@, description@, default),
{
    ToolProperty {
        name: name.to_owned(),
        kind: kind.to_owned(),
        description: description.to_owned(),
        default,
    }
}

fn names(a: &str, b: Option<&str>) -> (r: Vec<String>)
    ensures
        texts(r@) == match b {
            Some(b) => seq![a@, b@],
            None => seq![a@],
        },
{
    let mut r: Vec<String> = Vec::new();
    r.push(a.to_owned());
    match b {
        Some(b) => {
            r.push(b.to_owned());
            assert(texts(r@) =~= seq![a@, b@]);
        },
        None => {
            assert(texts(r@) =~= seq![a@]);
        },
    }
    r
}

fn tool(name: &str, description: &str, properties: Vec<ToolProperty>, required: Option<Vec<String>>) -> (t:
    McpToolSpec)
    ensures
        t@ == (
            name@,
            description@,
            (
                properties@.map_values(|p: ToolProperty| p@),
                match required {
                    Some(r) => Some(texts(r@)),
                    None => None,
                },
            ),
        ),
{
    McpToolSpec {
        name: name.to_owned(),
        description: description.to_owned(),
        input_schema: ToolSchema { properties, required },
    }
}

/// A tool with one `string` property, which is required.
fn single_text_tool(name: &str, description: &str, prop: &str, prop_description: &str) -> (t: McpToolSpec)
    ensures
        t@ == (name@, description@, (seq![text_prop(prop@, prop_description@)], Some(seq![prop@]))),
{
    let mut props: Vec<ToolProperty> = Vec::new();
    props.push(property(prop, "string", prop_description, None));
    assert(props@.map_values(|p: ToolProperty| p@) =~= seq![text_prop(prop@, prop_description@)]);
    tool(name, description, props, Some(names(prop, None)))
}

/// The tools Cortex offers (see `cortex_tools_spec`).
pub fn get_cortex_tools() -> (t: Vec<McpToolSpec>)
    ensures
        t@.map_values(|x: McpToolSpec| x@) == cortex_tools_spec(),
{
    let mut t: Vec<McpToolSpec> = Vec::new();

    let mut create: Vec<ToolProperty> = Vec::new();
    create.push(property("path", "string", "Path/identifier for the memory", None));
    create.push(property("content", "string", "Content of the memory", None));
    create.push(property("metadata", "object", "Optional metadata", None));
    assert(create@.map_values(|p: ToolProperty| p@) =~= cortex_tools_spec()[0].2.0);
    t.push(
        tool(
            "create_memory",
            "Create a new memory document in Cortex",
            create,
            Some(names("path", Some("content"))),
        ),
    );

    let mut search: Vec<ToolProperty> = Vec::new();
    search.push(property("query", "string", "Search query", None));
    search.push(property("limit", "number", "Maximum results", Some(10)));
    assert(search@.map_values(|p: ToolProperty| p@) =~= cortex_tools_spec()[1].2.0);
    t.push(
        tool(
            "search_memory",
            "Search memory documents in Cortex",
            search,
            Some(names("query", None)),
        ),
    );

    t.push(single_text_tool("get_memory", "Get a specific memory by ID", "id", "Memory ID"));

    let empty: Vec<ToolProperty> = Vec::new();
    assert(empty@.map_values(|p: ToolProperty| p@) =~= Seq::<PropertyView>::empty());
    t.push(tool("list_projects", "List all projects in Cortex", empty, None));

    t.push(
        single_text_tool(
            "get_project_context",
            "Get full context for a project",
            "project_id",
            "Project identifier",
        ),
    );
    t.push(
        single_text_tool(
            "sync_gitcore",
            "Sync documentation from GitCore project",
            "project_path",
            "Path to GitCore project",
        ),
    );
    assert(t@.map_values(|x: McpToolSpec| x@) =~= cortex_tools_spec());
    t
}

/// The tools have distinct names, and each name a tool requires is one of
/// that tool's properties.
pub proof fn law_tool_catalogue_consistent()
    ensures
        forall|i: int, j: int|
            0 <= i < j < cortex_tools_spec().len() ==> (#[trigger] cortex_tools_spec()[i]).0 != (
            #[trigger] cortex_tools_spec()[j]).0,
        forall|i: int, k: int|
            0 <= i < cortex_tools_spec().len() && (#[trigger] cortex_tools_spec()[i]).2.1 is Some && 0 <= k
                < cortex_tools_spec()[i].2.1->0.len() ==> exists|m: int|
                0 <= m < cortex_tools_spec()[i].2.0.len() && cortex_tools_spec()[i].2.0[m].0
                    == #[trigger] cortex_tools_spec()[i].2.1->0[k],
{
    reveal_strlit("create_memory");
    reveal_strlit("search_memory");
    reveal_strlit("get_memory");
    reveal_strlit("list_projects");
    reveal_strlit("get_project_context");
    reveal_strlit("sync_gitcore");
    let c = cortex_tools_spec();
    assert(c[0].2.0[0].0 == c[0].2.1->0[0]);
    assert(c[0].2.0[1].0 == c[0].2.1->0[1]);
    assert(c[1].2.0[0].0 == c[1].2.1->0[0]);
    assert(c[2].2.0[0].0 == c[2].2.1->0[0]);
    assert(c[4].2.0[0].0 == c[4].2.1->0[0]);
    assert(c[5].2.0[0].0 == c[5].2.1->0[0]);
    assert("create_memory"@.len() == 13 && "search_memory"@.len() == 13 && "get_memory"@.len() == 10);
    assert("list_projects"@.len() == 13 && "get_project_context"@.len() == 19 && "sync_gitcore"@.len() == 12);
    assert("create_memory"@[0] != "search_memory"@[0]);
    assert("create_memory"@[0] != "list_projects"@[0]);
    assert("search_memory"@[0] != "list_projects"@[0]);
}

} // verus!
