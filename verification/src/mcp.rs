//! A client of the Model Context Protocol: configuration, tool names, JSON-RPC
//! messages and results. The transports stay with the caller.
use vstd::prelude::*;
use crate::chars;
use crate::json::{self, Json, JsonV, Object};
use crate::text;

verus! {

/// The version of the protocol that the client speaks.
pub const PROTOCOL_VERSION: &'static str = "2024-11-05";

/// A tool of a server.
#[derive(Debug)]
pub struct McpTool {
    pub name: String,
    pub description: String,
    pub schema: Json,
    /// Whether the server says that the tool only reads.
    pub read_only: bool,
}

pub struct ToolV {
    pub name: Seq<char>,
    pub description: Seq<char>,
    pub schema: JsonV,
    pub read_only: bool,
}

impl McpTool {
    pub open spec fn view(self) -> ToolV {
        ToolV {
            name: self.name@,
            description: self.description@,
            schema: self.schema.view(),
            read_only: self.read_only,
        }
    }
}

/// The view of a list of tools.
pub open spec fn tools(v: Seq<McpTool>) -> Seq<ToolV> {
    v.map_values(|t: McpTool| t.view())
}

/// A connected server.
#[derive(Debug)]
pub struct McpServer {
    pub name: String,
    /// The last request's number.
    pub next_id: u64,
    pub tools: Vec<McpTool>,
}

pub struct ServerV {
    pub name: Seq<char>,
    pub tools: Seq<ToolV>,
}

impl McpServer {
    pub open spec fn view(self) -> ServerV {
        ServerV { name: self.name@, tools: tools(self.tools@) }
    }
}

/// The view of a list of servers.
pub open spec fn servers(v: Seq<McpServer>) -> Seq<ServerV> {
    v.map_values(|s: McpServer| s.view())
}

/// A tool as the model is told of it.
#[derive(Debug)]
pub struct ToolDef {
    pub name: String,
    pub description: String,
    pub schema: Json,
}

pub struct DefV {
    pub name: Seq<char>,
    pub description: Seq<char>,
    pub schema: JsonV,
}

impl ToolDef {
    pub open spec fn view(self) -> DefV {
        DefV { name: self.name@, description: self.description@, schema: self.schema.view() }
    }
}

/// The view of a list of definitions.
pub open spec fn defs(v: Seq<ToolDef>) -> Seq<DefV> {
    v.map_values(|d: ToolDef| d.view())
}

/// The name of a tool among the tools of all servers.
pub open spec fn qualified(server: Seq<char>, tool: Seq<char>) -> Seq<char> {
    "mcp__"@ + server + "__"@ + tool
}

/// The definitions of a server's tools.
pub open spec fn server_defs(s: ServerV) -> Seq<DefV> {
    Seq::new(
        s.tools.len(),
        |i: int|
            DefV {
                name: qualified(s.name, s.tools[i].name),
                description: s.tools[i].description,
                schema: s.tools[i].schema,
            },
    )
}

/// The definitions of all tools, server by server.
pub open spec fn all_defs(s: Seq<ServerV>) -> Seq<DefV>
    decreases s.len(),
{
    if s.len() == 0 {
        seq![]
    } else {
        all_defs(s.drop_last()) + server_defs(s.last())
    }
}

/// The server and the tool that a qualified name names.
pub open spec fn split_name(q: Seq<char>) -> Option<(Seq<char>, Seq<char>)> {
    if chars::starts_with(q, "mcp__"@) {
        let rest = q.skip(5);
        match chars::find_str(rest, "__"@) {
            Some(i) => Some((rest.take(i), rest.skip(i + 2))),
            None => None,
        }
    } else {
        None
    }
}

/// The first server of that name.
pub open spec fn server_at(s: Seq<ServerV>, name: Seq<char>) -> Option<int>
    decreases s.len(),
{
    if s.len() == 0 {
        None
    } else if s[0].name == name {
        Some(0int)
    } else {
        match server_at(s.skip(1), name) {
            Some(i) => Some(i + 1),
            None => None,
        }
    }
}

/// The first tool of that name.
pub open spec fn tool_at(s: Seq<ToolV>, name: Seq<char>) -> Option<int>
    decreases s.len(),
{
    if s.len() == 0 {
        None
    } else if s[0].name == name {
        Some(0int)
    } else {
        match tool_at(s.skip(1), name) {
            Some(i) => Some(i + 1),
            None => None,
        }
    }
}

/// Whether a qualified name names a tool that only reads.
pub open spec fn reads_only(s: Seq<ServerV>, q: Seq<char>) -> bool {
    match split_name(q) {
        Some((server, tool)) => match server_at(s, server) {
            Some(i) => match tool_at(s[i].tools, tool) {
                Some(j) => s[i].tools[j].read_only,
                None => false,
            },
            None => false,
        },
        None => false,
    }
}

/// Why a call reaches no server.
#[derive(Debug)]
pub enum RouteError {
    NotMcp(String),
    Malformed(String),
    UnknownServer(String),
}

impl RouteError {
    /// The error for humans.
    pub fn message(&self) -> (r: String)
        ensures
            r@ == (match self {
                RouteError::NotMcp(q) => "not an mcp tool: "@ + q@,
                RouteError::Malformed(q) => "malformed mcp tool name: "@ + q@,
                RouteError::UnknownServer(s) => "unknown mcp server: "@ + s@,
            }),
    {
        let (head, name) = match self {
            RouteError::NotMcp(q) => ("not an mcp tool: ", q),
            RouteError::Malformed(q) => ("malformed mcp tool name: ", q),
            RouteError::UnknownServer(s) => ("unknown mcp server: ", s),
        };
        let mut out = head.to_owned();
        out.push_str(name.as_str());
        out
    }
}

/// The connected servers.
#[derive(Debug)]
pub struct McpHost {
    pub servers: Vec<McpServer>,
}

fn split_qualified(q: &[char]) -> (r: Option<(Vec<char>, Vec<char>)>)
    ensures
        match r {
            Some((s, t)) => split_name(q@) == Some((s@, t@)),
            None => split_name(q@) is None,
        },
{
    if !text::starts_with(q, "mcp__") {
        return None;
    }
    proof {
        reveal_strlit("mcp__");
        reveal_strlit("__");
    }
    let rest = text::from(q, 5);
    match text::find_str(rest, "__") {
        Some(i) => {
            let n: usize = rest.len();
            assert(i + 2 <= n);
            Some((text::to_vec(text::upto(rest, i)), text::to_vec(text::from(rest, i + 2))))
        },
        None => None,
    }
}

proof fn lemma_server_at(s: Seq<ServerV>, name: Seq<char>, i: int)
    requires
        0 <= i <= s.len(),
        forall|j: int| 0 <= j < i ==> (#[trigger] s[j]).name != name,
        i < s.len() ==> s[i].name == name,
    ensures
        server_at(s, name) == (if i < s.len() {
            Some(i)
        } else {
            None::<int>
        }),
    decreases i,
{
    if i > 0 {
        assert(s[0].name != name);
        assert forall|j: int| 0 <= j < i - 1 implies (#[trigger] s.skip(1)[j]).name != name by {
            assert(s.skip(1)[j] == s[j + 1]);
        }
        lemma_server_at(s.skip(1), name, i - 1);
    }
}

proof fn lemma_tool_at(s: Seq<ToolV>, name: Seq<char>, i: int)
    requires
        0 <= i <= s.len(),
        forall|j: int| 0 <= j < i ==> (#[trigger] s[j]).name != name,
        i < s.len() ==> s[i].name == name,
    ensures
        tool_at(s, name) == (if i < s.len() {
            Some(i)
        } else {
            None::<int>
        }),
    decreases i,
{
    if i > 0 {
        assert(s[0].name != name);
        assert forall|j: int| 0 <= j < i - 1 implies (#[trigger] s.skip(1)[j]).name != name by {
            assert(s.skip(1)[j] == s[j + 1]);
        }
        lemma_tool_at(s.skip(1), name, i - 1);
    }
}

impl McpHost {
    pub open spec fn view(self) -> Seq<ServerV> {
        servers(self.servers@)
    }

    /// A host without servers.
    pub fn new() -> (r: McpHost)
        ensures
            r.view().len() == 0,
    {
        McpHost { servers: Vec::new() }
    }

    fn find(&self, name: &[char]) -> (r: Option<usize>)
        ensures
            match r {
                Some(i) => server_at(self.view(), name@) == Some(i as int) && i
                    < self.servers@.len() && self.servers@[i as int].name@ == name@,
                None => server_at(self.view(), name@) is None,
            },
    {
        let ghost s = self.view();
        let mut i: usize = 0;
        while i < self.servers.len()
            invariant
                s == servers(self.servers@),
                i <= s.len(),
                forall|j: int| 0 <= j < i ==> (#[trigger] s[j]).name != name@,
            decreases s.len() - i,
        {
            if text::is(name, self.servers[i].name.as_str()) {
                proof {
                    lemma_server_at(s, name@, i as int);
                }
                return Some(i);
            }
            i += 1;
        }
        proof {
            lemma_server_at(s, name@, i as int);
        }
        None
    }

    /// Whether a server of that name is connected; an earlier configuration wins.
    pub fn claims(&self, name: &str) -> (r: bool)
        ensures
            r == (server_at(self.view(), name@) is Some),
    {
        let v = text::chars_of(name);
        self.find(&v).is_some()
    }

    /// Adds a server.
    pub fn add_server(&mut self, server: McpServer)
        ensures
            final(self).servers@ == old(self).servers@.push(server),
            final(self).view() == old(self).view().push(server.view()),
    {
        let ghost s = self.view();
        self.servers.push(server);
        assert(self.view() =~= s.push(server.view()));
    }

    /// The definitions of all tools, under their qualified names.
    pub fn tool_defs(&self) -> (r: Vec<ToolDef>)
        ensures
            defs(r@) == all_defs(self.view()),
    {
        let mut out: Vec<ToolDef> = Vec::new();
        let ghost s = self.view();
        let mut i: usize = 0;
        assert(s.take(0) =~= Seq::empty());
        assert(defs(out@) =~= all_defs(s.take(0)));
        while i < self.servers.len()
            invariant
                s == servers(self.servers@),
                i <= s.len(),
                defs(out@) == all_defs(s.take(i as int)),
            decreases s.len() - i,
        {
            let server = &self.servers[i];
            let ghost before = defs(out@);
            let ghost want = server_defs(server.view());
            let mut j: usize = 0;
            assert(before + want.take(0) =~= before);
            while j < server.tools.len()
                invariant
                    want == server_defs(server.view()),
                    want.len() == server.tools@.len(),
                    j <= want.len(),
                    defs(out@) == before + want.take(j as int),
                decreases want.len() - j,
            {
                let t = &server.tools[j];
                let mut name = "mcp__".to_owned();
                name.push_str(server.name.as_str());
                name.push_str("__");
                name.push_str(t.name.as_str());
                let d = ToolDef {
                    name,
                    description: t.description.clone(),
                    schema: t.schema.copy(),
                };
                let ghost o = defs(out@);
                let ghost dv = d.view();
                assert(server.view().tools[j as int] == t.view());
                assert(dv == want[j as int]);
                out.push(d);
                assert(defs(out@) =~= o.push(dv));
                assert(want.take(j + 1) =~= want.take(j as int).push(want[j as int]));
                assert(defs(out@) =~= before + want.take(j + 1));
                j += 1;
            }
            assert(want.take(j as int) =~= want);
            assert(s.take(i + 1).drop_last() =~= s.take(i as int));
            assert(s.take(i + 1).last() == server.view());
            i += 1;
        }
        assert(s.take(i as int) =~= s);
        out
    }

    /// Whether the server says that the tool only reads.
    pub fn is_read_only(&self, name: &str) -> (r: bool)
        ensures
            r == reads_only(self.view(), name@),
    {
        let q = text::chars_of(name);
        let (server, tool) = match split_qualified(&q) {
            Some(p) => p,
            None => {
                return false;
            },
        };
        let i: usize = match self.find(&server) {
            Some(i) => i,
            None => {
                return false;
            },
        };
        let ts = &self.servers[i].tools;
        let ghost s = tools(ts@);
        assert(self.view()[i as int].tools == s);
        let mut j: usize = 0;
        while j < ts.len()
            invariant
                s == tools(ts@),
                split_name(name@) == Some((server@, tool@)),
                server_at(self.view(), server@) == Some(i as int),
                self.view()[i as int].tools == s,
                j <= s.len(),
                forall|k: int| 0 <= k < j ==> (#[trigger] s[k]).name != tool@,
            decreases s.len() - j,
        {
            if text::is(&tool, ts[j].name.as_str()) {
                proof {
                    lemma_tool_at(s, tool@, j as int);
                    assert(s[j as int] == ts@[j as int].view());
                }
                return ts[j].read_only;
            }
            j += 1;
        }
        proof {
            lemma_tool_at(s, tool@, j as int);
        }
        false
    }

    /// The server of a call, by its place, and the name of the tool there.
    pub fn route(&self, name: &str) -> (r: Result<(usize, String), RouteError>)
        ensures
            match r {
                Ok((i, tool)) => split_name(name@) matches Some((s, t)) && t == tool@ && server_at(
                    self.view(),
                    s,
                ) == Some(i as int) && i < self.servers@.len(),
                Err(RouteError::NotMcp(q)) => q@ == name@ && !chars::starts_with(name@, "mcp__"@),
                Err(RouteError::Malformed(q)) => q@ == name@ && chars::starts_with(name@, "mcp__"@)
                    && split_name(name@) is None,
                Err(RouteError::UnknownServer(u)) => split_name(name@) matches Some((s, t)) && s
                    == u@ && server_at(self.view(), s) is None,
            },
    {
        let q = text::chars_of(name);
        if !text::starts_with(&q, "mcp__") {
            return Err(RouteError::NotMcp(name.to_owned()));
        }
        match split_qualified(&q) {
            None => Err(RouteError::Malformed(name.to_owned())),
            Some((server, tool)) => match self.find(&server) {
                Some(i) => Ok((i, text::string_of(&tool))),
                None => Err(RouteError::UnknownServer(text::string_of(&server))),
            },
        }
    }
}

/// Law: the qualified name of a tool leads back to its server and its tool, for a
/// server whose name cannot run into the separator.
pub proof fn qualified_names_lead_back(server: Seq<char>, tool: Seq<char>)
    requires
        !chars::contains_str(server + "_"@, "__"@),
    ensures
        split_name(qualified(server, tool)) == Some((server, tool)),
{
    reveal_strlit("mcp__");
    reveal_strlit("__");
    reveal_strlit("_");
    let q = qualified(server, tool);
    let rest = server + "__"@ + tool;
    assert(q.subrange(0, 5) =~= "mcp__"@);
    assert(q.skip(5) =~= rest);
    let n = server.len() as int;
    assert(rest.subrange(n, n + 2) =~= "__"@);
    assert forall|j: int| 0 <= j < n implies !chars::matches_at(rest, "__"@, j) by {
        if chars::matches_at(rest, "__"@, j) {
            let s = server + "_"@;
            assert(s.subrange(j, j + 2) =~= rest.subrange(j, j + 2));
            assert(chars::matches_at(s, "__"@, j));
        }
    }
    chars::lemma_find_str(rest, "__"@, n);
    assert(rest.take(n) =~= server);
    assert(rest.skip(n + 2) =~= tool);
}

/// Law: the tools that the model is told of can be called by the names that it is told,
/// on a server whose name cannot run into the separator.
pub proof fn told_names_lead_back(s: ServerV, j: int)
    requires
        !chars::contains_str(s.name + "_"@, "__"@),
        0 <= j < s.tools.len(),
    ensures
        split_name(server_defs(s)[j].name) == Some((s.name, s.tools[j].name)),
{
    qualified_names_lead_back(s.name, s.tools[j].name);
}

/// Law: a server that is connected keeps its name, whatever is connected later.
pub proof fn earlier_servers_win(s: Seq<ServerV>, later: ServerV, name: Seq<char>)
    ensures
        server_at(s, name) is Some ==> server_at(s.push(later), name) == server_at(s, name),
        server_at(s, name) is None ==> server_at(s.push(later), name) == (if later.name == name {
            Some(s.len() as int)
        } else {
            None
        }),
    decreases s.len(),
{
    if s.len() == 0 {
        assert(s.push(later).skip(1) =~= Seq::<ServerV>::empty());
        assert(server_at(s.push(later).skip(1), name) is None);
    } else {
        assert(s.push(later).skip(1) =~= s.skip(1).push(later));
        earlier_servers_win(s.skip(1), later, name);
    }
}

/// Whether member `key` is absent or null.
pub open spec fn is_null(v: JsonV, key: Seq<char>) -> bool {
    match json::member(v, key) {
        Some(m) => m == JsonV::Null,
        None => true,
    }
}

fn null_member(v: &Json, key: &str) -> (r: bool)
    ensures
        r == is_null(v.view(), key@),
{
    match v.get(key) {
        Some(m) => match m {
            Json::Null => true,
            _ => false,
        },
        None => true,
    }
}

/// The members of an object, in order.
pub open spec fn members(v: JsonV) -> Seq<(Seq<char>, JsonV)> {
    match v {
        JsonV::Object(e) => e,
        _ => seq![],
    }
}

pub open spec fn pair_views(v: Seq<(String, Json)>) -> Seq<(Seq<char>, JsonV)> {
    v.map_values(|p: (String, Json)| (p.0@, p.1.view()))
}

fn entries_of(o: &Object) -> (r: Vec<(String, Json)>)
    ensures
        pair_views(r@) == o.view(),
{
    let mut out: Vec<(String, Json)> = Vec::new();
    let n: usize = o.len();
    let mut i: usize = 0;
    while i < n
        invariant
            n == o.view().len(),
            i <= n,
            out@.len() == i,
            forall|j: int|
                0 <= j < i ==> (#[trigger] out@[j]).0@ == o.view()[j].0 && out@[j].1.view()
                    == o.view()[j].1,
        decreases n - i,
    {
        out.push((o.key_at(i).clone(), o.value_at(i).copy()));
        i += 1;
    }
    assert(pair_views(out@) =~= o.view());
    out
}

/// The declared servers of a configuration, in key order; none when it declares no
/// object of them.
pub fn config_servers(config: &Json) -> (r: Vec<(String, Json)>)
    ensures
        pair_views(r@) == (match json::member(config.view(), "mcpServers"@) {
            Some(v) => members(v),
            None => seq![],
        }),
{
    match config.get("mcpServers") {
        Some(v) => match v {
            Json::Object(o) => entries_of(o),
            _ => {
                let none: Vec<(String, Json)> = Vec::new();
                assert(pair_views(none@) =~= seq![]);
                none
            },
        },
        None => {
            let none: Vec<(String, Json)> = Vec::new();
            assert(pair_views(none@) =~= seq![]);
            none
        },
    }
}

/// One tool of a `tools/list` result; only what has a name is a tool.
pub open spec fn listed_tool(t: JsonV) -> Option<ToolV> {
    match json::member_text(t, "name"@) {
        Some(name) => Some(
            ToolV {
                name,
                description: match json::member_text(t, "description"@) {
                    Some(d) => d,
                    None => seq![],
                },
                schema: match json::member(t, "inputSchema"@) {
                    Some(s) => s,
                    None => JsonV::Null,
                },
                read_only: match json::member(t, "annotations"@) {
                    Some(a) => match json::member(a, "readOnlyHint"@) {
                        Some(h) => json::bool_of(h) == Some(true),
                        None => false,
                    },
                    None => false,
                },
            },
        ),
        None => None,
    }
}

/// The tools among `items`, in order.
pub open spec fn listed(items: Seq<JsonV>) -> Seq<ToolV>
    decreases items.len(),
{
    if items.len() == 0 {
        seq![]
    } else {
        match listed_tool(items.last()) {
            Some(t) => listed(items.drop_last()).push(t),
            None => listed(items.drop_last()),
        }
    }
}

/// The items of an array member.
pub open spec fn array_at(v: JsonV, key: Seq<char>) -> Seq<JsonV> {
    match json::member(v, key) {
        Some(JsonV::Array(items)) => items,
        _ => seq![],
    }
}

fn tool_from(t: &Json) -> (r: Option<McpTool>)
    ensures
        match r {
            Some(x) => listed_tool(t.view()) == Some(x.view()),
            None => listed_tool(t.view()) is None,
        },
{
    let name = match t.str_member("name") {
        Some(n) => n.to_owned(),
        None => {
            return None;
        },
    };
    let description = match t.str_member("description") {
        Some(d) => d.to_owned(),
        None => {
            let e = String::new();
            assert(e@ =~= seq![]);
            e
        },
    };
    let schema = match t.get("inputSchema") {
        Some(s) => s.copy(),
        None => Json::Null,
    };
    let read_only = match t.get("annotations") {
        Some(a) => match a.get("readOnlyHint") {
            Some(h) => match h.as_bool() {
                Some(b) => b,
                None => false,
            },
            None => false,
        },
        None => false,
    };
    Some(McpTool { name, description, schema, read_only })
}

/// The tools of a `tools/list` result.
pub fn listed_tools(result: &Json) -> (r: Vec<McpTool>)
    ensures
        tools(r@) == listed(array_at(result.view(), "tools"@)),
{
    let mut out: Vec<McpTool> = Vec::new();
    assert(tools(out@) =~= listed(seq![]));
    if let Some(v) = result.get("tools") {
        if let Json::Array(items) = v {
            let ghost s = v.view()->Array_0;
            let mut i: usize = 0;
            assert(s.take(0) =~= seq![]);
            while i < items.len()
                invariant
                    s == Json::Array(*items).view()->Array_0,
                    i <= items@.len(),
                    tools(out@) == listed(s.take(i as int)),
                decreases items@.len() - i,
            {
                let ghost o = tools(out@);
                assert(s[i as int] == items@[i as int].view());
                assert(s.take(i + 1).drop_last() =~= s.take(i as int));
                if let Some(t) = tool_from(&items[i]) {
                    let ghost tv = t.view();
                    out.push(t);
                    assert(tools(out@) =~= o.push(tv));
                }
                i += 1;
            }
            assert(s.take(i as int) =~= s);
        }
    }
    out
}

/// The text of a tool's result so far, and a further block of it: texts stand on
/// lines of their own, other blocks are named.
pub open spec fn with_block(out: Seq<char>, block: JsonV) -> Seq<char> {
    match json::member_text(block, "type"@) {
        Some(kind) => if kind == "text"@ {
            (if out.len() > 0 {
                out.push('\n')
            } else {
                out
            }) + (match json::member_text(block, "text"@) {
                Some(t) => t,
                None => seq![],
            })
        } else {
            out + "\n[unsupported content block: "@ + kind + "]"@
        },
        None => out,
    }
}

/// The text of a tool's result.
pub open spec fn content_text(blocks: Seq<JsonV>) -> Seq<char>
    decreases blocks.len(),
{
    if blocks.len() == 0 {
        seq![]
    } else {
        with_block(content_text(blocks.drop_last()), blocks.last())
    }
}

/// Whether a tool's result says that it is an error.
pub open spec fn says_error(result: JsonV) -> bool {
    match json::member(result, "isError"@) {
        Some(v) => json::bool_of(v) == Some(true),
        None => false,
    }
}

fn push_block(out: &mut String, block: &Json)
    ensures
        final(out)@ == with_block(old(out)@, block.view()),
{
    if let Some(kind) = block.str_member("type") {
        if text::eq(kind, "text") {
            let so_far = text::chars_of(out.as_str());
            if so_far.len() > 0 {
                out.push('\n');
            }
            match block.str_member("text") {
                Some(t) => {
                    out.push_str(t);
                },
                None => {
                    assert(out@ + seq![] =~= out@);
                },
            }
        } else {
            out.push_str("\n[unsupported content block: ");
            out.push_str(kind);
            out.push_str("]");
        }
    }
}

/// What a `tools/call` result comes to: its text, or the text of its error.
pub fn call_result(result: &Json) -> (r: Result<String, String>)
    ensures
        ({
            let out = content_text(array_at(result.view(), "content"@));
            match r {
                Ok(s) => !says_error(result.view()) && s@ == (if out.len() > 0 {
                    out
                } else {
                    "[no content]"@
                }),
                Err(e) => says_error(result.view()) && e@ == (if out.len() > 0 {
                    out
                } else {
                    "tool reported an error"@
                }),
            }
        }),
{
    let mut out: String = String::new();
    assert(out@ =~= content_text(seq![]));
    if let Some(v) = result.get("content") {
        if let Json::Array(items) = v {
            let ghost s = v.view()->Array_0;
            let mut i: usize = 0;
            assert(s.take(0) =~= seq![]);
            while i < items.len()
                invariant
                    s == Json::Array(*items).view()->Array_0,
                    i <= items@.len(),
                    out@ == content_text(s.take(i as int)),
                decreases items@.len() - i,
            {
                assert(s[i as int] == items@[i as int].view());
                assert(s.take(i + 1).drop_last() =~= s.take(i as int));
                push_block(&mut out, &items[i]);
                i += 1;
            }
            assert(s.take(i as int) =~= s);
        }
    }
    let failed = match result.get("isError") {
        Some(v) => match v.as_bool() {
            Some(b) => b,
            None => false,
        },
        None => false,
    };
    let all = text::chars_of(out.as_str());
    if failed {
        if all.len() > 0 {
            Err(out)
        } else {
            Err("tool reported an error".to_owned())
        }
    } else if all.len() > 0 {
        Ok(out)
    } else {
        Ok("[no content]".to_owned())
    }
}

/// Law: no text of a result is lost. Blocks with the texts `t1`, `t2`, … come to these
/// texts in their order, each on lines of its own.
pub proof fn texts_of_a_result_are_all_kept(blocks: Seq<JsonV>, texts: Seq<Seq<char>>)
    requires
        blocks.len() == texts.len(),
        forall|i: int|
            0 <= i < blocks.len() ==> json::member_text(#[trigger] blocks[i], "type"@) == Some(
                "text"@,
            ) && json::member_text(blocks[i], "text"@) == Some(texts[i]) && texts[i].len() > 0,
    ensures
        content_text(blocks) == chars::join(texts, seq!['\n']),
    decreases blocks.len(),
{
    let n = blocks.len();
    if n > 0 {
        let b = blocks.drop_last();
        let t = texts.drop_last();
        assert forall|i: int| 0 <= i < b.len() implies json::member_text(
            #[trigger] b[i],
            "type"@,
        ) == Some("text"@) && json::member_text(b[i], "text"@) == Some(t[i]) && t[i].len() > 0 by {
            assert(b[i] == blocks[i] && t[i] == texts[i]);
        }
        texts_of_a_result_are_all_kept(b, t);
        assert(blocks[n - 1] == blocks.last());
        if n == 1 {
            assert(content_text(b) =~= Seq::<char>::empty());
            assert(content_text(blocks) =~= texts[0]);
        } else {
            assert forall|i: int| 0 <= i < t.len() implies (#[trigger] t[i]).len() > 0 by {
                assert(b[i] == blocks[i] && t[i] == texts[i]);
            }
            lemma_join_not_empty(t);
            assert(content_text(blocks) =~= chars::join(texts, seq!['\n']));
        }
    }
}

proof fn lemma_join_not_empty(t: Seq<Seq<char>>)
    requires
        t.len() > 0,
        forall|i: int| 0 <= i < t.len() ==> (#[trigger] t[i]).len() > 0,
    ensures
        chars::join(t, seq!['\n']).len() > 0,
{
    if t.len() == 1 {
        assert(t[0].len() > 0);
    }
}

/// Law: a further block never takes back what the blocks before it said. One that is no
/// text is named on a line of its own, and one without a kind says nothing.
pub proof fn further_blocks_only_add(blocks: Seq<JsonV>, block: JsonV)
    ensures
        content_text(blocks).is_prefix_of(content_text(blocks.push(block))),
        json::member_text(block, "type"@) matches Some(kind) ==> kind != "text"@ ==> content_text(
            blocks.push(block),
        ) == content_text(blocks) + "\n[unsupported content block: "@ + kind + "]"@,
        json::member_text(block, "type"@) is None ==> content_text(blocks.push(block))
            == content_text(blocks),
{
    assert(blocks.push(block).drop_last() =~= blocks);
    let before = content_text(blocks);
    assert(content_text(blocks.push(block)).take(before.len() as int) =~= before);
}

/// Law: a result is an error when it says so, and only then.
pub proof fn errors_are_told_apart(result: JsonV)
    ensures
        json::member(result, "isError"@) == Some(JsonV::Bool(true)) <==> says_error(result),
{
}

/// A JSON-RPC request.
pub open spec fn request_of(id: nat, method: Seq<char>, params: JsonV) -> JsonV {
    let e = json::bind(seq![], "jsonrpc"@, JsonV::Str("2.0"@));
    let e = json::bind(e, "id"@, JsonV::Number(chars::dec(id)));
    let e = json::bind(e, "method"@, JsonV::Str(method));
    JsonV::Object(json::bind(e, "params"@, params))
}

/// A JSON-RPC notification.
pub open spec fn notice_of(method: Seq<char>) -> JsonV {
    let e = json::bind(seq![], "jsonrpc"@, JsonV::Str("2.0"@));
    JsonV::Object(json::bind(e, "method"@, JsonV::Str(method)))
}

/// The answer to a server's ping.
pub open spec fn pong_of(id: JsonV) -> JsonV {
    let e = json::bind(seq![], "jsonrpc"@, JsonV::Str("2.0"@));
    let e = json::bind(e, "id"@, id);
    JsonV::Object(json::bind(e, "result"@, JsonV::Object(seq![])))
}

/// The parameters of a `tools/call`.
pub open spec fn call_params_of(tool: Seq<char>, args: JsonV) -> JsonV {
    let e = json::bind(seq![], "name"@, JsonV::Str(tool));
    JsonV::Object(json::bind(e, "arguments"@, args))
}

/// The parameters of `initialize`.
pub open spec fn hello_of(version: Seq<char>) -> JsonV {
    let c = json::bind(seq![], "name"@, JsonV::Str("aish"@));
    let c = JsonV::Object(json::bind(c, "version"@, JsonV::Str(version)));
    let e = json::bind(seq![], "protocolVersion"@, JsonV::Str(PROTOCOL_VERSION@));
    let e = json::bind(e, "capabilities"@, JsonV::Object(seq![]));
    JsonV::Object(json::bind(e, "clientInfo"@, c))
}

fn rpc() -> (r: Object)
    ensures
        r.view() == json::bind(seq![], "jsonrpc"@, JsonV::Str("2.0"@)),
{
    let mut o = Object::new();
    o.insert("jsonrpc".to_owned(), Json::Str("2.0".to_owned()));
    o
}

impl McpServer {
    /// A server that has not been asked anything.
    pub fn new(name: &str) -> (r: McpServer)
        ensures
            r.name@ == name@,
            r.next_id == 0,
            r.tools@.len() == 0,
    {
        McpServer { name: name.to_owned(), next_id: 0, tools: Vec::new() }
    }

    /// The next request, under a number of its own.
    pub fn request(&mut self, method: &str, params: Json) -> (r: (u64, Json))
        requires
            old(self).next_id < u64::MAX,
        ensures
            r.0 == old(self).next_id + 1,
            r.1.view() == request_of(r.0 as nat, method@, params.view()),
            *final(self) == (McpServer { next_id: r.0, ..*old(self) }),
    {
        self.next_id = self.next_id + 1;
        let id: u64 = self.next_id;
        let mut o = rpc();
        o.insert("id".to_owned(), Json::Number(text::dec(id)));
        o.insert("method".to_owned(), Json::Str(method.to_owned()));
        o.insert("params".to_owned(), params);
        (id, Json::Object(o))
    }
}

/// A notification.
pub fn notification(method: &str) -> (r: Json)
    ensures
        r.view() == notice_of(method@),
{
    let mut o = rpc();
    o.insert("method".to_owned(), Json::Str(method.to_owned()));
    Json::Object(o)
}

/// The parameters of a `tools/call`.
pub fn call_params(tool: &str, args: &Json) -> (r: Json)
    ensures
        r.view() == call_params_of(tool@, args.view()),
{
    let mut o = Object::new();
    o.insert("name".to_owned(), Json::Str(tool.to_owned()));
    o.insert("arguments".to_owned(), args.copy());
    Json::Object(o)
}

/// The parameters of `initialize`.
pub fn hello_params(version: &str) -> (r: Json)
    ensures
        r.view() == hello_of(version@),
{
    let mut c = Object::new();
    c.insert("name".to_owned(), Json::Str("aish".to_owned()));
    c.insert("version".to_owned(), Json::Str(version.to_owned()));
    let mut o = Object::new();
    o.insert("protocolVersion".to_owned(), Json::Str(PROTOCOL_VERSION.to_owned()));
    o.insert("capabilities".to_owned(), Json::Object(Object::new()));
    o.insert("clientInfo".to_owned(), Json::Object(c));
    Json::Object(o)
}

/// The documents of a response body: the body itself when it is one, otherwise what
/// its `data:` lines hold.
pub open spec fn data_bodies(lines: Seq<Seq<char>>) -> Seq<JsonV>
    decreases lines.len(),
{
    if lines.len() == 0 {
        seq![]
    } else {
        let before = data_bodies(lines.drop_last());
        if chars::starts_with(lines.last(), "data:"@) {
            match json::document(chars::trim(lines.last().skip(5))) {
                Ok(v) => before.push(v),
                Err(_) => before,
            }
        } else {
            before
        }
    }
}

/// The documents of a response body.
pub open spec fn bodies(body: Seq<char>) -> Seq<JsonV> {
    match json::document(body) {
        Ok(v) => seq![v],
        Err(_) => data_bodies(chars::lines(body)),
    }
}

/// The view of a list of documents.
pub open spec fn docs(v: Seq<Json>) -> Seq<JsonV> {
    v.map_values(|j: Json| j.view())
}

/// The documents that the `data:` lines hold.
pub fn event_bodies(lines: &[Vec<char>]) -> (r: Vec<Json>)
    ensures
        docs(r@) == data_bodies(text::views(lines@)),
{
    let mut out: Vec<Json> = Vec::new();
    let ghost ls = text::views(lines@);
    let mut i: usize = 0;
    assert(ls.take(0) =~= seq![]);
    assert(docs(out@) =~= data_bodies(ls.take(0)));
    while i < lines.len()
        invariant
            ls == text::views(lines@),
            i <= ls.len(),
            docs(out@) == data_bodies(ls.take(i as int)),
        decreases ls.len() - i,
    {
        let l = &lines[i];
        assert(ls[i as int] == l@);
        assert(ls.take(i + 1).drop_last() =~= ls.take(i as int));
        let ghost o = docs(out@);
        if text::starts_with(l, "data:") {
            proof {
                reveal_strlit("data:");
            }
            let d = text::string_of(text::trim(text::from(l, 5)));
            if let Ok(v) = json::parse(d.as_str()) {
                let ghost vv = v.view();
                out.push(v);
                assert(docs(out@) =~= o.push(vv));
            }
        }
        i += 1;
    }
    assert(ls.take(i as int) =~= ls);
    out
}

/// The documents of a response body, which is one document or a stream of events.
pub fn extract_jsonrpc_bodies(body: &str) -> (r: Vec<Json>)
    ensures
        docs(r@) == bodies(body@),
{
    match json::parse(body) {
        Ok(v) => {
            let mut out: Vec<Json> = Vec::new();
            out.push(v);
            assert(docs(out@) =~= bodies(body@));
            out
        },
        Err(_) => {
            let all = text::chars_of(body);
            event_bodies(&text::lines(&all))
        },
    }
}

/// Whether a message has that number.
pub open spec fn has_id(v: JsonV, id: nat) -> bool {
    match json::member(v, "id"@) {
        Some(n) => json::unsigned_of(n) == Some(id),
        None => false,
    }
}

/// What a response says: its result, or the error of the method.
pub open spec fn outcome_of(v: JsonV, method: Seq<char>) -> Result<JsonV, Seq<char>> {
    if is_null(v, "error"@) {
        Ok(
            match json::member(v, "result"@) {
                Some(r) => r,
                None => JsonV::Null,
            },
        )
    } else {
        Err(
            method + ": "@ + (match json::member(v, "error"@) {
                Some(e) => match json::member_text(e, "message"@) {
                    Some(m) => m,
                    None => "unknown error"@,
                },
                None => "unknown error"@,
            }),
        )
    }
}

/// Views of a response.
pub open spec fn outcome_view(r: Result<Json, String>) -> Result<JsonV, Seq<char>> {
    match r {
        Ok(v) => Ok(v.view()),
        Err(e) => Err(e@),
    }
}

fn matches_id(v: &Json, id: u64) -> (r: bool)
    ensures
        r == has_id(v.view(), id as nat),
{
    match v.get("id") {
        Some(n) => match n.as_u64() {
            Some(x) => x == id,
            None => false,
        },
        None => false,
    }
}

/// What a response says.
pub fn response_outcome(v: &Json, method: &str) -> (r: Result<Json, String>)
    ensures
        outcome_view(r) == outcome_of(v.view(), method@),
{
    if null_member(v, "error") {
        return match v.get("result") {
            Some(x) => Ok(x.copy()),
            None => Ok(Json::Null),
        };
    }
    let mut out = method.to_owned();
    out.push_str(": ");
    match v.get("error") {
        Some(e) => match e.str_member("message") {
            Some(m) => {
                out.push_str(m);
            },
            None => {
                out.push_str("unknown error");
            },
        },
        None => {
            out.push_str("unknown error");
        },
    }
    Err(out)
}

/// The answer among the documents of a response: the first with the request's
/// number.
pub open spec fn answer_among(ds: Seq<JsonV>, id: nat, method: Seq<char>) -> Result<
    JsonV,
    Seq<char>,
>
    decreases ds.len(),
{
    if ds.len() == 0 {
        Err(method + ": no JSON-RPC response in http body"@)
    } else if has_id(ds[0], id) {
        outcome_of(ds[0], method)
    } else {
        answer_among(ds.skip(1), id, method)
    }
}

/// The answer among the documents of a response.
pub fn pick_answer(candidates: &[Json], id: u64, method: &str) -> (r: Result<Json, String>)
    ensures
        outcome_view(r) == answer_among(docs(candidates@), id as nat, method@),
{
    let ghost ds = docs(candidates@);
    let mut i: usize = 0;
    assert(ds.skip(0) =~= ds);
    while i < candidates.len()
        invariant
            ds == docs(candidates@),
            i <= ds.len(),
            answer_among(ds, id as nat, method@) == answer_among(
                ds.skip(i as int),
                id as nat,
                method@,
            ),
        decreases ds.len() - i,
    {
        assert(ds.skip(i as int)[0] == candidates@[i as int].view());
        assert(ds.skip(i as int).skip(1) =~= ds.skip(i + 1));
        if matches_id(&candidates[i], id) {
            return response_outcome(&candidates[i], method);
        }
        i += 1;
    }
    let mut out = method.to_owned();
    out.push_str(": no JSON-RPC response in http body");
    Err(out)
}

/// The answer in the body of an HTTP response.
pub fn http_answer(body: &str, id: u64, method: &str) -> (r: Result<Json, String>)
    ensures
        outcome_view(r) == answer_among(bodies(body@), id as nat, method@),
{
    pick_answer(&extract_jsonrpc_bodies(body), id, method)
}

/// What a message from a server means to a request that waits.
#[derive(Debug)]
pub enum Incoming {
    /// It is the response.
    Answer(Result<Json, String>),
    /// It is a ping; this goes back.
    Pong(Json),
    /// It is none of the request's business.
    Unrelated,
}

impl Incoming {
    /// Whether this is what the message `m` means to the request of number `id`: its
    /// response has the number and no method; a ping has a number and is answered.
    pub open spec fn means(self, m: JsonV, id: nat, method: Seq<char>) -> bool {
        let ours = has_id(m, id) && is_null(m, "method"@);
        let ping = json::member_text(m, "method"@) == Some("ping"@) && !is_null(m, "id"@);
        match self {
            Incoming::Answer(a) => ours && outcome_view(a) == outcome_of(m, method),
            Incoming::Pong(p) => !ours && ping && p.view() == pong_of(json::member(m, "id"@)->0),
            Incoming::Unrelated => !ours && !ping,
        }
    }
}

/// What a message means to the request of that number.
pub fn sort_message(msg: &Json, id: u64, method: &str) -> (r: Incoming)
    ensures
        r.means(msg.view(), id as nat, method@),
{
    if matches_id(msg, id) && null_member(msg, "method") {
        return Incoming::Answer(response_outcome(msg, method));
    }
    let ping = match msg.str_member("method") {
        Some(m) => text::eq(m, "ping"),
        None => false,
    };
    if ping && !null_member(msg, "id") {
        if let Some(n) = msg.get("id") {
            let mut o = rpc();
            o.insert("id".to_owned(), n.copy());
            o.insert("result".to_owned(), Json::Object(Object::new()));
            return Incoming::Pong(Json::Object(o));
        }
    }
    Incoming::Unrelated
}

/// What a line from a server means to the request of that number. Lines that are no
/// JSON are skipped.
pub fn on_line(line: &str, id: u64, method: &str) -> (r: Incoming)
    ensures
        match json::document(line@) {
            Ok(m) => r.means(m, id as nat, method@),
            Err(_) => r is Unrelated,
        },
{
    match json::parse(line) {
        Ok(m) => sort_message(&m, id, method),
        Err(_) => Incoming::Unrelated,
    }
}

/// Named values; a later binding of a name replaces an earlier one.
#[derive(Debug)]
pub struct Vars {
    pub entries: Vec<(String, String)>,
}

/// The values of a list of bindings.
pub open spec fn bindings(e: Seq<(String, String)>) -> Map<Seq<char>, Seq<char>>
    decreases e.len(),
{
    if e.len() == 0 {
        Map::empty()
    } else {
        bindings(e.drop_last()).insert(e.last().0@, e.last().1@)
    }
}

impl Vars {
    pub open spec fn view(self) -> Map<Seq<char>, Seq<char>> {
        bindings(self.entries@)
    }

    /// No values.
    pub fn new() -> (r: Vars)
        ensures
            r.view() == Map::<Seq<char>, Seq<char>>::empty(),
            r.entries@.len() == 0,
    {
        Vars { entries: Vec::new() }
    }

    /// Binds a name.
    pub fn insert(&mut self, key: String, value: String)
        ensures
            final(self).view() == old(self).view().insert(key@, value@),
            final(self).entries@.len() == old(self).entries@.len() + 1,
    {
        let ghost e = self.entries@;
        self.entries.push((key, value));
        assert(self.entries@.drop_last() =~= e);
    }

    /// The value of a name.
    pub fn get(&self, key: &[char]) -> (r: Option<&String>)
        ensures
            match r {
                Some(v) => self.view().contains_key(key@) && self.view()[key@] == v@,
                None => !self.view().contains_key(key@),
            },
    {
        let mut i: usize = self.entries.len();
        let ghost e = self.entries@;
        assert(e.take(e.len() as int) =~= e);
        while i > 0
            invariant
                e == self.entries@,
                i <= e.len(),
                bindings(e).contains_key(key@) == bindings(e.take(i as int)).contains_key(key@),
                bindings(e).contains_key(key@) ==> bindings(e)[key@] == bindings(
                    e.take(i as int),
                )[key@],
            decreases i,
        {
            assert(e.take(i as int).drop_last() =~= e.take(i - 1));
            if text::is(key, self.entries[i - 1].0.as_str()) {
                return Some(&self.entries[i - 1].1);
            }
            i -= 1;
        }
        None
    }

    /// Whether there is no value.
    pub fn is_empty(&self) -> (r: bool)
        ensures
            r == (self.entries@.len() == 0),
            r ==> self.view() == Map::<Seq<char>, Seq<char>>::empty(),
    {
        self.entries.len() == 0
    }
}

/// The value that a placeholder stands for, or the placeholder itself.
pub open spec fn value_for(
    name: Seq<char>,
    vars: Map<Seq<char>, Seq<char>>,
    env: Map<Seq<char>, Seq<char>>,
) -> Seq<char> {
    if vars.contains_key(name) {
        vars[name]
    } else if env.contains_key(name) {
        env[name]
    } else {
        "${"@ + name + "}"@
    }
}

/// `s` with its placeholders `${NAME}` resolved, from the profile first and the
/// environment second. A name that has no value is left as it stands, and so is an
/// unfinished placeholder.
pub open spec fn interpolated(
    s: Seq<char>,
    vars: Map<Seq<char>, Seq<char>>,
    env: Map<Seq<char>, Seq<char>>,
) -> Seq<char>
    decreases s.len(),
{
    match chars::find_str(s, "${"@) {
        Some(i) => {
            let after = s.skip(i + 2);
            let k = chars::find_char(after, '}');
            if 0 <= i && i + 2 <= s.len() && 0 <= k < after.len() {
                s.take(i) + value_for(after.take(k), vars, env) + interpolated(
                    after.skip(k + 1),
                    vars,
                    env,
                )
            } else {
                s
            }
        },
        None => s,
    }
}

/// Resolves the placeholders of `s`.
pub fn interpolate(s: &str, vars: &Vars, env: &Vars) -> (r: String)
    ensures
        r@ == interpolated(s@, vars.view(), env.view()),
{
    let all = text::chars_of(s);
    let total: usize = all.len();
    let mut out: String = String::new();
    let mut i: usize = 0;
    let ghost vm = vars.view();
    let ghost em = env.view();
    proof {
        reveal_strlit("${");
        assert(s@.skip(0) =~= s@);
        assert(out@ + interpolated(s@, vm, em) =~= interpolated(s@, vm, em));
    }
    loop
        invariant
            all@ == s@,
            total == all@.len(),
            i <= total,
            vm == vars.view(),
            em == env.view(),
            "${"@.len() == 2,
            out@ + interpolated(s@.skip(i as int), vm, em) == interpolated(s@, vm, em),
        decreases all@.len() - i,
    {
        let rest = text::from(&all, i);
        let n: usize = rest.len();
        let start: usize = match text::find_str(rest, "${") {
            Some(x) => x,
            None => {
                text::push_chars(&mut out, rest);
                return out;
            },
        };
        let after = text::from(rest, start + 2);
        let k = text::find_char(after, '}');
        if k >= after.len() {
            text::push_chars(&mut out, rest);
            return out;
        }
        let ghost o = out@;
        let name = text::upto(after, k);
        text::push_chars(&mut out, text::upto(rest, start));
        match vars.get(name) {
            Some(v) => {
                out.push_str(v.as_str());
            },
            None => match env.get(name) {
                Some(v) => {
                    out.push_str(v.as_str());
                },
                None => {
                    let mut kept = "${".to_owned();
                    text::push_chars(&mut kept, name);
                    kept.push_str("}");
                    out.push_str(kept.as_str());
                },
            },
        }
        proof {
            let v = value_for(name@, vm, em);
            let tail = after@.skip(k + 1);
            assert(tail =~= s@.skip(i + start + 2 + k + 1));
            assert(out@ == o + rest@.take(start as int) + v);
            assert(out@ + interpolated(tail, vm, em) =~= o + (rest@.take(start as int) + v
                + interpolated(tail, vm, em)));
        }
        assert(i + start + 2 + k + 1 <= total);
        i = i + start + 2 + k + 1;
    }
}

/// Law: a text without placeholders is left as it is.
pub proof fn plain_text_needs_no_values(
    s: Seq<char>,
    vars: Map<Seq<char>, Seq<char>>,
    env: Map<Seq<char>, Seq<char>>,
)
    requires
        !chars::contains_str(s, "${"@),
    ensures
        interpolated(s, vars, env) == s,
{
    chars::lemma_find_str_props(s, "${"@);
}

/// The section that a header line opens.
pub open spec fn section_of(l: Seq<char>) -> Option<Seq<char>> {
    if l.len() >= 2 && l[0] == '[' && l.last() == ']' {
        Some(l.subrange(1, l.len() - 1))
    } else {
        None
    }
}

/// The values of one section among the lines of a credentials file, and whether the
/// last line is in it.
pub open spec fn profile_at(lines: Seq<Seq<char>>, profile: Seq<char>) -> (
    bool,
    Map<Seq<char>, Seq<char>>,
)
    decreases lines.len(),
{
    if lines.len() == 0 {
        (false, Map::empty())
    } else {
        let (inside, m) = profile_at(lines.drop_last(), profile);
        let l = chars::trim(lines.last());
        match section_of(l) {
            Some(name) => (name == profile, m),
            None => {
                let i = chars::find_char(l, '=');
                if inside && 0 <= i < l.len() {
                    (inside, m.insert(chars::trim(l.take(i)), chars::trim(l.skip(i + 1))))
                } else {
                    (inside, m)
                }
            },
        }
    }
}

/// The values of one `[profile]` section of a credentials file.
pub fn profile_vars(content: &str, profile: &str) -> (r: Vars)
    ensures
        r.view() == profile_at(chars::lines(content@), profile@).1,
        r.entries@.len() == 0 ==> r.view() == Map::<Seq<char>, Seq<char>>::empty(),
{
    let all = text::chars_of(content);
    let ls = text::lines(&all);
    let ghost lv = chars::lines(content@);
    let mut vars = Vars::new();
    let mut inside = false;
    let mut i: usize = 0;
    assert(lv.take(0) =~= seq![]);
    while i < ls.len()
        invariant
            lv == text::views(ls@),
            i <= lv.len(),
            inside == profile_at(lv.take(i as int), profile@).0,
            vars.view() == profile_at(lv.take(i as int), profile@).1,
        decreases lv.len() - i,
    {
        assert(lv[i as int] == ls@[i as int]@);
        assert(lv.take(i + 1).drop_last() =~= lv.take(i as int));
        let l = text::trim(&ls[i]);
        let n: usize = l.len();
        if n >= 2 && l[0] == '[' && l[n - 1] == ']' {
            let name = text::upto(text::from(l, 1), n - 2);
            assert(name@ =~= l@.subrange(1, n - 1));
            inside = text::is(name, profile);
        } else {
            let k = text::find_char(l, '=');
            if inside && k < n {
                vars.insert(
                    text::string_of(text::trim(text::upto(l, k))),
                    text::string_of(text::trim(text::from(l, k + 1))),
                );
            }
        }
        i += 1;
    }
    assert(lv.take(i as int) =~= lv);
    vars
}

/// How a declared server is reached.
#[derive(Debug)]
pub enum Plan {
    /// A child process.
    Stdio { command: String, args: Vec<String>, env: Vec<(String, String)> },
    /// An endpoint, with headers and, perhaps, a credentials file and its profile.
    Http {
        url: String,
        headers: Vec<(String, String)>,
        credentials: Option<(String, String)>,
    },
}

/// The string members of an object, in order.
pub open spec fn string_members(e: Seq<(Seq<char>, JsonV)>, n: nat) -> Seq<(Seq<char>, Seq<char>)>
    decreases n,
{
    if n == 0 {
        seq![]
    } else {
        match e[n - 1].1 {
            JsonV::Str(s) => string_members(e, (n - 1) as nat).push((e[n - 1].0, s)),
            _ => string_members(e, (n - 1) as nat),
        }
    }
}

/// The string members of member `key`.
pub open spec fn strings_of(v: JsonV, key: Seq<char>) -> Seq<(Seq<char>, Seq<char>)> {
    match json::member(v, key) {
        Some(JsonV::Object(e)) => string_members(e, e.len()),
        _ => seq![],
    }
}

pub open spec fn text_pairs(v: Seq<(String, String)>) -> Seq<(Seq<char>, Seq<char>)> {
    v.map_values(|p: (String, String)| (p.0@, p.1@))
}

fn string_pairs(v: &Json, key: &str) -> (r: Vec<(String, String)>)
    ensures
        text_pairs(r@) == strings_of(v.view(), key@),
{
    let mut out: Vec<(String, String)> = Vec::new();
    assert(text_pairs(out@) =~= seq![]);
    if let Some(m) = v.get(key) {
        if let Json::Object(o) = m {
            let n: usize = o.len();
            let ghost e = o.view();
            let mut i: usize = 0;
            while i < n
                invariant
                    e == o.view(),
                    n == e.len(),
                    i <= n,
                    text_pairs(out@) == string_members(e, i as nat),
                decreases n - i,
            {
                let ghost before = text_pairs(out@);
                let key_i = o.key_at(i);
                if let Json::Str(s) = o.value_at(i) {
                    out.push((key_i.clone(), s.clone()));
                    assert(text_pairs(out@) =~= before.push((key_i@, s@)));
                }
                i += 1;
            }
        }
    }
    out
}

/// The strings among the items of member `args`, in order.
pub open spec fn args_of(v: JsonV) -> Seq<Seq<char>> {
    crate::activity::strings(array_at(v, "args"@))
}

fn string_args(v: &Json) -> (r: Vec<String>)
    ensures
        text::str_views(r@) == args_of(v.view()),
{
    let mut out: Vec<String> = Vec::new();
    assert(text::str_views(out@) =~= crate::activity::strings(seq![]));
    if let Some(m) = v.get("args") {
        if let Json::Array(items) = m {
            let ghost s = m.view()->Array_0;
            let mut i: usize = 0;
            assert(s.take(0) =~= seq![]);
            while i < items.len()
                invariant
                    s == Json::Array(*items).view()->Array_0,
                    i <= items@.len(),
                    text::str_views(out@) == crate::activity::strings(s.take(i as int)),
                decreases items@.len() - i,
            {
                let ghost before = text::str_views(out@);
                assert(s[i as int] == items@[i as int].view());
                assert(s.take(i + 1).drop_last() =~= s.take(i as int));
                if let Json::Str(x) = &items[i] {
                    out.push(x.clone());
                    assert(text::str_views(out@) =~= before.push(x@));
                }
                i += 1;
            }
            assert(s.take(i as int) =~= s);
        }
    }
    out
}

/// The credentials file and profile that a server declares.
pub open spec fn credentials_of(v: JsonV) -> Option<(Seq<char>, Seq<char>)> {
    match json::member(v, "credentials"@) {
        Some(c) => match (json::member_text(c, "file"@), json::member_text(c, "profile"@)) {
            (Some(f), Some(p)) => Some((f, p)),
            _ => None,
        },
        None => None,
    }
}

/// Reads how a declared server is reached: by a command, else by a URL, else not at
/// all.
pub fn plan_server(spec: &Json) -> (r: Result<Plan, String>)
    ensures
        ({
            let v = spec.view();
            match r {
                Ok(Plan::Stdio { command, args, env }) => json::member_text(v, "command"@) == Some(
                    command@,
                ) && text::str_views(args@) == args_of(v) && text_pairs(env@) == strings_of(
                    v,
                    "env"@,
                ),
                Ok(Plan::Http { url, headers, credentials }) => json::member_text(v, "command"@) is None
                    && json::member_text(v, "url"@) == Some(url@) && text_pairs(headers@)
                    == strings_of(v, "headers"@) && match credentials {
                    Some((f, p)) => credentials_of(v) == Some((f@, p@)),
                    None => credentials_of(v) is None,
                },
                Err(e) => json::member_text(v, "command"@) is None && json::member_text(v, "url"@) is None
                    && e@ == "server needs a `command` (stdio) or `url` (http)"@,
            }
        }),
{
    if let Some(c) = spec.str_member("command") {
        return Ok(
            Plan::Stdio {
                command: c.to_owned(),
                args: string_args(spec),
                env: string_pairs(spec, "env"),
            },
        );
    }
    if let Some(u) = spec.str_member("url") {
        let credentials = match spec.get("credentials") {
            Some(c) => match (c.str_member("file"), c.str_member("profile")) {
                (Some(f), Some(p)) => Some((f.to_owned(), p.to_owned())),
                _ => None,
            },
            None => None,
        };
        return Ok(
            Plan::Http { url: u.to_owned(), headers: string_pairs(spec, "headers"), credentials },
        );
    }
    Err("server needs a `command` (stdio) or `url` (http)".to_owned())
}

/// The URL and headers of an endpoint with their placeholders resolved; an error
/// when a profile was asked for and holds nothing.
pub fn resolve_endpoint(
    url: &str,
    headers: &[(String, String)],
    credentials: Option<(&str, &str)>,
    vars: &Vars,
    env: &Vars,
) -> (r: Result<(String, Vec<(String, String)>), String>)
    ensures
        match r {
            Ok((u, h)) => (credentials is Some ==> vars.entries@.len() > 0) && u@ == interpolated(
                url@,
                vars.view(),
                env.view(),
            ) && h@.len() == headers@.len() && forall|i: int|
                0 <= i < h@.len() ==> (#[trigger] h@[i]).0@ == headers@[i].0@ && h@[i].1@
                    == interpolated(headers@[i].1@, vars.view(), env.view()),
            Err(e) => vars.entries@.len() == 0 && (credentials matches Some((file, profile)) && e@
                == "credentials profile ["@ + profile@ + "] not found in "@ + file@),
        },
{
    if let Some((file, profile)) = credentials {
        if vars.is_empty() {
            let mut e = "credentials profile [".to_owned();
            e.push_str(profile);
            e.push_str("] not found in ");
            e.push_str(file);
            return Err(e);
        }
    }
    let mut out: Vec<(String, String)> = Vec::new();
    let mut i: usize = 0;
    while i < headers.len()
        invariant
            i <= headers@.len(),
            out@.len() == i,
            forall|j: int|
                0 <= j < i ==> (#[trigger] out@[j]).0@ == headers@[j].0@ && out@[j].1@
                    == interpolated(headers@[j].1@, vars.view(), env.view()),
        decreases headers@.len() - i,
    {
        out.push((headers[i].0.clone(), interpolate(headers[i].1.as_str(), vars, env)));
        i += 1;
    }
    Ok((interpolate(url, vars, env), out))
}

/// The error of a response that is no success, with the start of its body.
pub fn http_error(status: &str, body: &str) -> (r: String)
    ensures
        r@ == "http "@ + status@ + ": "@ + (if body@.len() > 200 {
            body@.take(200)
        } else {
            body@
        }),
{
    let mut out = "http ".to_owned();
    out.push_str(status);
    out.push_str(": ");
    let all = text::chars_of(body);
    if all.len() > 200 {
        text::push_chars(&mut out, text::upto(&all, 200));
    } else {
        text::push_chars(&mut out, &all);
    }
    out
}

/// Law: a name leads to the first server, and there to the first tool, that has it; where
/// none has it, it leads nowhere.
pub proof fn names_lead_to_the_first(s: Seq<ServerV>, t: Seq<ToolV>, name: Seq<char>, i: int)
    ensures
        0 <= i < s.len() && s[i].name == name && (forall|j: int|
            0 <= j < i ==> (#[trigger] s[j]).name != name) ==> server_at(s, name) == Some(i),
        (forall|j: int| 0 <= j < s.len() ==> (#[trigger] s[j]).name != name) ==> server_at(s, name)
            == None::<int>,
        0 <= i < t.len() && t[i].name == name && (forall|j: int|
            0 <= j < i ==> (#[trigger] t[j]).name != name) ==> tool_at(t, name) == Some(i),
        (forall|j: int| 0 <= j < t.len() ==> (#[trigger] t[j]).name != name) ==> tool_at(t, name)
            == None::<int>,
{
    if 0 <= i < s.len() && s[i].name == name && (forall|j: int|
        0 <= j < i ==> (#[trigger] s[j]).name != name) {
        lemma_server_at(s, name, i);
    }
    if forall|j: int| 0 <= j < s.len() ==> (#[trigger] s[j]).name != name {
        lemma_server_at(s, name, s.len() as int);
    }
    if 0 <= i < t.len() && t[i].name == name && (forall|j: int|
        0 <= j < i ==> (#[trigger] t[j]).name != name) {
        lemma_tool_at(t, name, i);
    }
    if forall|j: int| 0 <= j < t.len() ==> (#[trigger] t[j]).name != name {
        lemma_tool_at(t, name, t.len() as int);
    }
}

/// Law: a tool counts as read-only when its own server says so: under its qualified name
/// it is what its server's entry says, and what no server has is not read-only.
pub proof fn read_only_is_what_the_server_says(s: Seq<ServerV>, i: int, j: int, q: Seq<char>)
    requires
        0 <= i < s.len(),
        0 <= j < s[i].tools.len(),
        !chars::contains_str(s[i].name + "_"@, "__"@),
        forall|k: int| 0 <= k < i ==> (#[trigger] s[k]).name != s[i].name,
        forall|k: int| 0 <= k < j ==> (#[trigger] s[i].tools[k]).name != s[i].tools[j].name,
    ensures
        reads_only(s, qualified(s[i].name, s[i].tools[j].name)) == s[i].tools[j].read_only,
        !chars::starts_with(q, "mcp__"@) ==> !reads_only(s, q),
{
    qualified_names_lead_back(s[i].name, s[i].tools[j].name);
    lemma_server_at(s, s[i].name, i);
    lemma_tool_at(s[i].tools, s[i].tools[j].name, j);
}

/// Law: every tool of every server is told of, under its qualified name and with its own
/// description and schema.
pub proof fn every_tool_is_told(s: Seq<ServerV>, i: int, j: int)
    requires
        0 <= i < s.len(),
        0 <= j < s[i].tools.len(),
    ensures
        all_defs(s).contains(
            DefV {
                name: "mcp__"@ + s[i].name + "__"@ + s[i].tools[j].name,
                description: s[i].tools[j].description,
                schema: s[i].tools[j].schema,
            },
        ),
    decreases s.len(),
{
    let d = DefV {
        name: "mcp__"@ + s[i].name + "__"@ + s[i].tools[j].name,
        description: s[i].tools[j].description,
        schema: s[i].tools[j].schema,
    };
    let before = all_defs(s.drop_last());
    let own = server_defs(s.last());
    let all = before + own;
    if i < s.len() - 1 {
        assert(s.drop_last()[i] == s[i]);
        every_tool_is_told(s.drop_last(), i, j);
        let k = choose|k: int| 0 <= k < before.len() && before[k] == d;
        assert(all[k] == d);
    } else {
        assert(own[j] == d);
        assert(all[before.len() + j] == d);
    }
}

/// Law: a listed item with a name is a tool, in its place among the others; it only reads
/// where its annotations say so in so many words. An item without a name is none.
pub proof fn named_items_are_tools(items: Seq<JsonV>, t: JsonV)
    ensures
        json::member_text(t, "name"@) is None ==> listed(items.push(t)) == listed(items),
        json::member_text(t, "name"@) matches Some(name) ==> {
            let all = listed(items.push(t));
            &&& all.len() == listed(items).len() + 1
            &&& all.drop_last() == listed(items)
            &&& all.last().name == name
            &&& json::member_text(t, "description"@) matches Some(d) ==> all.last().description == d
            &&& json::member(t, "inputSchema"@) matches Some(s) ==> all.last().schema == s
            &&& all.last().read_only <==> (json::member(t, "annotations"@) matches Some(a)
                && json::member(a, "readOnlyHint"@) == Some(JsonV::Bool(true)))
        },
{
    assert(items.push(t).drop_last() =~= items);
    if json::member_text(t, "name"@) is Some {
        assert(listed(items.push(t)).drop_last() =~= listed(items));
    }
}

proof fn lemma_two(k1: Seq<char>, v1: JsonV, k2: Seq<char>, v2: JsonV)
    requires
        k1 != k2,
    ensures
        ({
            let e = json::bind(json::bind(seq![], k1, v1), k2, v2);
            json::lookup(e, k1) == Some(v1) && json::lookup(e, k2) == Some(v2)
        }),
{
    json::lookup_after_bind(seq![], k1, v1, k2);
    json::lookup_after_bind(json::bind(seq![], k1, v1), k2, v2, k1);
}

/// Law: a request carries the protocol's version, its own number, its method and its
/// parameters; the server's answer is known by that number. A notification has no number
/// and is never answered.
pub proof fn requests_are_known_by_their_number(
    id: nat,
    other: nat,
    method: Seq<char>,
    params: JsonV,
)
    requires
        id <= u64::MAX,
    ensures
        ({
            let r = request_of(id, method, params);
            &&& json::member_text(r, "jsonrpc"@) == Some("2.0"@)
            &&& json::member_text(r, "method"@) == Some(method)
            &&& json::member(r, "params"@) == Some(params)
            &&& has_id(r, other) <==> id == other
        }),
        json::member_text(notice_of(method), "jsonrpc"@) == Some("2.0"@),
        json::member_text(notice_of(method), "method"@) == Some(method),
        json::member(notice_of(method), "id"@) is None,
{
    reveal_strlit("jsonrpc");
    reveal_strlit("id");
    reveal_strlit("method");
    reveal_strlit("params");
    assert("jsonrpc"@.len() == 7 && "id"@.len() == 2 && "method"@.len() == 6);
    assert("method"@[0] != "params"@[0]);
    let none = Seq::<(Seq<char>, JsonV)>::empty();
    let v = JsonV::Str("2.0"@);
    let n = JsonV::Number(chars::dec(id));
    let m = JsonV::Str(method);
    let e1 = json::bind(none, "jsonrpc"@, v);
    let e2 = json::bind(e1, "id"@, n);
    let e3 = json::bind(e2, "method"@, m);
    json::lookup_after_bind(none, "jsonrpc"@, v, "id"@);
    json::lookup_after_bind(e1, "id"@, n, "jsonrpc"@);
    json::lookup_after_bind(e2, "method"@, m, "jsonrpc"@);
    json::lookup_after_bind(e2, "method"@, m, "id"@);
    json::lookup_after_bind(e3, "params"@, params, "jsonrpc"@);
    json::lookup_after_bind(e3, "params"@, params, "id"@);
    json::lookup_after_bind(e3, "params"@, params, "method"@);
    json::lookup_after_bind(e1, "method"@, m, "jsonrpc"@);
    json::lookup_after_bind(e1, "method"@, m, "id"@);
    assert(json::lookup(none, "id"@) is None);
    chars::lemma_dec_digits(id);
}

/// Law: a call names its tool and hands over its arguments; a pong answers with the
/// number of the ping; a greeting names the protocol and the client.
pub proof fn messages_say_what_they_carry(
    tool: Seq<char>,
    args: JsonV,
    id: JsonV,
    version: Seq<char>,
)
    ensures
        json::member_text(call_params_of(tool, args), "name"@) == Some(tool),
        json::member(call_params_of(tool, args), "arguments"@) == Some(args),
        json::member(pong_of(id), "id"@) == Some(id),
        json::member(pong_of(id), "result"@) == Some(JsonV::Object(seq![])),
        json::member_text(hello_of(version), "protocolVersion"@) == Some(PROTOCOL_VERSION@),
        json::member(hello_of(version), "clientInfo"@) matches Some(c) && json::member_text(
            c,
            "name"@,
        ) == Some("aish"@) && json::member_text(c, "version"@) == Some(version),
{
    reveal_strlit("name");
    reveal_strlit("arguments");
    reveal_strlit("jsonrpc");
    reveal_strlit("id");
    reveal_strlit("result");
    reveal_strlit("version");
    reveal_strlit("protocolVersion");
    reveal_strlit("capabilities");
    reveal_strlit("clientInfo");
    assert("name"@.len() == 4 && "arguments"@.len() == 9 && "id"@.len() == 2 && "result"@.len() == 6
        && "version"@.len() == 7 && "protocolVersion"@.len() == 15 && "capabilities"@.len() == 12
        && "clientInfo"@.len() == 10);
    lemma_two("name"@, JsonV::Str(tool), "arguments"@, args);
    let none = Seq::<(Seq<char>, JsonV)>::empty();
    let e1 = json::bind(none, "jsonrpc"@, JsonV::Str("2.0"@));
    let e2 = json::bind(e1, "id"@, id);
    json::lookup_after_bind(e1, "id"@, id, "result"@);
    json::lookup_after_bind(e2, "result"@, JsonV::Object(seq![]), "id"@);
    lemma_two("name"@, JsonV::Str("aish"@), "version"@, JsonV::Str(version));
    let p = JsonV::Str(PROTOCOL_VERSION@);
    let c = JsonV::Object(
        json::bind(
            json::bind(none, "name"@, JsonV::Str("aish"@)),
            "version"@,
            JsonV::Str(version),
        ),
    );
    lemma_two("protocolVersion"@, p, "capabilities"@, JsonV::Object(seq![]));
    let h = json::bind(
        json::bind(none, "protocolVersion"@, p),
        "capabilities"@,
        JsonV::Object(seq![]),
    );
    json::lookup_after_bind(h, "clientInfo"@, c, "protocolVersion"@);
}

/// Law: a response without an error gives its result; one with an error gives the
/// method's name and the error's message.
pub proof fn responses_give_result_or_error(v: JsonV, method: Seq<char>)
    ensures
        json::member(v, "error"@) is None || json::member(v, "error"@) == Some(JsonV::Null) ==> (
        json::member(v, "result"@) matches Some(r) ==> outcome_of(v, method) == Ok::<
            JsonV,
            Seq<char>,
        >(r)),
        json::member(v, "error"@) matches Some(e) ==> e != JsonV::Null ==> outcome_of(v, method) is Err,
        json::member(v, "error"@) matches Some(e) ==> e != JsonV::Null ==> (json::member_text(
            e,
            "message"@,
        ) matches Some(m) ==> outcome_of(v, method) == Err::<JsonV, Seq<char>>(method + ": "@ + m)),
{
}

/// Law: among the documents of a body the first with the request's number answers it, and
/// documents with other numbers are passed over.
pub proof fn the_first_answer_counts(ds: Seq<JsonV>, id: nat, method: Seq<char>, i: int)
    requires
        0 <= i < ds.len(),
        has_id(ds[i], id),
        forall|j: int| 0 <= j < i ==> !has_id(#[trigger] ds[j], id),
    ensures
        answer_among(ds, id, method) == outcome_of(ds[i], method),
    decreases ds.len(),
{
    if i > 0 {
        assert(!has_id(ds[0], id));
        let t = ds.skip(1);
        assert forall|j: int| 0 <= j < i - 1 implies !has_id(#[trigger] t[j], id) by {
            assert(t[j] == ds[j + 1]);
        }
        the_first_answer_counts(t, id, method, i - 1);
    }
}

/// Law: every `data:` line that holds a document adds it, in order; other lines add
/// nothing.
pub proof fn data_lines_are_all_read(lines: Seq<Seq<char>>, s: Seq<char>, other: Seq<char>)
    requires
        !chars::starts_with(other, "data:"@),
    ensures
        json::document(chars::trim(s)) matches Ok(v) ==> data_bodies(lines.push("data:"@ + s))
            == data_bodies(lines).push(v),
        data_bodies(lines.push(other)) == data_bodies(lines),
{
    reveal_strlit("data:");
    let l = "data:"@ + s;
    assert(lines.push(l).drop_last() =~= lines);
    assert(lines.push(other).drop_last() =~= lines);
    assert(l.subrange(0, 5) =~= "data:"@);
    assert(l.skip(5) =~= s);
}

/// Law: a placeholder is replaced by its value, from the profile where that has one, else
/// from the environment; without a value it stays as it stands. What is around it is
/// treated on its own.
pub proof fn placeholders_get_their_values(
    a: Seq<char>,
    name: Seq<char>,
    rest: Seq<char>,
    vars: Map<Seq<char>, Seq<char>>,
    env: Map<Seq<char>, Seq<char>>,
)
    requires
        !chars::contains_str(a, "${"@),
        !name.contains('}'),
    ensures
        ({
            let s = a + "${"@ + name + seq!['}'] + rest;
            let tail = interpolated(rest, vars, env);
            &&& vars.contains_key(name) ==> interpolated(s, vars, env) == a + vars[name] + tail
            &&& !vars.contains_key(name) && env.contains_key(name) ==> interpolated(s, vars, env) == a
                + env[name] + tail
            &&& !vars.contains_key(name) && !env.contains_key(name) ==> interpolated(s, vars, env)
                == a + ("${"@ + name + "}"@) + tail
        }),
{
    reveal_strlit("${");
    let open = "${"@;
    let s = a + open + name + seq!['}'] + rest;
    let n = a.len() as int;
    assert(s.subrange(n, n + 2) =~= open);
    assert forall|j: int| 0 <= j < n implies !chars::matches_at(s, open, j) by {
        if chars::matches_at(s, open, j) {
            assert(s.subrange(j, j + 2)[0] == s[j]);
            assert(s.subrange(j, j + 2)[1] == s[j + 1]);
            if j + 1 < n {
                assert(a.subrange(j, j + 2) =~= open);
                assert(chars::matches_at(a, open, j));
            } else {
                assert(s[n] == '$');
            }
        }
    }
    chars::lemma_find_str(s, open, n);
    let after = s.skip(n + 2);
    let k = name.len() as int;
    let f = chars::is_char('}');
    assert forall|j: int| 0 <= j < k implies !f(#[trigger] after[j]) by {
        assert(after[j] == name[j]);
    }
    assert(after[k] == '}');
    chars::lemma_find(after, f, k);
    assert(s.take(n) =~= a);
    assert(after.take(k) =~= name);
    assert(after.skip(k + 1) =~= rest);
}

/// Law: the values of a profile are the lines `key = value` behind its own header, up to
/// the next header; of two values for one key the later counts.
pub proof fn profiles_are_their_own_lines(
    lines: Seq<Seq<char>>,
    profile: Seq<char>,
    name: Seq<char>,
    key: Seq<char>,
    value: Seq<char>,
)
    requires
        !key.contains('='),
        key.len() > 0,
        value.len() > 0,
        !chars::is_ws(key[0]),
        key[0] != '[',
        !chars::is_ws(value.last()),
    ensures
        ({
            let (inside, m) = profile_at(lines, profile);
            &&& profile_at(lines.push(seq!['['] + name + seq![']']), profile) == (name == profile, m)
            &&& profile_at(lines.push(key + seq!['='] + value), profile) == (
                inside,
                if inside {
                    m.insert(chars::trim(key), chars::trim(value))
                } else {
                    m
                },
            )
        }),
{
    let h = seq!['['] + name + seq![']'];
    assert(lines.push(h).drop_last() =~= lines);
    assert(h[0] == '[' && h.last() == ']');
    assert(chars::trim(h) == h);
    assert(h.subrange(1, h.len() - 1) =~= name);
    let l = key + seq!['='] + value;
    assert(lines.push(l).drop_last() =~= lines);
    assert(l[0] == key[0] && l.last() == value.last());
    assert(chars::trim(l) == l);
    let n = key.len() as int;
    let f = chars::is_char('=');
    assert forall|j: int| 0 <= j < n implies !f(#[trigger] l[j]) by {
        assert(l[j] == key[j]);
    }
    assert(l[n] == '=');
    chars::lemma_find(l, f, n);
    assert(l.take(n) =~= key);
    assert(l.skip(n + 1) =~= value);
}

/// Law: every string member of a declared object is handed on under its name, and nothing
/// else is.
pub proof fn string_members_are_handed_on(v: JsonV, key: Seq<char>, e: Seq<(Seq<char>, JsonV)>, i: int, x: (Seq<char>, Seq<char>))
    requires
        json::member(v, key) == Some(JsonV::Object(e)),
        0 <= i < e.len(),
    ensures
        e[i].1 matches JsonV::Str(s) ==> strings_of(v, key).contains((e[i].0, s)),
        strings_of(v, key).contains(x) ==> e.contains((x.0, JsonV::Str(x.1))),
{
    lemma_string_member(e, e.len(), i);
    lemma_only_strings(e, e.len(), x);
}

proof fn lemma_string_member(e: Seq<(Seq<char>, JsonV)>, n: nat, i: int)
    requires
        0 <= i < n <= e.len(),
    ensures
        e[i].1 matches JsonV::Str(s) ==> string_members(e, n).contains((e[i].0, s)),
    decreases n,
{
    if let JsonV::Str(s) = e[i].1 {
        let before = string_members(e, (n - 1) as nat);
        let all = string_members(e, n);
        if i == n - 1 {
            assert(all[before.len() as int] == (e[i].0, s));
        } else {
            lemma_string_member(e, (n - 1) as nat, i);
            let k = choose|k: int| 0 <= k < before.len() && before[k] == (e[i].0, s);
            assert(all[k] == before[k]);
        }
    }
}

proof fn lemma_only_strings(e: Seq<(Seq<char>, JsonV)>, n: nat, x: (Seq<char>, Seq<char>))
    requires
        n <= e.len(),
    ensures
        string_members(e, n).contains(x) ==> e.contains((x.0, JsonV::Str(x.1))),
    decreases n,
{
    if n > 0 && string_members(e, n).contains(x) {
        let before = string_members(e, (n - 1) as nat);
        let all = string_members(e, n);
        let k = choose|k: int| 0 <= k < all.len() && all[k] == x;
        lemma_only_strings(e, (n - 1) as nat, x);
        if k < before.len() {
            assert(before[k] == x);
        } else {
            assert(e[n - 1] == (x.0, JsonV::Str(x.1)));
        }
    }
}

/// Law: credentials take both a file and a profile.
pub proof fn credentials_take_file_and_profile(
    e: Seq<(Seq<char>, JsonV)>,
    c: Seq<(Seq<char>, JsonV)>,
    file: Seq<char>,
    profile: Seq<char>,
)
    ensures
        ({
            let both = json::bind(json::bind(c, "file"@, JsonV::Str(file)), "profile"@, JsonV::Str(profile));
            let none = json::bind(json::bind(c, "file"@, JsonV::Str(file)), "profile"@, JsonV::Null);
            let other = json::bind(json::bind(c, "profile"@, JsonV::Str(profile)), "file"@, JsonV::Null);
            &&& credentials_of(JsonV::Object(json::bind(e, "credentials"@, JsonV::Object(both))))
                == Some((file, profile))
            &&& credentials_of(JsonV::Object(json::bind(e, "credentials"@, JsonV::Object(none)))) is None
            &&& credentials_of(JsonV::Object(json::bind(e, "credentials"@, JsonV::Object(other)))) is None
        }),
{
    reveal_strlit("file");
    reveal_strlit("profile");
    assert("file"@.len() != "profile"@.len());
    let f = json::bind(c, "file"@, JsonV::Str(file));
    let p = json::bind(c, "profile"@, JsonV::Str(profile));
    let both = json::bind(f, "profile"@, JsonV::Str(profile));
    let none = json::bind(f, "profile"@, JsonV::Null);
    let other = json::bind(p, "file"@, JsonV::Null);
    json::lookup_after_bind(c, "file"@, JsonV::Str(file), "file"@);
    json::lookup_after_bind(f, "profile"@, JsonV::Str(profile), "file"@);
    json::lookup_after_bind(f, "profile"@, JsonV::Null, "file"@);
    json::lookup_after_bind(p, "file"@, JsonV::Null, "file"@);
    json::lookup_after_bind(e, "credentials"@, JsonV::Object(both), "credentials"@);
    json::lookup_after_bind(e, "credentials"@, JsonV::Object(none), "credentials"@);
    json::lookup_after_bind(e, "credentials"@, JsonV::Object(other), "credentials"@);
}

/// Law: a message is an answer only under the number of its request; a ping of the server's
/// own is answered under its number, whichever request waits.
pub proof fn pings_are_answered(w: Incoming, m: JsonV, id: nat, method: Seq<char>)
    requires
        w.means(m, id, method),
    ensures
        w is Answer ==> has_id(m, id),
        has_id(m, id) && json::member(m, "method"@) is None ==> w is Answer,
        json::member_text(m, "method"@) == Some("ping"@) ==> !(w is Answer),
        json::member_text(m, "method"@) == Some("ping"@) && has_id(m, id) ==> w is Pong,
        w matches Incoming::Pong(p) ==> json::member_text(m, "method"@) == Some("ping"@)
            && json::member(p.view(), "id"@) == json::member(m, "id"@),
{
    if json::member(m, "id"@) is Some {
        let pid = json::member(m, "id"@)->0;
        messages_say_what_they_carry(seq![], JsonV::Null, pid, seq![]);
    }
}

} // verus!
