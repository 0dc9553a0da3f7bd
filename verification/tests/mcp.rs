use aish::json::{self, Json, Object};
use aish::mcp::{
    call_params, call_result, config_servers, extract_jsonrpc_bodies, hello_params, http_answer,
    http_error, interpolate, listed_tools, notification, on_line, plan_server, profile_vars,
    resolve_endpoint, response_outcome, Incoming, McpHost, McpServer, Plan, RouteError, Vars,
};

fn value(s: &str) -> Json {
    json::parse(s).unwrap()
}

fn get<'a>(vars: &'a Vars, key: &str) -> Option<&'a String> {
    let key: Vec<char> = key.chars().collect();
    vars.get(&key)
}

fn host() -> McpHost {
    let mut server = McpServer::new("mock");
    server.tools = listed_tools(&value(
        r#"{"tools":[
            {"name":"add","description":"Add two numbers","inputSchema":{"type":"object"}},
            {"name":"peek","annotations":{"readOnlyHint":true}}
        ]}"#,
    ));
    let mut host = McpHost::new();
    host.add_server(server);
    host
}

#[test]
fn interpolation_and_profiles() {
    let creds = "[other]\nKEY = nope\n[aish]\nKEY = k123\nTENANT=t_1\n";
    let vars = profile_vars(creds, "aish");
    let env = Vars::new();
    assert_eq!(get(&vars, "KEY").unwrap(), "k123");
    assert_eq!(get(&vars, "TENANT").unwrap(), "t_1");
    assert!(profile_vars(creds, "missing").is_empty());

    assert_eq!(interpolate("https://h/${TENANT}/mcp", &vars, &env), "https://h/t_1/mcp");
    assert_eq!(interpolate("${KEY}", &vars, &env), "k123");
    assert_eq!(interpolate("${UNSET_XYZ}", &vars, &env), "${UNSET_XYZ}");
}

#[test]
fn sse_and_json_bodies() {
    let plain = extract_jsonrpc_bodies(r#"{"jsonrpc":"2.0","id":1,"result":{}}"#);
    assert_eq!(plain.len(), 1);
    let sse = extract_jsonrpc_bodies(
        "event: message\ndata: {\"jsonrpc\":\"2.0\",\"id\":2,\"result\":{\"ok\":true}}\n\n",
    );
    assert_eq!(sse.len(), 1);
    assert_eq!(sse[0].get("id").unwrap().as_u64(), Some(2));
}

#[test]
fn tools_are_listed_and_routed() {
    let host = host();
    let defs = host.tool_defs();
    assert_eq!(defs.len(), 2);
    assert_eq!(defs[0].name, "mcp__mock__add");
    assert_eq!(defs[0].description, "Add two numbers");
    assert!(host.claims("mock"));
    assert!(!host.claims("other"));
    assert!(host.is_read_only("mcp__mock__peek"));
    assert!(!host.is_read_only("mcp__mock__add"));
    assert_eq!(host.route("mcp__mock__add").unwrap(), (0, "add".to_string()));
    let e: RouteError = host.route("mcp__other__add").unwrap_err();
    assert!(e.message().contains("other"), "{}", e.message());
    assert!(host.route("add").is_err());
}

#[test]
fn requests_are_numbered() {
    let mut s = McpServer::new("mock");
    let (a, first) = s.request("tools/list", Json::Object(Object::new()));
    let (b, _) = s.request("tools/list", Json::Object(Object::new()));
    assert_eq!(b, a + 1);
    assert_eq!(
        json::to_compact(&first),
        format!(r#"{{"id":{a},"jsonrpc":"2.0","method":"tools/list","params":{{}}}}"#)
    );
    assert_eq!(
        json::to_compact(&notification("notifications/initialized")),
        r#"{"jsonrpc":"2.0","method":"notifications/initialized"}"#
    );
    assert_eq!(
        json::to_compact(&call_params("add", &value(r#"{"a":2}"#))),
        r#"{"arguments":{"a":2},"name":"add"}"#
    );
    assert!(json::to_compact(&hello_params("1.2.3")).contains("\"1.2.3\""));
}

#[test]
fn results_are_their_text() {
    assert_eq!(
        call_result(&value(r#"{"content":[{"type":"text","text":"5"}],"isError":false}"#)),
        Ok("5".to_string())
    );
    assert_eq!(
        call_result(&value(r#"{"content":[{"type":"text","text":"bad"}],"isError":true}"#)),
        Err("bad".to_string())
    );
}

#[test]
fn answers_are_matched_by_number() {
    let body = "data: {\"id\":1,\"result\":\"one\"}\n\ndata: {\"id\":2,\"result\":\"two\"}\n\n";
    assert_eq!(http_answer(body, 2, "m").unwrap().as_str(), Some("two"));
    assert!(http_answer("", 2, "m").is_err());
    let e = response_outcome(&value(r#"{"id":1,"error":{"code":-1,"message":"no"}}"#), "m");
    assert!(e.unwrap_err().contains("no"));
    assert!(matches!(on_line("not json", 1, "m"), Incoming::Unrelated));
    assert!(matches!(on_line(r#"{"id":7,"result":1}"#, 1, "m"), Incoming::Unrelated));
    match on_line(r#"{"id":1,"result":1}"#, 1, "m") {
        Incoming::Unrelated => panic!("the answer was missed"),
        other => assert!(format!("{other:?}").contains('1')),
    }
}

#[test]
fn servers_are_planned_and_resolved() {
    let config = value(
        r#"{"mcpServers":{"a":{"command":"python3","args":["s.py"],"env":{"K":"v"}},
            "b":{"url":"https://h/${T}","headers":{"X-Key":"${K}"},
                 "credentials":{"file":"~/.c","profile":"p"}}}}"#,
    );
    let servers = config_servers(&config);
    assert_eq!(servers.len(), 2);
    match plan_server(&servers[0].1).unwrap() {
        Plan::Stdio { command, args, env } => {
            assert_eq!(command, "python3");
            assert_eq!(args, ["s.py"]);
            assert_eq!(env, [("K".to_string(), "v".to_string())]);
        }
        other => panic!("{other:?}"),
    }
    let Plan::Http { url, headers, credentials } = plan_server(&servers[1].1).unwrap() else {
        panic!("expected an endpoint");
    };
    assert_eq!(credentials, Some(("~/.c".to_string(), "p".to_string())));
    let mut vars = Vars::new();
    assert_eq!(
        resolve_endpoint(&url, &headers, Some(("~/.c", "p")), &vars, &Vars::new()).unwrap_err(),
        "credentials profile [p] not found in ~/.c"
    );
    vars.insert("K".into(), "key".into());
    let mut env = Vars::new();
    env.insert("T".into(), "tenant".into());
    env.insert("K".into(), "shadowed".into());
    let (u, h) = resolve_endpoint(&url, &headers, None, &vars, &env).unwrap();
    assert_eq!(u, "https://h/tenant");
    assert_eq!(h, [("X-Key".to_string(), "key".to_string())]);
    assert_eq!(
        plan_server(&value("{}")).unwrap_err(),
        "server needs a `command` (stdio) or `url` (http)"
    );
    assert_eq!(http_error("500", "oops"), "http 500: oops");
    assert_eq!(http_error("500", &"x".repeat(300)).len(), 210);
}

#[test]
fn the_first_server_of_a_name_is_the_one_that_is_called() {
    let mut host = host();
    host.add_server(aish::mcp::McpServer::new("late"));
    host.add_server(aish::mcp::McpServer::new("mock"));
    assert_eq!(host.route("mcp__mock__add").unwrap().0, 0);
    assert_eq!(host.route("mcp__late__x").unwrap(), (1, "x".to_string()));
    for def in host.tool_defs() {
        assert!(host.route(&def.name).is_ok(), "{}", def.name);
    }
}

#[test]
fn each_routing_error_has_its_message() {
    let host = host();
    assert_eq!(host.route("add").unwrap_err().message(), "not an mcp tool: add");
    assert_eq!(
        host.route("mcp__mock").unwrap_err().message(),
        "malformed mcp tool name: mcp__mock"
    );
    assert_eq!(
        host.route("mcp__other__add").unwrap_err().message(),
        "unknown mcp server: other"
    );
}

#[test]
fn a_server_keeps_its_counter_when_it_is_added() {
    let mut server = McpServer::new("s");
    server.request("a", Json::Null);
    server.request("b", Json::Null);
    let mut host = McpHost::new();
    host.add_server(server);
    assert_eq!(host.servers.len(), 1);
    assert_eq!(host.servers[0].next_id, 2);
    assert!(host.claims("s"));
}
