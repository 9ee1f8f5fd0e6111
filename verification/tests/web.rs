use cortex::server::http::{HealthResponse, QueryRequest, SearchRequest, SyncResponse};
use cortex::server::mcp::get_cortex_resources;
use cortex::tasks::default_projects;
use cortex::ui::dashboard::{
    ApiResponse, DashboardMetrics, MemoryDisplay, PaginatedResponse, StatusLevel, SystemStatus,
    Theme, UserPreferences, WebUIConfig,
};

fn display(content: &str) -> MemoryDisplay {
    MemoryDisplay {
        id: "1".to_string(),
        content: content.to_string(),
        path: "p".to_string(),
        created_at: "now".to_string(),
        tags: vec![],
    }
}

#[test]
fn preview_cuts_long_content() {
    assert_eq!(display("hello world").preview(5), "hello...");
    assert_eq!(display("hello").preview(5), "hello");
    assert_eq!(display("héllo").preview(3), "hél...");
    assert_eq!(display("héllo").preview(2), "hé...");
    assert_eq!(display("héllo").preview(5), "héllo");
    assert_eq!(display("日本語テキスト").preview(3), "日本語...");
}

#[test]
fn api_responses() {
    let ok: ApiResponse<u32> = ApiResponse::ok(7);
    assert!(ok.success && ok.data == Some(7) && ok.error.is_none());
    let err: ApiResponse<u32> = ApiResponse::err("E1", "bad");
    assert!(!err.success && err.data.is_none());
    let e = err.error.unwrap();
    assert_eq!((e.code.as_str(), e.message.as_str()), ("E1", "bad"));
}

#[test]
fn pagination_flags() {
    let p = PaginatedResponse::new(vec![1, 2], 5, 1, 2);
    assert!(p.has_next && !p.has_prev);
    let p = PaginatedResponse::new(vec![5], 5, 3, 2);
    assert!(!p.has_next && p.has_prev);
    let p: PaginatedResponse<u8> = PaginatedResponse::new(vec![], 4, 2, 2);
    assert!(!p.has_next && p.has_prev);
}

#[test]
fn defaults() {
    let m = DashboardMetrics::default();
    assert_eq!(m.total_memories + m.queries_today, 0);
    let s = SystemStatus::default();
    assert_eq!(s.status, StatusLevel::Healthy);
    assert_eq!(s.version, "0.2.0");
    let p = UserPreferences::default();
    assert_eq!(p.theme, Theme::Dark);
    assert_eq!(p.language, "en");
    let c = WebUIConfig::default();
    assert_eq!(c.title, "Cortex");
    assert_eq!(c.features.len(), 4);
    assert!(c.features.iter().all(|(_, on)| *on));
}

#[test]
fn resources_and_projects() {
    let r = get_cortex_resources();
    let uris: Vec<&str> = r.iter().map(|x| x.uri.as_str()).collect();
    assert_eq!(uris, vec!["cortex://memory", "cortex://projects", "cortex://health"]);
    assert!(r.iter().all(|x| x.mime_type == "application/json"));
    let p = default_projects();
    assert_eq!(p.len(), 6);
    assert_eq!(p[0], ("Cortex", "Sistema de memoria y cognitive"));
    assert_eq!(p[5].0, "Ops");
}

#[test]
fn http_decisions() {
    let req = SearchRequest { query: "q".to_string(), limit: None, use_hybrid: Some(true) };
    assert_eq!(req.effective_limit(), 10);
    assert_eq!(req.method(), "hybrid");
    let req = SearchRequest { query: "q".to_string(), limit: Some(3), use_hybrid: None };
    assert_eq!(req.effective_limit(), 3);
    assert_eq!(req.method(), "bm25");
    let h = HealthResponse::new(false);
    assert_eq!((h.status.as_str(), h.database.as_str()), ("healthy", "disconnected"));
    let s = SyncResponse::completed(4);
    assert!(s.success && s.documents_synced == 4);
    assert_eq!(s.message, "Sync completed successfully");
}

#[test]
fn tool_catalogue() {
    let tools = cortex::server::mcp::get_cortex_tools();
    let names: Vec<&str> = tools.iter().map(|t| t.name.as_str()).collect();
    assert_eq!(
        names,
        vec!["create_memory", "search_memory", "get_memory", "list_projects", "get_project_context", "sync_gitcore"]
    );
    let search = &tools[1].input_schema;
    assert_eq!(search.properties[1].name, "limit");
    assert_eq!(search.properties[1].kind, "number");
    assert_eq!(search.properties[1].default, Some(10));
    assert_eq!(search.required.as_ref().unwrap(), &vec!["query".to_string()]);
    assert!(tools[3].input_schema.properties.is_empty() && tools[3].input_schema.required.is_none());
    assert_eq!(tools[0].input_schema.required.as_ref().unwrap().len(), 2);
}

#[test]
fn query_request_decisions() {
    let req = QueryRequest { query: "q".to_string(), has_embedding: true, limit: None, reasoning: None };
    assert_eq!(req.effective_limit(), 10);
    assert_eq!(req.method(), "vector");
    let req = QueryRequest { query: "q".to_string(), has_embedding: false, limit: Some(4), reasoning: Some(true) };
    assert_eq!(req.effective_limit(), 4);
    assert_eq!(req.method(), "bm25");
}
