//! Dashboard values: metrics, status, display items, preferences, API
//! answers and pagination.

use vstd::prelude::*;

use crate::text::{concat, string_of, to_chars};

verus! {

/// Counters shown on the dashboard.
pub struct DashboardMetrics {
    pub total_memories: usize,
    pub total_beliefs: usize,
    pub active_agents: usize,
    pub queries_today: usize,
    pub avg_response_time_ms: u64,
    pub uptime_seconds: u64,
}

impl DashboardMetrics {
    /// All counters zero.
    pub fn default() -> (m: DashboardMetrics)
        ensures
            m.total_memories == 0 && m.total_beliefs == 0 && m.active_agents == 0,
            m.queries_today == 0 && m.avg_response_time_ms == 0 && m.uptime_seconds == 0,
    {
        DashboardMetrics {
            total_memories: 0,
            total_beliefs: 0,
            active_agents: 0,
            queries_today: 0,
            avg_response_time_ms: 0,
            uptime_seconds: 0,
        }
    }
}

/// How healthy the system is.
#[derive(Debug, Clone, Copy, PartialEq, Eq, Structural)]
pub enum StatusLevel {
    Healthy,
    Warning,
    Error,
}

/// The system's status for health checks.
pub struct SystemStatus {
    pub status: StatusLevel,
    pub version: String,
    pub database_connected: bool,
    pub mcp_server_running: bool,
    pub last_backup: Option<String>,
}

/// The version of this package.
pub open spec fn package_version() -> Seq<char> {
    "0.2.0"@
}

impl SystemStatus {
    /// Healthy, this package's version, nothing connected or running, no
    /// backup yet.
    pub fn default() -> (s: SystemStatus)
        ensures
            s.status == StatusLevel::Healthy,
            s.version@ == package_version(),
            !s.database_connected,
            !s.mcp_server_running,
            s.last_backup is None,
    {
        SystemStatus {
            status: StatusLevel::Healthy,
            version: "0.2.0".to_owned(),
            database_connected: false,
            mcp_server_running: false,
            last_backup: None,
        }
    }
}

/// A memory as the UI lists it.
pub struct MemoryDisplay {
    pub id: String,
    pub content: String,
    pub path: String,
    pub created_at: String,
    pub tags: Vec<String>,
}

/// The preview of a text: its first `max_len` characters and `...` when it is
/// longer, the whole text otherwise.
pub open spec fn preview_of(content: Seq<char>, max_len: nat) -> Seq<char> {
    if content.len() > max_len {
        content.take(max_len as int) + "..."@
    } else {
        content
    }
}

impl MemoryDisplay {
    /// The content cut to its first `max_len` characters, with `...` when cut.
    pub fn preview(&self, max_len: usize) -> (r: String)
        ensures
            r@ == preview_of(self.content@, max_len as nat),
    {
        let chars = to_chars(self.content.as_str());
        if chars.len() > max_len {
            let head = string_of(&chars, 0, max_len);
            assert(chars@.subrange(0, max_len as int) =~= self.content@.take(max_len as int));
            concat(head.as_str(), "...")
        } else {
            self.content.clone()
        }
    }
}

/// The UI's colour theme.
#[derive(Debug, Clone, Copy, PartialEq, Eq, Structural)]
pub enum Theme {
    Dark,
    Light,
    System,
}

/// A user's UI settings.
pub struct UserPreferences {
    pub theme: Theme,
    pub language: String,
    pub sidebar_collapsed: bool,
    pub notifications_enabled: bool,
}

impl UserPreferences {
    /// Dark theme, English, sidebar open, notifications on.
    pub fn default() -> (p: UserPreferences)
        ensures
            p.theme == Theme::Dark,
            p.language@ == "en"@,
            !p.sidebar_collapsed,
            p.notifications_enabled,
    {
        UserPreferences {
            theme: Theme::Dark,
            language: "en".to_owned(),
            sidebar_collapsed: false,
            notifications_enabled: true,
        }
    }
}

/// An error in an API answer.
pub struct ApiError {
    pub code: String,
    pub message: String,
}

/// An API answer: data on success, an error otherwise.
pub struct ApiResponse<T> {
    pub success: bool,
    pub data: Option<T>,
    pub error: Option<ApiError>,
}

impl<T> ApiResponse<T> {
    /// A successful answer carrying `data`.
    pub fn ok(data: T) -> (r: ApiResponse<T>)
        ensures
            r.success,
            r.data == Some(data),
            r.error is None,
    {
        ApiResponse { success: true, data: Some(data), error: None }
    }

    /// A failed answer with an error code and message.
    pub fn err(code: &str, message: &str) -> (r: ApiResponse<T>)
        ensures
            !r.success,
            r.data is None,
            r.error matches Some(e) && e.code@ == code@ && e.message@ == message@,
    {
        ApiResponse {
            success: false,
            data: None,
            error: Some(ApiError { code: code.to_owned(), message: message.to_owned() }),
        }
    }
}

/// One page of a list.
pub struct PaginatedResponse<T> {
    pub items: Vec<T>,
    pub total: usize,
    pub page: usize,
    pub per_page: usize,
    pub has_next: bool,
    pub has_prev: bool,
}

impl<T> PaginatedResponse<T> {
    /// Page `page` (counted from 1) of `per_page` items out of `total`: there
    /// is a next page when the pages so far hold fewer than `total` items, a
    /// previous one after the first.
    pub fn new(items: Vec<T>, total: usize, page: usize, per_page: usize) -> (r: PaginatedResponse<T>)
        requires
            page * per_page <= usize::MAX,
        ensures
            r.items == items,
            r.total == total,
            r.page == page,
            r.per_page == per_page,
            r.has_next == (page * per_page < total),
            r.has_prev == (page > 1),
    {
        PaginatedResponse {
            has_next: page * per_page < total,
            has_prev: page > 1,
            total,
            page,
            per_page,
            items,
        }
    }
}

/// The web UI's settings.
pub struct WebUIConfig {
    pub title: String,
    pub logo_url: Option<String>,
    pub primary_color: String,
    pub accent_color: String,
    /// Each feature with whether it is on.
    pub features: Vec<(String, bool)>,
}

/// The features the UI offers by default, all on.
pub open spec fn default_features() -> Seq<(Seq<char>, bool)> {
    seq![("belief_graph"@, true), ("kanban"@, true), ("analytics"@, true), ("api_docs"@, true)]
}

impl WebUIConfig {
    /// Titled "Cortex", no logo, indigo colours, the default features on.
    pub fn default() -> (c: WebUIConfig)
        ensures
            c.title@ == "Cortex"@,
            c.logo_url is None,
            c.primary_color@ == "#6366f1"@,
            c.accent_color@ == "#818cf8"@,
            c.features@.map_values(|f: (String, bool)| (f.0@, f.1)) == default_features(),
    {
        let mut features: Vec<(String, bool)> = Vec::new();
        features.push(("belief_graph".to_owned(), true));
        features.push(("kanban".to_owned(), true));
        features.push(("analytics".to_owned(), true));
        features.push(("api_docs".to_owned(), true));
        assert(features@.map_values(|f: (String, bool)| (f.0@, f.1)) =~= default_features());
        WebUIConfig {
            title: "Cortex".to_owned(),
            logo_url: None,
            primary_color: "#6366f1".to_owned(),
            accent_color: "#818cf8".to_owned(),
            features,
        }
    }
}

} // verus!
