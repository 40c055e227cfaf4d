use rustjvm::runtime::telemetry::{ArenaMetrics, Telemetry};

#[test]
fn prometheus_text_lists_rows_sorted_by_path_method_status() {
    let mut t = Telemetry::new();
    t.record_request("GET", "/b", 200, 10);
    t.record_request("POST", "/a", 200, 5);
    t.record_request("GET", "/b", 200, 30);
    t.record_request("GET", "/b", 404, 1);
    t.record_reload(250);
    let mut arena = ArenaMetrics::new();
    arena.arena_opened();
    arena.arena_opened();
    arena.arena_closed(100);
    let text = t.render_prometheus(&arena);
    assert_eq!(
        text,
        "# HELP rustjvm_http_requests_total Total HTTP requests served.\n\
         # TYPE rustjvm_http_requests_total counter\n\
         rustjvm_http_requests_total{method=\"POST\",path=\"/a\",status=\"200\"} 1\n\
         rustjvm_http_requests_total{method=\"GET\",path=\"/b\",status=\"200\"} 2\n\
         rustjvm_http_requests_total{method=\"GET\",path=\"/b\",status=\"404\"} 1\n\
         # HELP rustjvm_http_request_duration_microseconds Request latency.\n\
         # TYPE rustjvm_http_request_duration_microseconds summary\n\
         rustjvm_http_request_duration_microseconds_count{method=\"POST\",path=\"/a\"} 1\n\
         rustjvm_http_request_duration_microseconds_sum{method=\"POST\",path=\"/a\"} 5\n\
         rustjvm_http_request_duration_microseconds_max{method=\"POST\",path=\"/a\"} 5\n\
         rustjvm_http_request_duration_microseconds_count{method=\"GET\",path=\"/b\"} 2\n\
         rustjvm_http_request_duration_microseconds_sum{method=\"GET\",path=\"/b\"} 40\n\
         rustjvm_http_request_duration_microseconds_max{method=\"GET\",path=\"/b\"} 30\n\
         rustjvm_http_request_duration_microseconds_count{method=\"GET\",path=\"/b\"} 1\n\
         rustjvm_http_request_duration_microseconds_sum{method=\"GET\",path=\"/b\"} 1\n\
         rustjvm_http_request_duration_microseconds_max{method=\"GET\",path=\"/b\"} 1\n\
         # HELP rustjvm_arena_active Request arenas currently alive.\n\
         # TYPE rustjvm_arena_active gauge\n\
         rustjvm_arena_active 1\n\
         # HELP rustjvm_arena_completed_total Requests whose arena was reclaimed.\n\
         # TYPE rustjvm_arena_completed_total counter\n\
         rustjvm_arena_completed_total 1\n\
         # HELP rustjvm_arena_bytes_total Cumulative arena-allocated bytes.\n\
         # TYPE rustjvm_arena_bytes_total counter\n\
         rustjvm_arena_bytes_total 100\n\
         # HELP rustjvm_hot_reloads_total Successful LiveRust swaps.\n\
         # TYPE rustjvm_hot_reloads_total counter\n\
         rustjvm_hot_reloads_total 1\n\
         rustjvm_hot_reload_duration_microseconds_sum 250\n"
    );
}

#[test]
fn arenas_drain_back_to_zero() {
    let mut m = ArenaMetrics::new();
    for _ in 0..3 {
        m.arena_opened();
    }
    assert_eq!(m.active(), 3);
    for bytes in [10, 20, 30] {
        m.arena_closed(bytes);
    }
    assert_eq!(m.active(), 0);
    assert_eq!(m.completed(), 3);
    assert_eq!(m.total_bytes(), 60);
}

#[test]
fn durations_are_clamped_to_u64() {
    let mut t = Telemetry::new();
    t.record_reload(u128::MAX);
    assert_eq!(t.hot_reloads(), 1);
    let text = t.render_prometheus(&ArenaMetrics::new());
    assert!(text.ends_with(&format!("rustjvm_hot_reload_duration_microseconds_sum {}\n", u64::MAX)));
}

#[test]
fn arenas_drain_after_interleaved_requests() {
    let mut m = ArenaMetrics::new();
    m.arena_opened();
    m.arena_opened();
    m.arena_closed(10);
    m.arena_opened();
    assert_eq!(m.active(), 2);
    m.arena_closed(5);
    m.arena_closed(1);
    assert_eq!(m.active(), 0);
    assert_eq!(m.completed(), 3);
    assert_eq!(m.total_bytes(), 16);
}
