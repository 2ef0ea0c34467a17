use userscript_registry::bridge::{parse_operation, parse_window_action, BridgeState, Operation, WindowAction};
use userscript_registry::errors::{FetchError, RegistryError};
use userscript_registry::fetch::{
    check_https, classify_outcome, FetchOutcome, FetchSession, HttpResponse, TransportError,
};
use userscript_registry::registry::{should_attempt_update, Registry};
use userscript_registry::script::Script;
use userscript_registry::{is_reloading, set_reloading, ReloadState};

fn ok_response(body: &str) -> FetchOutcome {
    FetchOutcome::Response(HttpResponse {
        status: 200,
        reason: Some("OK".to_string()),
        content_type: Some("text/javascript".to_string()),
        body: body.to_string(),
    })
}

/// Drives a whole pipeline run, answering every dependency request from
/// `answers` in order.
fn run_session(url: &str, body: &str, answers: &[(&str, FetchOutcome)], reg: &Registry, now: u64)
    -> (FetchSession, Vec<String>) {
    let mut session = FetchSession::start(url).expect("https url accepted");
    let mut requested = Vec::new();
    let mut answer_iter = answers.iter();
    let first = session.next_request().expect("body requested");
    assert_eq!(first, url);
    session = session.step(ok_response(body), &reg.deps, now);
    while let Some(dep_url) = session.next_request() {
        requested.push(dep_url.clone());
        let (expected, outcome) = match answer_iter.next() {
            Some((u, o)) => (u, o),
            None => panic!("unexpected dependency request: {dep_url}"),
        };
        assert_eq!(&dep_url, expected);
        let cloned = match outcome {
            FetchOutcome::Transport(TransportError::TimedOut) => {
                FetchOutcome::Transport(TransportError::TimedOut)
            }
            FetchOutcome::Transport(TransportError::ConnectFailed) => {
                FetchOutcome::Transport(TransportError::ConnectFailed)
            }
            FetchOutcome::Transport(TransportError::Other(m)) => {
                FetchOutcome::Transport(TransportError::Other(m.clone()))
            }
            FetchOutcome::Response(r) => FetchOutcome::Response(HttpResponse {
                status: r.status,
                reason: r.reason.clone(),
                content_type: r.content_type.clone(),
                body: r.body.clone(),
            }),
        };
        session = session.step(cloned, &reg.deps, now);
    }
    (session, requested)
}

#[test]
fn https_is_required_before_any_request() {
    assert!(check_https("https://ok.example/x"));
    assert!(!check_https("http://nope.example/x"));
    match FetchSession::start("http://nope.example/x") {
        Err(RegistryError::Fetch(FetchError::Security)) => {}
        other => panic!("expected the security error, got {other:?}"),
    }
}

#[test]
fn classification_of_transport_failures() {
    let e = classify_outcome("https://a.example", FetchOutcome::Transport(TransportError::TimedOut));
    assert_eq!(e.unwrap_err(), FetchError::Timeout);
    let e = classify_outcome(
        "https://a.example",
        FetchOutcome::Transport(TransportError::ConnectFailed),
    );
    assert_eq!(e.unwrap_err(), FetchError::Connect("https://a.example".to_string()));
    let e = classify_outcome(
        "https://a.example",
        FetchOutcome::Transport(TransportError::Other("tls broke".to_string())),
    );
    assert_eq!(e.unwrap_err(), FetchError::Network("tls broke".to_string()));
}

#[test]
fn classification_of_status_and_content_type() {
    let e = classify_outcome(
        "https://a.example",
        FetchOutcome::Response(HttpResponse {
            status: 404,
            reason: Some("Not Found".to_string()),
            content_type: None,
            body: String::new(),
        }),
    );
    assert_eq!(e.unwrap_err(), FetchError::HttpStatus(404, "Not Found".to_string()));
    let e = classify_outcome(
        "https://a.example",
        FetchOutcome::Response(HttpResponse {
            status: 500,
            reason: None,
            content_type: None,
            body: String::new(),
        }),
    );
    assert_eq!(e.unwrap_err(), FetchError::HttpStatus(500, "Unknown error".to_string()));
    assert_eq!(
        FetchError::HttpStatus(404, "Not Found".to_string()).message(),
        "HTTP 404: Not Found"
    );
    let e = classify_outcome(
        "https://a.example",
        FetchOutcome::Response(HttpResponse {
            status: 200,
            reason: Some("OK".to_string()),
            content_type: Some("text/html".to_string()),
            body: "<html>".to_string(),
        }),
    );
    assert_eq!(e.unwrap_err(), FetchError::ContentType("text/html".to_string()));
    let ok = classify_outcome(
        "https://a.example",
        FetchOutcome::Response(HttpResponse {
            status: 204,
            reason: None,
            content_type: Some("text/plain; charset=utf-8".to_string()),
            body: "x();".to_string(),
        }),
    );
    assert_eq!(ok.unwrap(), "x();");
}

#[test]
fn oversized_body_is_rejected_before_parsing() {
    let big = "x".repeat(11 * 1024 * 1024);
    let e = classify_outcome(
        "https://a.example",
        FetchOutcome::Response(HttpResponse {
            status: 200,
            reason: Some("OK".to_string()),
            content_type: Some("application/javascript".to_string()),
            body: big,
        }),
    );
    assert_eq!(e.unwrap_err(), FetchError::TooLarge);
    let fits = "y".repeat(10 * 1024 * 1024);
    let ok = classify_outcome(
        "https://a.example",
        FetchOutcome::Response(HttpResponse {
            status: 200,
            reason: Some("OK".to_string()),
            content_type: Some("application/javascript".to_string()),
            body: fits,
        }),
    );
    assert!(ok.is_ok());
}

#[test]
fn add_from_url_registers_script_with_metadata() {
    let mut reg = Registry::new();
    let body = "// ==UserScript==\n// @name Neat\n// @version 2.0\n// @author Bea\n// ==/UserScript==\nneat();";
    let (session, requested) = run_session("https://s.example/neat.user.js", body, &[], &reg, 1000);
    assert!(requested.is_empty());
    let script = reg.commit_add(session, 1000).expect("add succeeds");
    assert_eq!(script.name, "Neat");
    assert_eq!(script.version.as_deref(), Some("2.0"));
    assert_eq!(script.author.as_deref(), Some("Bea"));
    assert!(script.enabled);
    assert_eq!(script.order, 0);
    assert_eq!(script.url.as_deref(), Some("https://s.example/neat.user.js"));
    assert_eq!(script.last_updated, Some(1000));
    assert_eq!(script.last_fetch_error, None);
    assert_eq!(reg.get_scripts().len(), 1);
}

#[test]
fn unnamed_script_gets_default_name_and_next_order() {
    let mut reg = Registry::new();
    let (s1, _) = run_session("https://s.example/a.user.js", "a();", &[], &reg, 1);
    reg.commit_add(s1, 1).unwrap();
    let (s2, _) = run_session("https://s.example/b.user.js", "b();", &[], &reg, 2);
    let second = reg.commit_add(s2, 2).unwrap();
    assert_eq!(second.name, "Unnamed Script");
    assert_eq!(second.order, 1);
}

#[test]
fn duplicate_source_is_rejected_and_size_unchanged() {
    let mut reg = Registry::new();
    let url = "https://s.example/once.user.js";
    let (s1, _) = run_session(url, "one();", &[], &reg, 1);
    reg.commit_add(s1, 1).unwrap();
    assert_eq!(reg.get_scripts().len(), 1);
    // pre-fetch validation refuses the duplicate
    assert_eq!(
        reg.begin_add(&url.to_string()).unwrap_err(),
        RegistryError::DuplicateSource
    );
    // a racing pipeline that fetched anyway is refused at commit
    let (s2, _) = run_session(url, "one();", &[], &reg, 2);
    assert_eq!(reg.commit_add(s2, 2).unwrap_err(), RegistryError::DuplicateSource);
    assert_eq!(reg.get_scripts().len(), 1);
}

#[test]
fn dependency_fetched_at_most_once_across_scripts() {
    let mut reg = Registry::new();
    let dep_url = "https://cdn.example/shared.js";
    let body_a = "// ==UserScript==\n// @require https://cdn.example/shared.js\n// ==/UserScript==\na();";
    let answers = [(dep_url, ok_response("shared();"))];
    let (sa, requested_a) = run_session("https://s.example/a.user.js", body_a, &answers, &reg, 1);
    assert_eq!(requested_a, vec![dep_url.to_string()]);
    reg.commit_add(sa, 1).unwrap();
    assert_eq!(reg.deps.len(), 1);

    let body_b = "// ==UserScript==\n// @require https://cdn.example/shared.js\n// ==/UserScript==\nb();";
    let (sb, requested_b) = run_session("https://s.example/b.user.js", body_b, &[], &reg, 2);
    assert!(requested_b.is_empty(), "second add finds the dependency cached");
    reg.commit_add(sb, 2).unwrap();
    assert_eq!(reg.deps.len(), 1);
    assert_eq!(reg.deps[0].code, "shared();");
    assert_eq!(reg.deps[0].last_updated, 1);
}

#[test]
fn first_dependency_failure_aborts_but_keeps_earlier_fetches() {
    let mut reg = Registry::new();
    let body = "// ==UserScript==\n// @require https://cdn.example/one.js\n// @require https://cdn.example/two.js\n// ==/UserScript==\nx();";
    let answers = [
        ("https://cdn.example/one.js", ok_response("one();")),
        (
            "https://cdn.example/two.js",
            FetchOutcome::Transport(TransportError::ConnectFailed),
        ),
    ];
    let (session, _) = run_session("https://s.example/x.user.js", body, &answers, &reg, 5);
    let err = reg.commit_add(session, 5).unwrap_err();
    assert_eq!(
        err,
        RegistryError::DependencyFetch(
            "https://cdn.example/two.js".to_string(),
            FetchError::Connect("https://cdn.example/two.js".to_string())
        )
    );
    assert_eq!(
        err.message(),
        "Failed to fetch dependency https://cdn.example/two.js: Failed to connect to https://cdn.example/two.js"
    );
    // no partial script, but the fetched dependency stays cached
    assert!(reg.get_scripts().is_empty());
    assert_eq!(reg.deps.len(), 1);
    assert_eq!(reg.deps[0].url, "https://cdn.example/one.js");
}

#[test]
fn non_https_dependency_fails_without_a_request() {
    let reg = Registry::new();
    let body = "// ==UserScript==\n// @require http://cdn.example/insecure.js\n// ==/UserScript==\nx();";
    let (session, requested) = run_session("https://s.example/x.user.js", body, &[], &reg, 5);
    assert!(requested.is_empty());
    assert!(!session.is_pending());
}

#[test]
fn toggle_reorder_delete_and_not_found() {
    let mut reg = Registry::new();
    let (s1, _) = run_session("https://s.example/a.user.js", "a();", &[], &reg, 1);
    let script = reg.commit_add(s1, 1).unwrap();
    let id = script.id.clone();
    reg.toggle(&id, false).unwrap();
    assert!(!reg.get_scripts()[0].enabled);
    reg.reorder(&id, 42).unwrap();
    assert_eq!(reg.get_scripts()[0].order, 42);
    let ghost_id = "no-such-id".to_string();
    assert_eq!(reg.toggle(&ghost_id, true).unwrap_err(), RegistryError::NotFound);
    assert_eq!(reg.reorder(&ghost_id, 1).unwrap_err(), RegistryError::NotFound);
    assert_eq!(reg.delete(&ghost_id).unwrap_err(), RegistryError::NotFound);
    assert_eq!(RegistryError::NotFound.message(), "Script not found");
    reg.delete(&id).unwrap();
    assert!(reg.get_scripts().is_empty());
}

#[test]
fn refresh_without_url_is_unrefreshable_and_script_untouched() {
    let manual = Script {
        id: "m".to_string(),
        name: "Manual".to_string(),
        code: "manual();".to_string(),
        enabled: true,
        order: 3,
        url: None,
        version: None,
        description: None,
        author: None,
        requires: Vec::new(),
        last_updated: None,
        last_fetch_error: None,
    };
    let reg = Registry::from_stores(vec![manual], Vec::new());
    let err = reg.begin_refresh(&"m".to_string()).unwrap_err();
    assert_eq!(err, RegistryError::Unrefreshable);
    assert_eq!(err.message(), "Cannot refresh manually added script");
    let s = &reg.get_scripts()[0];
    assert_eq!(s.id, "m");
    assert_eq!(s.name, "Manual");
    assert_eq!(s.code, "manual();");
    assert!(s.enabled);
    assert_eq!(s.order, 3);
    assert_eq!(s.url, None);
    assert_eq!(s.last_updated, None);
    assert_eq!(s.last_fetch_error, None);
}

#[test]
fn refresh_overwrites_content_and_preserves_identity() {
    let mut reg = Registry::new();
    let url = "https://s.example/r.user.js";
    let (s1, _) = run_session(url, "old();", &[], &reg, 1);
    let script = reg.commit_add(s1, 1).unwrap();
    let id = script.id.clone();
    reg.toggle(&id, false).unwrap();
    reg.reorder(&id, 9).unwrap();

    let fetched_url = reg.begin_refresh(&id).unwrap();
    assert_eq!(fetched_url, url);
    let body = "// ==UserScript==\n// @name Renamed\n// ==/UserScript==\nnew();";
    let (s2, _) = run_session(&fetched_url, body, &[], &reg, 50);
    let updated = reg.commit_refresh(&id, s2, 50).unwrap();
    assert_eq!(updated.id, id);
    assert_eq!(updated.name, "Renamed");
    assert_eq!(updated.code, body);
    assert!(!updated.enabled, "enabled flag preserved");
    assert_eq!(updated.order, 9, "order preserved");
    assert_eq!(updated.last_updated, Some(50));
    assert_eq!(reg.get_scripts().len(), 1);
}

#[test]
fn failed_refresh_leaves_script_unchanged() {
    let mut reg = Registry::new();
    let url = "https://s.example/r.user.js";
    let (s1, _) = run_session(url, "old();", &[], &reg, 1);
    let script = reg.commit_add(s1, 1).unwrap();
    let id = script.id.clone();
    let mut session = FetchSession::start(url).unwrap();
    session = session.step(
        FetchOutcome::Transport(TransportError::TimedOut),
        &reg.deps,
        60,
    );
    let err = reg.commit_refresh(&id, session, 60).unwrap_err();
    assert_eq!(err, RegistryError::Fetch(FetchError::Timeout));
    let s = &reg.get_scripts()[0];
    assert_eq!(s.code, "old();");
    assert_eq!(s.last_updated, Some(1), "failed refresh does not touch the timestamp");
    assert_eq!(s.last_fetch_error, None, "refresh never stores the error");
}

const HOUR: u64 = 3600;
const DAY: u64 = 86400;

fn timed_script(last_updated: Option<u64>, error: Option<&str>) -> Script {
    Script {
        id: "t".to_string(),
        name: "T".to_string(),
        code: "t();".to_string(),
        enabled: true,
        order: 0,
        url: Some("https://s.example/t.user.js".to_string()),
        version: None,
        description: None,
        author: None,
        requires: Vec::new(),
        last_updated,
        last_fetch_error: error.map(|e| e.to_string()),
    }
}

#[test]
fn auto_update_skips_recent_and_attempts_stale() {
    let now = 100 * DAY;
    // healthy script an hour old: skipped
    assert!(!should_attempt_update(&timed_script(Some(now - HOUR), None), now));
    // healthy script a day and an hour old: attempted
    assert!(should_attempt_update(&timed_script(Some(now - 25 * HOUR), None), now));
    // never updated: attempted
    assert!(should_attempt_update(&timed_script(None, None), now));
    // no source URL: never attempted
    let mut manual = timed_script(None, None);
    manual.url = None;
    assert!(!should_attempt_update(&manual, now));
}

#[test]
fn auto_update_error_backoff_uses_the_shorter_window() {
    let now = 100 * DAY;
    // stored error, attempted half an hour ago: still backing off
    assert!(!should_attempt_update(&timed_script(Some(now - HOUR / 2), Some("boom")), now));
    // stored error, attempted ninety minutes ago: retried
    assert!(should_attempt_update(&timed_script(Some(now - 90 * 60), Some("boom")), now));
}

#[test]
fn auto_update_plan_and_apply() {
    let now = 100 * DAY;
    let stale = Script {
        id: "stale".to_string(),
        last_updated: Some(now - 2 * DAY),
        ..timed_script(None, None)
    };
    let fresh = Script {
        id: "fresh".to_string(),
        last_updated: Some(now - HOUR),
        ..timed_script(None, None)
    };
    let mut reg = Registry::from_stores(vec![stale, fresh], Vec::new());
    let plan = reg.auto_update_plan(now);
    assert_eq!(plan, vec!["stale".to_string()]);

    // a failing attempt stores the message and consumes the window
    let mut session = FetchSession::start("https://s.example/t.user.js").unwrap();
    session = session.step(
        FetchOutcome::Transport(TransportError::Other("broken pipe".to_string())),
        &reg.deps,
        now,
    );
    let updated = reg.apply_auto_update(&"stale".to_string(), session, now);
    assert!(!updated);
    let s = &reg.get_scripts()[0];
    assert_eq!(s.last_fetch_error.as_deref(), Some("Network error: broken pipe"));
    assert_eq!(s.last_updated, Some(now));

    // within the hour it stays skipped; after it, retried
    assert!(reg.auto_update_plan(now + HOUR / 2).is_empty());
    assert_eq!(reg.auto_update_plan(now + HOUR)[0], "stale");

    // a successful retry clears the error and counts as updated
    let (session, _) = run_session(
        "https://s.example/t.user.js",
        "fixed();",
        &[],
        &reg,
        now + HOUR,
    );
    let updated = reg.apply_auto_update(&"stale".to_string(), session, now + HOUR);
    assert!(updated);
    let s = &reg.get_scripts()[0];
    assert_eq!(s.code, "fixed();");
    assert_eq!(s.last_fetch_error, None);
    assert_eq!(s.last_updated, Some(now + HOUR));
}

#[test]
fn bridge_resolves_reverse_order_replies_to_their_callers() {
    let mut bridge = BridgeState::new();
    for n in 1..=5u64 {
        assert!(bridge.issue(n, 100 + n));
    }
    for n in (1..=5u64).rev() {
        assert_eq!(bridge.on_reply(n), Some(100 + n));
    }
    assert_eq!(bridge.pending.len(), 0);
}

#[test]
fn bridge_drops_unmatched_and_refuses_duplicate_ids() {
    let mut bridge = BridgeState::new();
    assert!(bridge.issue(7, 1));
    assert!(!bridge.issue(7, 2), "an outstanding id cannot be reused");
    assert_eq!(bridge.on_reply(99), None, "unmatched replies are dropped");
    assert_eq!(bridge.on_reply(7), Some(1));
    assert_eq!(bridge.on_reply(7), None, "listeners are one-shot");
}

#[test]
fn bridge_transport_absent_is_an_error_reply() {
    let resp = BridgeState::transport_absent_response(12);
    assert_eq!(resp.correlation_id, 12);
    assert_eq!(resp.outcome.unwrap_err(), "privileged transport not available");
}

#[test]
fn bridge_operation_names_map_to_registry_calls() {
    assert_eq!(parse_operation("get_scripts"), Some(Operation::GetScripts));
    assert_eq!(parse_operation("add_script_from_url"), Some(Operation::AddScriptFromUrl));
    assert_eq!(parse_operation("toggle_script"), Some(Operation::ToggleScript));
    assert_eq!(parse_operation("delete_script"), Some(Operation::DeleteScript));
    assert_eq!(parse_operation("reorder_script"), Some(Operation::ReorderScript));
    assert_eq!(parse_operation("refresh_script"), Some(Operation::RefreshScript));
    assert_eq!(parse_operation("auto_update_scripts"), Some(Operation::AutoUpdateScripts));
    assert_eq!(parse_operation("rm -rf"), None);
    assert_eq!(parse_window_action("minimize"), Some(WindowAction::Minimize));
    assert_eq!(parse_window_action("maximize"), Some(WindowAction::MaximizeToggle));
    assert_eq!(parse_window_action("close"), Some(WindowAction::Close));
    assert_eq!(parse_window_action("explode"), None);
}

#[test]
fn reload_flag_round_trips() {
    let mut state = ReloadState { reloading: false };
    assert!(!is_reloading(&state));
    set_reloading(&mut state, true);
    assert!(is_reloading(&state));
    set_reloading(&mut state, false);
    assert!(!is_reloading(&state));
}

#[test]
fn fresh_ids_are_distinct() {
    let mut reg = Registry::new();
    let (s1, _) = run_session("https://s.example/a.user.js", "a();", &[], &reg, 1);
    let a = reg.commit_add(s1, 1).unwrap();
    let (s2, _) = run_session("https://s.example/b.user.js", "b();", &[], &reg, 1);
    let b = reg.commit_add(s2, 1).unwrap();
    assert_ne!(a.id, b.id);
}

use userscript_registry::proxy::{assemble_proxy_response, join_headers, normalize_method, HttpMethod};

#[test]
fn proxy_method_defaults_and_normalizes() {
    assert_eq!(normalize_method(&None), HttpMethod::Get);
    assert_eq!(normalize_method(&Some("post".to_string())), HttpMethod::Post);
    assert_eq!(normalize_method(&Some("Put".to_string())), HttpMethod::Put);
    assert_eq!(normalize_method(&Some("DELETE".to_string())), HttpMethod::Delete);
    assert_eq!(normalize_method(&Some("head".to_string())), HttpMethod::Head);
    assert_eq!(normalize_method(&Some("pAtCh".to_string())), HttpMethod::Patch);
    assert_eq!(normalize_method(&Some("OPTIONS".to_string())), HttpMethod::Get);
    assert_eq!(normalize_method(&Some("".to_string())), HttpMethod::Get);
}

#[test]
fn proxy_headers_join_as_one_block() {
    let headers = vec![
        ("content-type".to_string(), "text/plain".to_string()),
        ("x-thing".to_string(), "1".to_string()),
    ];
    assert_eq!(join_headers(&headers), "content-type: text/plain\r\nx-thing: 1");
    assert_eq!(join_headers(&Vec::new()), "");
}

#[test]
fn proxy_response_assembles_all_pieces() {
    let headers = vec![("server".to_string(), "h".to_string())];
    let resp = assemble_proxy_response(204, None, &headers, "body".to_string());
    assert_eq!(resp.status, 204);
    assert_eq!(resp.status_text, "");
    assert_eq!(resp.body, "body");
    assert_eq!(resp.headers_joined, "server: h");
    let resp2 = assemble_proxy_response(200, Some("OK".to_string()), &Vec::new(), String::new());
    assert_eq!(resp2.status_text, "OK");
}

#[test]
fn remaining_error_messages_render() {
    assert_eq!(
        FetchError::Security.message(),
        "Only HTTPS URLs are supported for security reasons"
    );
    assert_eq!(FetchError::Timeout.message(), "Request timed out after 30 seconds");
    assert_eq!(FetchError::TooLarge.message(), "Script too large (>10MB)");
    assert_eq!(
        FetchError::ContentType("text/html".to_string()).message(),
        "Expected JavaScript, got content-type: text/html"
    );
    assert_eq!(
        RegistryError::DuplicateSource.message(),
        "A script from this URL already exists"
    );
}

#[test]
fn current_timestamp_is_after_the_epoch() {
    let now = userscript_registry::registry::current_timestamp();
    assert!(now > 1_600_000_000, "wall clock reads as Unix seconds");
}
